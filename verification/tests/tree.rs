use uicore::flags::ChangeFlags;
use uicore::tree::arena::Tree;
use uicore::tree::model::Element;

fn ids(v: &Vec<Element>) -> Vec<usize> {
    v.iter().map(|e| e.id).collect()
}

fn reversed(v: &Vec<Element>) -> Vec<usize> {
    let mut r = ids(v);
    r.reverse();
    r
}

/// Root with children a, b, c; a has the child d.
fn sample() -> (Tree<i32, u32>, Element, Element, Element, Element, Element) {
    let mut tree: Tree<i32, u32> = Tree::new();
    let root = Element::new(&mut tree, 0, 0);
    let a = Element::new(&mut tree, 1, 0);
    let b = Element::new(&mut tree, 2, 0);
    let c = Element::new(&mut tree, 3, 0);
    let d = Element::new(&mut tree, 4, 0);
    root.add_child(&mut tree, &a);
    root.add_child(&mut tree, &b);
    root.add_child(&mut tree, &c);
    a.add_child(&mut tree, &d);
    (tree, root, a, b, c, d)
}

fn clear_all_flags(tree: &mut Tree<i32, u32>) {
    for id in 0..tree.len() {
        let e = Element { id };
        e.mark_layout_done(tree);
        e.mark_paint_done(tree);
    }
}

#[test]
fn new_node_is_detached_and_dirty() {
    let mut tree: Tree<i32, u32> = Tree::new();
    assert_eq!(tree.len(), 0);
    let e = Element::new(&mut tree, 7, 9);
    assert_eq!(e.id, 0);
    assert_eq!(tree.len(), 1);
    assert!(tree.contains(e));
    assert!(!tree.contains(Element { id: 1 }));
    assert_eq!(e.parent(&tree), None);
    assert!(e.children(&tree).is_empty());
    assert!(e.needs_relayout(&tree));
    assert!(e.needs_repaint(&tree));
    assert_eq!(*e.transform(&tree), 7);
    assert_eq!(*e.geometry(&tree), 9);
    assert!(!e.tab_focusable(&tree));
}

#[test]
fn default_name_is_the_index_in_hex() {
    let mut tree: Tree<i32, u32> = Tree::new();
    let mut last = Element { id: 0 };
    for _ in 0..27 {
        last = Element::new(&mut tree, 0, 0);
    }
    assert_eq!(Element { id: 0 }.name(&tree), "0x0");
    assert_eq!(last.name(&tree), "0x1a");
    last.set_name(&mut tree, String::from("button"));
    assert_eq!(last.name(&tree), "button");
    assert_eq!(Element { id: 3 }.name(&tree), "0x3");
}

#[test]
fn add_child_appends_in_order() {
    let (tree, root, a, b, c, d) = sample();
    assert_eq!(ids(&root.children(&tree)), vec![a.id, b.id, c.id]);
    assert_eq!(ids(&a.children(&tree)), vec![d.id]);
    assert_eq!(a.parent(&tree), Some(root));
    assert_eq!(d.parent(&tree), Some(a));
    assert_eq!(root.first_child(&tree), Some(a));
    assert_eq!(root.last_child(&tree), Some(c));
    assert_eq!(a.next_sibling(&tree), Some(b));
    assert_eq!(b.prev_sibling(&tree), Some(a));
    assert_eq!(c.next_sibling(&tree), None);
    assert_eq!(a.prev_sibling(&tree), None);
}

#[test]
fn forward_and_backward_walks_mirror_each_other() {
    let (mut tree, root, a, b, c, d) = sample();
    assert_eq!(ids(&root.children_rev(&tree)), reversed(&root.children(&tree)));
    b.detach(&mut tree);
    assert_eq!(ids(&root.children(&tree)), vec![a.id, c.id]);
    assert_eq!(ids(&root.children_rev(&tree)), vec![c.id, a.id]);
    a.insert_after(&mut tree, &b);
    assert_eq!(ids(&root.children(&tree)), vec![a.id, b.id, c.id]);
    assert_eq!(ids(&root.children_rev(&tree)), vec![c.id, b.id, a.id]);
    c.insert_after(&mut tree, &d);
    assert_eq!(ids(&root.children(&tree)), vec![a.id, b.id, c.id, d.id]);
    assert_eq!(ids(&root.children_rev(&tree)), vec![d.id, c.id, b.id, a.id]);
    assert!(a.children(&tree).is_empty());
    for child in root.children(&tree) {
        assert_eq!(child.parent(&tree), Some(root));
    }
}

#[test]
fn detach_unlinks_both_directions() {
    let (mut tree, root, a, b, c, _d) = sample();
    a.detach(&mut tree);
    assert_eq!(a.parent(&tree), None);
    assert_eq!(a.next_sibling(&tree), None);
    assert_eq!(a.prev_sibling(&tree), None);
    assert_eq!(root.first_child(&tree), Some(b));
    assert_eq!(b.prev_sibling(&tree), None);
    c.detach(&mut tree);
    assert_eq!(root.last_child(&tree), Some(b));
    assert_eq!(b.next_sibling(&tree), None);
    b.detach(&mut tree);
    assert_eq!(root.first_child(&tree), None);
    assert_eq!(root.last_child(&tree), None);
    // detaching a detached node changes nothing
    b.detach(&mut tree);
    assert_eq!(b.parent(&tree), None);
    assert!(root.children(&tree).is_empty());
}

#[test]
fn detached_subtree_moves_as_a_whole() {
    let (mut tree, root, a, b, _c, d) = sample();
    b.add_child(&mut tree, &a);
    assert_eq!(a.parent(&tree), Some(b));
    assert_eq!(d.parent(&tree), Some(a));
    assert_eq!(ids(&d.ancestors_and_self(&tree)), vec![root.id, b.id, a.id, d.id]);
    assert_eq!(ids(&root.children(&tree)), vec![b.id, _c.id]);
}

#[test]
fn add_child_of_the_last_child_only_marks() {
    let (mut tree, root, a, b, c, _d) = sample();
    clear_all_flags(&mut tree);
    root.add_child(&mut tree, &c);
    assert_eq!(ids(&root.children(&tree)), vec![a.id, b.id, c.id]);
    assert!(root.needs_relayout(&tree));
    assert!(!c.needs_relayout(&tree));
}

#[test]
fn marking_reaches_ancestors_and_only_them() {
    let (mut tree, root, a, b, c, d) = sample();
    clear_all_flags(&mut tree);
    for e in [root, a, b, c, d] {
        assert!(!e.needs_relayout(&tree));
        assert!(!e.needs_repaint(&tree));
    }
    d.mark_needs_relayout(&mut tree);
    assert!(d.needs_relayout(&tree));
    assert!(a.needs_relayout(&tree));
    assert!(root.needs_relayout(&tree));
    assert!(!b.needs_relayout(&tree));
    assert!(!c.needs_relayout(&tree));
    assert!(root.needs_repaint(&tree));
    // the layout pass visits root and a, not d
    root.do_layout(&mut tree, 11);
    a.do_layout(&mut tree, 12);
    assert!(!root.needs_relayout(&tree));
    assert!(!a.needs_relayout(&tree));
    assert!(d.needs_relayout(&tree));
    assert_eq!(*root.geometry(&tree), 11);
    assert_eq!(*a.geometry(&tree), 12);
    assert!(root.needs_repaint(&tree));
}

#[test]
fn marking_paint_sets_only_the_paint_flag() {
    let (mut tree, root, a, _b, _c, d) = sample();
    clear_all_flags(&mut tree);
    d.mark_needs_repaint(&mut tree);
    assert_eq!(d.flags(&tree), ChangeFlags::paint());
    assert_eq!(a.flags(&tree), ChangeFlags::paint());
    assert_eq!(root.flags(&tree), ChangeFlags::paint());
    assert!(!root.needs_relayout(&tree));
}

#[test]
fn marking_a_detached_node_stays_in_its_subtree() {
    let (mut tree, root, a, _b, _c, d) = sample();
    a.detach(&mut tree);
    clear_all_flags(&mut tree);
    d.mark_needs_relayout(&mut tree);
    assert!(a.needs_relayout(&tree));
    assert!(!root.needs_relayout(&tree));
}

#[test]
fn detach_marks_the_former_parent() {
    let (mut tree, root, a, _b, _c, d) = sample();
    clear_all_flags(&mut tree);
    d.detach(&mut tree);
    assert!(a.needs_relayout(&tree));
    assert!(root.needs_relayout(&tree));
    assert!(!d.needs_relayout(&tree));
}

#[test]
fn clear_children_lets_every_child_go() {
    let (mut tree, root, a, b, c, d) = sample();
    clear_all_flags(&mut tree);
    root.clear_children(&mut tree);
    assert!(root.children(&tree).is_empty());
    assert_eq!(root.first_child(&tree), None);
    assert_eq!(root.last_child(&tree), None);
    for e in [a, b, c] {
        assert_eq!(e.parent(&tree), None);
        assert_eq!(e.next_sibling(&tree), None);
        assert_eq!(e.prev_sibling(&tree), None);
    }
    assert_eq!(d.parent(&tree), Some(a));
    assert!(!root.needs_relayout(&tree));
}

#[test]
fn ancestors_and_self_runs_from_the_root() {
    let (tree, root, a, _b, c, d) = sample();
    assert_eq!(ids(&d.ancestors_and_self(&tree)), vec![root.id, a.id, d.id]);
    assert_eq!(ids(&c.ancestors_and_self(&tree)), vec![root.id, c.id]);
    assert_eq!(ids(&root.ancestors_and_self(&tree)), vec![root.id]);
}

#[test]
fn sibling_walk_gives_each_child_once() {
    let (tree, root, a, b, c, _d) = sample();
    let mut it = root.iter_children(&tree);
    assert_eq!(it.next(&tree), Some(a));
    assert_eq!(it.next(&tree), Some(b));
    assert_eq!(it.next(&tree), Some(c));
    assert_eq!(it.next(&tree), None);
    assert_eq!(it.next(&tree), None);
    let mut none = c.iter_children(&tree);
    assert_eq!(none.next(&tree), None);
}

#[test]
fn cursor_walks_depth_first_and_ends() {
    let (tree, root, a, b, c, d) = sample();
    let mut cursor = root.cursor();
    let mut seen = Vec::new();
    while let Some(e) = cursor.next(&tree) {
        seen.push(e.id);
        assert!(seen.len() <= 5);
    }
    assert_eq!(seen, vec![root.id, a.id, d.id, b.id, c.id]);
    assert_eq!(cursor.next(&tree), None);
}

#[test]
fn cursor_on_a_single_node_ends() {
    let mut tree: Tree<i32, u32> = Tree::new();
    let only = Element::new(&mut tree, 0, 0);
    let mut cursor = only.cursor();
    assert_eq!(cursor.next(&tree), Some(only));
    assert_eq!(cursor.next(&tree), None);
}

#[test]
fn cursor_from_an_inner_node_goes_on_past_its_subtree() {
    let (tree, _root, a, b, c, d) = sample();
    let mut cursor = a.cursor();
    assert_eq!(cursor.next(&tree), Some(a));
    assert_eq!(cursor.next(&tree), Some(d));
    assert_eq!(cursor.next(&tree), Some(b));
    assert_eq!(cursor.next(&tree), Some(c));
    assert_eq!(cursor.next(&tree), None);
}

#[test]
fn hit_test_path_of_nested_nodes() {
    let mut tree: Tree<i32, u32> = Tree::new();
    let a = Element::new(&mut tree, 0, 0);
    let b = Element::new(&mut tree, 0, 0);
    let c = Element::new(&mut tree, 0, 0);
    a.add_child(&mut tree, &b);
    b.add_child(&mut tree, &c);
    let all = vec![true, true, true];
    assert_eq!(ids(&a.do_hit_test(&tree, &all)), vec![a.id, b.id, c.id]);
    c.detach(&mut tree);
    assert_eq!(ids(&a.do_hit_test(&tree, &all)), vec![a.id, b.id]);
}

#[test]
fn hit_test_follows_the_first_child_that_is_hit() {
    let (tree, root, a, b, c, d) = sample();
    // only the leaf d and the sibling c hold the point
    let mut own = vec![false; 5];
    own[d.id] = true;
    own[c.id] = true;
    assert_eq!(ids(&root.do_hit_test(&tree, &own)), vec![d.id]);
    // a node is hit through a descendant even where its own bounds miss
    let mut own = vec![false; 5];
    own[root.id] = true;
    own[b.id] = true;
    own[c.id] = true;
    assert_eq!(ids(&root.do_hit_test(&tree, &own)), vec![root.id, b.id]);
    let none = vec![false; 5];
    assert!(root.do_hit_test(&tree, &none).is_empty());
    let _ = a;
}

#[test]
fn attributes_are_kept_per_node() {
    let (mut tree, root, a, _b, _c, _d) = sample();
    a.set_transform(&mut tree, 42);
    a.set_tab_focusable(&mut tree, true);
    assert_eq!(*a.transform(&tree), 42);
    assert_eq!(*root.transform(&tree), 0);
    assert!(a.tab_focusable(&tree));
    assert!(!root.tab_focusable(&tree));
    assert!(a.is_same(&Element { id: a.id }));
    assert!(!a.is_same(&root));
    assert_eq!(a.tab_next(&tree), None);
}

#[test]
fn subtree_membership_guards_moves() {
    let (tree, root, a, b, _c, d) = sample();
    assert!(root.has_in_subtree(&tree, d));
    assert!(a.has_in_subtree(&tree, d));
    assert!(d.has_in_subtree(&tree, d));
    assert!(!b.has_in_subtree(&tree, d));
    assert!(!d.has_in_subtree(&tree, a));
    assert!(!a.has_in_subtree(&tree, root));
}

#[test]
fn paint_pass_runs_parents_first_and_clears_what_it_visits() {
    let (mut tree, root, a, b, c, d) = sample();
    let order = root.do_paint(&mut tree);
    assert_eq!(ids(&order), vec![root.id, a.id, d.id, b.id, c.id]);
    for e in [root, a, b, c, d] {
        assert!(!e.needs_repaint(&tree));
        assert!(e.needs_relayout(&tree));
    }
    b.mark_needs_repaint(&mut tree);
    d.mark_needs_repaint(&mut tree);
    assert!(root.needs_repaint(&tree));
    let order = a.do_paint(&mut tree);
    assert_eq!(ids(&order), vec![a.id, d.id]);
    assert!(!d.needs_repaint(&tree));
    assert!(!a.needs_repaint(&tree));
    // nodes outside the subtree keep their flags
    assert!(b.needs_repaint(&tree));
    assert!(root.needs_repaint(&tree));
    assert!(!c.needs_repaint(&tree));
}

#[test]
fn insert_after_a_node_that_hangs_nowhere_only_detaches() {
    let (mut tree, root, a, b, c, _d) = sample();
    clear_all_flags(&mut tree);
    root.insert_after(&mut tree, &b);
    assert_eq!(b.parent(&tree), None);
    assert_eq!(b.next_sibling(&tree), None);
    assert_eq!(b.prev_sibling(&tree), None);
    assert_eq!(root.next_sibling(&tree), None);
    assert_eq!(ids(&root.children(&tree)), vec![a.id, c.id]);
    assert!(root.needs_relayout(&tree));
}

#[test]
fn marking_requests_a_redraw_at_the_root() {
    let (mut tree, root, a, _b, _c, d) = sample();
    tree.take_redraw_requests();
    assert!(!tree.take_redraw_request(root));
    d.mark_needs_repaint(&mut tree);
    a.detach(&mut tree);
    d.mark_needs_relayout(&mut tree);
    // marked under root, detached from root, marked in the detached subtree
    assert_eq!(ids(&tree.take_redraw_requests()), vec![root.id, root.id, a.id]);
    assert!(tree.take_redraw_requests().is_empty());
    d.mark_needs_repaint(&mut tree);
    root.mark_needs_repaint(&mut tree);
    assert!(tree.take_redraw_request(root));
    assert!(!tree.take_redraw_request(root));
    assert!(tree.take_redraw_request(a));
    // clearing a flag requests nothing
    root.mark_paint_done(&mut tree);
    root.do_layout(&mut tree, 1);
    assert!(tree.take_redraw_requests().is_empty());
}
