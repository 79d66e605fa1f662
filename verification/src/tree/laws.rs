//! What holds of every valid tree, and of the operations on it.

use crate::flags::ChangeFlags;
use crate::tree::model::{
    lemma_subtree_without_parent, lemma_ancestor_parent, lemma_ancestor_rank, lemma_branch, lemma_branch_is_child, node,
    preorder_among, shaped, Element, TreeModel,
};
use vstd::prelude::*;

verus! {

impl<X, G> TreeModel<X, G> {
    /// Every entry of a child list names the owner of the list as its
    /// parent.
    pub proof fn lemma_child_parent(self, p: Element, k: int)
        requires
            self.valid(),
            self.contains(p),
            0 <= k < self.children[p.id as int].len(),
        ensures
            self.contains(self.children[p.id as int][k]),
            self.parent[self.children[p.id as int][k].id as int] == Some(p),
    {
        assert(node(p.id as int) == p);
    }

    /// A node with a parent stands in the child list of that parent, once,
    /// at its child index.
    pub proof fn lemma_parent_child(self, e: Element)
        requires
            self.valid(),
            self.contains(e),
            self.parent[e.id as int] is Some,
        ensures
            ({
                let p = self.parent[e.id as int]->0;
                let i = self.child_index(e);
                &&& self.contains(p)
                &&& 0 <= i < self.children[p.id as int].len()
                &&& self.children[p.id as int][i] == e
                &&& forall|k: int|
                    0 <= k < self.children[p.id as int].len() && self.children[p.id as int][k] == e
                        ==> k == i
            }),
    {
        let p = self.parent[e.id as int]->0;
        assert(node(e.id as int) == e);
        assert(self.children[p.id as int].contains(e));
    }

    /// A node without a parent stands in no child list.
    pub proof fn lemma_parentless_unlisted(self, e: Element, p: Element, k: int)
        requires
            self.valid(),
            self.contains(e),
            self.contains(p),
            self.parent[e.id as int] is None,
            0 <= k < self.children[p.id as int].len(),
        ensures
            self.children[p.id as int][k] != e,
    {
        self.lemma_child_parent(p, k);
    }

    /// After a node was detached it has no parent, its former parent no
    /// longer lists it, and the other children of that parent keep their
    /// order.
    pub proof fn lemma_detach(self, e: Element)
        requires
            self.valid(),
            self.contains(e),
            self.parent[e.id as int] is Some,
        ensures
            ({
                let p = self.parent[e.id as int]->0;
                let i = self.child_index(e);
                let before = self.children[p.id as int];
                let after = self.detach(e).children[p.id as int];
                &&& self.detach(e).parent[e.id as int] is None
                &&& !after.contains(e)
                &&& after == before.subrange(0, i) + before.subrange(i + 1, before.len() as int)
            }),
    {
        let p = self.parent[e.id as int]->0;
        let i = self.child_index(e);
        let before = self.children[p.id as int];
        let after = self.detach(e).children[p.id as int];
        self.lemma_parent_child(e);
        assert(after == before.remove(i));
        assert(after =~= before.subrange(0, i) + before.subrange(i + 1, before.len() as int));
        if after.contains(e) {
            let k = choose|k: int| 0 <= k < after.len() && after[k] == e;
            if k < i {
                assert(before[k] == e);
            } else {
                assert(before[k + 1] == e);
            }
        }
    }

    /// Marking a node sets the flags on the node and on every strict
    /// ancestor of it, and leaves the flags of every other node, siblings
    /// among them, as they were.
    pub proof fn lemma_mark(self, e: Element, f: ChangeFlags, x: Element)
        requires
            self.valid(),
            self.contains(e),
            self.contains(x),
        ensures
            x == e || self.is_ancestor(x, e) ==> self.mark(e, f).flags[x.id as int].spec_contains(
                f,
            ),
            x == e || self.is_ancestor(x, e) ==> self.mark(e, f).flags[x.id as int]
                == self.flags[x.id as int].spec_union(f),
            !(x == e || self.is_ancestor(x, e)) ==> self.mark(e, f).flags[x.id as int]
                == self.flags[x.id as int],
    {
        assert(node(x.id as int) == x);
        self.flags[x.id as int].lemma_union_contains(f, f);
    }

    /// Marking a node for layout makes the node and each of its strict
    /// ancestors report that they need layout, and changes what no other
    /// node reports.
    pub proof fn lemma_mark_needs_relayout(self, e: Element, x: Element)
        requires
            self.valid(),
            self.contains(e),
            self.contains(x),
        ensures
            x == e || self.is_ancestor(x, e) ==> self.mark(
                e,
                ChangeFlags::spec_all(),
            ).flags[x.id as int].spec_contains(ChangeFlags::spec_layout()),
            !(x == e || self.is_ancestor(x, e)) ==> self.mark(
                e,
                ChangeFlags::spec_all(),
            ).flags[x.id as int] == self.flags[x.id as int],
    {
        self.lemma_mark(e, ChangeFlags::spec_all(), x);
        let old_flags = self.flags[x.id as int];
        old_flags.lemma_union_contains(ChangeFlags::spec_all(), ChangeFlags::spec_layout());
        assert(ChangeFlags::spec_all().spec_contains(ChangeFlags::spec_layout())) by {
            assert(3u32 & 2u32 == 2u32) by (bit_vector);
        }
    }

    /// A sibling of a node is neither that node nor one of its ancestors, so
    /// marking the node leaves the sibling's flags alone.
    pub proof fn lemma_mark_spares_siblings(self, e: Element, s: Element, f: ChangeFlags)
        requires
            self.valid(),
            self.contains(e),
            self.contains(s),
            s != e,
            self.parent[s.id as int] is Some,
            self.parent[s.id as int] == self.parent[e.id as int],
        ensures
            self.mark(e, f).flags[s.id as int] == self.flags[s.id as int],
    {
        if self.is_ancestor(s, e) {
            let p = self.parent[e.id as int]->0;
            if p != s {
                lemma_ancestor_rank(self.parent, self.rank, s, p);
            }
        }
        self.lemma_mark(e, f, s);
    }

    /// A node whose layout flag was cleared no longer reports that it needs
    /// layout, and reports of paint what it did before.
    pub proof fn lemma_layout_done(self, e: Element)
        requires
            self.contains(e),
        ensures
            ({
                let cleared = self.flags[e.id as int].spec_difference(ChangeFlags::spec_layout());
                &&& !cleared.spec_contains(ChangeFlags::spec_layout())
                &&& cleared.spec_contains(ChangeFlags::spec_paint()) == self.flags[e.id
                    as int].spec_contains(ChangeFlags::spec_paint())
            }),
    {
        self.flags[e.id as int].lemma_difference();
    }

    /// A depth-first walk of a node that stands alone, without parent and
    /// without children, ends after that node.
    pub proof fn lemma_lone_node_ends_walk(self, e: Element)
        requires
            self.valid(),
            self.contains(e),
            self.parent[e.id as int] is None,
            self.children[e.id as int].len() == 0,
        ensures
            self.successor(e) is None,
    {
    }

    /// Every node on a hit-test path lies in the subtree that was tested,
    /// and its own bounds hold the point.
    pub proof fn lemma_hit_path(self, e: Element, own: Seq<bool>, x: Element)
        requires
            self.valid(),
            self.contains(e),
            own.len() == self.len(),
            self.hit_path(e, own).contains(x),
        ensures
            self.contains(x),
            own[x.id as int],
            self.in_subtree(e, x),
        decreases self.limit - self.rank[e.id as int], self.children[e.id as int].len() + 1,
    {
        let path = self.hit_path(e, own);
        let below = self.hit_among(e, 0, own);
        let k = choose|k: int| 0 <= k < path.len() && path[k] == x;
        if own[e.id as int] && k == 0 {
        } else {
            if own[e.id as int] {
                assert(below[k - 1] == x);
            } else {
                assert(path =~= below);
            }
            assert(below.contains(x));
            self.lemma_hit_among(e, 0, own, x);
        }
    }

    /// Every node on the hit-test path through the children of a node lies
    /// strictly below that node, and its own bounds hold the point.
    pub proof fn lemma_hit_among(self, e: Element, k: int, own: Seq<bool>, x: Element)
        requires
            self.valid(),
            self.contains(e),
            own.len() == self.len(),
            0 <= k,
            self.hit_among(e, k, own).contains(x),
        ensures
            self.contains(x),
            own[x.id as int],
            self.is_ancestor(e, x),
        decreases self.limit - self.rank[e.id as int], self.children[e.id as int].len() - k,
    {
        let kids = self.children[e.id as int];
        if k < kids.len() {
            let c = kids[k];
            self.lemma_child_parent(e, k);
            let sub = self.hit_path(c, own);
            if sub.len() > 0 {
                self.lemma_hit_path(c, own, x);
                if x != c {
                    lemma_ancestor_parent(self.parent, self.rank, c, x);
                }
            } else {
                self.lemma_hit_among(e, k + 1, own, x);
            }
        } else {
            let empty = self.hit_among(e, k, own);
            let j = choose|j: int| 0 <= j < empty.len() && empty[j] == x;
        }
    }

    /// A hit-test path runs from the outermost node to the innermost: each
    /// node on it is an ancestor of every node behind it.
    pub proof fn lemma_hit_path_order(self, e: Element, own: Seq<bool>, i: int, j: int)
        requires
            self.valid(),
            self.contains(e),
            own.len() == self.len(),
            0 <= i < j < self.hit_path(e, own).len(),
        ensures
            self.is_ancestor(self.hit_path(e, own)[i], self.hit_path(e, own)[j]),
        decreases self.limit - self.rank[e.id as int], self.children[e.id as int].len() + 1,
    {
        let path = self.hit_path(e, own);
        let below = self.hit_among(e, 0, own);
        if own[e.id as int] {
            assert(path[j] == below[j - 1]);
            if i == 0 {
                assert(below.contains(path[j]));
                self.lemma_hit_among(e, 0, own, path[j]);
            } else {
                assert(path[i] == below[i - 1]);
                self.lemma_hit_among_order(e, 0, own, i - 1, j - 1);
            }
        } else {
            assert(path =~= below);
            self.lemma_hit_among_order(e, 0, own, i, j);
        }
    }

    /// The hit-test path through the children of a node runs from the
    /// outermost node to the innermost.
    pub proof fn lemma_hit_among_order(self, e: Element, k: int, own: Seq<bool>, i: int, j: int)
        requires
            self.valid(),
            self.contains(e),
            own.len() == self.len(),
            0 <= k,
            0 <= i < j < self.hit_among(e, k, own).len(),
        ensures
            self.is_ancestor(self.hit_among(e, k, own)[i], self.hit_among(e, k, own)[j]),
        decreases self.limit - self.rank[e.id as int], self.children[e.id as int].len() - k,
    {
        let kids = self.children[e.id as int];
        if k < kids.len() {
            let c = kids[k];
            self.lemma_child_parent(e, k);
            if self.hit_path(c, own).len() > 0 {
                self.lemma_hit_path_order(c, own, i, j);
            } else {
                self.lemma_hit_among_order(e, k + 1, own, i, j);
            }
        }
    }

    /// A valid tree has the shape that the walks over it rely on.
    pub proof fn lemma_shaped(self)
        requires
            self.valid(),
        ensures
            shaped(self.parent, self.children, self.rank, self.limit),
    {
    }

    /// The paint order of a subtree holds only nodes of that subtree.
    pub proof fn lemma_preorder_sound(self, e: Element, x: Element)
        requires
            self.valid(),
            self.contains(e),
            self.preorder(e).contains(x),
        ensures
            self.contains(x),
            self.in_subtree(e, x),
        decreases self.limit - self.rank[e.id as int], self.children[e.id as int].len() + 1,
    {
        let all = self.preorder(e);
        let below = preorder_among(self.parent, self.children, self.rank, self.limit, e, 0);
        let k = choose|k: int| 0 <= k < all.len() && all[k] == x;
        if k > 0 {
            assert(below[k - 1] == x);
            assert(below.contains(x));
            self.lemma_preorder_among_sound(e, 0, x);
        }
    }

    /// The paint order of the children of a node holds only nodes strictly
    /// below that node.
    pub proof fn lemma_preorder_among_sound(self, e: Element, k: int, x: Element)
        requires
            self.valid(),
            self.contains(e),
            0 <= k,
            preorder_among(self.parent, self.children, self.rank, self.limit, e, k).contains(x),
        ensures
            self.contains(x),
            self.is_ancestor(e, x),
        decreases self.limit - self.rank[e.id as int], self.children[e.id as int].len() - k,
    {
        let kids = self.children[e.id as int];
        let all = preorder_among(self.parent, self.children, self.rank, self.limit, e, k);
        let j = choose|j: int| 0 <= j < all.len() && all[j] == x;
        if k < kids.len() {
            let c = kids[k];
            self.lemma_child_parent(e, k);
            let first = self.preorder(c);
            let rest = preorder_among(self.parent, self.children, self.rank, self.limit, e, k + 1);
            if j < first.len() {
                assert(first[j] == x);
                assert(first.contains(x));
                self.lemma_preorder_sound(c, x);
                if x != c {
                    lemma_ancestor_parent(self.parent, self.rank, c, x);
                }
            } else {
                assert(rest[j - first.len()] == x);
                assert(rest.contains(x));
                self.lemma_preorder_among_sound(e, k + 1, x);
            }
        }
    }

    /// The paint order of a subtree holds every node of that subtree.
    pub proof fn lemma_preorder_complete(self, e: Element, x: Element)
        requires
            self.valid(),
            self.contains(e),
            self.contains(x),
            self.in_subtree(e, x),
        ensures
            self.preorder(e).contains(x),
        decreases self.limit - self.rank[e.id as int],
    {
        let all = self.preorder(e);
        if x == e {
            assert(all[0] == e);
        } else {
            let b = self.branch(e, x);
            lemma_branch_is_child(self.parent, self.rank, e, x);
            lemma_branch(self.parent, self.rank, e, b, x);
            self.lemma_parent_child(b);
            let j = self.child_index(b);
            self.lemma_preorder_complete(b, x);
            self.lemma_preorder_among_holds(e, 0, j, x);
            let below = preorder_among(self.parent, self.children, self.rank, self.limit, e, 0);
            let i = choose|i: int| 0 <= i < below.len() && below[i] == x;
            assert(all[i + 1] == x);
        }
    }

    /// The paint order of the children of a node, from the `k`-th on, holds
    /// the paint order of the `j`-th child, for `j` from `k` on.
    pub proof fn lemma_preorder_among_holds(self, e: Element, k: int, j: int, x: Element)
        requires
            self.valid(),
            self.contains(e),
            0 <= k <= j < self.children[e.id as int].len(),
            self.preorder(self.children[e.id as int][j]).contains(x),
        ensures
            preorder_among(self.parent, self.children, self.rank, self.limit, e, k).contains(x),
        decreases j - k,
    {
        let kids = self.children[e.id as int];
        let all = preorder_among(self.parent, self.children, self.rank, self.limit, e, k);
        let first = self.preorder(kids[k]);
        let rest = preorder_among(self.parent, self.children, self.rank, self.limit, e, k + 1);
        self.lemma_child_parent(e, k);
        assert(all == first + rest);
        if j == k {
            let i = choose|i: int| 0 <= i < first.len() && first[i] == x;
            assert(all[i] == x);
        } else {
            self.lemma_preorder_among_holds(e, k + 1, j, x);
            let i = choose|i: int| 0 <= i < rest.len() && rest[i] == x;
            assert(all[first.len() + i] == x);
        }
    }

    /// The paint order of a subtree begins with the root of the subtree.
    pub proof fn lemma_preorder_first(self, e: Element)
        requires
            self.valid(),
            self.contains(e),
        ensures
            self.preorder(e).len() > 0,
            self.preorder(e)[0] == e,
    {
    }

    /// The depth-first walk follows the paint order: within the subtree of
    /// `a` the walk steps from each node to the next node of the paint order
    /// of `a`, and from the last node of it to what follows the subtree.
    pub proof fn lemma_walk_in_subtree(self, a: Element, i: int)
        requires
            self.valid(),
            self.contains(a),
            0 <= i < self.preorder(a).len(),
        ensures
            self.successor(self.preorder(a)[i]) == if i + 1 < self.preorder(a).len() {
                Some(self.preorder(a)[i + 1])
            } else {
                self.next_from(a)
            },
        decreases self.limit - self.rank[a.id as int], self.children[a.id as int].len() + 1,
    {
        let all = self.preorder(a);
        let below = preorder_among(self.parent, self.children, self.rank, self.limit, a, 0);
        let kids = self.children[a.id as int];
        assert(all == seq![a] + below);
        if i == 0 {
            if kids.len() > 0 {
                self.lemma_child_parent(a, 0);
                self.lemma_preorder_first(kids[0]);
                assert(below[0] == kids[0]);
                assert(all[1] == kids[0]);
            } else {
                assert(below.len() == 0);
            }
        } else {
            assert(all[i] == below[i - 1]);
            self.lemma_walk_among(a, 0, i - 1);
            if i < below.len() {
                assert(all[i + 1] == below[i]);
            }
        }
    }

    /// The depth-first walk through the subtrees of the children of `a`,
    /// from the `k`-th child on: from each node to the next, and from the
    /// last to what follows the subtree of `a`.
    pub proof fn lemma_walk_among(self, a: Element, k: int, i: int)
        requires
            self.valid(),
            self.contains(a),
            0 <= k,
            0 <= i < preorder_among(self.parent, self.children, self.rank, self.limit, a, k).len(),
        ensures
            ({
                let among = preorder_among(self.parent, self.children, self.rank, self.limit, a, k);
                self.successor(among[i]) == if i + 1 < among.len() {
                    Some(among[i + 1])
                } else {
                    self.next_from(a)
                }
            }),
        decreases self.limit - self.rank[a.id as int], self.children[a.id as int].len() - k,
    {
        let kids = self.children[a.id as int];
        let among = preorder_among(self.parent, self.children, self.rank, self.limit, a, k);
        if k < kids.len() {
            let c = kids[k];
            self.lemma_child_parent(a, k);
            self.lemma_parent_child(c);
            assert(self.child_index(c) == k);
            let first = self.preorder(c);
            let rest = preorder_among(self.parent, self.children, self.rank, self.limit, a, k + 1);
            assert(among == first + rest);
            if i < first.len() {
                assert(among[i] == first[i]);
                self.lemma_walk_in_subtree(c, i);
                if i + 1 < first.len() {
                    assert(among[i + 1] == first[i + 1]);
                } else if k + 1 < kids.len() {
                    self.lemma_child_parent(a, k + 1);
                    self.lemma_preorder_first(kids[k + 1]);
                    assert(rest[0] == kids[k + 1]);
                    assert(among[i + 1] == rest[0]);
                    assert(self.next_sibling(c) == Some(kids[k + 1]));
                } else {
                    assert(rest.len() == 0);
                    assert(self.next_sibling(c) is None);
                }
            } else {
                assert(among[i] == rest[i - first.len()]);
                self.lemma_walk_among(a, k + 1, i - first.len());
                if i + 1 < among.len() {
                    assert(among[i + 1] == rest[i + 1 - first.len()]);
                }
            }
        }
    }

    /// The depth-first walk from a root visits the nodes of its tree in
    /// paint order, each step leading to the next node, and ends behind the
    /// last: a walk over a tree of `n` nodes is over after `n` steps.
    pub proof fn lemma_walk_ends(self, root: Element, i: int)
        requires
            self.valid(),
            self.contains(root),
            self.parent[root.id as int] is None,
            0 <= i < self.preorder(root).len(),
        ensures
            self.successor(self.preorder(root)[i]) == if i + 1 < self.preorder(root).len() {
                Some(self.preorder(root)[i + 1])
            } else {
                None
            },
    {
        self.lemma_walk_in_subtree(root, i);
    }

    /// Adding to a node the node that is its last child already changes no
    /// link: the child lists and the parents stay as they are, and only the
    /// marks are made.
    pub proof fn lemma_add_last_child_again(self, p: Element, c: Element)
        requires
            self.valid(),
            self.contains(p),
            self.contains(c),
            self.parent[c.id as int] == Some(p),
            self.children[p.id as int].len() > 0,
            self.children[p.id as int].last() == c,
        ensures
            self.add_child(p, c).parent == self.parent,
            self.add_child(p, c).children == self.children,
    {
        let kids = self.children[p.id as int];
        self.lemma_parent_child(c);
        assert(self.child_index(c) == kids.len() - 1);
        let cut = kids.remove(kids.len() - 1);
        assert(cut.insert(cut.len() as int, c) =~= kids);
        assert(self.add_child(p, c).children =~= self.children);
        assert(self.add_child(p, c).parent =~= self.parent);
    }

    /// Marking changes flags only: the tree stays valid.
    pub proof fn lemma_mark_valid(self, e: Element, f: ChangeFlags)
        requires
            self.valid(),
            self.contains(e),
        ensures
            self.mark(e, f).valid(),
    {
    }

    /// Detaching a node keeps the tree valid.
    pub proof fn lemma_detach_valid(self, e: Element)
        requires
            self.valid(),
            self.contains(e),
        ensures
            self.detach(e).valid(),
    {
        match self.parent[e.id as int] {
            Some(p) => {
                let d = self.detach(e);
                let i = self.child_index(e);
                let kids = self.children[p.id as int];
                self.lemma_parent_child(e);
                assert(node(e.id as int) == e);
                assert(node(p.id as int) == p);
                assert forall|x: int| 0 <= x < d.len() implies match #[trigger] d.parent[x] {
                    Some(q) => {
                        &&& d.contains(q)
                        &&& d.rank[q.id as int] < d.rank[x]
                        &&& d.children[q.id as int].contains(node(x))
                    },
                    None => true,
                } by {
                    if x != e.id {
                        match self.parent[x] {
                            Some(q) => {
                                assert(self.children[q.id as int].contains(node(x)));
                                let j = choose|j: int|
                                    0 <= j < self.children[q.id as int].len()
                                        && self.children[q.id as int][j] == node(x);
                                if q == p {
                                    let jj = if j < i {
                                        j
                                    } else {
                                        j - 1
                                    };
                                    assert(d.children[q.id as int][jj] == node(x));
                                } else {
                                    assert(d.children[q.id as int][j] == node(x));
                                }
                            },
                            None => {},
                        }
                    }
                }
                assert forall|q: int, k: int|
                    0 <= q < d.len() && 0 <= k < d.children[q].len() implies {
                    let c = #[trigger] d.children[q][k];
                    d.contains(c) && d.parent[c.id as int] == Some(node(q))
                } by {
                    if q == p.id {
                        let kk = if k < i {
                            k
                        } else {
                            k + 1
                        };
                        assert(d.children[q][k] == kids[kk]);
                        assert(self.parent[kids[kk].id as int] == Some(node(q)));
                    } else {
                        assert(self.parent[self.children[q][k].id as int] == Some(node(q)));
                    }
                }
                assert forall|q: int, j: int, k: int|
                    0 <= q < d.len() && 0 <= j < k < d.children[q].len() implies d.children[q][j]
                    != d.children[q][k] by {
                    if q == p.id {
                        let jj = if j < i {
                            j
                        } else {
                            j + 1
                        };
                        let kk = if k < i {
                            k
                        } else {
                            k + 1
                        };
                        assert(d.children[q][j] == kids[jj]);
                        assert(d.children[q][k] == kids[kk]);
                    }
                }
            },
            None => {},
        }
    }

    /// Placing a parentless node among the children of a node outside its
    /// subtree keeps the tree valid.
    pub proof fn lemma_link_valid(self, p: Element, at: int, c: Element)
        requires
            self.valid(),
            self.contains(p),
            self.contains(c),
            self.parent[c.id as int] is None,
            !self.in_subtree(c, p),
            0 <= at <= self.children[p.id as int].len(),
        ensures
            self.link(p, at, c).valid(),
    {
        let l = self.link(p, at, c);
        let kids = self.children[p.id as int];
        assert(node(c.id as int) == c);
        assert(node(p.id as int) == p);
        assert(self.rank[p.id as int] < self.limit);
        assert forall|x: int| 0 <= x < l.len() implies #[trigger] l.rank[x] < l.limit by {
            assert(self.rank[x] < self.limit);
        }
        assert forall|x: int| 0 <= x < l.len() implies match #[trigger] l.parent[x] {
            Some(q) => {
                &&& l.contains(q)
                &&& l.rank[q.id as int] < l.rank[x]
                &&& l.children[q.id as int].contains(node(x))
            },
            None => true,
        } by {
            if x == c.id {
                assert(l.children[p.id as int][at] == c);
            } else {
                match self.parent[x] {
                    Some(q) => {
                        assert(node(q.id as int) == q);
                        assert(self.in_subtree(c, node(x)) == self.in_subtree(c, q));
                        assert(self.children[q.id as int].contains(node(x)));
                        let j = choose|j: int|
                            0 <= j < self.children[q.id as int].len()
                                && self.children[q.id as int][j] == node(x);
                        if q == p {
                            let jj = if j < at {
                                j
                            } else {
                                j + 1
                            };
                            assert(l.children[q.id as int][jj] == node(x));
                        } else {
                            assert(l.children[q.id as int][j] == node(x));
                        }
                    },
                    None => {},
                }
            }
        }
        assert forall|q: int, k: int| 0 <= q < l.len() && 0 <= k < l.children[q].len() implies {
            let x = #[trigger] l.children[q][k];
            l.contains(x) && l.parent[x.id as int] == Some(node(q))
        } by {
            if q == p.id {
                if k != at {
                    let kk = if k < at {
                        k
                    } else {
                        k - 1
                    };
                    assert(l.children[q][k] == kids[kk]);
                    assert(self.parent[kids[kk].id as int] == Some(node(q)));
                }
            } else {
                assert(self.parent[self.children[q][k].id as int] == Some(node(q)));
            }
        }
        assert forall|q: int, j: int, k: int|
            0 <= q < l.len() && 0 <= j < k < l.children[q].len() implies l.children[q][j]
            != l.children[q][k] by {
            if q == p.id {
                let jj = if j < at {
                    j
                } else {
                    j - 1
                };
                let kk = if k < at {
                    k
                } else {
                    k - 1
                };
                if j != at {
                    assert(l.children[q][j] == kids[jj]);
                    assert(self.parent[kids[jj].id as int] == Some(node(q)));
                }
                if k != at {
                    assert(l.children[q][k] == kids[kk]);
                    assert(self.parent[kids[kk].id as int] == Some(node(q)));
                }
            }
        }
    }

    /// Moving a node to the end of the children of a node outside its
    /// subtree keeps the tree valid, and makes that node its parent.
    pub proof fn lemma_add_child_valid(self, p: Element, c: Element)
        requires
            self.valid(),
            self.contains(p),
            self.contains(c),
            !self.in_subtree(c, p),
        ensures
            self.add_child(p, c).valid(),
            self.add_child(p, c).parent[c.id as int] == Some(p),
            self.add_child(p, c).children[p.id as int].last() == c,
    {
        self.lemma_detach_valid(c);
        lemma_subtree_without_parent(self.parent, self.rank, c, p);
        let m = self.detach(c).mark(p, ChangeFlags::spec_all());
        assert(m.valid());
        m.lemma_link_valid(p, m.children[p.id as int].len() as int, c);
    }

    /// Moving a node behind a sibling outside its subtree keeps the tree
    /// valid, and gives it the parent of that sibling; behind a sibling that
    /// hangs nowhere the node hangs nowhere either.
    pub proof fn lemma_insert_after_valid(self, s: Element, c: Element)
        requires
            self.valid(),
            self.contains(s),
            self.contains(c),
            !self.in_subtree(c, s),
        ensures
            self.insert_after(s, c).valid(),
            self.insert_after(s, c).parent[c.id as int] == self.parent[s.id as int],
    {
        self.lemma_detach_valid(c);
        let d = self.detach(c);
        match self.parent[s.id as int] {
            Some(p) => {
                lemma_subtree_without_parent(self.parent, self.rank, c, p);
                let m = d.mark(p, ChangeFlags::spec_all());
                assert(m.valid());
                m.lemma_parent_child(s);
                m.lemma_link_valid(p, m.child_index(s) + 1, c);
            },
            None => {},
        }
    }

    /// Letting go of every child of a node keeps the tree valid.
    pub proof fn lemma_clear_children_valid(self, p: Element)
        requires
            self.valid(),
            self.contains(p),
        ensures
            self.clear_children(p).valid(),
    {
        let d = self.clear_children(p);
        assert(node(p.id as int) == p);
        assert forall|x: int| 0 <= x < d.len() implies match #[trigger] d.parent[x] {
            Some(q) => {
                &&& d.contains(q)
                &&& d.rank[q.id as int] < d.rank[x]
                &&& d.children[q.id as int].contains(node(x))
            },
            None => true,
        } by {
            match self.parent[x] {
                Some(q) => {
                    if q != p {
                        assert(self.children[q.id as int].contains(node(x)));
                    }
                },
                None => {},
            }
        }
        assert forall|q: int, k: int| 0 <= q < d.len() && 0 <= k < d.children[q].len() implies {
            let x = #[trigger] d.children[q][k];
            d.contains(x) && d.parent[x.id as int] == Some(node(q))
        } by {
            assert(self.parent[self.children[q][k].id as int] == Some(node(q)));
        }
    }

    /// After the paint pass over the subtree of `e`, no node that the pass
    /// visited reports that it needs paint, `e` among them; what the visited
    /// nodes report of layout, and all that the other nodes report, is as
    /// before.
    pub proof fn lemma_painted(self, e: Element, x: Element)
        requires
            self.valid(),
            self.contains(e),
            self.contains(x),
        ensures
            self.preorder(e).contains(x) <==> self.in_subtree(e, x),
            self.in_subtree(e, x) ==> !self.painted(e).flags[x.id as int].spec_contains(
                ChangeFlags::spec_paint(),
            ),
            self.in_subtree(e, x) ==> self.painted(e).flags[x.id as int].spec_contains(
                ChangeFlags::spec_layout(),
            ) == self.flags[x.id as int].spec_contains(ChangeFlags::spec_layout()),
            !self.in_subtree(e, x) ==> self.painted(e).flags[x.id as int] == self.flags[x.id
                as int],
    {
        assert(node(x.id as int) == x);
        self.flags[x.id as int].lemma_difference();
        if self.preorder(e).contains(x) {
            self.lemma_preorder_sound(e, x);
        }
        if self.in_subtree(e, x) {
            self.lemma_preorder_complete(e, x);
        }
    }

    /// The root of a node has no parent, and the node hangs in its subtree.
    pub proof fn lemma_root_of(self, e: Element)
        requires
            self.valid(),
            self.contains(e),
        ensures
            self.contains(self.root_of(e)),
            self.parent[self.root_of(e).id as int] is None,
            self.in_subtree(self.root_of(e), e),
        decreases self.rank[e.id as int],
    {
        match self.parent[e.id as int] {
            Some(p) => {
                self.lemma_root_of(p);
                if self.root_of(p) != p {
                    assert(self.is_ancestor(self.root_of(p), e));
                }
            },
            None => {},
        }
    }

    /// Marking a node for paint or for layout requests one redraw, of the
    /// window that owns the root of the tree that the node hangs in.
    pub proof fn lemma_mark_requests_redraw(self, e: Element)
        requires
            self.valid(),
            self.contains(e),
        ensures
            self.mark(e, ChangeFlags::spec_paint()).redraw_requests == self.redraw_requests.push(
                self.root_of(e),
            ),
            self.mark(e, ChangeFlags::spec_all()).redraw_requests == self.redraw_requests.push(
                self.root_of(e),
            ),
    {
        assert(1u32 & 1u32 == 1u32) by (bit_vector);
        assert(3u32 & 1u32 == 1u32) by (bit_vector);
    }

    /// A layout pass changes no link, and of the flags only the layout flag
    /// of the nodes it visits: after the pass no visited node reports that it
    /// needs layout, and a node that was not visited keeps the flags it had.
    pub proof fn lemma_layout_pass(self, steps: Seq<(Element, G)>, x: Element)
        requires
            self.valid(),
            self.contains(x),
            forall|k: int| 0 <= k < steps.len() ==> self.contains((#[trigger] steps[k]).0),
        ensures
            self.layout_pass(steps).valid(),
            self.layout_pass(steps).parent == self.parent,
            self.layout_pass(steps).children == self.children,
            self.layout_pass(steps).redraw_requests == self.redraw_requests,
            (exists|k: int| 0 <= k < steps.len() && (#[trigger] steps[k]).0 == x)
                ==> !self.layout_pass(steps).flags[x.id as int].spec_contains(
                ChangeFlags::spec_layout(),
            ),
            !(exists|k: int| 0 <= k < steps.len() && (#[trigger] steps[k]).0 == x)
                ==> self.layout_pass(steps).flags[x.id as int] == self.flags[x.id as int],
            self.layout_pass(steps).flags[x.id as int].spec_contains(ChangeFlags::spec_paint())
                == self.flags[x.id as int].spec_contains(ChangeFlags::spec_paint()),
        decreases steps.len(),
    {
        if steps.len() > 0 {
            let front = steps.drop_last();
            let before = self.layout_pass(front);
            assert forall|k: int| 0 <= k < front.len() implies self.contains(
                (#[trigger] front[k]).0,
            ) by {
                assert(front[k] == steps[k]);
            }
            self.lemma_layout_pass(front, x);
            let last = steps.last().0;
            assert(self.contains(steps[steps.len() - 1].0));
            before.flags[x.id as int].lemma_difference();
            if exists|k: int| 0 <= k < steps.len() && (#[trigger] steps[k]).0 == x {
                let k = choose|k: int| 0 <= k < steps.len() && (#[trigger] steps[k]).0 == x;
                if k < front.len() {
                    assert(front[k].0 == x);
                }
            }
            if exists|k: int| 0 <= k < front.len() && (#[trigger] front[k]).0 == x {
                let k = choose|k: int| 0 <= k < front.len() && (#[trigger] front[k]).0 == x;
                assert(steps[k].0 == x);
            }
            if last == x {
                assert(steps[steps.len() - 1].0 == x);
            }
        }
    }

    /// No node is its own ancestor.
    pub proof fn lemma_no_cycle(self, e: Element)
        requires
            self.valid(),
            self.contains(e),
        ensures
            !self.is_ancestor(e, e),
    {
        if self.is_ancestor(e, e) {
            lemma_ancestor_rank(self.parent, self.rank, e, e);
        }
    }
}

} // verus!
