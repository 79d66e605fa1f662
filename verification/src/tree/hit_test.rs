//! Hit-testing: which nodes lie under a point, outermost first.

use crate::tree::arena::Tree;
use crate::tree::model::Element;
use vstd::prelude::*;

verus! {

/// An entry of the chain of nodes that leads to the node that was hit.
#[derive(Copy, Clone, Debug, PartialEq, Eq, Structural)]
pub struct HitTestEntry {
    /// The node in the chain.
    pub visual: Element,
}

/// Hit-tests `e` and the nodes below it, and appends what is hit to
/// `result`, outermost first. Says whether anything was hit.
fn hit_test_rec<X, G>(
    tree: &Tree<X, G>,
    e: Element,
    own_hit: &Vec<bool>,
    result: &mut Vec<Element>,
) -> (hit: bool)
    requires
        tree.wf(),
        tree@.contains(e),
        own_hit@.len() == tree@.len(),
    ensures
        final(result)@ == old(result)@ + tree@.hit_path(e, own_hit@),
        hit == (tree@.hit_path(e, own_hit@).len() > 0),
    decreases tree@.limit - tree@.rank[e.id as int],
{
    let ghost m = tree@;
    let ghost own = own_hit@;
    let ghost start = result@;
    let mut hit = false;
    if own_hit[e.id] {
        hit = true;
        result.push(e);
    }
    let ghost base = result@;
    let kids = e.children(tree);
    let mut k: usize = 0;
    let mut found = false;
    while k < kids.len() && !found
        invariant
            tree.wf(),
            m == tree@,
            own == own_hit@,
            m.contains(e),
            own.len() == m.len(),
            kids@ == m.children[e.id as int],
            k <= kids@.len(),
            !found ==> result@ == base && m.hit_among(e, 0, own) == m.hit_among(e, k as int, own),
            found ==> result@ == base + m.hit_among(e, 0, own) && m.hit_among(e, 0, own).len() > 0,
            hit == (own[e.id as int] || found),
        decreases kids@.len() - k,
    {
        let child = kids[k];
        assert(m.contains(child) && m.rank[e.id as int] < m.rank[child.id as int] && m.rank[child.id as int] < m.limit) by {
            assert(m.parent[m.children[e.id as int][k as int].id as int] == Some(e));
        }
        let child_hit = hit_test_rec(tree, child, own_hit, result);
        if child_hit {
            found = true;
            hit = true;
        } else {
            assert(result@ =~= base);
        }
        k = k + 1;
    }
    proof {
        if !found {
            assert(m.hit_among(e, k as int, own) =~= Seq::<Element>::empty());
            assert(result@ =~= base + m.hit_among(e, 0, own));
        }
        assert(base == start + (if own[e.id as int] {
            seq![e]
        } else {
            Seq::empty()
        }));
        assert(result@ =~= start + m.hit_path(e, own));
    }
    hit
}

impl Element {
    /// The nodes under a point, in and below this node, outermost first.
    ///
    /// `own_hit` holds for each node of the tree whether its own bounds hold
    /// the point, the point taken in that node's coordinates. A node is on
    /// the path where its own bounds hold the point; below a node, only its
    /// first child that is hit, itself or through a descendant, is followed.
    pub fn do_hit_test<X, G>(&self, tree: &Tree<X, G>, own_hit: &Vec<bool>) -> (path: Vec<Element>)
        requires
            tree.wf(),
            tree@.contains(*self),
            own_hit@.len() == tree@.len(),
        ensures
            path@ == tree@.hit_path(*self, own_hit@),
    {
        let mut path: Vec<Element> = Vec::new();
        hit_test_rec(tree, *self, own_hit, &mut path);
        assert(path@ =~= tree@.hit_path(*self, own_hit@));
        path
    }
}

} // verus!
