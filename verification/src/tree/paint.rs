//! The paint pass: the order in which the nodes of a subtree are painted,
//! and the flags that the pass clears.

use crate::flags::ChangeFlags;
use crate::tree::arena::Tree;
use crate::tree::model::{
    lemma_branch, lemma_branch_is_child, node, preorder_among, Element, TreeModel,
};
use vstd::prelude::*;

verus! {

/// Paints the subtree of `e`: appends its nodes to `order` as they are
/// painted and clears the paint flag of each of them.
fn paint_rec<X, G>(tree: &mut Tree<X, G>, e: Element, order: &mut Vec<Element>)
    requires
        old(tree).wf(),
        old(tree)@.contains(e),
    ensures
        final(tree).wf(),
        final(order)@ == old(order)@ + old(tree)@.preorder(e),
        final(tree)@ == old(tree)@.painted(e),
    decreases old(tree)@.limit - old(tree)@.rank[e.id as int],
{
    let ghost m = tree@;
    let ghost start = order@;
    order.push(e);
    e.mark_paint_done(tree);
    let kids = e.children(tree);
    let mut k: usize = 0;
    proof {
        m.lemma_no_cycle(e);
        assert(tree@ =~= (TreeModel { flags: tree@.flags, ..m }));
    }
    while k < kids.len()
        invariant
            tree.wf(),
            m == old(tree)@,
            m.valid(),
            m.contains(e),
            kids@ == m.children[e.id as int],
            0 <= k <= kids@.len(),
            tree@ == (TreeModel { flags: tree@.flags, ..m }),
            tree@.flags.len() == m.len(),
            forall|i: int|
                0 <= i < m.len() ==> #[trigger] tree@.flags[i] == if node(i) == e || (m.is_ancestor(
                    e,
                    node(i),
                ) && 0 <= m.child_index(m.branch(e, node(i))) < k) {
                    m.flags[i].spec_difference(ChangeFlags::spec_paint())
                } else {
                    m.flags[i]
                },
            start + m.preorder(e) == order@ + preorder_among(
                m.parent,
                m.children,
                m.rank,
                m.limit,
                e,
                k as int,
            ),
        decreases kids@.len() - k,
    {
        let c = kids[k];
        let ghost before = tree@;
        proof {
            m.lemma_child_parent(e, k as int);
            m.lemma_parent_child(c);
            assert(m.child_index(c) == k);
            assert(m.parent[c.id as int] == Some(e));
            assert(m.rank[e.id as int] < m.rank[c.id as int] < m.limit);
            assert(before.preorder(c) == m.preorder(c));
        }
        paint_rec(tree, c, order);
        proof {
            m.lemma_no_cycle(c);
            m.lemma_no_cycle(e);
            assert(m.is_ancestor(e, c));
            assert(m.branch(e, c) == c);
            assert forall|i: int| 0 <= i < m.len() implies #[trigger] tree@.flags[i] == if node(i)
                == e || (m.is_ancestor(e, node(i)) && 0 <= m.child_index(m.branch(e, node(i))) < k
                + 1) {
                m.flags[i].spec_difference(ChangeFlags::spec_paint())
            } else {
                m.flags[i]
            } by {
                let x = node(i);
                lemma_branch(m.parent, m.rank, e, c, x);
                assert(node(c.id as int) == c);
                if m.is_ancestor(e, x) {
                    lemma_branch_is_child(m.parent, m.rank, e, x);
                    m.lemma_parent_child(m.branch(e, x));
                }
                if x == e && m.in_subtree(c, e) {
                    crate::tree::model::lemma_ancestor_rank(m.parent, m.rank, c, e);
                }
                assert(tree@.flags[i] == before.painted(c).flags[i]);
                assert(before.in_subtree(c, x) == m.in_subtree(c, x));
            }
            assert(tree@ =~= (TreeModel { flags: tree@.flags, ..m }));
        }
        k = k + 1;
    }
    proof {
        assert forall|i: int| 0 <= i < m.len() implies #[trigger] tree@.flags[i] == m.painted(
            e,
        ).flags[i] by {
            let x = node(i);
            if m.is_ancestor(e, x) {
                lemma_branch_is_child(m.parent, m.rank, e, x);
                m.lemma_parent_child(m.branch(e, x));
            }
        }
        assert(tree@.flags =~= m.painted(e).flags);
        assert(order@ =~= start + m.preorder(e));
    }
}

impl Element {
    /// Runs the paint pass over the subtree of this node. Gives the nodes
    /// in the order in which they are to be painted, this node first and
    /// each node before its children, and clears the paint flag of every
    /// node that the pass visits: of this node and of every node below it.
    pub fn do_paint<X, G>(&self, tree: &mut Tree<X, G>) -> (order: Vec<Element>)
        requires
            old(tree).wf(),
            old(tree)@.contains(*self),
        ensures
            final(tree).wf(),
            order@ == old(tree)@.preorder(*self),
            final(tree)@ == old(tree)@.painted(*self),
    {
        let mut order: Vec<Element> = Vec::new();
        paint_rec(tree, *self, &mut order);
        assert(order@ =~= old(tree)@.preorder(*self));
        order
    }
}

} // verus!
