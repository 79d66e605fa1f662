//! Walks over the tree: the children of a node, and the whole tree depth
//! first.

use crate::tree::arena::Tree;
use crate::tree::model::Element;
use vstd::prelude::*;

verus! {

/// A walk over siblings, from one child of a node to the last.
pub struct SiblingIter {
    /// The node that the next step gives out.
    pub next: Option<Element>,
}

/// A depth-first walk over the tree, parents before their children.
pub struct Cursor {
    /// The node that the next step gives out.
    pub next: Option<Element>,
}

impl SiblingIter {
    /// Gives out the node the walk stands at and moves on to the sibling
    /// after it.
    pub fn next<X, G>(&mut self, tree: &Tree<X, G>) -> (r: Option<Element>)
        requires
            tree.wf(),
            old(self).next is Some ==> tree@.contains(old(self).next->0),
        ensures
            r == old(self).next,
            final(self).next == match old(self).next {
                Some(c) => tree@.next_sibling(c),
                None => None,
            },
            final(self).next is Some ==> tree@.contains(final(self).next->0),
    {
        let r = self.next;
        match r {
            Some(c) => {
                self.next = c.next_sibling(tree);
            },
            None => {},
        }
        r
    }
}

impl Cursor {
    /// Gives out the node the walk stands at and moves on: to its first
    /// child if it has one, else to its next sibling, else to the next
    /// sibling of the nearest ancestor that has one. Where there is none,
    /// the walk is over.
    pub fn next<X, G>(&mut self, tree: &Tree<X, G>) -> (r: Option<Element>)
        requires
            tree.wf(),
            old(self).next is Some ==> tree@.contains(old(self).next->0),
        ensures
            r == old(self).next,
            final(self).next == match old(self).next {
                Some(c) => tree@.successor(c),
                None => None,
            },
            final(self).next is Some ==> tree@.contains(final(self).next->0),
    {
        let r = self.next;
        match r {
            Some(c) => {
                let down = c.first_child(tree);
                if down.is_some() {
                    self.next = down;
                } else {
                    let ghost m = tree@;
                    let mut at = c;
                    let mut found = at.next_sibling(tree);
                    let mut up = at.parent(tree);
                    while found.is_none() && up.is_some()
                        invariant
                            tree.wf(),
                            m == tree@,
                            m.contains(at),
                            found == m.next_sibling(at),
                            up == m.parent[at.id as int],
                            m.next_from(c) == m.next_from(at),
                            found is Some ==> m.contains(found->0),
                        decreases m.rank[at.id as int],
                    {
                        at = up.unwrap();
                        found = at.next_sibling(tree);
                        up = at.parent(tree);
                    }
                    self.next = found;
                }
            },
            None => {},
        }
        r
    }
}

impl Element {
    /// A walk over the children of this node, first to last.
    pub fn iter_children<X, G>(&self, tree: &Tree<X, G>) -> (r: SiblingIter)
        requires
            tree.wf(),
            tree@.contains(*self),
        ensures
            r.next == if tree@.children[self.id as int].len() == 0 {
                None
            } else {
                Some(tree@.children[self.id as int].first())
            },
            r.next is Some ==> tree@.contains(r.next->0),
    {
        SiblingIter { next: self.first_child(tree) }
    }

    /// A depth-first walk that starts at this node.
    pub fn cursor(&self) -> (r: Cursor)
        ensures
            r.next == Some(*self),
    {
        Cursor { next: Some(*self) }
    }
}

} // verus!
