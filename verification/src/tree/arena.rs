//! The arena that holds the nodes, and the operations on its links.

use crate::flags::ChangeFlags;
use crate::tree::model::{
    lemma_ancestor_parent, lemma_ancestor_rank, lemma_subtree_without_parent, node,
    requests_without, Element, TreeModel,
};
use vstd::prelude::*;

verus! {

/// The label that a new node with index `id` gets.
pub uninterp spec fn hex_label(id: usize) -> Seq<char>;

/// Calls `format!` with the pattern `{:#x}` on the index of a node: the
/// result is a function of the index alone, to which the contract gives the
/// name [`hex_label`]. Nothing else is claimed of it.
#[verifier::external_body]
fn default_name(id: usize) -> (r: String)
    ensures
        r@ == hex_label(id),
{
    format!("{:#x}", id)
}

/// One node of the arena.
pub struct Node<X, G> {
    parent: Option<Element>,
    prev: Option<Element>,
    next: Option<Element>,
    first_child: Option<Element>,
    last_child: Option<Element>,
    flags: ChangeFlags,
    transform: X,
    geometry: G,
    name: String,
    tab_focusable: bool,
}

/// A forest of nodes. `X` is the type of a node's local-to-parent transform
/// and `G` that of its geometry; the tree only stores them.
pub struct Tree<X, G> {
    nodes: Vec<Node<X, G>>,
    redraw: Vec<Element>,
    children: Ghost<Seq<Seq<Element>>>,
    pos: Ghost<Seq<int>>,
    rank: Ghost<Seq<nat>>,
    limit: Ghost<nat>,
}

impl<X, G> View for Tree<X, G> {
    type V = TreeModel<X, G>;

    closed spec fn view(&self) -> TreeModel<X, G> {
        TreeModel {
            parent: Seq::new(self.nodes.len() as nat, |i: int| self.nodes[i].parent),
            children: self.children@,
            rank: self.rank@,
            limit: self.limit@,
            flags: Seq::new(self.nodes.len() as nat, |i: int| self.nodes[i].flags),
            transform: Seq::new(self.nodes.len() as nat, |i: int| self.nodes[i].transform),
            geometry: Seq::new(self.nodes.len() as nat, |i: int| self.nodes[i].geometry),
            name: Seq::new(self.nodes.len() as nat, |i: int| self.nodes[i].name@),
            tab_focusable: Seq::new(
                self.nodes.len() as nat,
                |i: int| self.nodes[i].tab_focusable,
            ),
            redraw_requests: self.redraw@,
        }
    }
}

impl<X, G> Tree<X, G> {
    /// Whether the links of node `i` agree with the child lists: its parent
    /// lists it at its position, its sibling links name its neighbours
    /// there, and its child links name the ends of its own child list.
    spec fn node_ok(&self, i: int) -> bool {
        let n = self.nodes.len() as int;
        let kids = self.children@;
        let pos = self.pos@;
        let nd = self.nodes[i];
        &&& match nd.parent {
            Some(p) => {
                &&& 0 <= p.id < n
                &&& 0 <= pos[i] < kids[p.id as int].len()
                &&& kids[p.id as int][pos[i]] == node(i)
                &&& nd.prev == if pos[i] == 0 {
                    None
                } else {
                    Some(kids[p.id as int][pos[i] - 1])
                }
                &&& nd.next == if pos[i] == kids[p.id as int].len() - 1 {
                    None
                } else {
                    Some(kids[p.id as int][pos[i] + 1])
                }
            },
            None => nd.prev.is_none() && nd.next.is_none(),
        }
        &&& nd.first_child == if kids[i].len() == 0 {
            None
        } else {
            Some(kids[i][0])
        }
        &&& nd.last_child == if kids[i].len() == 0 {
            None
        } else {
            Some(kids[i][kids[i].len() - 1])
        }
    }

    /// Whether the `k`-th child of node `p` is a node that names `p` as its
    /// parent and `k` as its position.
    spec fn kid_ok(&self, p: int, k: int) -> bool {
        let c = self.children@[p][k];
        &&& 0 <= c.id < self.nodes.len()
        &&& self.nodes[c.id as int].parent == Some(node(p))
        &&& self.pos@[c.id as int] == k
    }

    /// The sibling links and the first and last child of every node spell
    /// out the child lists of the model.
    pub closed spec fn linked(&self) -> bool {
        let n = self.nodes.len() as int;
        &&& n <= usize::MAX
        &&& self.children@.len() == n
        &&& self.pos@.len() == n
        &&& self.rank@.len() == n
        &&& forall|i: int| 0 <= i < n ==> #[trigger] self.node_ok(i)
        &&& forall|p: int, k: int|
            0 <= p < n && 0 <= k < self.children@[p].len() ==> #[trigger] self.kid_ok(p, k)
    }

    /// Whether ranks grow from parent to child below the limit.
    spec fn ranks_ok(&self) -> bool {
        let n = self.nodes.len() as int;
        &&& self.rank@.len() == n
        &&& forall|i: int| 0 <= i < n ==> #[trigger] self.rank@[i] < self.limit@
        &&& forall|i: int|
            0 <= i < n ==> match (#[trigger] self.nodes[i]).parent {
                Some(p) => 0 <= p.id < n && self.rank@[p.id as int] < self.rank@[i],
                None => true,
            }
    }

    /// Links that spell out the child lists, with ranks that grow from
    /// parent to child, make a valid tree.
    proof fn lemma_linked_valid(&self)
        requires
            self.linked(),
            self.ranks_ok(),
        ensures
            self.wf(),
    {
        let m = self@;
        let n = self.nodes.len() as int;
        assert forall|i: int| 0 <= i < m.len() implies match #[trigger] m.parent[i] {
            Some(p) => {
                &&& m.contains(p)
                &&& m.rank[p.id as int] < m.rank[i]
                &&& m.children[p.id as int].contains(node(i))
            },
            None => true,
        } by {
            assert(self.node_ok(i));
            assert(m.parent[i] == self.nodes[i].parent);
            match self.nodes[i].parent {
                Some(p) => {
                    assert(m.children[p.id as int][self.pos@[i]] == node(i));
                },
                None => {},
            }
        }
        assert forall|p: int, k: int| 0 <= p < m.len() && 0 <= k < m.children[p].len() implies {
            let c = #[trigger] m.children[p][k];
            m.contains(c) && m.parent[c.id as int] == Some(node(p))
        } by {
            assert(self.kid_ok(p, k));
        }
        assert forall|p: int, j: int, k: int|
            0 <= p < m.len() && 0 <= j < k < m.children[p].len() implies m.children[p][j]
            != m.children[p][k] by {
            assert(self.kid_ok(p, j));
            assert(self.kid_ok(p, k));
        }
    }

    /// The invariant of the tree: the model is a valid tree and the links
    /// of the nodes spell it out.
    pub open spec fn wf(&self) -> bool {
        self@.valid() && self.linked()
    }

    /// Whether `other` has the same nodes with the same links, and differs
    /// at most in what the nodes carry.
    spec fn same_links(&self, other: &Tree<X, G>) -> bool {
        &&& self.nodes.len() == other.nodes.len()
        &&& self.children@ == other.children@
        &&& self.pos@ == other.pos@
        &&& self.rank@ == other.rank@
        &&& self.limit@ == other.limit@
        &&& forall|i: int|
            0 <= i < self.nodes.len() ==> {
                &&& (#[trigger] self.nodes[i]).parent == other.nodes[i].parent
                &&& self.nodes[i].prev == other.nodes[i].prev
                &&& self.nodes[i].next == other.nodes[i].next
                &&& self.nodes[i].first_child == other.nodes[i].first_child
                &&& self.nodes[i].last_child == other.nodes[i].last_child
            }
    }

    /// Whether `other` carries in each node but `e` what `self` carries,
    /// flags aside.
    spec fn same_payload_but(&self, other: &Tree<X, G>, e: int) -> bool {
        &&& self.nodes.len() == other.nodes.len()
        &&& forall|i: int|
            0 <= i < self.nodes.len() && i != e ==> {
                &&& (#[trigger] self.nodes[i]).transform == other.nodes[i].transform
                &&& self.nodes[i].geometry == other.nodes[i].geometry
                &&& self.nodes[i].name == other.nodes[i].name
                &&& self.nodes[i].tab_focusable == other.nodes[i].tab_focusable
            }
    }

    /// A tree with the same links as a well-formed tree is well formed.
    proof fn lemma_same_links(&self, other: &Tree<X, G>)
        requires
            self.wf(),
            self.same_links(other),
        ensures
            other.wf(),
            other@.parent == self@.parent,
            other@.children == self@.children,
            other@.rank == self@.rank,
            other@.limit == self@.limit,
    {
        let n = self.nodes.len() as int;
        assert(other@.parent =~= self@.parent);
        assert forall|i: int| 0 <= i < n implies #[trigger] other.node_ok(i) by {
            assert(self.node_ok(i));
            assert(self.nodes[i].parent == other.nodes[i].parent);
        }
        assert forall|p: int, k: int| 0 <= p < n && 0 <= k < other.children@[p].len() implies #[trigger] other.kid_ok(
            p,
            k,
        ) by {
            assert(self.kid_ok(p, k));
            let c = self.children@[p][k];
            assert(self.nodes[c.id as int].parent == other.nodes[c.id as int].parent);
        }
        assert forall|i: int| 0 <= i < n implies match (#[trigger] other.nodes[i]).parent {
            Some(p) => 0 <= p.id < n && other.rank@[p.id as int] < other.rank@[i],
            None => true,
        } by {
            assert(self.nodes[i].parent == other.nodes[i].parent);
            assert(self@.parent[i] == self.nodes[i].parent);
        }
        other.lemma_linked_valid();
    }

    /// The position that the links give a child is its index in the child
    /// list of its parent.
    proof fn lemma_child_index(&self, e: Element)
        requires
            self.wf(),
            self@.contains(e),
        ensures
            self@.parent[e.id as int] == self.nodes[e.id as int].parent,
            self@.parent[e.id as int] is Some ==> self@.child_index(e) == self.pos@[e.id as int],
    {
        assert(self.node_ok(e.id as int));
        match self.nodes[e.id as int].parent {
            Some(p) => {
                let kids = self.children@[p.id as int];
                assert(kids[self.pos@[e.id as int]] == e);
                let j = kids.index_of(e);
                assert(kids[j] == e);
                assert(self.kid_ok(p.id as int, j));
            },
            None => {},
        }
    }

    /// Replaces the link of one node to its parent.
    fn put_parent(&mut self, e: Element, to: Option<Element>)
        requires
            e.id < old(self).nodes.len(),
        ensures
            final(self).same_ghost(old(self)),
            final(self).nodes@ == old(self).nodes@.update(
                e.id as int,
                Node { parent: to, ..old(self).nodes[e.id as int] },
            ),
    {
        self.nodes[e.id].parent = to;
    }

    /// Replaces the link of one node to the sibling before it.
    fn put_prev(&mut self, e: Element, to: Option<Element>)
        requires
            e.id < old(self).nodes.len(),
        ensures
            final(self).same_ghost(old(self)),
            final(self).nodes@ == old(self).nodes@.update(
                e.id as int,
                Node { prev: to, ..old(self).nodes[e.id as int] },
            ),
    {
        self.nodes[e.id].prev = to;
    }

    /// Replaces the link of one node to the sibling after it.
    fn put_next(&mut self, e: Element, to: Option<Element>)
        requires
            e.id < old(self).nodes.len(),
        ensures
            final(self).same_ghost(old(self)),
            final(self).nodes@ == old(self).nodes@.update(
                e.id as int,
                Node { next: to, ..old(self).nodes[e.id as int] },
            ),
    {
        self.nodes[e.id].next = to;
    }

    /// Replaces the link of one node to its first child.
    fn put_first_child(&mut self, e: Element, to: Option<Element>)
        requires
            e.id < old(self).nodes.len(),
        ensures
            final(self).same_ghost(old(self)),
            final(self).nodes@ == old(self).nodes@.update(
                e.id as int,
                Node { first_child: to, ..old(self).nodes[e.id as int] },
            ),
    {
        self.nodes[e.id].first_child = to;
    }

    /// Replaces the link of one node to its last child.
    fn put_last_child(&mut self, e: Element, to: Option<Element>)
        requires
            e.id < old(self).nodes.len(),
        ensures
            final(self).same_ghost(old(self)),
            final(self).nodes@ == old(self).nodes@.update(
                e.id as int,
                Node { last_child: to, ..old(self).nodes[e.id as int] },
            ),
    {
        self.nodes[e.id].last_child = to;
    }

    /// Whether the two trees hold the same ghost state.
    spec fn same_ghost(&self, other: &Tree<X, G>) -> bool {
        &&& self.redraw@ == other.redraw@
        &&& self.children@ == other.children@
        &&& self.pos@ == other.pos@
        &&& self.rank@ == other.rank@
        &&& self.limit@ == other.limit@
    }

    /// The siblings that the links of `e` name are its neighbours in the
    /// child list of its parent, and differ from that parent.
    proof fn lemma_neighbours(&self, e: Element)
        requires
            self.wf(),
            self@.contains(e),
            self.nodes[e.id as int].parent is Some,
        ensures
            ({
                let p = self.nodes[e.id as int].parent->0;
                let k = self.pos@[e.id as int];
                let kids = self.children@[p.id as int];
                &&& p.id < self.nodes.len()
                &&& p != e
                &&& 0 <= k < kids.len()
                &&& kids[k] == e
                &&& match self.nodes[e.id as int].prev {
                    Some(b) => k > 0 && b == kids[k - 1] && b.id < self.nodes.len() && b != p
                        && b != e,
                    None => k == 0,
                }
                &&& match self.nodes[e.id as int].next {
                    Some(a) => k + 1 < kids.len() && a == kids[k + 1] && a.id < self.nodes.len()
                        && a != p && a != e,
                    None => k + 1 == kids.len(),
                }
                &&& self.nodes[e.id as int].prev is Some && self.nodes[e.id as int].next is Some
                    ==> self.nodes[e.id as int].prev != self.nodes[e.id as int].next
            }),
    {
        let p = self.nodes[e.id as int].parent->0;
        let k = self.pos@[e.id as int];
        let kids = self.children@[p.id as int];
        assert(self.node_ok(e.id as int));
        assert(self.kid_ok(p.id as int, k));
        assert(self@.parent[e.id as int] == Some(p));
        assert(self@.parent[p.id as int] == self.nodes[p.id as int].parent);
        if k > 0 {
            let b = kids[k - 1];
            assert(self.kid_ok(p.id as int, k - 1));
            assert(self@.parent[b.id as int] == Some(p));
        }
        if k + 1 < kids.len() {
            let a = kids[k + 1];
            assert(self.kid_ok(p.id as int, k + 1));
            assert(self@.parent[a.id as int] == Some(p));
        }
    }

    /// Which links name `e`: the `next` of the sibling before it, the `prev`
    /// of the sibling after it, and the child links of its parent where `e`
    /// is the first or the last child.
    proof fn lemma_pointers(&self, e: Element, i: int)
        requires
            self.wf(),
            self@.contains(e),
            0 <= i < self.nodes.len(),
        ensures
            self.nodes[i].next == Some(e) <==> self.nodes[e.id as int].prev == Some(node(i)),
            self.nodes[i].prev == Some(e) <==> self.nodes[e.id as int].next == Some(node(i)),
            self.nodes[i].first_child == Some(e) <==> (self.nodes[e.id as int].parent == Some(
                node(i),
            ) && self.nodes[e.id as int].prev is None),
            self.nodes[i].last_child == Some(e) <==> (self.nodes[e.id as int].parent == Some(
                node(i),
            ) && self.nodes[e.id as int].next is None),
            self.nodes[i].parent is Some ==> self.nodes[i].parent != Some(node(i)),
    {
        let kids = self.children@;
        let pos = self.pos@;
        assert(self.node_ok(i));
        assert(self.node_ok(e.id as int));
        assert(node(e.id as int) == e);
        assert(self@.parent[i] == self.nodes[i].parent);
        match self.nodes[i].parent {
            Some(q) => {
                let j = pos[i];
                assert(self.kid_ok(q.id as int, j));
                if j > 0 {
                    assert(self.kid_ok(q.id as int, j - 1));
                }
                if j + 1 < kids[q.id as int].len() {
                    assert(self.kid_ok(q.id as int, j + 1));
                }
            },
            None => {},
        }
        match self.nodes[e.id as int].parent {
            Some(q) => {
                let j = pos[e.id as int];
                assert(self.kid_ok(q.id as int, j));
                if j > 0 {
                    assert(self.kid_ok(q.id as int, j - 1));
                }
                if j + 1 < kids[q.id as int].len() {
                    assert(self.kid_ok(q.id as int, j + 1));
                }
            },
            None => {},
        }
        if kids[i].len() > 0 {
            assert(self.kid_ok(i, 0));
            assert(self.kid_ok(i, kids[i].len() - 1));
        }
    }

    /// Whether `post` is `self` with `e` spliced out of the child list of
    /// its parent: every link that named `e` names what lay beyond it.
    spec fn unlinked(&self, post: &Tree<X, G>, e: Element) -> bool {
        let p = self.nodes[e.id as int].parent->0;
        let k = self.pos@[e.id as int];
        let gone = self.nodes[e.id as int];
        &&& post.nodes.len() == self.nodes.len()
        &&& post.redraw@ == self.redraw@
        &&& post.children@ == self.children@.update(
            p.id as int,
            self.children@[p.id as int].remove(k),
        )
        &&& post.pos@ == Seq::new(
            self.nodes.len() as nat,
            |i: int|
                if self.nodes[i].parent == Some(p) && self.pos@[i] > k {
                    self.pos@[i] - 1
                } else {
                    self.pos@[i]
                },
        )
        &&& post.rank@ == self.rank@
        &&& post.limit@ == self.limit@
        &&& self.same_payload_but(post, -1)
        &&& forall|i: int|
            0 <= i < self.nodes.len() ==> {
                let a = self.nodes[i];
                let b = #[trigger] post.nodes[i];
                &&& b.flags == a.flags
                &&& b.parent == if i == e.id {
                    None
                } else {
                    a.parent
                }
                &&& b.prev == if i == e.id {
                    None
                } else if a.prev == Some(e) {
                    gone.prev
                } else {
                    a.prev
                }
                &&& b.next == if i == e.id {
                    None
                } else if a.next == Some(e) {
                    gone.next
                } else {
                    a.next
                }
                &&& b.first_child == if a.first_child == Some(e) {
                    gone.next
                } else {
                    a.first_child
                }
                &&& b.last_child == if a.last_child == Some(e) {
                    gone.prev
                } else {
                    a.last_child
                }
            }
    }

    /// Splicing a child out keeps the tree well formed and gives the model
    /// without that child.
    proof fn lemma_unlinked(&self, post: &Tree<X, G>, e: Element)
        requires
            self.wf(),
            self@.contains(e),
            self.nodes[e.id as int].parent is Some,
            self.unlinked(post, e),
        ensures
            post.wf(),
            post@ == (TreeModel {
                parent: self@.parent.update(e.id as int, None),
                children: self@.children.update(
                    (self@.parent[e.id as int]->0).id as int,
                    self@.children[(self@.parent[e.id as int]->0).id as int].remove(
                        self@.child_index(e),
                    ),
                ),
                ..self@
            }),
    {
        self.lemma_child_index(e);
        self.lemma_neighbours(e);
        let p = self.nodes[e.id as int].parent->0;
        let k = self.pos@[e.id as int];
        let kids = self.children@[p.id as int];
        let n = self.nodes.len() as int;
        assert(post@.parent =~= self@.parent.update(e.id as int, None));
        assert(post@.flags =~= self@.flags);
        assert(post@.transform =~= self@.transform);
        assert(post@.geometry =~= self@.geometry);
        assert(post@.name =~= self@.name);
        assert(post@.tab_focusable =~= self@.tab_focusable);
        assert forall|q: int, j: int|
            0 <= q < n && 0 <= j < post.children@[q].len() implies #[trigger] post.kid_ok(
            q,
            j,
        ) by {
            if q == p.id {
                let jj = if j < k {
                    j
                } else {
                    j + 1
                };
                assert(post.children@[q][j] == kids[jj]);
                assert(self.kid_ok(q, jj));
            } else {
                assert(self.kid_ok(q, j));
            }
        }
        assert forall|i: int| 0 <= i < n implies #[trigger] post.node_ok(i) by {
            self.lemma_pointers(e, i);
            assert(self.node_ok(i));
            assert(self@.parent[i] == self.nodes[i].parent);
            if i != e.id {
                match self.nodes[i].parent {
                    Some(q) => {
                        let j = self.pos@[i];
                        assert(self.kid_ok(q.id as int, j));
                        if j > 0 {
                            assert(self.kid_ok(q.id as int, j - 1));
                        }
                        if j + 1 < self.children@[q.id as int].len() {
                            assert(self.kid_ok(q.id as int, j + 1));
                        }
                    },
                    None => {},
                }
            }
            if self.children@[i].len() > 0 {
                assert(self.kid_ok(i, 0));
                assert(self.kid_ok(i, self.children@[i].len() - 1));
            }
        }
        assert forall|i: int| 0 <= i < n implies match (#[trigger] post.nodes[i]).parent {
            Some(q) => 0 <= q.id < n && post.rank@[q.id as int] < post.rank@[i],
            None => true,
        } by {
            assert(self@.parent[i] == self.nodes[i].parent);
        }
        post.lemma_linked_valid();
    }

    /// Whether `post` is `self` with the parentless node `c` spliced into
    /// the child list of `p` at position `at`.
    spec fn inserted(&self, post: &Tree<X, G>, p: Element, at: int, c: Element) -> bool {
        let kids = self.children@[p.id as int];
        &&& post.nodes.len() == self.nodes.len()
        &&& post.redraw@ == self.redraw@
        &&& post.children@ == self.children@.update(p.id as int, kids.insert(at, c))
        &&& post.pos@ == Seq::new(
            self.nodes.len() as nat,
            |i: int|
                if i == c.id {
                    at
                } else if self.nodes[i].parent == Some(p) && self.pos@[i] >= at {
                    self.pos@[i] + 1
                } else {
                    self.pos@[i]
                },
        )
        &&& post.rank@ == self@.lifted_rank(c)
        &&& post.limit@ == self.limit@ + self.limit@
        &&& self.same_payload_but(post, -1)
        &&& forall|i: int|
            0 <= i < self.nodes.len() ==> {
                let a = self.nodes[i];
                let b = #[trigger] post.nodes[i];
                &&& b.flags == a.flags
                &&& b.parent == if i == c.id {
                    Some(p)
                } else {
                    a.parent
                }
                &&& b.prev == if i == c.id {
                    if at == 0 {
                        None
                    } else {
                        Some(kids[at - 1])
                    }
                } else if a.parent == Some(p) && self.pos@[i] == at {
                    Some(c)
                } else {
                    a.prev
                }
                &&& b.next == if i == c.id {
                    if at == kids.len() {
                        None
                    } else {
                        Some(kids[at])
                    }
                } else if a.parent == Some(p) && self.pos@[i] == at - 1 {
                    Some(c)
                } else {
                    a.next
                }
                &&& b.first_child == if i == p.id && at == 0 {
                    Some(c)
                } else {
                    a.first_child
                }
                &&& b.last_child == if i == p.id && at == kids.len() {
                    Some(c)
                } else {
                    a.last_child
                }
            }
    }

    /// After a splice every child list entry names its parent and position.
    proof fn lemma_inserted_kids(&self, post: &Tree<X, G>, p: Element, at: int, c: Element)
        requires
            self.linked(),
            p.id < self.nodes.len(),
            c.id < self.nodes.len(),
            p != c,
            self.nodes[c.id as int].parent is None,
            0 <= at <= self.children@[p.id as int].len(),
            self.inserted(post, p, at, c),
        ensures
            forall|q: int, j: int|
                0 <= q < post.nodes.len() && 0 <= j < post.children@[q].len()
                    ==> #[trigger] post.kid_ok(q, j),
    {
        let kids = self.children@[p.id as int];
        let n = self.nodes.len() as int;
        assert(node(c.id as int) == c);
        assert(node(p.id as int) == p);
        assert forall|q: int, j: int|
            0 <= q < n && 0 <= j < post.children@[q].len() implies #[trigger] post.kid_ok(
            q,
            j,
        ) by {
            if q == p.id {
                if j != at {
                    let jj = if j < at {
                        j
                    } else {
                        j - 1
                    };
                    assert(post.children@[q][j] == kids[jj]);
                    assert(self.kid_ok(q, jj));
                }
            } else {
                assert(self.kid_ok(q, j));
            }
        }
    }

    /// After a splice the links of every node agree with the child lists.
    proof fn lemma_inserted_nodes(&self, post: &Tree<X, G>, p: Element, at: int, c: Element)
        requires
            self.linked(),
            p.id < self.nodes.len(),
            c.id < self.nodes.len(),
            p != c,
            self.nodes[c.id as int].parent is None,
            0 <= at <= self.children@[p.id as int].len(),
            self.inserted(post, p, at, c),
        ensures
            forall|i: int| 0 <= i < post.nodes.len() ==> #[trigger] post.node_ok(i),
    {
        let n = self.nodes.len() as int;
        assert(node(c.id as int) == c);
        assert(node(p.id as int) == p);
        assert(self.node_ok(c.id as int));
        assert forall|i: int| 0 <= i < n implies #[trigger] post.node_ok(i) by {
            assert(self.node_ok(i));
            if i != c.id {
                match self.nodes[i].parent {
                    Some(q) => {
                        let j = self.pos@[i];
                        assert(self.kid_ok(q.id as int, j));
                        if j > 0 {
                            assert(self.kid_ok(q.id as int, j - 1));
                        }
                        if j + 1 < self.children@[q.id as int].len() {
                            assert(self.kid_ok(q.id as int, j + 1));
                        }
                    },
                    None => {},
                }
            }
            if self.children@[i].len() > 0 {
                assert(self.kid_ok(i, 0));
                assert(self.kid_ok(i, self.children@[i].len() - 1));
            }
        }
    }

    /// After a splice, outside the subtree of the node spliced in, ranks
    /// still grow from parent to child below the limit.
    proof fn lemma_inserted_ranks(&self, post: &Tree<X, G>, p: Element, at: int, c: Element)
        requires
            self.wf(),
            self@.contains(p),
            self@.contains(c),
            self.nodes[c.id as int].parent is None,
            !self@.in_subtree(c, p),
            self.inserted(post, p, at, c),
        ensures
            post.ranks_ok(),
    {
        let n = self.nodes.len() as int;
        let m = self@;
        assert(node(c.id as int) == c);
        assert(node(p.id as int) == p);
        assert forall|i: int| 0 <= i < n implies #[trigger] post.rank@[i] < post.limit@ by {
            assert(m.rank[i] < m.limit);
        }
        assert forall|i: int| 0 <= i < n implies match (#[trigger] post.nodes[i]).parent {
            Some(q) => 0 <= q.id < n && post.rank@[q.id as int] < post.rank@[i],
            None => true,
        } by {
            assert(m.parent[i] == self.nodes[i].parent);
            assert(m.rank[p.id as int] < m.limit);
            if i != c.id {
                match self.nodes[i].parent {
                    Some(q) => {
                        assert(node(q.id as int) == q);
                        assert(m.in_subtree(c, node(i)) == m.in_subtree(c, q));
                    },
                    None => {},
                }
            }
        }
    }

    /// Splicing a parentless node in, outside its own subtree, keeps the
    /// tree well formed and gives the model with that child.
    proof fn lemma_inserted(&self, post: &Tree<X, G>, p: Element, at: int, c: Element)
        requires
            self.wf(),
            self@.contains(p),
            self@.contains(c),
            self.nodes[c.id as int].parent is None,
            !self@.in_subtree(c, p),
            0 <= at <= self.children@[p.id as int].len(),
            self.inserted(post, p, at, c),
        ensures
            post.wf(),
            post@ == self@.link(p, at, c),
    {
        let m = self@;
        assert(post@.parent =~= m.parent.update(c.id as int, Some(p)));
        assert(post@.flags =~= m.flags);
        assert(post@.transform =~= m.transform);
        assert(post@.geometry =~= m.geometry);
        assert(post@.name =~= m.name);
        assert(post@.tab_focusable =~= m.tab_focusable);
        assert(post@ =~= m.link(p, at, c));
        self.lemma_inserted_kids(post, p, at, c);
        self.lemma_inserted_nodes(post, p, at, c);
        self.lemma_inserted_ranks(post, p, at, c);
        post.lemma_linked_valid();
    }

    /// Whether `post` is `self` with every child of `p` let go of.
    spec fn cleared(&self, post: &Tree<X, G>, p: Element) -> bool {
        &&& post.nodes.len() == self.nodes.len()
        &&& post.redraw@ == self.redraw@
        &&& post.children@ == self.children@.update(p.id as int, Seq::empty())
        &&& post.pos@ == self.pos@
        &&& post.rank@ == self.rank@
        &&& post.limit@ == self.limit@
        &&& self.same_payload_but(post, -1)
        &&& forall|i: int|
            0 <= i < self.nodes.len() ==> {
                let a = self.nodes[i];
                let b = #[trigger] post.nodes[i];
                &&& b.flags == a.flags
                &&& b.parent == if a.parent == Some(p) {
                    None
                } else {
                    a.parent
                }
                &&& b.prev == if a.parent == Some(p) {
                    None
                } else {
                    a.prev
                }
                &&& b.next == if a.parent == Some(p) {
                    None
                } else {
                    a.next
                }
                &&& b.first_child == if i == p.id {
                    None
                } else {
                    a.first_child
                }
                &&& b.last_child == if i == p.id {
                    None
                } else {
                    a.last_child
                }
            }
    }

    /// Letting go of every child of a node keeps the tree well formed and
    /// gives the model without those children.
    proof fn lemma_cleared(&self, post: &Tree<X, G>, p: Element)
        requires
            self.wf(),
            self@.contains(p),
            self.cleared(post, p),
        ensures
            post.wf(),
            post@ == self@.clear_children(p),
    {
        let n = self.nodes.len() as int;
        let m = self@;
        assert(node(p.id as int) == p);
        assert(post@.parent =~= m.clear_children(p).parent);
        assert(post@.flags =~= m.flags);
        assert(post@.transform =~= m.transform);
        assert(post@.geometry =~= m.geometry);
        assert(post@.name =~= m.name);
        assert(post@.tab_focusable =~= m.tab_focusable);
        assert(post@ =~= m.clear_children(p));
        assert(m.parent[p.id as int] == self.nodes[p.id as int].parent);
        assert forall|q: int, j: int|
            0 <= q < n && 0 <= j < post.children@[q].len() implies #[trigger] post.kid_ok(
            q,
            j,
        ) by {
            assert(self.kid_ok(q, j));
        }
        assert forall|i: int| 0 <= i < n implies #[trigger] post.node_ok(i) by {
            assert(self.node_ok(i));
            assert(m.parent[i] == self.nodes[i].parent);
        }
        assert forall|i: int| 0 <= i < n implies match (#[trigger] post.nodes[i]).parent {
            Some(q) => 0 <= q.id < n && post.rank@[q.id as int] < post.rank@[i],
            None => true,
        } by {
            assert(m.parent[i] == self.nodes[i].parent);
        }
        post.lemma_linked_valid();
    }

    /// Replaces what one node carries besides its links.
    fn put_payload(&mut self, e: Element, flags: ChangeFlags, tab_focusable: bool)
        requires
            e.id < old(self).nodes.len(),
        ensures
            old(self).same_links(final(self)),
            old(self).same_payload_but(final(self), e.id as int),
            final(self).redraw@ == old(self).redraw@,
            final(self).nodes[e.id as int].flags == flags,
            final(self).nodes[e.id as int].tab_focusable == tab_focusable,
            final(self).nodes[e.id as int].transform == old(self).nodes[e.id as int].transform,
            final(self).nodes[e.id as int].geometry == old(self).nodes[e.id as int].geometry,
            final(self).nodes[e.id as int].name == old(self).nodes[e.id as int].name,
            forall|i: int|
                0 <= i < old(self).nodes.len() && i != e.id ==> (#[trigger] final(self).nodes[i]).flags
                    == old(self).nodes[i].flags,
    {
        self.nodes[e.id].flags = flags;
        self.nodes[e.id].tab_focusable = tab_focusable;
    }

    /// A tree with the same links is well formed, and its model differs from
    /// that of `self` at most in what node `e` carries.
    proof fn lemma_same_links_but(&self, other: &Tree<X, G>, e: Element)
        requires
            self.wf(),
            self@.contains(e),
            self.same_links(other),
            self.same_payload_but(other, e.id as int),
            forall|i: int|
                0 <= i < self.nodes.len() && i != e.id ==> (#[trigger] other.nodes[i]).flags
                    == self.nodes[i].flags,
        ensures
            other.wf(),
            other@ == (TreeModel {
                flags: self@.flags.update(e.id as int, other.nodes[e.id as int].flags),
                transform: self@.transform.update(e.id as int, other.nodes[e.id as int].transform),
                geometry: self@.geometry.update(e.id as int, other.nodes[e.id as int].geometry),
                name: self@.name.update(e.id as int, other.nodes[e.id as int].name@),
                tab_focusable: self@.tab_focusable.update(
                    e.id as int,
                    other.nodes[e.id as int].tab_focusable,
                ),
                redraw_requests: other.redraw@,
                ..self@
            }),
    {
        self.lemma_same_links(other);
        let m = self@;
        let i = e.id as int;
        assert(other@.flags =~= m.flags.update(i, other.nodes[i].flags));
        assert(other@.transform =~= m.transform.update(i, other.nodes[i].transform));
        assert(other@.geometry =~= m.geometry.update(i, other.nodes[i].geometry));
        assert(other@.name =~= m.name.update(i, other.nodes[i].name@));
        assert(other@.tab_focusable =~= m.tab_focusable.update(i, other.nodes[i].tab_focusable));
    }

    /// Replaces the flags of one node.
    fn put_flags(&mut self, e: Element, flags: ChangeFlags)
        requires
            e.id < old(self).nodes.len(),
        ensures
            old(self).same_links(final(self)),
            old(self).same_payload_but(final(self), -1),
            final(self).redraw@ == old(self).redraw@,
            final(self).nodes[e.id as int].flags == flags,
            forall|i: int|
                0 <= i < old(self).nodes.len() && i != e.id ==> (#[trigger] final(self).nodes[i]).flags
                    == old(self).nodes[i].flags,
    {
        self.nodes[e.id].flags = flags;
    }

    /// An empty tree.
    pub fn new() -> (tree: Tree<X, G>)
        ensures
            tree.wf(),
            tree@.len() == 0,
            tree@.redraw_requests.len() == 0,
    {
        Tree {
            nodes: Vec::new(),
            redraw: Vec::new(),
            children: Ghost(Seq::empty()),
            pos: Ghost(Seq::empty()),
            rank: Ghost(Seq::empty()),
            limit: Ghost(0),
        }
    }

    /// The number of nodes.
    pub fn len(&self) -> (n: usize)
        requires
            self.wf(),
        ensures
            n == self@.len(),
    {
        self.nodes.len()
    }

    /// Whether `e` is a node of this tree.
    pub fn contains(&self, e: Element) -> (r: bool)
        requires
            self.wf(),
        ensures
            r == self@.contains(e),
    {
        e.id < self.nodes.len()
    }

    /// Takes the requests for a redraw of the window that owns `root`. Says
    /// whether marking has left one; the requests for other roots stay.
    pub fn take_redraw_request(&mut self, root: Element) -> (requested: bool)
        requires
            old(self).wf(),
        ensures
            final(self).wf(),
            requested == old(self)@.redraw_requests.contains(root),
            final(self)@ == (TreeModel {
                redraw_requests: requests_without(old(self)@.redraw_requests, root),
                ..old(self)@
            }),
    {
        let mut kept: Vec<Element> = Vec::new();
        let mut requested = false;
        let mut i: usize = 0;
        while i < self.redraw.len()
            invariant
                0 <= i <= self.redraw@.len(),
                self.redraw@ == old(self).redraw@,
                old(self).same_links(self),
                old(self).same_payload_but(self, -1),
                forall|k: int| 0 <= k < old(self).nodes.len() ==> (#[trigger] self.nodes[k]).flags
                    == old(self).nodes[k].flags,
                kept@ == requests_without(self.redraw@.subrange(0, i as int), root),
                requested == self.redraw@.subrange(0, i as int).contains(root),
            decreases self.redraw@.len() - i,
        {
            let x = self.redraw[i];
            proof {
                let next = self.redraw@.subrange(0, i + 1);
                let done = self.redraw@.subrange(0, i as int);
                assert(next.drop_last() =~= done);
                assert(next.last() == x);
                assert(next.contains(root) == (done.contains(root) || x == root)) by {
                    if done.contains(root) {
                        let k = choose|k: int| 0 <= k < done.len() && done[k] == root;
                        assert(next[k] == root);
                    }
                    if x == root {
                        assert(next[i as int] == root);
                    }
                    if next.contains(root) {
                        let k = choose|k: int| 0 <= k < next.len() && next[k] == root;
                        if k < i {
                            assert(done[k] == root);
                        }
                    }
                }
            }
            if x.id == root.id {
                requested = true;
            } else {
                kept.push(x);
            }
            i = i + 1;
        }
        proof {
            assert(self.redraw@.subrange(0, i as int) =~= self.redraw@);
        }
        self.redraw = kept;
        proof {
            old(self).lemma_same_links(self);
            assert(self@.flags =~= old(self)@.flags);
            assert(self@.transform =~= old(self)@.transform);
            assert(self@.geometry =~= old(self)@.geometry);
            assert(self@.name =~= old(self)@.name);
            assert(self@.tab_focusable =~= old(self)@.tab_focusable);
        }
        requested
    }

    /// Takes the requests for a redraw that marking has left: the roots for
    /// whose owning window a redraw is to be asked, oldest first. After this
    /// none is left.
    pub fn take_redraw_requests(&mut self) -> (r: Vec<Element>)
        requires
            old(self).wf(),
        ensures
            final(self).wf(),
            r@ == old(self)@.redraw_requests,
            final(self)@ == (TreeModel { redraw_requests: Seq::empty(), ..old(self)@ }),
    {
        let mut taken: Vec<Element> = Vec::new();
        std::mem::swap(&mut taken, &mut self.redraw);
        proof {
            assert(old(self).same_links(self));
            assert(old(self).same_payload_but(self, -1));
            old(self).lemma_same_links(self);
            assert(self@.flags =~= old(self)@.flags);
            assert(self@.transform =~= old(self)@.transform);
            assert(self@.geometry =~= old(self)@.geometry);
            assert(self@.name =~= old(self)@.name);
            assert(self@.tab_focusable =~= old(self)@.tab_focusable);
            assert(self@.redraw_requests =~= Seq::<Element>::empty());
        }
        taken
    }
}

impl Element {
    /// Adds a node to `tree`. The node hangs nowhere, has no children, owes
    /// a layout and a paint pass, and is labelled by its index.
    pub fn new<X, G>(tree: &mut Tree<X, G>, transform: X, geometry: G) -> (e: Element)
        requires
            old(tree).wf(),
            old(tree)@.len() < usize::MAX,
        ensures
            final(tree).wf(),
            e.id == old(tree)@.len(),
            final(tree)@ == old(tree)@.with_node(transform, geometry, hex_label(e.id)),
    {
        let id = tree.nodes.len();
        let name = default_name(id);
        tree.nodes.push(
            Node {
                parent: None,
                prev: None,
                next: None,
                first_child: None,
                last_child: None,
                flags: ChangeFlags::all(),
                transform,
                geometry,
                name,
                tab_focusable: false,
            },
        );
        proof {
            tree.children@ = tree.children@.push(Seq::empty());
            tree.pos@ = tree.pos@.push(0);
            tree.rank@ = tree.rank@.push(0);
            tree.limit@ = tree.limit@ + 1;
        }
        proof {
            let n = tree.nodes.len() as int;
            assert forall|i: int| 0 <= i < n implies #[trigger] tree.node_ok(i) by {
                if i < n - 1 {
                    assert(old(tree).node_ok(i));
                }
            }
            assert forall|p: int, k: int|
                0 <= p < n && 0 <= k < tree.children@[p].len() implies #[trigger] tree.kid_ok(
                p,
                k,
            ) by {
                assert(old(tree).kid_ok(p, k));
            }
            assert forall|i: int| 0 <= i < n implies match (#[trigger] tree.nodes[i]).parent {
                Some(q) => 0 <= q.id < n && tree.rank@[q.id as int] < tree.rank@[i],
                None => true,
            } by {
                if i < n - 1 {
                    assert(old(tree)@.parent[i] == old(tree).nodes[i].parent);
                }
            }
            tree.lemma_linked_valid();
            assert(tree@ =~= old(tree)@.with_node(transform, geometry, hex_label(id)));
        }
        Element { id }
    }

    /// Takes this node out of the child list of its parent. The former
    /// parent and its ancestors are marked for layout and paint; a node
    /// without a parent stays as it is.
    pub fn detach<X, G>(&self, tree: &mut Tree<X, G>)
        requires
            old(tree).wf(),
            old(tree)@.contains(*self),
        ensures
            final(tree).wf(),
            final(tree)@ == old(tree)@.detach(*self),
    {
        let up = tree.nodes[self.id].parent;
        match up {
            None => {},
            Some(p) => {
                assert(old(tree)@.parent[self.id as int] == Some(p));
                proof {
                    old(tree).lemma_child_index(*self);
                }
                p.set_dirty_flags(tree, ChangeFlags::all());
                let ghost mid = *tree;
                proof {
                    mid.lemma_child_index(*self);
                    mid.lemma_neighbours(*self);
                }
                let prev = tree.nodes[self.id].prev;
                let next = tree.nodes[self.id].next;
                match prev {
                    Some(b) => {
                        tree.put_next(b, next);
                    },
                    None => {
                        tree.put_first_child(p, next);
                    },
                }
                match next {
                    Some(a) => {
                        tree.put_prev(a, prev);
                    },
                    None => {
                        tree.put_last_child(p, prev);
                    },
                }
                tree.put_prev(*self, None);
                tree.put_next(*self, None);
                tree.put_parent(*self, None);
                proof {
                    let k = mid.pos@[self.id as int];
                    tree.children@ = mid.children@.update(
                        p.id as int,
                        mid.children@[p.id as int].remove(k),
                    );
                    tree.pos@ = Seq::new(
                        mid.nodes.len() as nat,
                        |i: int|
                            if mid.nodes[i].parent == Some(p) && mid.pos@[i] > k {
                                mid.pos@[i] - 1
                            } else {
                                mid.pos@[i]
                            },
                    );
                    assert forall|i: int| 0 <= i < mid.nodes.len() implies {
                        let a = mid.nodes[i];
                        let b = #[trigger] tree.nodes[i];
                        let gone = mid.nodes[self.id as int];
                        &&& b.flags == a.flags
                        &&& b.transform == a.transform
                        &&& b.geometry == a.geometry
                        &&& b.name == a.name
                        &&& b.tab_focusable == a.tab_focusable
                        &&& b.parent == if i == self.id {
                            None
                        } else {
                            a.parent
                        }
                        &&& b.prev == if i == self.id {
                            None
                        } else if a.prev == Some(*self) {
                            gone.prev
                        } else {
                            a.prev
                        }
                        &&& b.next == if i == self.id {
                            None
                        } else if a.next == Some(*self) {
                            gone.next
                        } else {
                            a.next
                        }
                        &&& b.first_child == if a.first_child == Some(*self) {
                            gone.next
                        } else {
                            a.first_child
                        }
                        &&& b.last_child == if a.last_child == Some(*self) {
                            gone.prev
                        } else {
                            a.last_child
                        }
                    } by {
                        mid.lemma_pointers(*self, i);
                    }
                    assert(mid.unlinked(tree, *self));
                    mid.lemma_unlinked(tree, *self);
                }
            },
        }
    }

    /// Places the parentless node `c` among the children of `p`: right
    /// after `after`, or in front of them all where `after` is `None`.
    fn link_after<X, G>(tree: &mut Tree<X, G>, p: Element, after: Option<Element>, c: Element)
        requires
            old(tree).wf(),
            old(tree)@.contains(p),
            old(tree)@.contains(c),
            old(tree)@.parent[c.id as int] is None,
            !old(tree)@.in_subtree(c, p),
            match after {
                Some(s) => old(tree)@.contains(s) && old(tree)@.parent[s.id as int] == Some(p),
                None => true,
            },
        ensures
            final(tree).wf(),
            final(tree)@ == old(tree)@.link(
                p,
                match after {
                    Some(s) => old(tree)@.child_index(s) + 1,
                    None => 0,
                },
                c,
            ),
    {
        let ghost pre = *tree;
        let ghost at: int = match after {
            Some(s) => pre.pos@[s.id as int] + 1,
            None => 0,
        };
        proof {
            pre.lemma_child_index(c);
            assert(pre.node_ok(p.id as int));
            assert(pre.node_ok(c.id as int));
            match after {
                Some(s) => {
                    pre.lemma_child_index(s);
                    pre.lemma_neighbours(s);
                },
                None => {
                    if pre.children@[p.id as int].len() > 0 {
                        assert(pre.kid_ok(p.id as int, 0));
                    }
                },
            }
        }
        let next = match after {
            Some(s) => tree.nodes[s.id].next,
            None => tree.nodes[p.id].first_child,
        };
        tree.put_prev(c, after);
        tree.put_next(c, next);
        tree.put_parent(c, Some(p));
        match after {
            Some(s) => {
                tree.put_next(s, Some(c));
            },
            None => {
                tree.put_first_child(p, Some(c));
            },
        }
        match next {
            Some(a) => {
                tree.put_prev(a, Some(c));
            },
            None => {
                tree.put_last_child(p, Some(c));
            },
        }
        proof {
            tree.children@ = pre.children@.update(
                p.id as int,
                pre.children@[p.id as int].insert(at, c),
            );
            tree.pos@ = Seq::new(
                pre.nodes.len() as nat,
                |i: int|
                    if i == c.id {
                        at
                    } else if pre.nodes[i].parent == Some(p) && pre.pos@[i] >= at {
                        pre.pos@[i] + 1
                    } else {
                        pre.pos@[i]
                    },
            );
            tree.rank@ = pre@.lifted_rank(c);
            tree.limit@ = pre.limit@ + pre.limit@;
            assert forall|i: int| 0 <= i < pre.nodes.len() implies {
                let kids = pre.children@[p.id as int];
                let a = pre.nodes[i];
                let b = #[trigger] tree.nodes[i];
                &&& b.flags == a.flags
                &&& b.transform == a.transform
                &&& b.geometry == a.geometry
                &&& b.name == a.name
                &&& b.tab_focusable == a.tab_focusable
                &&& b.parent == if i == c.id {
                    Some(p)
                } else {
                    a.parent
                }
                &&& b.prev == if i == c.id {
                    if at == 0 {
                        None
                    } else {
                        Some(kids[at - 1])
                    }
                } else if a.parent == Some(p) && pre.pos@[i] == at {
                    Some(c)
                } else {
                    a.prev
                }
                &&& b.next == if i == c.id {
                    if at == kids.len() {
                        None
                    } else {
                        Some(kids[at])
                    }
                } else if a.parent == Some(p) && pre.pos@[i] == at - 1 {
                    Some(c)
                } else {
                    a.next
                }
                &&& b.first_child == if i == p.id && at == 0 {
                    Some(c)
                } else {
                    a.first_child
                }
                &&& b.last_child == if i == p.id && at == kids.len() {
                    Some(c)
                } else {
                    a.last_child
                }
            } by {
                assert(pre.node_ok(i));
                let kids = pre.children@[p.id as int];
                if 0 <= at - 1 < kids.len() {
                    assert(pre.kid_ok(p.id as int, at - 1));
                }
                if 0 <= at < kids.len() {
                    assert(pre.kid_ok(p.id as int, at));
                }
                match pre.nodes[i].parent {
                    Some(q) => {
                        assert(pre.kid_ok(q.id as int, pre.pos@[i]));
                    },
                    None => {},
                }
            }
            assert(pre.inserted(tree, p, at, c));
            pre.lemma_inserted(tree, p, at, c);
        }
    }

    /// Moves `child` to the end of the children of this node: detaches it
    /// from where it hangs, appends it here, and marks this node and its
    /// ancestors for layout and paint.
    ///
    /// `child` must not be this node nor one of its ancestors: a node cannot
    /// hang below itself.
    pub fn add_child<X, G>(&self, tree: &mut Tree<X, G>, child: &Element)
        requires
            old(tree).wf(),
            old(tree)@.contains(*self),
            old(tree)@.contains(*child),
            !old(tree)@.in_subtree(*child, *self),
        ensures
            final(tree).wf(),
            final(tree)@ == old(tree)@.add_child(*self, *child),
    {
        let c = *child;
        proof {
            old(tree).lemma_child_index(c);
            lemma_subtree_without_parent(old(tree)@.parent, old(tree)@.rank, c, *self);
        }
        c.detach(tree);
        self.set_dirty_flags(tree, ChangeFlags::all());
        let last = tree.nodes[self.id].last_child;
        proof {
            tree.lemma_child_index(c);
            assert(tree.node_ok(self.id as int));
            let kids = tree.children@[self.id as int];
            if kids.len() > 0 {
                assert(tree.kid_ok(self.id as int, kids.len() - 1));
                tree.lemma_child_index(kids[kids.len() - 1]);
            }
        }
        Element::link_after(tree, *self, last, c);
    }

    /// Moves `to_insert` right after this node among the children of this
    /// node's parent: detaches it from where it hangs, splices it in, and
    /// marks the parent and its ancestors for layout and paint. Where this
    /// node hangs nowhere, `to_insert` is only detached.
    ///
    /// `to_insert` must not be this node nor one of its ancestors: a node
    /// cannot hang below itself.
    pub fn insert_after<X, G>(&self, tree: &mut Tree<X, G>, to_insert: &Element)
        requires
            old(tree).wf(),
            old(tree)@.contains(*self),
            old(tree)@.contains(*to_insert),
            !old(tree)@.in_subtree(*to_insert, *self),
        ensures
            final(tree).wf(),
            final(tree)@ == old(tree)@.insert_after(*self, *to_insert),
    {
        let c = *to_insert;
        proof {
            old(tree).lemma_child_index(c);
            old(tree).lemma_child_index(*self);
            if old(tree)@.parent[self.id as int] is Some {
                let p = old(tree)@.parent[self.id as int]->0;
                lemma_subtree_without_parent(old(tree)@.parent, old(tree)@.rank, c, p);
            }
        }
        c.detach(tree);
        proof {
            tree.lemma_child_index(*self);
        }
        match tree.nodes[self.id].parent {
            Some(p) => {
                p.set_dirty_flags(tree, ChangeFlags::all());
                proof {
                    tree.lemma_child_index(c);
                    tree.lemma_child_index(*self);
                }
                Element::link_after(tree, p, Some(*self), c);
            },
            None => {},
        }
    }

    /// The parent of this node, if it hangs below one.
    pub fn parent<X, G>(&self, tree: &Tree<X, G>) -> (r: Option<Element>)
        requires
            tree.wf(),
            tree@.contains(*self),
        ensures
            r == tree@.parent[self.id as int],
    {
        tree.nodes[self.id].parent
    }

    /// The first child of this node, if it has children.
    pub fn first_child<X, G>(&self, tree: &Tree<X, G>) -> (r: Option<Element>)
        requires
            tree.wf(),
            tree@.contains(*self),
        ensures
            r == if tree@.children[self.id as int].len() == 0 {
                None
            } else {
                Some(tree@.children[self.id as int].first())
            },
            r is Some ==> tree@.contains(r->0),
    {
        proof {
            assert(tree.node_ok(self.id as int));
            if tree.children@[self.id as int].len() > 0 {
                assert(tree.kid_ok(self.id as int, 0));
            }
        }
        tree.nodes[self.id].first_child
    }

    /// The last child of this node, if it has children.
    pub fn last_child<X, G>(&self, tree: &Tree<X, G>) -> (r: Option<Element>)
        requires
            tree.wf(),
            tree@.contains(*self),
        ensures
            r == if tree@.children[self.id as int].len() == 0 {
                None
            } else {
                Some(tree@.children[self.id as int].last())
            },
            r is Some ==> tree@.contains(r->0),
    {
        proof {
            assert(tree.node_ok(self.id as int));
            let kids = tree.children@[self.id as int];
            if kids.len() > 0 {
                assert(tree.kid_ok(self.id as int, kids.len() - 1));
            }
        }
        tree.nodes[self.id].last_child
    }

    /// The sibling after this node, if there is one.
    pub fn next_sibling<X, G>(&self, tree: &Tree<X, G>) -> (r: Option<Element>)
        requires
            tree.wf(),
            tree@.contains(*self),
        ensures
            r == tree@.next_sibling(*self),
            r is Some ==> tree@.contains(r->0),
    {
        proof {
            tree.lemma_child_index(*self);
            if tree.nodes[self.id as int].parent is Some {
                tree.lemma_neighbours(*self);
            } else {
                assert(tree.node_ok(self.id as int));
            }
        }
        tree.nodes[self.id].next
    }

    /// The sibling before this node, if there is one.
    pub fn prev_sibling<X, G>(&self, tree: &Tree<X, G>) -> (r: Option<Element>)
        requires
            tree.wf(),
            tree@.contains(*self),
        ensures
            r == tree@.prev_sibling(*self),
            r is Some ==> tree@.contains(r->0),
    {
        proof {
            tree.lemma_child_index(*self);
            if tree.nodes[self.id as int].parent is Some {
                tree.lemma_neighbours(*self);
            } else {
                assert(tree.node_ok(self.id as int));
            }
        }
        tree.nodes[self.id].prev
    }

    /// The children of this node, first to last, found by walking the
    /// sibling links forward from the first child.
    pub fn children<X, G>(&self, tree: &Tree<X, G>) -> (r: Vec<Element>)
        requires
            tree.wf(),
            tree@.contains(*self),
        ensures
            r@ == tree@.children[self.id as int],
    {
        let ghost kids = tree@.children[self.id as int];
        let mut out: Vec<Element> = Vec::new();
        let mut cur = self.first_child(tree);
        while cur.is_some()
            invariant
                tree.wf(),
                tree@.contains(*self),
                kids == tree@.children[self.id as int],
                out@.len() <= kids.len(),
                out@ == kids.subrange(0, out@.len() as int),
                cur == if out@.len() < kids.len() {
                    Some(kids[out@.len() as int])
                } else {
                    None
                },
            decreases kids.len() - out@.len(),
        {
            let c = cur.unwrap();
            proof {
                let j = out@.len() as int;
                assert(tree.kid_ok(self.id as int, j));
                tree.lemma_child_index(c);
                tree.lemma_neighbours(c);
            }
            cur = tree.nodes[c.id].next;
            out.push(c);
        }
        assert(out@ == kids);
        out
    }

    /// The children of this node, last to first, found by walking the
    /// sibling links backward from the last child.
    pub fn children_rev<X, G>(&self, tree: &Tree<X, G>) -> (r: Vec<Element>)
        requires
            tree.wf(),
            tree@.contains(*self),
        ensures
            r@ == tree@.children[self.id as int].reverse(),
    {
        let ghost kids = tree@.children[self.id as int];
        let mut out: Vec<Element> = Vec::new();
        let mut cur = self.last_child(tree);
        while cur.is_some()
            invariant
                tree.wf(),
                tree@.contains(*self),
                kids == tree@.children[self.id as int],
                out@.len() <= kids.len(),
                forall|j: int| 0 <= j < out@.len() ==> out@[j] == kids[kids.len() - 1 - j],
                cur == if out@.len() < kids.len() {
                    Some(kids[kids.len() - 1 - out@.len()])
                } else {
                    None
                },
            decreases kids.len() - out@.len(),
        {
            let c = cur.unwrap();
            proof {
                let j = kids.len() - 1 - out@.len();
                assert(tree.kid_ok(self.id as int, j));
                tree.lemma_child_index(c);
                tree.lemma_neighbours(c);
            }
            cur = tree.nodes[c.id].prev;
            out.push(c);
        }
        assert(out@ =~= kids.reverse());
        out
    }

    /// Whether `e` lies in the subtree of this node: whether this node is
    /// `e` or one of its ancestors. A node can be moved below `e` exactly
    /// when `e` does not lie in its subtree.
    pub fn has_in_subtree<X, G>(&self, tree: &Tree<X, G>, e: Element) -> (r: bool)
        requires
            tree.wf(),
            tree@.contains(e),
        ensures
            r == tree@.in_subtree(*self, e),
    {
        let ghost m = tree@;
        let mut cur = e;
        loop
            invariant
                tree.wf(),
                m == tree@,
                m.contains(e),
                m.contains(cur),
                m.in_subtree(*self, e) == m.in_subtree(*self, cur),
            ensures
                m.in_subtree(*self, e) == (cur == *self),
            decreases m.rank[cur.id as int],
        {
            if cur.id == self.id {
                break;
            }
            match tree.nodes[cur.id].parent {
                Some(p) => {
                    assert(m.parent[cur.id as int] == Some(p));
                    cur = p;
                },
                None => {
                    assert(m.parent[cur.id as int] is None);
                    break;
                },
            }
        }
        cur.id == self.id
    }

    /// The ancestors of this node from the root down, then this node.
    pub fn ancestors_and_self<X, G>(&self, tree: &Tree<X, G>) -> (r: Vec<Element>)
        requires
            tree.wf(),
            tree@.contains(*self),
        ensures
            r@ == tree@.ancestors_and_self(*self),
    {
        let ghost m = tree@;
        let mut up: Vec<Element> = Vec::new();
        let mut cur = *self;
        let mut at = tree.nodes[cur.id].parent;
        while at.is_some()
            invariant
                tree.wf(),
                m == tree@,
                m.contains(*self),
                m.contains(cur),
                at == m.parent[cur.id as int],
                m.ancestors(*self) == up@ + m.ancestors(cur),
            decreases m.rank[cur.id as int],
        {
            let p = at.unwrap();
            proof {
                assert(m.ancestors(cur) == seq![p] + m.ancestors(p));
                assert(up@.push(p) + m.ancestors(p) =~= up@ + (seq![p] + m.ancestors(p)));
            }
            up.push(p);
            cur = p;
            at = tree.nodes[cur.id].parent;
        }
        assert(m.ancestors(cur) =~= Seq::<Element>::empty());
        assert(up@ =~= m.ancestors(*self));
        let mut out: Vec<Element> = Vec::new();
        let mut k = up.len();
        while k > 0
            invariant
                k <= up@.len(),
                out@.len() == up@.len() - k,
                forall|j: int| 0 <= j < out@.len() ==> out@[j] == up@[up@.len() - 1 - j],
            decreases k,
        {
            k = k - 1;
            out.push(up[k]);
        }
        assert(out@ =~= up@.reverse());
        out.push(*self);
        out
    }

    /// Lets go of every child of this node: each child ends up without
    /// parent and without siblings, and this node without children. No node
    /// is marked.
    pub fn clear_children<X, G>(&self, tree: &mut Tree<X, G>)
        requires
            old(tree).wf(),
            old(tree)@.contains(*self),
        ensures
            final(tree).wf(),
            final(tree)@ == old(tree)@.clear_children(*self),
    {
        let ghost pre = *tree;
        let ghost kids = pre.children@[self.id as int];
        let ghost mut j: int = 0;
        proof {
            assert(pre.node_ok(self.id as int));
        }
        let mut cur = tree.nodes[self.id].first_child;
        while cur.is_some()
            invariant
                pre.wf(),
                pre@.contains(*self),
                kids == pre.children@[self.id as int],
                tree.same_ghost(&pre),
                tree.nodes.len() == pre.nodes.len(),
                0 <= j <= kids.len(),
                cur == if j < kids.len() {
                    Some(kids[j])
                } else {
                    None
                },
                forall|i: int|
                    0 <= i < pre.nodes.len() ==> #[trigger] tree.nodes[i] == if pre.nodes[i].parent
                        == Some(*self) && 0 <= pre.pos@[i] < j {
                        Node { parent: None, prev: None, next: None, ..pre.nodes[i] }
                    } else {
                        pre.nodes[i]
                    },
            decreases kids.len() - j,
        {
            let c = cur.unwrap();
            proof {
                assert(pre.kid_ok(self.id as int, j));
                assert(node(self.id as int) == *self);
                pre.lemma_neighbours(c);
                assert(tree.nodes[c.id as int] == pre.nodes[c.id as int]);
            }
            cur = tree.nodes[c.id].next;
            tree.put_parent(c, None);
            tree.put_prev(c, None);
            tree.put_next(c, None);
            proof {
                assert forall|i: int| 0 <= i < pre.nodes.len() implies #[trigger] tree.nodes[i]
                    == if pre.nodes[i].parent == Some(*self) && 0 <= pre.pos@[i] < j + 1 {
                    Node { parent: None, prev: None, next: None, ..pre.nodes[i] }
                } else {
                    pre.nodes[i]
                } by {
                    assert(pre.node_ok(i));
                }
                j = j + 1;
            }
        }
        tree.put_first_child(*self, None);
        tree.put_last_child(*self, None);
        proof {
            tree.children@ = pre.children@.update(self.id as int, Seq::empty());
            assert forall|i: int| 0 <= i < pre.nodes.len() implies {
                let a = pre.nodes[i];
                let b = #[trigger] tree.nodes[i];
                &&& b.flags == a.flags
                &&& b.transform == a.transform
                &&& b.geometry == a.geometry
                &&& b.name == a.name
                &&& b.tab_focusable == a.tab_focusable
                &&& b.parent == if a.parent == Some(*self) {
                    None
                } else {
                    a.parent
                }
                &&& b.prev == if a.parent == Some(*self) {
                    None
                } else {
                    a.prev
                }
                &&& b.next == if a.parent == Some(*self) {
                    None
                } else {
                    a.next
                }
                &&& b.first_child == if i == self.id {
                    None
                } else {
                    a.first_child
                }
                &&& b.last_child == if i == self.id {
                    None
                } else {
                    a.last_child
                }
            } by {
                assert(pre.node_ok(i));
                assert(pre@.parent[i] == pre.nodes[i].parent);
            }
            assert(pre.cleared(tree, *self));
            pre.lemma_cleared(tree, *self);
        }
    }

    /// Whether this node and `other` are the same node.
    pub fn is_same(&self, other: &Element) -> (r: bool)
        ensures
            r == (*self == *other),
    {
        self.id == other.id
    }

    /// The next node in the tab chain. Tab navigation is not laid out yet:
    /// there is never a next node.
    pub fn tab_next<X, G>(&self, tree: &Tree<X, G>) -> (r: Option<Element>)
        ensures
            r is None,
    {
        None
    }

    /// Whether this node takes part in tab navigation.
    pub fn tab_focusable<X, G>(&self, tree: &Tree<X, G>) -> (r: bool)
        requires
            tree.wf(),
            tree@.contains(*self),
        ensures
            r == tree@.tab_focusable[self.id as int],
    {
        tree.nodes[self.id].tab_focusable
    }

    /// Sets whether this node takes part in tab navigation.
    pub fn set_tab_focusable<X, G>(&self, tree: &mut Tree<X, G>, focusable: bool)
        requires
            old(tree).wf(),
            old(tree)@.contains(*self),
        ensures
            final(tree).wf(),
            final(tree)@ == (TreeModel {
                tab_focusable: old(tree)@.tab_focusable.update(self.id as int, focusable),
                ..old(tree)@
            }),
    {
        let flags = tree.nodes[self.id].flags;
        tree.put_payload(*self, flags, focusable);
        proof {
            old(tree).lemma_same_links_but(tree, *self);
            assert(tree@ =~= (TreeModel {
                tab_focusable: old(tree)@.tab_focusable.update(self.id as int, focusable),
                ..old(tree)@
            }));
        }
    }

    /// The dirty flags of this node.
    pub fn flags<X, G>(&self, tree: &Tree<X, G>) -> (r: ChangeFlags)
        requires
            tree.wf(),
            tree@.contains(*self),
        ensures
            r == tree@.flags[self.id as int],
    {
        tree.nodes[self.id].flags
    }

    /// Whether this node owes a layout pass.
    pub fn needs_relayout<X, G>(&self, tree: &Tree<X, G>) -> (r: bool)
        requires
            tree.wf(),
            tree@.contains(*self),
        ensures
            r == tree@.flags[self.id as int].spec_contains(ChangeFlags::spec_layout()),
    {
        tree.nodes[self.id].flags.contains(ChangeFlags::layout())
    }

    /// Whether this node owes a paint pass.
    pub fn needs_repaint<X, G>(&self, tree: &Tree<X, G>) -> (r: bool)
        requires
            tree.wf(),
            tree@.contains(*self),
        ensures
            r == tree@.flags[self.id as int].spec_contains(ChangeFlags::spec_paint()),
    {
        tree.nodes[self.id].flags.contains(ChangeFlags::paint())
    }

    /// Marks this node and each of its ancestors for a paint pass.
    pub fn mark_needs_repaint<X, G>(&self, tree: &mut Tree<X, G>)
        requires
            old(tree).wf(),
            old(tree)@.contains(*self),
        ensures
            final(tree).wf(),
            final(tree)@ == old(tree)@.mark(*self, ChangeFlags::spec_paint()),
    {
        self.set_dirty_flags(tree, ChangeFlags::paint());
    }

    /// Marks this node and each of its ancestors for a layout pass, and so
    /// for a paint pass too.
    pub fn mark_needs_relayout<X, G>(&self, tree: &mut Tree<X, G>)
        requires
            old(tree).wf(),
            old(tree)@.contains(*self),
        ensures
            final(tree).wf(),
            final(tree)@ == old(tree)@.mark(*self, ChangeFlags::spec_all()),
    {
        self.set_dirty_flags(tree, ChangeFlags::all());
    }

    /// Clears the layout flag of this node, and of no other.
    pub fn mark_layout_done<X, G>(&self, tree: &mut Tree<X, G>)
        requires
            old(tree).wf(),
            old(tree)@.contains(*self),
        ensures
            final(tree).wf(),
            final(tree)@ == (TreeModel {
                flags: old(tree)@.flags.update(
                    self.id as int,
                    old(tree)@.flags[self.id as int].spec_difference(ChangeFlags::spec_layout()),
                ),
                ..old(tree)@
            }),
    {
        let flags = tree.nodes[self.id].flags.difference(ChangeFlags::layout());
        let focusable = tree.nodes[self.id].tab_focusable;
        tree.put_payload(*self, flags, focusable);
        proof {
            old(tree).lemma_same_links_but(tree, *self);
            assert(tree@ =~= (TreeModel {
                flags: old(tree)@.flags.update(self.id as int, flags),
                ..old(tree)@
            }));
        }
    }

    /// Clears the paint flag of this node, and of no other.
    pub fn mark_paint_done<X, G>(&self, tree: &mut Tree<X, G>)
        requires
            old(tree).wf(),
            old(tree)@.contains(*self),
        ensures
            final(tree).wf(),
            final(tree)@ == (TreeModel {
                flags: old(tree)@.flags.update(
                    self.id as int,
                    old(tree)@.flags[self.id as int].spec_difference(ChangeFlags::spec_paint()),
                ),
                ..old(tree)@
            }),
    {
        let flags = tree.nodes[self.id].flags.difference(ChangeFlags::paint());
        let focusable = tree.nodes[self.id].tab_focusable;
        tree.put_payload(*self, flags, focusable);
        proof {
            old(tree).lemma_same_links_but(tree, *self);
            assert(tree@ =~= (TreeModel {
                flags: old(tree)@.flags.update(self.id as int, flags),
                ..old(tree)@
            }));
        }
    }

    /// The local-to-parent transform of this node.
    pub fn transform<'a, X, G>(&self, tree: &'a Tree<X, G>) -> (r: &'a X)
        requires
            tree.wf(),
            tree@.contains(*self),
        ensures
            *r == tree@.transform[self.id as int],
    {
        &tree.nodes[self.id].transform
    }

    /// Sets the local-to-parent transform of this node. A layout pass calls
    /// this, so no node is marked.
    pub fn set_transform<X, G>(&self, tree: &mut Tree<X, G>, transform: X)
        requires
            old(tree).wf(),
            old(tree)@.contains(*self),
        ensures
            final(tree).wf(),
            final(tree)@ == (TreeModel {
                transform: old(tree)@.transform.update(self.id as int, transform),
                ..old(tree)@
            }),
    {
        tree.nodes[self.id].transform = transform;
        proof {
            old(tree).lemma_same_links_but(tree, *self);
            assert(tree@ =~= (TreeModel {
                transform: old(tree)@.transform.update(self.id as int, transform),
                ..old(tree)@
            }));
        }
    }

    /// The geometry that the last layout pass gave this node.
    pub fn geometry<'a, X, G>(&self, tree: &'a Tree<X, G>) -> (r: &'a G)
        requires
            tree.wf(),
            tree@.contains(*self),
        ensures
            *r == tree@.geometry[self.id as int],
    {
        &tree.nodes[self.id].geometry
    }

    /// Ends the layout of this node: stores the geometry that the layout
    /// gave it and clears its layout flag.
    pub fn do_layout<X, G>(&self, tree: &mut Tree<X, G>, geometry: G)
        requires
            old(tree).wf(),
            old(tree)@.contains(*self),
        ensures
            final(tree).wf(),
            final(tree)@ == old(tree)@.laid_out(*self, geometry),
    {
        tree.nodes[self.id].geometry = geometry;
        let ghost stored = *tree;
        proof {
            old(tree).lemma_same_links_but(&stored, *self);
        }
        self.mark_layout_done(tree);
        assert(tree@ =~= old(tree)@.laid_out(*self, geometry));
    }

    /// The debug label of this node.
    pub fn name<X, G>(&self, tree: &Tree<X, G>) -> (r: String)
        requires
            tree.wf(),
            tree@.contains(*self),
        ensures
            r@ == tree@.name[self.id as int],
    {
        tree.nodes[self.id].name.clone()
    }

    /// Sets the debug label of this node.
    pub fn set_name<X, G>(&self, tree: &mut Tree<X, G>, name: String)
        requires
            old(tree).wf(),
            old(tree)@.contains(*self),
        ensures
            final(tree).wf(),
            final(tree)@ == (TreeModel {
                name: old(tree)@.name.update(self.id as int, name@),
                ..old(tree)@
            }),
    {
        tree.nodes[self.id].name = name;
        proof {
            old(tree).lemma_same_links_but(tree, *self);
            assert(tree@ =~= (TreeModel {
                name: old(tree)@.name.update(self.id as int, name@),
                ..old(tree)@
            }));
        }
    }

    /// Sets `flags` on this node and on each of its ancestors, and leaves a
    /// request for a redraw at the root where the flags hold the paint flag.
    fn set_dirty_flags<X, G>(&self, tree: &mut Tree<X, G>, flags: ChangeFlags)
        requires
            old(tree).wf(),
            old(tree)@.contains(*self),
        ensures
            final(tree).wf(),
            final(tree)@ == old(tree)@.mark(*self, flags),
    {
        let ghost before = *tree;
        let ghost m = tree@;
        let mut cur = *self;
        let mut done = false;
        while !done
            invariant
                m.valid(),
                m.contains(*self),
                m.parent.len() == tree.nodes.len(),
                before.same_links(tree),
                before.same_payload_but(tree, -1),
                tree.redraw@ == before.redraw@,
                forall|i: int| 0 <= i < m.len() ==> m.parent[i] == (#[trigger] tree.nodes[i]).parent,
                m.contains(cur),
                m.in_subtree(cur, *self),
                m.root_of(cur) == m.root_of(*self),
                done ==> m.parent[cur.id as int] is None,
                forall|i: int|
                    0 <= i < m.len() ==> (#[trigger] tree.nodes[i]).flags == if m.in_subtree(
                        node(i),
                        *self,
                    ) && (done || !m.in_subtree(node(i), cur)) {
                        m.flags[i].spec_union(flags)
                    } else {
                        m.flags[i]
                    },
            decreases
                    (if done {
                        0
                    } else {
                        m.rank[cur.id as int] + 1
                    }),
        {
            let joined = tree.nodes[cur.id].flags.union(flags);
            let up = tree.nodes[cur.id].parent;
            tree.put_flags(cur, joined);
            proof {
                lemma_mark_step(m, *self, cur);
            }
            match up {
                Some(p) => {
                    cur = p;
                },
                None => {
                    done = true;
                },
            }
        }
        if flags.contains(ChangeFlags::paint()) {
            tree.redraw.push(cur);
        }
        proof {
            assert(before.same_links(tree));
            before.lemma_same_links(tree);
            assert(m.root_of(cur) == cur);
            assert(tree@.flags =~= m.marked_flags(*self, flags));
            assert(tree@.transform =~= m.transform);
            assert(tree@.geometry =~= m.geometry);
            assert(tree@.name =~= m.name);
            assert(tree@.tab_focusable =~= m.tab_focusable);
            assert(tree@.redraw_requests =~= m.mark(*self, flags).redraw_requests);
        }
    }
}

/// One step of the walk that marks a node and its ancestors: the nodes not
/// yet reached from the parent of `cur` are those not yet reached from
/// `cur`, and `cur`.
proof fn lemma_mark_step<X, G>(m: TreeModel<X, G>, target: Element, cur: Element)
    requires
        m.valid(),
        m.contains(target),
        m.contains(cur),
        m.in_subtree(cur, target),
    ensures
        match m.parent[cur.id as int] {
            Some(p) => {
                &&& m.contains(p)
                &&& m.in_subtree(p, target)
                &&& m.rank[p.id as int] < m.rank[cur.id as int]
                &&& forall|i: int|
                    0 <= i < m.len() ==> (!#[trigger] m.in_subtree(node(i), p) <==> (node(i) == cur
                        || !m.in_subtree(node(i), cur)))
            },
            None => forall|i: int|
                0 <= i < m.len() ==> (#[trigger] m.in_subtree(node(i), cur) <==> node(i) == cur),
        },
{
    match m.parent[cur.id as int] {
        Some(p) => {
            if cur != target {
                lemma_ancestor_parent(m.parent, m.rank, cur, target);
            }
            if m.is_ancestor(cur, p) {
                lemma_ancestor_rank(m.parent, m.rank, cur, p);
            }
            assert(!m.in_subtree(cur, p));
        },
        None => {},
    }
}

} // verus!
