//! The mathematical model of the node tree and what its operations mean.

use crate::flags::ChangeFlags;
use vstd::prelude::*;

verus! {

/// Handle of a node: its index in the arena. Two handles are the same node
/// exactly when their indices are equal.
#[derive(Copy, Clone, Debug, PartialEq, Eq, PartialOrd, Ord, Hash, Structural)]
pub struct Element {
    pub id: usize,
}

/// The handle with index `i`.
pub open spec fn node(i: int) -> Element {
    Element { id: i as usize }
}

/// Whether following `parent` stays inside the tree and lowers `rank` at
/// each step.
pub open spec fn ranked(parent: Seq<Option<Element>>, rank: Seq<nat>) -> bool {
    &&& rank.len() == parent.len()
    &&& forall|i: int|
        0 <= i < parent.len() ==> match #[trigger] parent[i] {
            Some(p) => p.id < parent.len() && rank[p.id as int] < rank[i],
            None => true,
        }
}

/// Whether `a` is reached from `e` by following `parent` one or more times.
pub open spec fn is_ancestor_in(
    parent: Seq<Option<Element>>,
    rank: Seq<nat>,
    a: Element,
    e: Element,
) -> bool
    decreases rank[e.id as int],
    when ranked(parent, rank) && e.id < parent.len()
{
    match parent[e.id as int] {
        Some(p) => p == a || is_ancestor_in(parent, rank, a, p),
        None => false,
    }
}

/// The node at the top of the tree that `e` hangs in: `e` itself where it
/// has no parent.
pub open spec fn root_in(parent: Seq<Option<Element>>, rank: Seq<nat>, e: Element) -> Element
    decreases rank[e.id as int],
    when ranked(parent, rank) && e.id < parent.len()
{
    match parent[e.id as int] {
        Some(p) => root_in(parent, rank, p),
        None => e,
    }
}

/// The requests of `requests` that are not for `root`, in their order.
pub open spec fn requests_without(requests: Seq<Element>, root: Element) -> Seq<Element>
    decreases requests.len(),
{
    if requests.len() == 0 {
        Seq::empty()
    } else if requests.last() == root {
        requests_without(requests.drop_last(), root)
    } else {
        requests_without(requests.drop_last(), root).push(requests.last())
    }
}

/// The nodes reached from `e` by following `parent`, nearest first.
pub open spec fn ancestors_in(parent: Seq<Option<Element>>, rank: Seq<nat>, e: Element) -> Seq<
    Element,
>
    decreases rank[e.id as int],
    when ranked(parent, rank) && e.id < parent.len()
{
    match parent[e.id as int] {
        Some(p) => seq![p] + ancestors_in(parent, rank, p),
        None => Seq::empty(),
    }
}

/// An ancestor is a node of the tree, and its rank is the smaller one.
pub proof fn lemma_ancestor_rank(
    parent: Seq<Option<Element>>,
    rank: Seq<nat>,
    a: Element,
    e: Element,
)
    requires
        ranked(parent, rank),
        e.id < parent.len(),
        is_ancestor_in(parent, rank, a, e),
    ensures
        a.id < parent.len(),
        rank[a.id as int] < rank[e.id as int],
    decreases rank[e.id as int],
{
    let p = parent[e.id as int]->0;
    if p != a {
        lemma_ancestor_rank(parent, rank, a, p);
    }
}

/// The parent of an ancestor of `e` is an ancestor of `e`.
pub proof fn lemma_ancestor_parent(
    parent: Seq<Option<Element>>,
    rank: Seq<nat>,
    a: Element,
    e: Element,
)
    requires
        ranked(parent, rank),
        e.id < parent.len(),
        is_ancestor_in(parent, rank, a, e),
        a.id < parent.len(),
        parent[a.id as int] is Some,
    ensures
        is_ancestor_in(parent, rank, parent[a.id as int]->0, e),
    decreases rank[e.id as int],
{
    let p = parent[e.id as int]->0;
    let q = parent[a.id as int]->0;
    if p != a {
        lemma_ancestor_parent(parent, rank, a, p);
    } else {
        assert(is_ancestor_in(parent, rank, q, a));
    }
}

/// The sequence of ancestors holds exactly the ancestors, all of them nodes
/// of the tree, and is no longer than the rank of the node.
pub proof fn lemma_ancestors(parent: Seq<Option<Element>>, rank: Seq<nat>, e: Element)
    requires
        ranked(parent, rank),
        e.id < parent.len(),
    ensures
        ancestors_in(parent, rank, e).len() <= rank[e.id as int],
        forall|a: Element| #[trigger]
            ancestors_in(parent, rank, e).contains(a) ==> is_ancestor_in(parent, rank, a, e),
        forall|a: Element| #[trigger]
            is_ancestor_in(parent, rank, a, e) ==> ancestors_in(parent, rank, e).contains(a),
        forall|k: int|
            0 <= k < ancestors_in(parent, rank, e).len() ==> (#[trigger] ancestors_in(
                parent,
                rank,
                e,
            )[k]).id < parent.len(),
    decreases rank[e.id as int],
{
    match parent[e.id as int] {
        Some(p) => {
            lemma_ancestors(parent, rank, p);
            let rest = ancestors_in(parent, rank, p);
            let all = ancestors_in(parent, rank, e);
            assert(all == seq![p] + rest);
            assert forall|a: Element| #[trigger] all.contains(a) implies is_ancestor_in(
                parent,
                rank,
                a,
                e,
            ) by {
                let k = choose|k: int| 0 <= k < all.len() && all[k] == a;
                if k > 0 {
                    assert(rest[k - 1] == a);
                    assert(rest.contains(a));
                }
            }
            assert forall|a: Element| #[trigger]
                is_ancestor_in(parent, rank, a, e) implies all.contains(a) by {
                if p == a {
                    assert(all[0] == a);
                } else {
                    assert(is_ancestor_in(parent, rank, a, p));
                    assert(rest.contains(a));
                    let k = choose|k: int| 0 <= k < rest.len() && rest[k] == a;
                    assert(all[k + 1] == a);
                }
            }
            assert forall|k: int| 0 <= k < all.len() implies (#[trigger] all[k]).id
                < parent.len() by {
                if k > 0 {
                    assert(all[k] == rest[k - 1]);
                }
            }
        },
        None => {},
    }
}

/// Taking edges away keeps what is left of the ancestry: whether `c` is an
/// ancestor of `x` does not depend on where `c` itself hangs.
pub proof fn lemma_subtree_without_parent(
    parent: Seq<Option<Element>>,
    rank: Seq<nat>,
    c: Element,
    x: Element,
)
    requires
        ranked(parent, rank),
        c.id < parent.len(),
        x.id < parent.len(),
    ensures
        is_ancestor_in(parent.update(c.id as int, None), rank, c, x) == is_ancestor_in(
            parent,
            rank,
            c,
            x,
        ),
    decreases rank[x.id as int],
{
    let cut = parent.update(c.id as int, None);
    assert(ranked(cut, rank));
    if x != c {
        match parent[x.id as int] {
            Some(y) => {
                if y != c {
                    lemma_subtree_without_parent(parent, rank, c, y);
                }
            },
            None => {},
        }
    } else {
        if is_ancestor_in(parent, rank, c, c) {
            lemma_ancestor_rank(parent, rank, c, c);
        }
    }
}

/// Whether the child lists stay inside the tree and agree with `parent`,
/// and ranks grow from parent to child below `limit`.
pub open spec fn shaped(
    parent: Seq<Option<Element>>,
    children: Seq<Seq<Element>>,
    rank: Seq<nat>,
    limit: nat,
) -> bool {
    &&& ranked(parent, rank)
    &&& children.len() == parent.len()
    &&& forall|i: int| 0 <= i < parent.len() ==> #[trigger] rank[i] < limit
    &&& forall|p: int, k: int|
        0 <= p < parent.len() && 0 <= k < children[p].len() ==> {
            let c = #[trigger] children[p][k];
            c.id < parent.len() && parent[c.id as int] == Some(node(p))
        }
}

/// The nodes of the subtree of `e`: `e` first, then the subtree of each of
/// its children in turn.
pub open spec fn preorder_in(
    parent: Seq<Option<Element>>,
    children: Seq<Seq<Element>>,
    rank: Seq<nat>,
    limit: nat,
    e: Element,
) -> Seq<Element>
    decreases limit - rank[e.id as int], children[e.id as int].len() + 1,
    when shaped(parent, children, rank, limit) && e.id < parent.len()
{
    seq![e] + preorder_among(parent, children, rank, limit, e, 0)
}

/// The nodes of the subtrees of the children of `e`, from its `k`-th child
/// on.
pub open spec fn preorder_among(
    parent: Seq<Option<Element>>,
    children: Seq<Seq<Element>>,
    rank: Seq<nat>,
    limit: nat,
    e: Element,
    k: int,
) -> Seq<Element>
    decreases limit - rank[e.id as int], children[e.id as int].len() - k,
    when shaped(parent, children, rank, limit) && e.id < parent.len() && 0 <= k
{
    if k >= children[e.id as int].len() {
        Seq::empty()
    } else {
        preorder_in(parent, children, rank, limit, children[e.id as int][k]) + preorder_among(
            parent,
            children,
            rank,
            limit,
            e,
            k + 1,
        )
    }
}

/// The child of `e` that is `x` or an ancestor of `x`, for a node `x`
/// strictly below `e`.
pub open spec fn branch_in(
    parent: Seq<Option<Element>>,
    rank: Seq<nat>,
    e: Element,
    x: Element,
) -> Element
    decreases rank[x.id as int],
    when ranked(parent, rank) && x.id < parent.len()
{
    match parent[x.id as int] {
        Some(p) => if p == e {
            x
        } else {
            branch_in(parent, rank, e, p)
        },
        None => x,
    }
}

/// The node through which a node strictly below `e` is reached is a child
/// of `e`.
pub proof fn lemma_branch_is_child(
    parent: Seq<Option<Element>>,
    rank: Seq<nat>,
    e: Element,
    x: Element,
)
    requires
        ranked(parent, rank),
        x.id < parent.len(),
        is_ancestor_in(parent, rank, e, x),
    ensures
        branch_in(parent, rank, e, x).id < parent.len(),
        parent[branch_in(parent, rank, e, x).id as int] == Some(e),
    decreases rank[x.id as int],
{
    let p = parent[x.id as int]->0;
    if p != e {
        lemma_branch_is_child(parent, rank, e, p);
    }
}

/// A node lies in the subtree of a child of `e` exactly when it lies
/// strictly below `e` and is reached through that child.
pub proof fn lemma_branch(
    parent: Seq<Option<Element>>,
    rank: Seq<nat>,
    e: Element,
    c: Element,
    x: Element,
)
    requires
        ranked(parent, rank),
        x.id < parent.len(),
        c.id < parent.len(),
        parent[c.id as int] == Some(e),
    ensures
        (c == x || is_ancestor_in(parent, rank, c, x)) <==> (is_ancestor_in(parent, rank, e, x)
            && branch_in(parent, rank, e, x) == c),
    decreases rank[x.id as int],
{
    match parent[x.id as int] {
        Some(p) => {
            if p == e {
                if is_ancestor_in(parent, rank, c, x) {
                    lemma_ancestor_rank(parent, rank, c, x);
                    if c != e {
                        if is_ancestor_in(parent, rank, c, e) {
                            lemma_ancestor_rank(parent, rank, c, e);
                        }
                    }
                }
            } else {
                lemma_branch(parent, rank, e, c, p);
                if p == c {
                    assert(is_ancestor_in(parent, rank, e, p));
                }
            }
        },
        None => {},
    }
}

/// What a tree holds, node by node. Every sequence is indexed by the node's
/// index.
#[verifier::ext_equal]
pub struct TreeModel<X, G> {
    /// The parent of each node, `None` for a node that hangs nowhere.
    pub parent: Seq<Option<Element>>,
    /// The children of each node, first to last.
    pub children: Seq<Seq<Element>>,
    /// A number that is smaller on a parent than on each of its children. It
    /// witnesses that following parents ends.
    pub rank: Seq<nat>,
    /// A number above every rank. It bounds the descent through children.
    pub limit: nat,
    /// The dirty flags of each node.
    pub flags: Seq<ChangeFlags>,
    /// The local-to-parent transform of each node.
    pub transform: Seq<X>,
    /// The geometry that the last layout pass gave each node.
    pub geometry: Seq<G>,
    /// The debug label of each node.
    pub name: Seq<Seq<char>>,
    /// Whether each node takes part in tab navigation.
    pub tab_focusable: Seq<bool>,
    /// The roots for whose owning window a redraw was requested and not yet
    /// taken, oldest first.
    pub redraw_requests: Seq<Element>,
}

impl<X, G> TreeModel<X, G> {
    /// The number of nodes.
    pub open spec fn len(self) -> nat {
        self.parent.len()
    }

    /// Whether `e` is a node of this tree.
    pub open spec fn contains(self, e: Element) -> bool {
        e.id < self.len()
    }

    /// The tree invariant: parents and child lists agree, no node occurs
    /// twice among the children of a node, and ranks grow from parent to
    /// child below the limit.
    pub open spec fn valid(self) -> bool {
        &&& self.children.len() == self.len()
        &&& self.rank.len() == self.len()
        &&& self.flags.len() == self.len()
        &&& self.transform.len() == self.len()
        &&& self.geometry.len() == self.len()
        &&& self.name.len() == self.len()
        &&& self.tab_focusable.len() == self.len()
        &&& self.len() <= usize::MAX
        &&& forall|i: int| 0 <= i < self.len() ==> #[trigger] self.rank[i] < self.limit
        &&& forall|i: int|
            0 <= i < self.len() ==> match #[trigger] self.parent[i] {
                Some(p) => {
                    &&& self.contains(p)
                    &&& self.rank[p.id as int] < self.rank[i]
                    &&& self.children[p.id as int].contains(node(i))
                },
                None => true,
            }
        &&& forall|p: int, k: int|
            0 <= p < self.len() && 0 <= k < self.children[p].len() ==> {
                let c = #[trigger] self.children[p][k];
                self.contains(c) && self.parent[c.id as int] == Some(node(p))
            }
        &&& forall|p: int, j: int, k: int|
            0 <= p < self.len() && 0 <= j < k < self.children[p].len()
                ==> self.children[p][j] != self.children[p][k]
    }

    /// Whether `a` is a strict ancestor of `e`.
    pub open spec fn is_ancestor(self, a: Element, e: Element) -> bool {
        is_ancestor_in(self.parent, self.rank, a, e)
    }

    /// Whether `a` is `e` or a strict ancestor of `e`; in other words,
    /// whether `e` lies in the subtree of `a`.
    pub open spec fn in_subtree(self, a: Element, e: Element) -> bool {
        a == e || self.is_ancestor(a, e)
    }

    /// The root of the tree that `e` hangs in.
    pub open spec fn root_of(self, e: Element) -> Element {
        root_in(self.parent, self.rank, e)
    }

    /// The strict ancestors of `e`, nearest first.
    pub open spec fn ancestors(self, e: Element) -> Seq<Element> {
        ancestors_in(self.parent, self.rank, e)
    }

    /// The ancestors of `e` from the root down, then `e` itself.
    pub open spec fn ancestors_and_self(self, e: Element) -> Seq<Element> {
        self.ancestors(e).reverse().push(e)
    }

    /// The position of `e` among the children of its parent.
    pub open spec fn child_index(self, e: Element) -> int {
        match self.parent[e.id as int] {
            Some(p) => self.children[p.id as int].index_of(e),
            None => 0,
        }
    }

    /// The sibling that follows `e`, if it has one.
    pub open spec fn next_sibling(self, e: Element) -> Option<Element> {
        match self.parent[e.id as int] {
            Some(p) => {
                let i = self.child_index(e);
                if i + 1 < self.children[p.id as int].len() {
                    Some(self.children[p.id as int][i + 1])
                } else {
                    None
                }
            },
            None => None,
        }
    }

    /// The sibling that precedes `e`, if it has one.
    pub open spec fn prev_sibling(self, e: Element) -> Option<Element> {
        match self.parent[e.id as int] {
            Some(p) => {
                let i = self.child_index(e);
                if i > 0 {
                    Some(self.children[p.id as int][i - 1])
                } else {
                    None
                }
            },
            None => None,
        }
    }

    /// The first following sibling found on the way up from `e`: that of
    /// `e` itself, else that of its parent, and so on to the root.
    pub open spec fn next_from(self, e: Element) -> Option<Element>
        decreases self.rank[e.id as int],
        when self.valid() && self.contains(e)
    {
        match self.next_sibling(e) {
            Some(n) => Some(n),
            None => match self.parent[e.id as int] {
                Some(p) => self.next_from(p),
                None => None,
            },
        }
    }

    /// The node that follows `e` in a depth-first walk: its first child if
    /// it has children, else the first following sibling on the way up.
    /// `None` where the walk ends.
    pub open spec fn successor(self, e: Element) -> Option<Element> {
        if self.children[e.id as int].len() > 0 {
            Some(self.children[e.id as int][0])
        } else {
            self.next_from(e)
        }
    }

    /// The hit-test path below and including `e`: `e` itself where its own
    /// bounds hold the point, then the path of its first child that is hit.
    /// `own[i]` says whether the bounds of node `i` hold the point.
    pub open spec fn hit_path(self, e: Element, own: Seq<bool>) -> Seq<Element>
        decreases self.limit - self.rank[e.id as int], self.children[e.id as int].len() + 1,
        when self.valid() && self.contains(e) && own.len() == self.len()
    {
        (if own[e.id as int] {
            seq![e]
        } else {
            Seq::empty()
        }) + self.hit_among(e, 0, own)
    }

    /// The hit-test path of the first child of `e`, from its `k`-th child
    /// on, that is hit; empty where none is.
    pub open spec fn hit_among(self, e: Element, k: int, own: Seq<bool>) -> Seq<Element>
        decreases self.limit - self.rank[e.id as int], self.children[e.id as int].len() - k,
        when self.valid() && self.contains(e) && own.len() == self.len() && 0 <= k
    {
        if k >= self.children[e.id as int].len() {
            Seq::empty()
        } else {
            let sub = self.hit_path(self.children[e.id as int][k], own);
            if sub.len() > 0 {
                sub
            } else {
                self.hit_among(e, k + 1, own)
            }
        }
    }

    /// The nodes of the subtree of `e` in the order in which they are
    /// painted: `e` first, then the subtree of each child in turn.
    pub open spec fn preorder(self, e: Element) -> Seq<Element> {
        preorder_in(self.parent, self.children, self.rank, self.limit, e)
    }

    /// The child of `e` through which `x`, a node strictly below `e`, is
    /// reached.
    pub open spec fn branch(self, e: Element, x: Element) -> Element {
        branch_in(self.parent, self.rank, e, x)
    }

    /// The tree after the layout of `e` ended: the node holds the geometry
    /// that the layout gave it, and its layout flag is cleared.
    pub open spec fn laid_out(self, e: Element, geometry: G) -> Self {
        TreeModel {
            geometry: self.geometry.update(e.id as int, geometry),
            flags: self.flags.update(
                e.id as int,
                self.flags[e.id as int].spec_difference(ChangeFlags::spec_layout()),
            ),
            ..self
        }
    }

    /// The tree after a layout pass that visited the nodes of `steps` in
    /// turn, giving each the geometry that stands with it.
    pub open spec fn layout_pass(self, steps: Seq<(Element, G)>) -> Self
        decreases steps.len(),
    {
        if steps.len() == 0 {
            self
        } else {
            self.layout_pass(steps.drop_last()).laid_out(steps.last().0, steps.last().1)
        }
    }

    /// The tree after the paint pass ran over the subtree of `e`: the paint
    /// flag of every node that the pass visits, `e` and every node below it,
    /// is cleared.
    pub open spec fn painted(self, e: Element) -> Self {
        TreeModel {
            flags: Seq::new(
                self.len(),
                |i: int|
                    if self.in_subtree(e, node(i)) {
                        self.flags[i].spec_difference(ChangeFlags::spec_paint())
                    } else {
                        self.flags[i]
                    },
            ),
            ..self
        }
    }

    /// The flags of every node after `f` was set on `e` and on each of its
    /// ancestors.
    pub open spec fn marked_flags(self, e: Element, f: ChangeFlags) -> Seq<ChangeFlags> {
        Seq::new(
            self.len(),
            |i: int|
                if self.in_subtree(node(i), e) {
                    self.flags[i].spec_union(f)
                } else {
                    self.flags[i]
                },
        )
    }

    /// The tree after `f` was set on `e` and on each of its ancestors. Where
    /// `f` holds the paint flag, a redraw of the window that owns the root of
    /// `e` is requested.
    pub open spec fn mark(self, e: Element, f: ChangeFlags) -> Self {
        TreeModel {
            flags: self.marked_flags(e, f),
            redraw_requests: if f.spec_contains(ChangeFlags::spec_paint()) {
                self.redraw_requests.push(self.root_of(e))
            } else {
                self.redraw_requests
            },
            ..self
        }
    }

    /// The tree after `e` was taken out of its parent's child list. The
    /// former parent and its ancestors are marked for layout and paint. A
    /// node without a parent stays as it is.
    pub open spec fn detach(self, e: Element) -> Self {
        match self.parent[e.id as int] {
            Some(p) => {
                let m = self.mark(p, ChangeFlags::spec_all());
                TreeModel {
                    parent: m.parent.update(e.id as int, None),
                    children: m.children.update(
                        p.id as int,
                        m.children[p.id as int].remove(self.child_index(e)),
                    ),
                    ..m
                }
            },
            None => self,
        }
    }

    /// The ranks after the subtree of `c` was lifted above every rank in
    /// use, so that `c` can hang below any node outside that subtree.
    pub open spec fn lifted_rank(self, c: Element) -> Seq<nat> {
        Seq::new(
            self.len(),
            |i: int|
                if self.in_subtree(c, node(i)) {
                    self.rank[i] + self.limit
                } else {
                    self.rank[i]
                },
        )
    }

    /// The tree after the parentless node `c` was placed among the children
    /// of `p` at position `at`.
    pub open spec fn link(self, p: Element, at: int, c: Element) -> Self {
        TreeModel {
            parent: self.parent.update(c.id as int, Some(p)),
            children: self.children.update(
                p.id as int,
                self.children[p.id as int].insert(at, c),
            ),
            rank: self.lifted_rank(c),
            limit: self.limit + self.limit,
            ..self
        }
    }

    /// The tree after `c` was detached and then appended to the children of
    /// `p`, which is marked for layout and paint together with its ancestors.
    pub open spec fn add_child(self, p: Element, c: Element) -> Self {
        let m = self.detach(c).mark(p, ChangeFlags::spec_all());
        m.link(p, m.children[p.id as int].len() as int, c)
    }

    /// The tree after `c` was detached and then placed right after `s` among
    /// the children of the parent of `s`, which is marked for layout and
    /// paint together with its ancestors.
    pub open spec fn insert_after(self, s: Element, c: Element) -> Self {
        let d = self.detach(c);
        match d.parent[s.id as int] {
            Some(p) => {
                let m = d.mark(p, ChangeFlags::spec_all());
                m.link(p, m.child_index(s) + 1, c)
            },
            None => d,
        }
    }

    /// The tree after every child of `p` was let go of.
    pub open spec fn clear_children(self, p: Element) -> Self {
        TreeModel {
            parent: Seq::new(
                self.len(),
                |i: int|
                    if self.parent[i] == Some(p) {
                        None
                    } else {
                        self.parent[i]
                    },
            ),
            children: self.children.update(p.id as int, Seq::empty()),
            ..self
        }
    }

    /// The tree with one more node, which hangs nowhere, has no children and
    /// owes both passes.
    pub open spec fn with_node(self, transform: X, geometry: G, name: Seq<char>) -> Self {
        TreeModel {
            parent: self.parent.push(None),
            children: self.children.push(Seq::empty()),
            rank: self.rank.push(0),
            limit: self.limit + 1,
            flags: self.flags.push(ChangeFlags::spec_all()),
            transform: self.transform.push(transform),
            geometry: self.geometry.push(geometry),
            name: self.name.push(name),
            tab_focusable: self.tab_focusable.push(false),
            redraw_requests: self.redraw_requests,
        }
    }
}

} // verus!
