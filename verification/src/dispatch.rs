//! Routing of input to the nodes of a window: the target of a pointer
//! event, the enter and leave events that follow from it, click repeat
//! counts, pointer capture and keyboard focus.

use crate::event::{
    Dispatch, MouseButton, PointerButton, PointerButtons, PointerEvent, PointerKind, Position,
};
use crate::tree::arena::Tree;
use crate::tree::model::Element;
use vstd::prelude::*;

verus! {

/// The last click, kept to tell a double click from two clicks.
#[derive(Copy, Clone, Debug, PartialEq, Eq, Structural)]
pub struct LastClick {
    pub device_id: u64,
    pub button: PointerButton,
    pub position: Position,
    /// When the last press of the run happened, in milliseconds.
    pub time: u64,
    pub repeat_count: u32,
}

/// What a window remembers between input events.
pub struct InputState {
    /// The keyboard modifiers held down.
    pub modifiers: u32,
    /// The pointer buttons held down.
    pub pointer_buttons: PointerButtons,
    pub last_click: Option<LastClick>,
    /// The node that captured the pointer, if one did.
    pub pointer_grab: Option<Element>,
    /// The node that has the keyboard focus, if one has.
    pub focus: Option<Element>,
    /// The innermost node that the last hit-test found.
    pub last_innermost_hit: Option<Element>,
    /// The nodes that the last hit-test found, as a set: in the order of
    /// their indices, each once.
    pub last_hits: Vec<Element>,
}

/// Whether the indices of `s` grow strictly: `s` is a set written in order.
pub open spec fn strictly_increasing(s: Seq<Element>) -> bool {
    forall|i: int, j: int| 0 <= i < j < s.len() ==> s[i].id < s[j].id
}

/// The ordered set `s` with `x` added.
pub open spec fn insert_sorted(s: Seq<Element>, x: Element) -> Seq<Element>
    decreases s.len(),
{
    if s.len() == 0 {
        seq![x]
    } else if s.last().id < x.id {
        s.push(x)
    } else if s.last().id == x.id {
        s
    } else {
        insert_sorted(s.drop_last(), x).push(s.last())
    }
}

/// The nodes of `hits` as an ordered set.
pub open spec fn to_set(hits: Seq<Element>) -> Seq<Element>
    decreases hits.len(),
{
    if hits.len() == 0 {
        Seq::empty()
    } else {
        insert_sorted(to_set(hits.drop_last()), hits.last())
    }
}

/// The nodes of `a` that are not in `b`, in the order of `a`.
pub open spec fn difference(a: Seq<Element>, b: Seq<Element>) -> Seq<Element>
    decreases a.len(),
{
    if a.len() == 0 {
        Seq::empty()
    } else if b.contains(a.last()) {
        difference(a.drop_last(), b)
    } else {
        difference(a.drop_last(), b).push(a.last())
    }
}

/// The event that goes with the enter, leave, over and out deliveries of a
/// pointer event: the position and the held buttons, and no button of its
/// own.
pub open spec fn derived_event(
    kind: PointerKind,
    position: Position,
    modifiers: u32,
    buttons: PointerButtons,
) -> PointerEvent {
    PointerEvent {
        kind,
        position,
        modifiers,
        buttons,
        button: None,
        repeat_count: 0,
        request_capture: false,
    }
}

/// One delivery of `event`, not bubbled, to each node of `nodes` in turn.
pub open spec fn deliver_each(nodes: Seq<Element>, event: PointerEvent) -> Seq<Dispatch> {
    Seq::new(nodes.len(), |i: int| Dispatch { target: nodes[i], event, bubbling: false })
}

/// The time from `earlier` to `now`, zero where `earlier` is the later one.
pub open spec fn elapsed(now: u64, earlier: u64) -> int {
    if now >= earlier {
        now - earlier
    } else {
        0
    }
}

/// Whether a button event continues the run of clicks that `last` records:
/// same device, same button, same position, and within the double-click
/// time of the last press of the run.
pub open spec fn continues_run(
    last: Option<LastClick>,
    device_id: u64,
    button: PointerButton,
    position: Position,
    now: u64,
    double_click_time: u64,
) -> bool {
    match last {
        Some(l) => l.device_id == device_id && l.button == button && l.position == position
            && elapsed(now, l.time) < double_click_time,
        None => false,
    }
}

/// The repeat count of a button event.
///
/// A press that continues the run counts one more than the run did (and no
/// further than a `u32` can count); any other press starts a run at 1. A
/// release never counts up: it reads the count of the run it continues, and
/// is 1 where it continues none.
pub open spec fn repeat_count_of(
    last: Option<LastClick>,
    device_id: u64,
    button: PointerButton,
    position: Position,
    now: u64,
    pressed: bool,
    double_click_time: u64,
) -> u32 {
    if continues_run(last, device_id, button, position, now, double_click_time) {
        if pressed {
            if last->0.repeat_count == u32::MAX {
                u32::MAX
            } else {
                (last->0.repeat_count + 1) as u32
            }
        } else {
            last->0.repeat_count
        }
    } else {
        1
    }
}

/// The click record after a button event. A press that continues the run
/// counts up and becomes the last press of the run; a release that continues
/// it leaves the record as it is. Any other press starts a run, any other
/// release ends the run.
pub open spec fn click_after(
    last: Option<LastClick>,
    device_id: u64,
    button: PointerButton,
    position: Position,
    now: u64,
    pressed: bool,
    double_click_time: u64,
) -> Option<LastClick> {
    if continues_run(last, device_id, button, position, now, double_click_time) {
        if pressed {
            Some(
                LastClick {
                    time: now,
                    repeat_count: repeat_count_of(
                        last,
                        device_id,
                        button,
                        position,
                        now,
                        pressed,
                        double_click_time,
                    ),
                    ..last->0
                },
            )
        } else {
            last
        }
    } else if pressed {
        Some(LastClick { device_id, button, position, time: now, repeat_count: 1 })
    } else {
        None
    }
}

/// Adding to an ordered set gives an ordered set that holds what the set
/// held, and the node added.
pub proof fn lemma_insert_sorted(s: Seq<Element>, x: Element)
    requires
        strictly_increasing(s),
    ensures
        strictly_increasing(insert_sorted(s, x)),
        forall|y: Element| #[trigger] insert_sorted(s, x).contains(y) <==> (y == x || s.contains(y)),
    decreases s.len(),
{
    let r = insert_sorted(s, x);
    if s.len() == 0 {
        assert(r[0] == x);
        assert forall|y: Element| #[trigger] r.contains(y) <==> (y == x || s.contains(y)) by {
            if r.contains(y) {
                let k = choose|k: int| 0 <= k < r.len() && r[k] == y;
            }
        }
    } else if s.last().id < x.id {
        assert forall|y: Element| #[trigger] r.contains(y) <==> (y == x || s.contains(y)) by {
            if r.contains(y) {
                let k = choose|k: int| 0 <= k < r.len() && r[k] == y;
                if k < s.len() {
                    assert(s[k] == y);
                }
            }
            if s.contains(y) {
                let k = choose|k: int| 0 <= k < s.len() && s[k] == y;
                assert(r[k] == y);
            }
            if y == x {
                assert(r[s.len() as int] == x);
            }
        }
    } else if s.last().id == x.id {
        assert(s[s.len() - 1] == x);
    } else {
        let front = s.drop_last();
        let inner = insert_sorted(front, x);
        assert(strictly_increasing(front));
        lemma_insert_sorted(front, x);
        assert forall|y: Element| #[trigger] r.contains(y) <==> (y == x || s.contains(y)) by {
            if r.contains(y) {
                let k = choose|k: int| 0 <= k < r.len() && r[k] == y;
                if k < inner.len() {
                    assert(inner.contains(y));
                    if y != x {
                        let j = choose|j: int| 0 <= j < front.len() && front[j] == y;
                        assert(s[j] == y);
                    }
                } else {
                    assert(s[s.len() - 1] == y);
                }
            }
            if s.contains(y) {
                let k = choose|k: int| 0 <= k < s.len() && s[k] == y;
                if k < front.len() {
                    assert(front[k] == y);
                    assert(front.contains(y));
                    assert(inner.contains(y));
                    let j = choose|j: int| 0 <= j < inner.len() && inner[j] == y;
                    assert(r[j] == y);
                } else {
                    assert(r[inner.len() as int] == y);
                }
            }
            if y == x {
                assert(inner.contains(x));
                let j = choose|j: int| 0 <= j < inner.len() && inner[j] == x;
                assert(r[j] == x);
            }
        }
        assert forall|i: int, j: int| 0 <= i < j < r.len() implies r[i].id < r[j].id by {
            if j == inner.len() {
                assert(inner.contains(inner[i]));
                if inner[i] != x {
                    let k = choose|k: int| 0 <= k < front.len() && front[k] == inner[i];
                    assert(s[k].id < s[s.len() - 1].id);
                }
            }
        }
    }
}

/// Where in an ordered set a node goes: at the place before which every
/// index is smaller and from which on every index is larger; or nowhere, if
/// the node before that place is the node itself.
pub proof fn lemma_insert_sorted_at(s: Seq<Element>, x: Element, i: int)
    requires
        0 <= i <= s.len(),
        forall|j: int| i <= j < s.len() ==> s[j].id > x.id,
        i > 0 ==> s[i - 1].id <= x.id,
    ensures
        insert_sorted(s, x) == if i > 0 && s[i - 1].id == x.id {
            s
        } else {
            s.insert(i, x)
        },
    decreases s.len(),
{
    if s.len() == 0 {
        assert(seq![x] =~= s.insert(0, x));
    } else if s.last().id < x.id {
        assert(i == s.len());
        assert(s.push(x) =~= s.insert(i, x));
    } else if s.last().id == x.id {
        assert(i == s.len());
    } else {
        assert(i < s.len());
        let front = s.drop_last();
        lemma_insert_sorted_at(front, x, i);
        if i > 0 && s[i - 1].id == x.id {
            assert(front.push(s.last()) =~= s);
        } else {
            assert(front.insert(i, x).push(s.last()) =~= s.insert(i, x));
        }
    }
}

/// The ordered set of a hit-test path is ordered and holds exactly the
/// nodes of the path.
pub proof fn lemma_to_set(hits: Seq<Element>)
    ensures
        strictly_increasing(to_set(hits)),
        forall|y: Element| #[trigger] to_set(hits).contains(y) <==> hits.contains(y),
    decreases hits.len(),
{
    if hits.len() > 0 {
        let front = hits.drop_last();
        lemma_to_set(front);
        lemma_insert_sorted(to_set(front), hits.last());
        assert forall|y: Element| #[trigger] to_set(hits).contains(y) <==> hits.contains(y) by {
            if hits.contains(y) {
                let k = choose|k: int| 0 <= k < hits.len() && hits[k] == y;
                if k < front.len() {
                    assert(front[k] == y);
                    assert(front.contains(y));
                    assert(to_set(front).contains(y));
                }
            }
            if to_set(hits).contains(y) && y != hits.last() {
                assert(to_set(front).contains(y));
                assert(front.contains(y));
                let k = choose|k: int| 0 <= k < front.len() && front[k] == y;
                assert(hits[k] == y);
            }
            if y == hits.last() {
                assert(hits[hits.len() - 1] == y);
            }
        }
    } else {
        assert forall|y: Element| #[trigger] to_set(hits).contains(y) <==> hits.contains(y) by {
            if to_set(hits).contains(y) {
                let k = choose|k: int| 0 <= k < to_set(hits).len() && to_set(hits)[k] == y;
            }
            if hits.contains(y) {
                let k = choose|k: int| 0 <= k < hits.len() && hits[k] == y;
            }
        }
    }
}

/// A difference holds exactly the nodes of the first set that the second
/// lacks, and is ordered where the first set is.
pub proof fn lemma_difference(a: Seq<Element>, b: Seq<Element>)
    ensures
        forall|y: Element| #[trigger]
            difference(a, b).contains(y) <==> (a.contains(y) && !b.contains(y)),
        strictly_increasing(a) ==> strictly_increasing(difference(a, b)),
        difference(a, b).len() <= a.len(),
    decreases a.len(),
{
    let d = difference(a, b);
    if a.len() > 0 {
        let front = a.drop_last();
        let inner = difference(front, b);
        lemma_difference(front, b);
        assert forall|y: Element| #[trigger] d.contains(y) <==> (a.contains(y) && !b.contains(
            y,
        )) by {
            if d.contains(y) {
                let k = choose|k: int| 0 <= k < d.len() && d[k] == y;
                if k < inner.len() {
                    assert(inner[k] == y);
                    assert(inner.contains(y));
                    assert(front.contains(y));
                    let j = choose|j: int| 0 <= j < front.len() && front[j] == y;
                    assert(a[j] == y);
                } else {
                    assert(a[a.len() - 1] == y);
                }
            }
            if a.contains(y) && !b.contains(y) {
                let k = choose|k: int| 0 <= k < a.len() && a[k] == y;
                if k < front.len() {
                    assert(front[k] == y);
                    assert(front.contains(y));
                    assert(inner.contains(y));
                    let j = choose|j: int| 0 <= j < inner.len() && inner[j] == y;
                    assert(d[j] == y);
                } else {
                    assert(d[d.len() - 1] == y);
                }
            }
        }
        if strictly_increasing(a) {
            assert(strictly_increasing(front));
            assert forall|i: int, j: int| 0 <= i < j < d.len() implies d[i].id < d[j].id by {
                if j == inner.len() {
                    assert(inner.contains(inner[i]));
                    assert(front.contains(inner[i]));
                    let k = choose|k: int| 0 <= k < front.len() && front[k] == inner[i];
                    assert(a[k].id < a[a.len() - 1].id);
                }
            }
        }
    } else {
        assert forall|y: Element| #[trigger] d.contains(y) <==> (a.contains(y) && !b.contains(
            y,
        )) by {
            if d.contains(y) {
                let k = choose|k: int| 0 <= k < d.len() && d[k] == y;
            }
            if a.contains(y) {
                let k = choose|k: int| 0 <= k < a.len() && a[k] == y;
            }
        }
    }
}

/// Whether two buttons are the same.
fn same_button(a: PointerButton, b: PointerButton) -> (r: bool)
    ensures
        r == (a == b),
{
    a.mask() == b.mask()
}

/// Adds `x` to the ordered set `v`.
fn set_insert(v: &mut Vec<Element>, x: Element)
    requires
        strictly_increasing(old(v)@),
    ensures
        final(v)@ == insert_sorted(old(v)@, x),
        strictly_increasing(final(v)@),
{
    let mut i = v.len();
    while i > 0 && v[i - 1].id > x.id
        invariant
            v@ == old(v)@,
            0 <= i <= v@.len(),
            forall|j: int| i <= j < v@.len() ==> v@[j].id > x.id,
        decreases i,
    {
        i = i - 1;
    }
    proof {
        lemma_insert_sorted_at(v@, x, i as int);
        lemma_insert_sorted(v@, x);
    }
    if i > 0 && v[i - 1].id == x.id {
    } else {
        v.insert(i, x);
    }
}

/// Whether `x` is among the nodes of `v`.
fn set_contains(v: &Vec<Element>, x: Element) -> (r: bool)
    ensures
        r == v@.contains(x),
{
    let mut i: usize = 0;
    while i < v.len()
        invariant
            0 <= i <= v@.len(),
            forall|j: int| 0 <= j < i ==> v@[j] != x,
        decreases v@.len() - i,
    {
        if v[i].id == x.id {
            assert(v@[i as int] == x);
            return true;
        }
        i = i + 1;
    }
    false
}

/// The nodes of `a` that `b` lacks, in the order of `a`.
fn set_difference(a: &Vec<Element>, b: &Vec<Element>) -> (r: Vec<Element>)
    ensures
        r@ == difference(a@, b@),
{
    let mut out: Vec<Element> = Vec::new();
    let mut i: usize = 0;
    while i < a.len()
        invariant
            0 <= i <= a@.len(),
            out@ == difference(a@.subrange(0, i as int), b@),
        decreases a@.len() - i,
    {
        let x = a[i];
        proof {
            let next = a@.subrange(0, i + 1);
            assert(next.drop_last() =~= a@.subrange(0, i as int));
            assert(next.last() == x);
        }
        if !set_contains(b, x) {
            out.push(x);
        }
        i = i + 1;
    }
    assert(a@.subrange(0, i as int) =~= a@);
    out
}

/// The nodes of a hit-test path as an ordered set.
fn set_of(hits: &Vec<Element>) -> (r: Vec<Element>)
    ensures
        r@ == to_set(hits@),
        strictly_increasing(r@),
{
    let mut out: Vec<Element> = Vec::new();
    let mut i: usize = 0;
    while i < hits.len()
        invariant
            0 <= i <= hits@.len(),
            out@ == to_set(hits@.subrange(0, i as int)),
            strictly_increasing(out@),
        decreases hits@.len() - i,
    {
        proof {
            let next = hits@.subrange(0, i + 1);
            assert(next.drop_last() =~= hits@.subrange(0, i as int));
            assert(next.last() == hits@[i as int]);
        }
        set_insert(&mut out, hits[i]);
        i = i + 1;
    }
    assert(hits@.subrange(0, i as int) =~= hits@);
    out
}

/// Appends to `plan` one delivery of `event`, not bubbled, to each node of
/// `nodes` in turn.
fn push_each(plan: &mut Vec<Dispatch>, nodes: &Vec<Element>, event: PointerEvent)
    ensures
        final(plan)@ == old(plan)@ + deliver_each(nodes@, event),
{
    let mut i: usize = 0;
    while i < nodes.len()
        invariant
            0 <= i <= nodes@.len(),
            plan@ == old(plan)@ + deliver_each(nodes@, event).subrange(0, i as int),
        decreases nodes@.len() - i,
    {
        plan.push(Dispatch { target: nodes[i], event, bubbling: false });
        i = i + 1;
        assert(plan@ =~= old(plan)@ + deliver_each(nodes@, event).subrange(0, i as int));
    }
    assert(deliver_each(nodes@, event).subrange(0, i as int) =~= deliver_each(nodes@, event));
}

/// The nodes whose handlers an event bound for `target` reaches, in the
/// order in which they are called: `target` first and then, where the event
/// bubbles, its ancestors from the nearest to the root. Empty where `target`
/// is no node of the tree or does not hang below `root`, the root of the
/// window: such a delivery is dropped.
pub open spec fn delivery_chain<X, G>(
    m: crate::tree::model::TreeModel<X, G>,
    root: Element,
    target: Element,
    bubbling: bool,
) -> Seq<Element> {
    if !m.contains(target) || m.ancestors_and_self(target).first() != root {
        Seq::empty()
    } else if bubbling {
        seq![target] + m.ancestors(target)
    } else {
        seq![target]
    }
}

/// The nodes whose handlers an event bound for `target` reaches, in the
/// order in which they are to be called.
pub fn dispatch_event<X, G>(tree: &Tree<X, G>, root: Element, target: Element, bubbling: bool) -> (r:
    Vec<Element>)
    requires
        tree.wf(),
    ensures
        r@ == delivery_chain(tree@, root, target, bubbling),
{
    let mut out: Vec<Element> = Vec::new();
    if !tree.contains(target) {
        return out;
    }
    let chain = target.ancestors_and_self(tree);
    if chain[0].id != root.id {
        return out;
    }
    if bubbling {
        let ghost up = tree@.ancestors(target);
        let mut k = chain.len();
        while k > 0
            invariant
                chain@ == up.reverse().push(target),
                k <= chain@.len(),
                out@.len() == chain@.len() - k,
                forall|j: int| 0 <= j < out@.len() ==> out@[j] == chain@[chain@.len() - 1 - j],
            decreases k,
        {
            k = k - 1;
            out.push(chain[k]);
        }
        assert(out@ =~= seq![target] + up);
    } else {
        out.push(target);
        assert(out@ =~= seq![target]);
    }
    out
}

impl InputState {
    /// The invariant of the input state: the last hits are an ordered set.
    pub open spec fn wf(&self) -> bool {
        strictly_increasing(self.last_hits@)
    }

    /// The innermost node of a hit-test path.
    pub open spec fn innermost(hits: Seq<Element>) -> Option<Element> {
        if hits.len() > 0 {
            Some(hits.last())
        } else {
            None
        }
    }

    /// The node that a pointer event goes to: the node that captured the
    /// pointer, else the innermost node hit.
    pub open spec fn target(&self, hits: Seq<Element>) -> Option<Element> {
        match self.pointer_grab {
            Some(g) => Some(g),
            None => Self::innermost(hits),
        }
    }

    /// The event that follows a pointer event at `position` to the nodes
    /// that the pointer came over or left.
    pub open spec fn follow_up(&self, kind: PointerKind, position: Position) -> PointerEvent {
        derived_event(kind, position, self.modifiers, self.pointer_buttons)
    }

    /// The delivery of the event itself: bubbled from its target, if it has
    /// one.
    pub open spec fn primary_part(&self, hits: Seq<Element>, event: PointerEvent) -> Seq<
        Dispatch,
    > {
        match self.target(hits) {
            Some(t) => seq![Dispatch { target: t, event, bubbling: true }],
            None => Seq::empty(),
        }
    }

    /// `Out`, bubbled from the node that was innermost, where the innermost
    /// node changed.
    pub open spec fn out_part(&self, hits: Seq<Element>, position: Position) -> Seq<Dispatch> {
        if self.last_innermost_hit != Self::innermost(hits) && self.last_innermost_hit is Some {
            seq![
                Dispatch {
                    target: self.last_innermost_hit->0,
                    event: self.follow_up(PointerKind::Out, position),
                    bubbling: true,
                },
            ]
        } else {
            Seq::empty()
        }
    }

    /// `Over`, bubbled from the node that is innermost now, where the
    /// innermost node changed.
    pub open spec fn over_part(&self, hits: Seq<Element>, position: Position) -> Seq<Dispatch> {
        if self.last_innermost_hit != Self::innermost(hits) && Self::innermost(hits) is Some {
            seq![
                Dispatch {
                    target: Self::innermost(hits)->0,
                    event: self.follow_up(PointerKind::Over, position),
                    bubbling: true,
                },
            ]
        } else {
            Seq::empty()
        }
    }

    /// The deliveries that a pointer event leads to, in order: the event
    /// itself, bubbled from its target; `Out`, bubbled from the node that was
    /// innermost, where the innermost node changed; `Leave` to each node that
    /// was hit and no longer is; `Over`, bubbled from the node that is
    /// innermost now, where it changed; `Enter` to each node that is hit and
    /// was not.
    pub open spec fn plan(&self, hits: Seq<Element>, event: PointerEvent) -> Seq<Dispatch> {
        self.primary_part(hits, event) + self.out_part(hits, event.position) + deliver_each(
            difference(self.last_hits@, to_set(hits)),
            self.follow_up(PointerKind::Leave, event.position),
        ) + self.over_part(hits, event.position) + deliver_each(
            difference(to_set(hits), self.last_hits@),
            self.follow_up(PointerKind::Enter, event.position),
        )
    }

    /// Whether `other` is `self` after a pointer event was routed that hit
    /// `hits`: the capture is released and the hits are remembered.
    pub open spec fn routed_to(&self, other: &InputState, hits: Seq<Element>) -> bool {
        &&& other.wf()
        &&& other.pointer_grab is None
        &&& other.last_hits@ == to_set(hits)
        &&& other.last_innermost_hit == Self::innermost(hits)
        &&& other.modifiers == self.modifiers
        &&& other.pointer_buttons == self.pointer_buttons
        &&& other.last_click == self.last_click
        &&& other.focus == self.focus
    }

    /// The held buttons after `button` went down or up.
    pub open spec fn buttons_after(&self, button: PointerButton, pressed: bool) -> PointerButtons {
        if pressed {
            self.pointer_buttons.with(button)
        } else {
            self.pointer_buttons.without(button)
        }
    }

    /// The pointer event that a button going down or up leads to.
    pub open spec fn mouse_event(
        &self,
        device_id: u64,
        button: PointerButton,
        pressed: bool,
        cursor: Position,
        now: u64,
        double_click_time: u64,
    ) -> PointerEvent {
        PointerEvent {
            kind: if pressed {
                PointerKind::Down
            } else {
                PointerKind::Up
            },
            position: cursor,
            modifiers: self.modifiers,
            buttons: self.buttons_after(button, pressed),
            button: Some(button),
            repeat_count: (repeat_count_of(
                self.last_click,
                device_id,
                button,
                cursor,
                now,
                pressed,
                double_click_time,
            ) & 0xff) as u8,
            request_capture: false,
        }
    }

    /// The state after a button went down or up: the held buttons and the
    /// click record are brought up to date.
    pub open spec fn clicked(
        &self,
        device_id: u64,
        button: PointerButton,
        pressed: bool,
        cursor: Position,
        now: u64,
        double_click_time: u64,
    ) -> InputState {
        InputState {
            pointer_buttons: self.buttons_after(button, pressed),
            last_click: click_after(
                self.last_click,
                device_id,
                button,
                cursor,
                now,
                pressed,
                double_click_time,
            ),
            ..*self
        }
    }

    /// Whether `other` differs from `self` at most in the click record and
    /// the held buttons.
    pub open spec fn same_routing(&self, other: &InputState) -> bool {
        &&& other.modifiers == self.modifiers
        &&& other.pointer_grab == self.pointer_grab
        &&& other.focus == self.focus
        &&& other.last_innermost_hit == self.last_innermost_hit
        &&& other.last_hits@ == self.last_hits@
    }

    /// The state of a window that has seen no input.
    pub fn new() -> (r: InputState)
        ensures
            r.wf(),
            r.modifiers == 0,
            r.pointer_buttons.bits == 0,
            r.last_click is None,
            r.pointer_grab is None,
            r.focus is None,
            r.last_innermost_hit is None,
            r.last_hits@.len() == 0,
    {
        InputState {
            modifiers: 0,
            pointer_buttons: PointerButtons::new(),
            last_click: None,
            pointer_grab: None,
            focus: None,
            last_innermost_hit: None,
            last_hits: Vec::new(),
        }
    }

    /// Gives the keyboard focus to `e`.
    pub fn set_focus(&mut self, e: Element)
        ensures
            final(self).focus == Some(e),
            final(self).modifiers == old(self).modifiers,
            final(self).pointer_buttons == old(self).pointer_buttons,
            final(self).last_click == old(self).last_click,
            final(self).pointer_grab == old(self).pointer_grab,
            final(self).last_innermost_hit == old(self).last_innermost_hit,
            final(self).last_hits@ == old(self).last_hits@,
    {
        self.focus = Some(e);
    }

    /// Whether `e` has the keyboard focus.
    pub fn is_focused(&self, e: Element) -> (r: bool)
        ensures
            r == (self.focus == Some(e)),
    {
        match self.focus {
            Some(f) => f.id == e.id,
            None => false,
        }
    }

    /// Lets `e` capture the pointer: the next pointer event goes to `e`
    /// whatever is hit.
    pub fn set_pointer_capture(&mut self, e: Element)
        ensures
            final(self).pointer_grab == Some(e),
            final(self).modifiers == old(self).modifiers,
            final(self).pointer_buttons == old(self).pointer_buttons,
            final(self).last_click == old(self).last_click,
            final(self).focus == old(self).focus,
            final(self).last_innermost_hit == old(self).last_innermost_hit,
            final(self).last_hits@ == old(self).last_hits@,
    {
        self.pointer_grab = Some(e);
    }

    /// Takes a button event of the platform in: records the button as held
    /// or let go, works out the repeat count, and gives the pointer event to
    /// deliver. An extended button changes nothing and gives no event.
    ///
    /// `cursor` is where the pointer is, `now` the time of the event and
    /// `double_click_time` the platform's double-click time, both in
    /// milliseconds.
    pub fn convert_mouse_input(
        &mut self,
        device_id: u64,
        button: MouseButton,
        pressed: bool,
        cursor: Position,
        now: u64,
        double_click_time: u64,
    ) -> (r: Option<PointerEvent>)
        ensures
            old(self).same_routing(final(self)),
            match button.spec_pointer_button() {
                Some(b) => {
                    &&& final(self).pointer_buttons == old(self).buttons_after(b, pressed)
                    &&& final(self).last_click == click_after(
                        old(self).last_click,
                        device_id,
                        b,
                        cursor,
                        now,
                        pressed,
                        double_click_time,
                    )
                    &&& r == Some(
                        old(self).mouse_event(device_id, b, pressed, cursor, now, double_click_time),
                    )
                    &&& *final(self) == old(self).clicked(
                        device_id,
                        b,
                        pressed,
                        cursor,
                        now,
                        double_click_time,
                    )
                },
                None => {
                    &&& r is None
                    &&& *final(self) == *old(self)
                },
            },
    {
        let b = match button.pointer_button() {
            Some(b) => b,
            None => {
                return None;
            },
        };
        if pressed {
            self.pointer_buttons.set(b);
        } else {
            self.pointer_buttons.reset(b);
        }
        let continues = match self.last_click {
            Some(l) => {
                let since = if now >= l.time {
                    now - l.time
                } else {
                    0
                };
                l.device_id == device_id && same_button(l.button, b) && l.position.x == cursor.x
                    && l.position.y == cursor.y && since < double_click_time
            },
            None => false,
        };
        let count: u32 = if continues {
            let l = self.last_click.unwrap();
            if pressed {
                let next = if l.repeat_count == u32::MAX {
                    u32::MAX
                } else {
                    l.repeat_count + 1
                };
                self.last_click = Some(
                    LastClick {
                        device_id: l.device_id,
                        button: l.button,
                        position: l.position,
                        time: now,
                        repeat_count: next,
                    },
                );
                next
            } else {
                l.repeat_count
            }
        } else {
            if pressed {
                self.last_click = Some(
                    LastClick { device_id, button: b, position: cursor, time: now, repeat_count: 1 },
                );
            } else {
                self.last_click = None;
            }
            1
        };
        let low = count & 0xff;
        assert(low <= 255) by (bit_vector)
            requires
                low == count & 0xff,
        ;
        Some(
            PointerEvent {
                kind: if pressed {
                    PointerKind::Down
                } else {
                    PointerKind::Up
                },
                position: cursor,
                modifiers: self.modifiers,
                buttons: self.pointer_buttons,
                button: Some(b),
                repeat_count: low as u8,
                request_capture: false,
            },
        )
    }

    /// Routes a pointer event. `hits` is the hit-test path at the position
    /// of the event, outermost first. Gives the deliveries to make, in
    /// order, releases the capture, and remembers what was hit.
    pub fn dispatch_pointer_event(&mut self, hits: &Vec<Element>, event: PointerEvent) -> (plan:
        Vec<Dispatch>)
        requires
            old(self).wf(),
        ensures
            plan@ == old(self).plan(hits@, event),
            old(self).routed_to(final(self), hits@),
    {
        let innermost = if hits.len() > 0 {
            Some(hits[hits.len() - 1])
        } else {
            None
        };
        let target = match self.pointer_grab {
            Some(g) => Some(g),
            None => innermost,
        };
        self.pointer_grab = None;
        let mut plan: Vec<Dispatch> = Vec::new();
        match target {
            Some(t) => {
                plan.push(Dispatch { target: t, event, bubbling: true });
            },
            None => {},
        }
        assert(plan@ =~= old(self).primary_part(hits@, event));
        let now_hit = set_of(hits);
        let changed = match (self.last_innermost_hit, innermost) {
            (Some(a), Some(b)) => a.id != b.id,
            (None, None) => false,
            _ => true,
        };
        let position = event.position;
        if changed {
            match self.last_innermost_hit {
                Some(out) => {
                    plan.push(
                        Dispatch {
                            target: out,
                            event: PointerEvent {
                                kind: PointerKind::Out,
                                position,
                                modifiers: self.modifiers,
                                buttons: self.pointer_buttons,
                                button: None,
                                repeat_count: 0,
                                request_capture: false,
                            },
                            bubbling: true,
                        },
                    );
                },
                None => {},
            }
        }
        assert(plan@ =~= old(self).primary_part(hits@, event) + old(self).out_part(
            hits@,
            position,
        ));
        let leaving = set_difference(&self.last_hits, &now_hit);
        push_each(
            &mut plan,
            &leaving,
            PointerEvent {
                kind: PointerKind::Leave,
                position,
                modifiers: self.modifiers,
                buttons: self.pointer_buttons,
                button: None,
                repeat_count: 0,
                request_capture: false,
            },
        );
        let ghost upto_leave = plan@;
        if changed {
            match innermost {
                Some(over) => {
                    plan.push(
                        Dispatch {
                            target: over,
                            event: PointerEvent {
                                kind: PointerKind::Over,
                                position,
                                modifiers: self.modifiers,
                                buttons: self.pointer_buttons,
                                button: None,
                                repeat_count: 0,
                                request_capture: false,
                            },
                            bubbling: true,
                        },
                    );
                },
                None => {},
            }
        }
        assert(plan@ =~= upto_leave + old(self).over_part(hits@, position));
        let entering = set_difference(&now_hit, &self.last_hits);
        push_each(
            &mut plan,
            &entering,
            PointerEvent {
                kind: PointerKind::Enter,
                position,
                modifiers: self.modifiers,
                buttons: self.pointer_buttons,
                button: None,
                repeat_count: 0,
                request_capture: false,
            },
        );
        self.last_hits = now_hit;
        self.last_innermost_hit = innermost;
        plan
    }

    /// Releases the capture of the pointer: the next pointer event goes to
    /// the innermost node hit.
    pub fn release_pointer_capture(&mut self)
        ensures
            final(self).pointer_grab is None,
            final(self).modifiers == old(self).modifiers,
            final(self).pointer_buttons == old(self).pointer_buttons,
            final(self).last_click == old(self).last_click,
            final(self).focus == old(self).focus,
            final(self).last_innermost_hit == old(self).last_innermost_hit,
            final(self).last_hits@ == old(self).last_hits@,
    {
        self.pointer_grab = None;
    }

    /// Which nodes a pointer event tells that the pointer came or went: a
    /// node gets `Leave` exactly when it was hit and no longer is, `Enter`
    /// exactly when it is hit and was not, and each at most once. A node
    /// that was hit and still is gets neither.
    pub proof fn lemma_enter_leave(&self, hits: Seq<Element>, x: Element)
        requires
            self.wf(),
        ensures
            difference(self.last_hits@, to_set(hits)).contains(x) <==> (self.last_hits@.contains(x)
                && !hits.contains(x)),
            difference(to_set(hits), self.last_hits@).contains(x) <==> (hits.contains(x)
                && !self.last_hits@.contains(x)),
            strictly_increasing(difference(self.last_hits@, to_set(hits))),
            strictly_increasing(difference(to_set(hits), self.last_hits@)),
    {
        lemma_to_set(hits);
        lemma_difference(self.last_hits@, to_set(hits));
        lemma_difference(to_set(hits), self.last_hits@);
        assert(to_set(hits).contains(x) <==> hits.contains(x));
    }

    /// The node that keyboard events go to: the one that has the focus.
    /// Keyboard events take no part in hit-testing.
    pub fn keyboard_target(&self) -> (r: Option<Element>)
        ensures
            r == self.focus,
    {
        self.focus
    }
}

impl Element {
    /// Requests the keyboard focus for this node.
    pub fn set_focus(&self, input: &mut InputState)
        ensures
            final(input).focus == Some(*self),
            final(input).modifiers == old(input).modifiers,
            final(input).pointer_buttons == old(input).pointer_buttons,
            final(input).last_click == old(input).last_click,
            final(input).pointer_grab == old(input).pointer_grab,
            final(input).last_innermost_hit == old(input).last_innermost_hit,
            final(input).last_hits@ == old(input).last_hits@,
    {
        input.set_focus(*self);
    }

    /// Whether this node has the keyboard focus.
    pub fn has_focus(&self, input: &InputState) -> (r: bool)
        ensures
            r == (input.focus == Some(*self)),
    {
        input.is_focused(*self)
    }

    /// Lets this node capture the pointer: the next pointer event goes to
    /// it whatever is hit.
    pub fn set_pointer_capture(&self, input: &mut InputState)
        ensures
            final(input).pointer_grab == Some(*self),
            final(input).modifiers == old(input).modifiers,
            final(input).pointer_buttons == old(input).pointer_buttons,
            final(input).last_click == old(input).last_click,
            final(input).focus == old(input).focus,
            final(input).last_innermost_hit == old(input).last_innermost_hit,
            final(input).last_hits@ == old(input).last_hits@,
    {
        input.set_pointer_capture(*self);
    }
}

} // verus!
