//! The broadcast handler: one emitter, many listeners, and an emission that
//! is over only when every listener that was woken for it has seen the
//! value or has gone.
//!
//! The handler is written as the steps that the emitter's and the
//! listeners' futures take when they are polled. The futures themselves are
//! made around these steps by the caller. A step takes the waker of the task
//! that polls and hands out the wakers of the tasks that it has made ready:
//! the caller wakes them.

use crate::waker::will_wake;
use slab::Slab;
use std::task::Waker;
use vstd::pervasive::cloned;
use vstd::prelude::*;

verus! {

#[verifier::external_type_specification]
#[verifier::external_body]
#[verifier::reject_recursive_types(T)]
pub struct ExSlab<T>(Slab<T>);

/// One listener of a handler.
pub struct Listener {
    /// Whether the listener was woken for an emission that it has not seen
    /// yet.
    pub notified: bool,
    /// The waker that the listener left at its last poll.
    pub waker: Option<Waker>,
}

/// The listeners that a slab holds, by their keys.
pub uninterp spec fn slab_entries(slab: Slab<Listener>) -> Map<usize, Listener>;

/// `Slab::new`: a slab that holds nothing.
#[verifier::external_body]
fn slab_new() -> (r: Slab<Listener>)
    ensures
        forall|k: usize| !slab_entries(r).contains_key(k),
{
    Slab::new()
}

/// `Slab::insert`: stores the listener under a key that was not in use, and
/// gives that key. What was stored before stays.
#[verifier::external_body]
fn slab_insert(slab: &mut Slab<Listener>, listener: Listener) -> (key: usize)
    ensures
        !slab_entries(*old(slab)).contains_key(key),
        slab_entries(*final(slab)) == slab_entries(*old(slab)).insert(key, listener),
{
    slab.insert(listener)
}

/// `Slab::remove`: takes out and gives what is stored under `key`, which
/// must be in use. What is stored under other keys stays.
#[verifier::external_body]
fn slab_remove(slab: &mut Slab<Listener>, key: usize) -> (listener: Listener)
    requires
        slab_entries(*old(slab)).contains_key(key),
    ensures
        listener == slab_entries(*old(slab))[key],
        slab_entries(*final(slab)) == slab_entries(*old(slab)).remove(key),
{
    slab.remove(key)
}

/// `Slab::contains`: whether something is stored under `key`.
#[verifier::external_body]
fn slab_contains(slab: &Slab<Listener>, key: usize) -> (r: bool)
    ensures
        r == slab_entries(*slab).contains_key(key),
{
    slab.contains(key)
}

/// `Slab::get`: what is stored under `key`, which must be in use.
#[verifier::external_body]
fn slab_get(slab: &Slab<Listener>, key: usize) -> (listener: &Listener)
    requires
        slab_entries(*slab).contains_key(key),
    ensures
        *listener == slab_entries(*slab)[key],
{
    slab.get(key).unwrap()
}

/// `Slab::get_mut`: the listener stored under `key`, which must be in use,
/// to be changed in place. What is stored under other keys stays.
#[verifier::external_body]
fn slab_get_mut(slab: &mut Slab<Listener>, key: usize) -> (listener: &mut Listener)
    requires
        slab_entries(*old(slab)).contains_key(key),
    ensures
        *listener == slab_entries(*old(slab))[key],
        slab_entries(*final(slab)) == slab_entries(*old(slab)).insert(key, *final(listener)),
{
    slab.get_mut(key).unwrap()
}

/// `Slab::iter`, of which only the keys are kept: the keys in use, each
/// once, in growing order.
#[verifier::external_body]
fn slab_keys(slab: &Slab<Listener>) -> (keys: Vec<usize>)
    ensures
        forall|k: usize| keys@.contains(k) <==> slab_entries(*slab).contains_key(k),
        forall|i: int, j: int| 0 <= i < j < keys@.len() ==> keys@[i] < keys@[j],
{
    slab.iter().map(|(key, _)| key).collect()
}

/// What a handler holds.
pub struct HandlerModel<T> {
    /// The registered listeners, by their slots.
    pub listeners: Map<usize, Listener>,
    /// How many listeners were woken and have not yet seen the value.
    pub ack_remaining: nat,
    /// The value of the emission in flight, or of the last one.
    pub value: Option<T>,
    /// The waker that the emitter left, to be woken with once every woken
    /// listener has seen the value.
    pub sender_waker: Option<Waker>,
}

/// A listener that an emission has made ready: its slot, and the waker that
/// it had left, which is to be woken.
pub struct Woken {
    pub slot: usize,
    pub waker: Waker,
}

/// What a poll of a listener gives.
pub struct Polled<T> {
    /// The value, for a listener that was woken.
    pub value: Option<T>,
    /// The waker of the emitter, which is to be woken: handed out to the
    /// last listener that an emission waits for.
    pub wake: Option<Waker>,
}

/// The slots whose listener is woken and has not seen the value.
pub open spec fn notified_slots(listeners: Map<usize, Listener>) -> Set<usize> {
    listeners.dom().filter(|k: usize| listeners[k].notified)
}

/// The slots whose listener left a waker.
pub open spec fn waiting_slots(listeners: Map<usize, Listener>) -> Set<usize> {
    listeners.dom().filter(|k: usize| listeners[k].waker is Some)
}

/// A listener after an emission reached it: woken, its waker handed out, if
/// it had left one; as it was, if it had not.
pub open spec fn notify(listener: Listener) -> Listener {
    if listener.waker is Some {
        Listener { notified: true, waker: None }
    } else {
        listener
    }
}

/// Whether `woken` holds the listeners that an emission makes ready: every
/// listener that had left a waker, once, with that waker, in the order of
/// the slots.
pub open spec fn woken_by(listeners: Map<usize, Listener>, woken: Seq<Woken>) -> bool {
    &&& forall|i: int, j: int| 0 <= i < j < woken.len() ==> woken[i].slot < woken[j].slot
    &&& forall|i: int|
        0 <= i < woken.len() ==> listeners.contains_key((#[trigger] woken[i]).slot)
            && listeners[woken[i].slot].waker == Some(woken[i].waker)
    &&& forall|slot: usize| #[trigger]
        waiting_slots(listeners).contains(slot) ==> exists|i: int|
            0 <= i < woken.len() && (#[trigger] woken[i]).slot == slot
}

impl<T> HandlerModel<T> {
    /// The invariant of a handler: the count of outstanding acknowledgements
    /// is the number of woken listeners, and while it is not zero there is a
    /// value to see.
    pub open spec fn valid(self) -> bool {
        &&& self.listeners.dom().finite()
        &&& self.ack_remaining == notified_slots(self.listeners).len()
        &&& self.ack_remaining > 0 ==> self.value is Some
    }

    /// Whether the handler is ready for an emission: no woken listener is
    /// still to see the value of the last one.
    pub open spec fn is_ready(self) -> bool {
        self.ack_remaining == 0
    }

    /// The handler after `value` was emitted. Without listeners nothing
    /// changes. Else the value is stored and every listener that had left a
    /// waker is woken and counted; a listener that had left none is passed
    /// over.
    pub open spec fn emit(self, value: T) -> Self {
        if self.listeners.dom().len() == 0 {
            self
        } else {
            HandlerModel {
                listeners: Map::new(
                    |k: usize| self.listeners.contains_key(k),
                    |k: usize| notify(self.listeners[k]),
                ),
                ack_remaining: waiting_slots(self.listeners).len(),
                value: Some(value),
                sender_waker: self.sender_waker,
            }
        }
    }

    /// The waker that the next listener to be accounted for is handed: that
    /// of the emitter, if that listener is the last one that the emission
    /// waits for.
    pub open spec fn emitter_to_wake(self) -> Option<Waker> {
        if self.ack_remaining == 1 {
            self.sender_waker
        } else {
            None
        }
    }

    /// The handler after one woken listener was accounted for, because it
    /// saw the value or because it went away. With the last one the waker of
    /// the emitter leaves the handler.
    pub open spec fn acknowledged(self, listeners: Map<usize, Listener>) -> Self {
        HandlerModel {
            listeners,
            ack_remaining: (self.ack_remaining - 1) as nat,
            value: self.value,
            sender_waker: if self.ack_remaining == 1 {
                None
            } else {
                self.sender_waker
            },
        }
    }

    /// The handler after the listener in `slot` was polled with `waker`. A
    /// woken listener sees the value and is accounted for; any other leaves
    /// the waker and goes on waiting.
    pub open spec fn polled(self, slot: usize, waker: Waker) -> Self {
        if self.listeners[slot].notified {
            self.acknowledged(
                self.listeners.insert(
                    slot,
                    Listener { notified: false, waker: self.listeners[slot].waker },
                ),
            )
        } else {
            HandlerModel {
                listeners: self.listeners.insert(
                    slot,
                    Listener { notified: false, waker: Some(waker) },
                ),
                ..self
            }
        }
    }

    /// The handler after the listener in `slot` went away. If it was woken
    /// and had not seen the value it is accounted for all the same.
    pub open spec fn unregistered(self, slot: usize) -> Self {
        if self.listeners[slot].notified {
            self.acknowledged(self.listeners.remove(slot))
        } else {
            HandlerModel { listeners: self.listeners.remove(slot), ..self }
        }
    }
}

/// A handler of events of type `T`.
pub struct Handler<T> {
    ack_remaining: usize,
    listeners: Slab<Listener>,
    sender_waker: Option<Waker>,
    value: Option<T>,
}

impl<T> View for Handler<T> {
    type V = HandlerModel<T>;

    closed spec fn view(&self) -> HandlerModel<T> {
        HandlerModel {
            listeners: slab_entries(self.listeners),
            ack_remaining: self.ack_remaining as nat,
            value: self.value,
            sender_waker: self.sender_waker,
        }
    }
}

/// The woken slots of a map of listeners in which one slot was replaced or
/// removed.
proof fn lemma_notified_slots(listeners: Map<usize, Listener>, slot: usize, to: Listener)
    requires
        listeners.dom().finite(),
    ensures
        notified_slots(listeners.insert(slot, to)) == if to.notified {
            notified_slots(listeners).insert(slot)
        } else {
            notified_slots(listeners).remove(slot)
        },
        notified_slots(listeners.remove(slot)) == notified_slots(listeners).remove(slot),
        notified_slots(listeners).finite(),
        notified_slots(listeners).contains(slot) ==> notified_slots(listeners).len() >= 1,
{
    assert(notified_slots(listeners.insert(slot, to)) =~= if to.notified {
        notified_slots(listeners).insert(slot)
    } else {
        notified_slots(listeners).remove(slot)
    });
    assert(notified_slots(listeners.remove(slot)) =~= notified_slots(listeners).remove(slot));
    listeners.dom().lemma_len_filter(|k: usize| listeners[k].notified);
    if notified_slots(listeners).contains(slot) {
        assert(notified_slots(listeners).remove(slot).len() >= 0);
    }
}

/// A set of listeners that is not empty has a size, and a ready handler has
/// no woken listener.
proof fn lemma_ready_listeners(listeners: Map<usize, Listener>)
    requires
        listeners.dom().finite(),
        notified_slots(listeners).len() == 0,
    ensures
        forall|k: usize| listeners.contains_key(k) ==> !(#[trigger] listeners[k]).notified,
{
    listeners.dom().lemma_len_filter(|k: usize| listeners[k].notified);
    notified_slots(listeners).lemma_len0_is_empty();
    assert forall|k: usize| listeners.contains_key(k) implies !(#[trigger] listeners[k]).notified by {
        if listeners[k].notified {
            assert(notified_slots(listeners).contains(k));
        }
    }
}

impl<T> HandlerModel<T> {
    /// A handler is ready exactly when no listener is woken without having
    /// seen the value.
    pub proof fn lemma_ready_iff_all_seen(self)
        requires
            self.valid(),
        ensures
            self.is_ready() <==> forall|slot: usize|
                self.listeners.contains_key(slot) ==> !(#[trigger] self.listeners[slot]).notified,
    {
        let woken = notified_slots(self.listeners);
        if self.is_ready() {
            lemma_ready_listeners(self.listeners);
        } else {
            if forall|slot: usize|
                self.listeners.contains_key(slot) ==> !(#[trigger] self.listeners[slot]).notified {
                assert(woken =~= Set::<usize>::empty());
            }
        }
    }

    /// An emission on a ready handler with listeners keeps the handler valid,
    /// stores the value, and wakes exactly the listeners that had left a
    /// waker.
    pub proof fn lemma_emit(self, value: T)
        requires
            self.valid(),
            self.is_ready(),
            self.listeners.dom().len() > 0,
        ensures
            self.emit(value).valid(),
            self.emit(value).value == Some(value),
            self.emit(value).listeners.dom() == self.listeners.dom(),
            forall|slot: usize|
                self.listeners.contains_key(slot) ==> ((#[trigger] self.emit(
                    value,
                ).listeners[slot]).notified <==> self.listeners[slot].waker is Some),
    {
        self.lemma_ready_iff_all_seen();
        let after = self.emit(value);
        assert(after.listeners.dom() =~= self.listeners.dom());
        assert(notified_slots(after.listeners) =~= waiting_slots(self.listeners));
        self.listeners.dom().lemma_len_filter(|k: usize| self.listeners[k].waker is Some);
    }

    /// Each woken listener that sees the value, or goes away, is accounted
    /// for once: the handler stays valid and waits for one listener fewer.
    pub proof fn lemma_acknowledge(self, slot: usize, waker: Waker)
        requires
            self.valid(),
            self.listeners.contains_key(slot),
            self.listeners[slot].notified,
        ensures
            self.ack_remaining >= 1,
            self.polled(slot, waker).valid(),
            self.polled(slot, waker).ack_remaining == self.ack_remaining - 1,
            self.unregistered(slot).valid(),
            self.unregistered(slot).ack_remaining == self.ack_remaining - 1,
            !self.unregistered(slot).listeners.contains_key(slot),
    {
        let to = Listener { notified: false, waker: self.listeners[slot].waker };
        lemma_notified_slots(self.listeners, slot, to);
        assert(notified_slots(self.listeners).contains(slot));
    }

    /// A listener that is not woken and is polled, or goes away, changes
    /// nothing for the emitter.
    pub proof fn lemma_idle_listener(self, slot: usize, waker: Waker)
        requires
            self.valid(),
            self.listeners.contains_key(slot),
            !self.listeners[slot].notified,
        ensures
            self.polled(slot, waker).valid(),
            self.polled(slot, waker).ack_remaining == self.ack_remaining,
            self.polled(slot, waker).sender_waker == self.sender_waker,
            self.unregistered(slot).valid(),
            self.unregistered(slot).ack_remaining == self.ack_remaining,
            self.unregistered(slot).sender_waker == self.sender_waker,
    {
        let to = Listener { notified: false, waker: Some(waker) };
        lemma_notified_slots(self.listeners, slot, to);
        assert(notified_slots(self.listeners).remove(slot) =~= notified_slots(self.listeners));
    }

    /// The rendezvous of an emission with two waiting listeners: the
    /// emission is over only when both have seen the value, or when one has
    /// and the other went away; and it is the last of the two that is handed
    /// the waker of the emitter.
    pub proof fn lemma_rendezvous(self, value: T, first: usize, second: usize, waker: Waker)
        requires
            self.valid(),
            self.is_ready(),
            first != second,
            self.listeners.dom() == set![first, second],
            self.listeners[first].waker is Some,
            self.listeners[second].waker is Some,
        ensures
            !self.emit(value).is_ready(),
            self.emit(value).emitter_to_wake() is None,
            !self.emit(value).polled(first, waker).is_ready(),
            self.emit(value).polled(first, waker).emitter_to_wake() == self.sender_waker,
            self.emit(value).polled(first, waker).polled(second, waker).is_ready(),
            !self.emit(value).unregistered(first).is_ready(),
            self.emit(value).unregistered(first).emitter_to_wake() == self.sender_waker,
            self.emit(value).unregistered(first).polled(second, waker).is_ready(),
    {
        assert(self.listeners.contains_key(first));
        assert(self.listeners.contains_key(second));
        assert(self.listeners.dom().remove(first).len() >= 0);
        self.lemma_emit(value);
        let sent = self.emit(value);
        assert(waiting_slots(self.listeners) =~= set![first, second]);
        assert(set![first, second].remove(first).remove(second) =~= Set::<usize>::empty());
        assert(set![first, second].len() == 2) by {
            assert(set![first, second].remove(first).remove(second).len() == 0);
        }
        assert(sent.listeners[first].notified);
        assert(sent.listeners[second].notified);
        sent.lemma_acknowledge(first, waker);
        let one = sent.polled(first, waker);
        assert(one.listeners.contains_key(second));
        assert(one.listeners[second].notified);
        one.lemma_acknowledge(second, waker);
        let gone = sent.unregistered(first);
        assert(gone.listeners.contains_key(second));
        assert(gone.listeners[second].notified);
        gone.lemma_acknowledge(second, waker);
    }
}

impl<T: Clone> Handler<T> {
    /// The invariant of the handler.
    pub open spec fn wf(&self) -> bool {
        self@.valid()
    }

    /// A handler without listeners, ready for an emission.
    pub fn new() -> (r: Handler<T>)
        ensures
            r.wf(),
            r@.listeners == Map::<usize, Listener>::empty(),
            r@.ack_remaining == 0,
            r@.value is None,
            r@.sender_waker is None,
    {
        let r = Handler { ack_remaining: 0, listeners: slab_new(), sender_waker: None, value: None };
        assert(r@.listeners =~= Map::<usize, Listener>::empty());
        assert(notified_slots(r@.listeners) =~= Set::<usize>::empty());
        r
    }

    /// One poll of the emitter's wait for the handler to be ready, with the
    /// waker of the emitter. `true` when no woken listener is still to see
    /// the value. Else a waker of the emitter is kept, to be handed to the
    /// last listener that sees the value: `waker`, or the one that was kept
    /// before where that one says that it wakes the same task.
    pub fn ready(&mut self, waker: Waker) -> (r: bool)
        requires
            old(self).wf(),
        ensures
            final(self).wf(),
            r == old(self)@.is_ready(),
            final(self)@.listeners == old(self)@.listeners,
            final(self)@.ack_remaining == old(self)@.ack_remaining,
            final(self)@.value == old(self)@.value,
            r ==> final(self)@.sender_waker == old(self)@.sender_waker,
            !r ==> final(self)@.sender_waker == Some(waker) || (old(self)@.sender_waker is Some
                && final(self)@.sender_waker == old(self)@.sender_waker),
    {
        if self.ack_remaining > 0 {
            let known = match &self.sender_waker {
                Some(kept) => will_wake(kept, &waker),
                None => false,
            };
            if !known {
                self.sender_waker = Some(waker);
            }
            false
        } else {
            true
        }
    }

    /// Accounts for one woken listener. Gives the waker of the emitter if it
    /// was the last.
    fn ack(&mut self) -> (wake: Option<Waker>)
        requires
            old(self).ack_remaining >= 1,
        ensures
            final(self).ack_remaining == old(self).ack_remaining - 1,
            final(self).listeners == old(self).listeners,
            final(self).value == old(self).value,
            wake == if old(self).ack_remaining == 1 {
                old(self).sender_waker
            } else {
                None
            },
            final(self).sender_waker == if old(self).ack_remaining == 1 {
                None
            } else {
                old(self).sender_waker
            },
    {
        self.ack_remaining = self.ack_remaining - 1;
        if self.ack_remaining == 0 {
            self.sender_waker.take()
        } else {
            None
        }
    }

    /// Emits `value`, once the handler is ready. Without listeners nothing
    /// happens. Else the value is stored and every listener that has left a
    /// waker is made ready; the emission is over when [`Handler::ready`] says
    /// so. Gives the listeners made ready, with the wakers to wake.
    pub fn emit(&mut self, value: T) -> (woken: Vec<Woken>)
        requires
            old(self).wf(),
            old(self)@.is_ready(),
        ensures
            final(self).wf(),
            final(self)@ == old(self)@.emit(value),
            woken_by(old(self)@.listeners, woken@),
            woken@.len() == waiting_slots(old(self)@.listeners).len(),
    {
        let ghost before = slab_entries(self.listeners);
        let keys = slab_keys(&self.listeners);
        let mut woken: Vec<Woken> = Vec::new();
        proof {
            assert(before.dom() =~= keys@.to_set());
            before.dom().lemma_len_filter(|k: usize| before[k].waker is Some);
            if keys@.len() > 0 {
                assert(keys@.contains(keys@[0]));
                assert(before.dom().remove(keys@[0]).len() >= 0);
            } else {
                assert(before.dom() =~= Set::<usize>::empty());
                assert(waiting_slots(before) =~= Set::<usize>::empty());
            }
        }
        if keys.len() == 0 {
            return woken;
        }
        self.value = Some(value);
        let mut i: usize = 0;
        proof {
            lemma_ready_listeners(before);
            assert(waiting_slots(before).filter(|k: usize| keys@.subrange(0, 0).contains(k))
                =~= Set::<usize>::empty());
        }
        while i < keys.len()
            invariant
                0 <= i <= keys@.len(),
                woken@.len() <= i,
                before.dom().len() != 0,
                forall|k: usize| before.contains_key(k) ==> !(#[trigger] before[k]).notified,
                self.value == Some(value),
                self.sender_waker == old(self).sender_waker,
                before.dom().finite(),
                forall|k: usize| keys@.contains(k) <==> before.contains_key(k),
                forall|a: int, b: int| 0 <= a < b < keys@.len() ==> keys@[a] < keys@[b],
                slab_entries(self.listeners) == Map::new(
                    |k: usize| before.contains_key(k),
                    |k: usize|
                        if keys@.subrange(0, i as int).contains(k) {
                            notify(before[k])
                        } else {
                            before[k]
                        },
                ),
                woken@.len() == waiting_slots(before).filter(
                    |k: usize| keys@.subrange(0, i as int).contains(k),
                ).len(),
                forall|a: int, b: int| 0 <= a < b < woken@.len() ==> woken@[a].slot < woken@[b].slot,
                forall|a: int|
                    0 <= a < woken@.len() ==> keys@.subrange(0, i as int).contains(
                        (#[trigger] woken@[a]).slot,
                    ) && before[woken@[a].slot].waker == Some(woken@[a].waker),
                forall|k: usize|
                    keys@.subrange(0, i as int).contains(k) && before[k].waker is Some
                        ==> exists|a: int| 0 <= a < woken@.len() && (#[trigger] woken@[a]).slot == k,
            decreases keys@.len() - i,
        {
            let k = keys[i];
            let ghost done = keys@.subrange(0, i as int);
            let ghost next = keys@.subrange(0, i + 1);
            let ghost counted = waiting_slots(before).filter(|k: usize| done.contains(k));
            let ghost sofar = woken@;
            proof {
                assert(keys@.contains(k));
                assert(!done.contains(k)) by {
                    if done.contains(k) {
                        let j = choose|j: int| 0 <= j < done.len() && done[j] == k;
                        assert(keys@[j] < keys@[i as int]);
                    }
                }
                assert forall|x: usize| next.contains(x) <==> (done.contains(x) || x == k) by {
                    if next.contains(x) {
                        let j = choose|j: int| 0 <= j < next.len() && next[j] == x;
                        if j < i {
                            assert(done[j] == x);
                        }
                    }
                    if done.contains(x) {
                        let j = choose|j: int| 0 <= j < done.len() && done[j] == x;
                        assert(next[j] == x);
                    }
                    assert(next[i as int] == k);
                }
                assert forall|a: int| 0 <= a < sofar.len() implies (#[trigger] sofar[a]).slot < k by {
                    let j = choose|j: int| 0 <= j < done.len() && done[j] == sofar[a].slot;
                    assert(keys@[j] < keys@[i as int]);
                }
                waiting_slots(before).lemma_len_filter(|k: usize| done.contains(k));
            }
            let listener = slab_get_mut(&mut self.listeners, k);
            match listener.waker.take() {
                Some(w) => {
                    listener.notified = true;
                    woken.push(Woken { slot: k, waker: w });
                    proof {
                        assert(waiting_slots(before).filter(|k: usize| next.contains(k))
                            =~= counted.insert(k));
                        assert(woken@[sofar.len() as int].slot == k);
                        assert forall|x: usize| next.contains(x) && before[x].waker is Some implies exists|
                            a: int,
                        |
                            0 <= a < woken@.len() && (#[trigger] woken@[a]).slot == x by {
                            if x != k {
                                let a = choose|a: int|
                                    0 <= a < sofar.len() && (#[trigger] sofar[a]).slot == x;
                                assert(woken@[a].slot == x);
                            }
                        }
                    }
                },
                None => {
                    proof {
                        assert(waiting_slots(before).filter(|k: usize| next.contains(k))
                            =~= counted);
                    }
                },
            }
            i = i + 1;
            assert(slab_entries(self.listeners) =~= Map::new(
                |k: usize| before.contains_key(k),
                |k: usize|
                    if next.contains(k) {
                        notify(before[k])
                    } else {
                        before[k]
                    },
            ));
        }
        self.ack_remaining = woken.len();
        proof {
            assert(keys@.subrange(0, i as int) =~= keys@);
            let after = slab_entries(self.listeners);
            assert forall|k: usize|
                notified_slots(after).contains(k) <==> waiting_slots(before).contains(k) by {
                if before.contains_key(k) {
                    assert(after[k] == notify(before[k]));
                }
            }
            assert(notified_slots(after) =~= waiting_slots(before));
            assert(waiting_slots(before).filter(
                |k: usize| keys@.subrange(0, i as int).contains(k),
            ) =~= waiting_slots(before));
            assert(after.dom() =~= before.dom());
            assert(after =~= old(self)@.emit(value).listeners);
        }
        woken
    }

    /// Registers a listener and gives its slot. The listener is not woken
    /// and has left no waker yet.
    pub fn register(&mut self) -> (slot: usize)
        requires
            old(self).wf(),
        ensures
            final(self).wf(),
            !old(self)@.listeners.contains_key(slot),
            final(self)@ == (HandlerModel {
                listeners: old(self)@.listeners.insert(
                    slot,
                    Listener { notified: false, waker: None },
                ),
                ..old(self)@
            }),
    {
        let slot = slab_insert(&mut self.listeners, Listener { notified: false, waker: None });
        proof {
            lemma_notified_slots(
                old(self)@.listeners,
                slot,
                Listener { notified: false, waker: None },
            );
            assert(notified_slots(old(self)@.listeners).remove(slot) =~= notified_slots(
                old(self)@.listeners,
            ));
        }
        slot
    }

    /// Whether `slot` holds a registered listener.
    pub fn is_registered(&self, slot: usize) -> (r: bool)
        ensures
            r == self@.listeners.contains_key(slot),
    {
        slab_contains(&self.listeners, slot)
    }

    /// One poll of the listener in `slot`, with the waker of the listener. A
    /// woken listener gets a clone of the value and is accounted for; if it
    /// is the last that the emission waits for, it is handed the waker of
    /// the emitter, which is to be woken. Any other listener leaves `waker`
    /// and gets nothing yet.
    pub fn wait(&mut self, slot: usize, waker: Waker) -> (r: Polled<T>)
        requires
            old(self).wf(),
            old(self)@.listeners.contains_key(slot),
        ensures
            final(self).wf(),
            final(self)@ == old(self)@.polled(slot, waker),
            r.value is Some == old(self)@.listeners[slot].notified,
            r.value is Some ==> cloned(old(self)@.value->0, r.value->0),
            r.wake == if old(self)@.listeners[slot].notified {
                old(self)@.emitter_to_wake()
            } else {
                None
            },
    {
        let notified = slab_get(&self.listeners, slot).notified;
        proof {
            lemma_notified_slots(old(self)@.listeners, slot, Listener { notified: false, waker: None });
        }
        if notified {
            let listener = slab_get_mut(&mut self.listeners, slot);
            listener.notified = false;
            proof {
                let to = Listener { notified: false, waker: old(self)@.listeners[slot].waker };
                lemma_notified_slots(old(self)@.listeners, slot, to);
            }
            let wake = self.ack();
            let value = self.value.clone();
            Polled { value, wake }
        } else {
            let listener = slab_get_mut(&mut self.listeners, slot);
            listener.waker = Some(waker);
            proof {
                let to = Listener { notified: false, waker: Some(waker) };
                lemma_notified_slots(old(self)@.listeners, slot, to);
                assert(notified_slots(old(self)@.listeners).remove(slot) =~= notified_slots(
                    old(self)@.listeners,
                ));
            }
            Polled { value: None, wake: None }
        }
    }

    /// Takes the listener in `slot` out, as is owed whenever its wait ends,
    /// whether over or given up. A listener that was woken and had not seen
    /// the value is accounted for, so that the emitter does not wait for it;
    /// if it is the last that the emission waits for, the waker of the
    /// emitter is handed out, which is to be woken.
    pub fn unregister(&mut self, slot: usize) -> (wake: Option<Waker>)
        requires
            old(self).wf(),
            old(self)@.listeners.contains_key(slot),
        ensures
            final(self).wf(),
            final(self)@ == old(self)@.unregistered(slot),
            wake == if old(self)@.listeners[slot].notified {
                old(self)@.emitter_to_wake()
            } else {
                None
            },
    {
        proof {
            lemma_notified_slots(old(self)@.listeners, slot, Listener { notified: false, waker: None });
        }
        let gone = slab_remove(&mut self.listeners, slot);
        if gone.notified {
            self.ack()
        } else {
            assert(notified_slots(old(self)@.listeners).remove(slot) =~= notified_slots(
                old(self)@.listeners,
            ));
            None
        }
    }
}

} // verus!
