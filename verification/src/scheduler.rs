//! The bookkeeping of the cooperative scheduler: the pending timers, the
//! table that leads from a window to its event sink, and what the event
//! loop is told to do next.
//!
//! Time is counted in milliseconds since the scheduler was started. A task
//! that goes to sleep leaves its waker; the wakers of the tasks whose time
//! has come are handed out, and the caller wakes them.

use smallvec::SmallVec;
use std::collections::HashMap;
use std::task::Waker;
use vstd::prelude::*;

verus! {

broadcast use vstd::std_specs::hash::group_hash_axioms;

/// A task that sleeps until a deadline.
pub struct Timer {
    /// Wakes the task.
    pub waker: Waker,
    /// When to wake it.
    pub deadline: u64,
}

/// The list of pending timers: a `SmallVec` with room for four timers in
/// place.
#[verifier::external_body]
pub struct TimerList {
    inner: SmallVec<[Timer; 4]>,
}

/// The timers that a list holds, first to last.
pub uninterp spec fn timer_seq(timers: TimerList) -> Seq<Timer>;

/// `SmallVec::new`: a list that holds nothing.
#[verifier::external_body]
fn timers_new() -> (r: TimerList)
    ensures
        timer_seq(r).len() == 0,
{
    TimerList { inner: SmallVec::new() }
}

/// `SmallVec::len`: how many timers the list holds.
#[verifier::external_body]
fn timers_len(timers: &TimerList) -> (r: usize)
    ensures
        r == timer_seq(*timers).len(),
{
    timers.inner.len()
}

/// `SmallVec::push`: appends the timer.
#[verifier::external_body]
fn timers_push(timers: &mut TimerList, timer: Timer)
    ensures
        timer_seq(*final(timers)) == timer_seq(*old(timers)).push(timer),
{
    timers.inner.push(timer)
}

/// `SmallVec::remove`: takes out and gives the timer at `index`, which must
/// be below the length; the timers after it move up.
#[verifier::external_body]
fn timers_remove(timers: &mut TimerList, index: usize) -> (r: Timer)
    requires
        index < timer_seq(*old(timers)).len(),
    ensures
        r == timer_seq(*old(timers))[index as int],
        timer_seq(*final(timers)) == timer_seq(*old(timers)).remove(index as int),
{
    timers.inner.remove(index)
}

/// Indexing of the list as a slice: the deadline of the timer at `index`,
/// which must be below the length.
#[verifier::external_body]
fn timers_deadline(timers: &TimerList, index: usize) -> (r: u64)
    requires
        index < timer_seq(*timers).len(),
    ensures
        r == timer_seq(*timers)[index as int].deadline,
{
    timers.inner[index].deadline
}

/// `sort_by_key` of the list as a slice, by deadline: a stable sort. The
/// timers come to stand by growing deadline; they are the same timers, and
/// those of one deadline keep their order.
#[verifier::external_body]
fn timers_sort(timers: &mut TimerList)
    ensures
        sorted_by_deadline(timer_seq(*final(timers))),
        timer_seq(*final(timers)).to_multiset() == timer_seq(*old(timers)).to_multiset(),
        forall|d: u64| #[trigger]
            with_deadline(timer_seq(*final(timers)), d) == with_deadline(
                timer_seq(*old(timers)),
                d,
            ),
{
    timers.inner.sort_by_key(|t| t.deadline)
}

/// The timers of the list whose deadline is `d`, in the order of the list.
pub open spec fn with_deadline(timers: Seq<Timer>, d: u64) -> Seq<Timer> {
    timers.filter(|t: Timer| t.deadline == d)
}

/// Whether the deadlines grow, or stay, from each timer to the next.
pub open spec fn sorted_by_deadline(timers: Seq<Timer>) -> bool {
    forall|i: int, j: int| 0 <= i < j < timers.len() ==> timers[i].deadline <= timers[j].deadline
}

/// How many timers at the front of the list are due at `now`: the number of
/// timers before the first whose deadline is still to come.
pub open spec fn due_count(timers: Seq<Timer>, now: u64) -> nat
    decreases timers.len(),
{
    if timers.len() == 0 || timers[0].deadline > now {
        0
    } else {
        1 + due_count(timers.drop_first(), now)
    }
}

/// The wakers of the timers at the front of the list that are due at
/// `now`, in the order of the timers.
pub open spec fn due_wakers(timers: Seq<Timer>, now: u64) -> Seq<Waker> {
    Seq::new(due_count(timers, now), |i: int| timers[i].waker)
}

/// What the event loop is to do after a wakeup.
#[derive(Copy, Clone, Debug, PartialEq, Eq, Structural)]
pub enum ControlFlow {
    /// Wait for the next event, however long.
    Wait,
    /// Wait for the next event, but no longer than until the deadline.
    WaitUntil(u64),
    /// Leave the loop.
    Exit,
}

/// An event that the scheduler sends to its own event loop.
#[derive(Copy, Clone, Debug, PartialEq, Eq, Structural)]
pub enum ExtEvent {
    /// Asks for an update of the interface.
    UpdateUi,
}

/// What a scheduler holds. `S` is the type of the handle of a window's event
/// sink.
pub struct SchedulerModel<S> {
    /// The pending timers, in the order of the list.
    pub timers: Seq<Timer>,
    /// The sink of each registered window.
    pub windows: Map<u64, S>,
    /// Whether the loop was asked to end.
    pub exit_requested: bool,
    /// Whether the loop was asked to wake up.
    pub wake_pending: bool,
}

/// The single-threaded cooperative scheduler, as far as it keeps books.
pub struct Scheduler<S> {
    timers: TimerList,
    windows: HashMap<u64, S>,
    exit_requested: bool,
    wake_pending: bool,
}

impl<S> View for Scheduler<S> {
    type V = SchedulerModel<S>;

    closed spec fn view(&self) -> SchedulerModel<S> {
        SchedulerModel {
            timers: timer_seq(self.timers),
            windows: self.windows@,
            exit_requested: self.exit_requested,
            wake_pending: self.wake_pending,
        }
    }
}

/// The timers due at the front of a list are due, and the timer after them
/// is not.
pub proof fn lemma_due_count(timers: Seq<Timer>, now: u64)
    ensures
        due_count(timers, now) <= timers.len(),
        forall|i: int| 0 <= i < due_count(timers, now) ==> timers[i].deadline <= now,
        due_count(timers, now) < timers.len() ==> timers[due_count(timers, now) as int].deadline
            > now,
    decreases timers.len(),
{
    if timers.len() == 0 || timers[0].deadline > now {
    } else {
        let rest = timers.drop_first();
        lemma_due_count(rest, now);
        assert forall|i: int| 0 <= i < due_count(timers, now) implies timers[i].deadline
            <= now by {
            if i > 0 {
                assert(timers[i] == rest[i - 1]);
            }
        }
        if due_count(timers, now) < timers.len() {
            assert(timers[due_count(timers, now) as int] == rest[due_count(rest, now) as int]);
        }
    }
}

/// In a list sorted by deadline the timers due at the front are all the
/// timers that are due: a sleeping task is woken at the first wakeup at or
/// after its deadline, and at none before.
pub proof fn lemma_due_sorted(timers: Seq<Timer>, now: u64, i: int)
    requires
        sorted_by_deadline(timers),
        0 <= i < timers.len(),
    ensures
        i < due_count(timers, now) <==> timers[i].deadline <= now,
{
    lemma_due_count(timers, now);
    let n = due_count(timers, now) as int;
    if i >= n {
        assert(timers[n].deadline <= timers[i].deadline);
    }
}

/// The timers that are left after the wakeups at the times `wakeups`, in
/// turn, where no timer is added in between.
pub open spec fn after_wakeups(timers: Seq<Timer>, wakeups: Seq<u64>) -> Seq<Timer>
    decreases wakeups.len(),
{
    if wakeups.len() == 0 {
        timers
    } else {
        let left = after_wakeups(timers, wakeups.drop_last());
        left.subrange(due_count(left, wakeups.last()) as int, left.len() as int)
    }
}

/// A timer in a sorted list sleeps through every wakeup that comes before
/// its deadline: after such wakeups it is still in the list, which is still
/// sorted and is what is left of the list from some timer on.
pub proof fn lemma_sleeps_until_due(timers: Seq<Timer>, i: int, wakeups: Seq<u64>)
    requires
        sorted_by_deadline(timers),
        0 <= i < timers.len(),
        forall|k: int| 0 <= k < wakeups.len() ==> wakeups[k] < timers[i].deadline,
    ensures
        ({
            let left = after_wakeups(timers, wakeups);
            let gone = timers.len() - left.len();
            &&& 0 <= gone <= i
            &&& left == timers.subrange(gone, timers.len() as int)
            &&& left[i - gone] == timers[i]
            &&& sorted_by_deadline(left)
        }),
    decreases wakeups.len(),
{
    if wakeups.len() > 0 {
        let front = wakeups.drop_last();
        assert forall|k: int| 0 <= k < front.len() implies front[k] < timers[i].deadline by {
            assert(front[k] == wakeups[k]);
        }
        lemma_sleeps_until_due(timers, i, front);
        let before = after_wakeups(timers, front);
        let gone = timers.len() - before.len();
        let now = wakeups.last();
        lemma_due_count(before, now);
        lemma_due_sorted(before, now, i - gone);
        let left = after_wakeups(timers, wakeups);
        let n = due_count(before, now) as int;
        assert(left =~= timers.subrange(gone + n, timers.len() as int));
    } else {
        assert(timers =~= timers.subrange(0, timers.len() as int));
    }
}

/// A sleeping task is woken at the first wakeup at or after its deadline,
/// and at none before: after wakeups that all come before the deadline of a
/// timer in a sorted list, the wakeup at a time `now` at or after the
/// deadline hands out the waker of that timer.
pub proof fn lemma_woken_when_due(timers: Seq<Timer>, i: int, wakeups: Seq<u64>, now: u64)
    requires
        sorted_by_deadline(timers),
        0 <= i < timers.len(),
        forall|k: int| 0 <= k < wakeups.len() ==> wakeups[k] < timers[i].deadline,
        timers[i].deadline <= now,
    ensures
        ({
            let left = after_wakeups(timers, wakeups);
            let gone = timers.len() - left.len();
            &&& 0 <= i - gone < due_wakers(left, now).len()
            &&& due_wakers(left, now)[i - gone] == timers[i].waker
        }),
{
    lemma_sleeps_until_due(timers, i, wakeups);
    let left = after_wakeups(timers, wakeups);
    let gone = timers.len() - left.len();
    lemma_due_sorted(left, now, i - gone);
}

impl<S> Scheduler<S> {
    /// A scheduler without timers and without windows.
    pub fn new() -> (r: Scheduler<S>)
        ensures
            r@.timers.len() == 0,
            r@.windows == Map::<u64, S>::empty(),
            !r@.exit_requested,
            !r@.wake_pending,
    {
        Scheduler {
            timers: timers_new(),
            windows: HashMap::new(),
            exit_requested: false,
            wake_pending: false,
        }
    }

    /// Registers the sink of a window, in place of any that the window had.
    pub fn register_window(&mut self, window_id: u64, sink: S)
        ensures
            final(self)@ == (SchedulerModel {
                windows: old(self)@.windows.insert(window_id, sink),
                ..old(self)@
            }),
    {
        self.windows.insert(window_id, sink);
    }

    /// The sink of a window, if the window is registered.
    pub fn window_sink(&self, window_id: u64) -> (r: Option<&S>)
        ensures
            r == if self@.windows.contains_key(window_id) {
                Some(&self@.windows[window_id])
            } else {
                None
            },
    {
        self.windows.get(&window_id)
    }

    /// Decides the delivery of an event to a window, once the caller has
    /// looked at the window's sink: `alive` says whether there is a sink and
    /// it still leads somewhere. The event is to be delivered where it does.
    /// Where the sink is dead the window is forgotten, and the event with
    /// it.
    pub fn route_window_event(&mut self, window_id: u64, alive: bool) -> (deliver: bool)
        ensures
            deliver == (alive && old(self)@.windows.contains_key(window_id)),
            final(self)@ == (SchedulerModel {
                windows: if alive {
                    old(self)@.windows
                } else {
                    old(self)@.windows.remove(window_id)
                },
                ..old(self)@
            }),
    {
        if self.windows.contains_key(&window_id) {
            if alive {
                true
            } else {
                self.windows.remove(&window_id);
                false
            }
        } else {
            assert(old(self)@.windows.remove(window_id) =~= old(self)@.windows);
            false
        }
    }

    /// One poll of a task that sleeps until `deadline`, with the waker of
    /// the task. `true` when the deadline has come. Else the task stays
    /// asleep, and at its first poll leaves a timer with `waker`;
    /// `registered` says whether it has.
    pub fn wait_until(&mut self, now: u64, deadline: u64, registered: &mut bool, waker: Waker) -> (r:
        bool)
        ensures
            r == (now >= deadline),
            *final(registered) == (*old(registered) || !r),
            final(self)@ == (SchedulerModel {
                timers: if r || *old(registered) {
                    old(self)@.timers
                } else {
                    old(self)@.timers.push(Timer { waker, deadline })
                },
                ..old(self)@
            }),
    {
        if now >= deadline {
            true
        } else {
            if !*registered {
                timers_push(&mut self.timers, Timer { waker, deadline });
                *registered = true;
            }
            false
        }
    }

    /// Takes out the timers that are due, one at a time from the front of
    /// the list, up to the first whose deadline is still to come. Gives
    /// their wakers, which are to be woken, in the order of the timers.
    pub fn fire_expired(&mut self, now: u64) -> (wakers: Vec<Waker>)
        ensures
            wakers@ == due_wakers(old(self)@.timers, now),
            final(self)@ == (SchedulerModel {
                timers: old(self)@.timers.subrange(
                    due_count(old(self)@.timers, now) as int,
                    old(self)@.timers.len() as int,
                ),
                ..old(self)@
            }),
    {
        let ghost before = timer_seq(self.timers);
        let total = timers_len(&self.timers);
        let mut wakers: Vec<Waker> = Vec::new();
        let mut fired: usize = 0;
        proof {
            lemma_due_count(before, now);
        }
        while fired < total
            invariant_except_break
                due_count(before, now) == fired + due_count(timer_seq(self.timers), now),
            invariant
                fired <= total == before.len(),
                timer_seq(self.timers) == before.subrange(fired as int, before.len() as int),
                wakers@.len() == fired,
                forall|i: int| 0 <= i < fired ==> wakers@[i] == before[i].waker,
                self.windows == old(self).windows,
                self.exit_requested == old(self).exit_requested,
                self.wake_pending == old(self).wake_pending,
            ensures
                fired == due_count(before, now),
            decreases total - fired,
        {
            if timers_deadline(&self.timers, 0) > now {
                break;
            }
            let ghost current = timer_seq(self.timers);
            let timer = timers_remove(&mut self.timers, 0);
            wakers.push(timer.waker);
            fired = fired + 1;
            proof {
                assert(current.remove(0) =~= current.drop_first());
                assert(current.drop_first() =~= before.subrange(fired as int, before.len() as int));
            }
        }
        assert(wakers@ =~= due_wakers(before, now));
        wakers
    }

    /// The start of a wakeup of the event loop: takes out the timers that
    /// are due and gives their wakers, which are to be woken before the
    /// event of the wakeup is delivered.
    pub fn new_events(&mut self, now: u64) -> (wakers: Vec<Waker>)
        ensures
            wakers@ == due_wakers(old(self)@.timers, now),
            final(self)@ == (SchedulerModel {
                timers: old(self)@.timers.subrange(
                    due_count(old(self)@.timers, now) as int,
                    old(self)@.timers.len() as int,
                ),
                ..old(self)@
            }),
    {
        self.fire_expired(now)
    }

    /// The end of a wakeup of the event loop, when no task can go on: sorts
    /// the timers by deadline and says how long the loop may wait. It is to
    /// leave if that was asked for; else to wait until the earliest deadline;
    /// else, without timers, to wait for the next event.
    pub fn next_wake(&mut self) -> (r: ControlFlow)
        ensures
            sorted_by_deadline(final(self)@.timers),
            final(self)@.timers.to_multiset() == old(self)@.timers.to_multiset(),
            final(self)@.timers.len() == old(self)@.timers.len(),
            final(self)@.windows == old(self)@.windows,
            final(self)@.exit_requested == old(self)@.exit_requested,
            final(self)@.wake_pending == old(self)@.wake_pending,
            r == if old(self)@.exit_requested {
                ControlFlow::Exit
            } else if old(self)@.timers.len() == 0 {
                ControlFlow::Wait
            } else {
                ControlFlow::WaitUntil(final(self)@.timers[0].deadline)
            },
            forall|i: int|
                0 <= i < old(self)@.timers.len() ==> match r {
                    ControlFlow::WaitUntil(d) => d <= (#[trigger] old(self)@.timers[i]).deadline,
                    _ => true,
                },
            match r {
                ControlFlow::WaitUntil(d) => exists|i: int|
                    0 <= i < old(self)@.timers.len() && (#[trigger] old(self)@.timers[i]).deadline
                        == d,
                _ => true,
            },
    {
        timers_sort(&mut self.timers);
        proof {
            let before = old(self)@.timers;
            let after = timer_seq(self.timers);
            before.to_multiset_ensures();
            after.to_multiset_ensures();
            assert forall|i: int| 0 <= i < before.len() implies after.contains(
                #[trigger] before[i],
            ) by {
                assert(before.contains(before[i]));
                assert(before.to_multiset().count(before[i]) > 0);
            }
            assert forall|i: int| 0 <= i < before.len() && after.len() > 0 implies after[0].deadline
                <= (#[trigger] before[i]).deadline by {
                assert(after.contains(before[i]));
                let k = choose|k: int| 0 <= k < after.len() && after[k] == before[i];
            }
            if after.len() > 0 {
                assert(after.contains(after[0]));
                assert(after.to_multiset().count(after[0]) > 0);
                assert(before.contains(after[0]));
                let k = choose|k: int| 0 <= k < before.len() && before[k] == after[0];
                assert(before[k].deadline == after[0].deadline);
            }
        }
        if self.exit_requested {
            ControlFlow::Exit
        } else if timers_len(&self.timers) == 0 {
            ControlFlow::Wait
        } else {
            ControlFlow::WaitUntil(timers_deadline(&self.timers, 0))
        }
    }

    /// Takes the request to wake the event loop, if there is one: the event
    /// to send to the loop.
    pub fn take_wake_request(&mut self) -> (r: Option<ExtEvent>)
        ensures
            r == if old(self)@.wake_pending {
                Some(ExtEvent::UpdateUi)
            } else {
                None
            },
            final(self)@ == (SchedulerModel { wake_pending: false, ..old(self)@ }),
    {
        if self.wake_pending {
            self.wake_pending = false;
            Some(ExtEvent::UpdateUi)
        } else {
            None
        }
    }
}

/// The deadline of a task that sleeps for `duration` from `now` on. A
/// deadline past the end of time is the end of time.
pub fn wait_for(now: u64, duration: u64) -> (deadline: u64)
    ensures
        deadline == if now + duration > u64::MAX {
            u64::MAX
        } else {
            (now + duration) as u64
        },
{
    now.saturating_add(duration)
}

/// Asks the event loop to wake up and update the interface.
pub fn wake_event_loop<S>(scheduler: &mut Scheduler<S>)
    ensures
        final(scheduler)@ == (SchedulerModel { wake_pending: true, ..old(scheduler)@ }),
{
    scheduler.wake_pending = true;
}

/// Asks the event loop to end.
pub fn quit<S>(scheduler: &mut Scheduler<S>)
    ensures
        final(scheduler)@ == (SchedulerModel { exit_requested: true, ..old(scheduler)@ }),
{
    scheduler.exit_requested = true;
}

} // verus!
