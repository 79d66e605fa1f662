use std::sync::atomic::{AtomicUsize, Ordering};
use std::sync::Arc;
use std::task::{Wake, Waker};

use uicore::scheduler::{quit, wait_for, wake_event_loop, ControlFlow, ExtEvent, Scheduler};

/// Counts how often its waker was woken.
struct Counter(AtomicUsize);

impl Wake for Counter {
    fn wake(self: Arc<Self>) {
        self.0.fetch_add(1, Ordering::SeqCst);
    }
}

fn counter() -> (Arc<Counter>, Waker) {
    let counter = Arc::new(Counter(AtomicUsize::new(0)));
    (counter.clone(), Waker::from(counter))
}

fn woken(counter: &Arc<Counter>) -> usize {
    counter.0.load(Ordering::SeqCst)
}

fn wake_all(wakers: Vec<Waker>) -> usize {
    let n = wakers.len();
    for waker in wakers {
        waker.wake();
    }
    n
}

#[test]
fn a_sleeping_task_is_woken_at_its_deadline_and_not_before() {
    let (count, waker) = counter();
    let mut scheduler: Scheduler<u32> = Scheduler::new();
    let mut registered = false;
    assert!(!scheduler.wait_until(0, 100, &mut registered, waker.clone()));
    assert!(registered);
    // a second poll leaves no second timer
    assert!(!scheduler.wait_until(10, 100, &mut registered, waker.clone()));
    assert_eq!(scheduler.next_wake(), ControlFlow::WaitUntil(100));
    assert_eq!(wake_all(scheduler.new_events(99)), 0);
    assert_eq!(woken(&count), 0);
    assert_eq!(scheduler.next_wake(), ControlFlow::WaitUntil(100));
    assert_eq!(wake_all(scheduler.new_events(100)), 1);
    assert_eq!(woken(&count), 1);
    assert!(scheduler.wait_until(100, 100, &mut registered, waker));
    assert_eq!(scheduler.next_wake(), ControlFlow::Wait);
    assert_eq!(wake_all(scheduler.new_events(200)), 0);
    assert_eq!(woken(&count), 1);
}

#[test]
fn timers_hand_out_the_wakers_of_their_tasks_in_order() {
    let mut scheduler: Scheduler<u32> = Scheduler::new();
    let mut counts = Vec::new();
    for deadline in [300u64, 100, 200, 100] {
        let (count, waker) = counter();
        let mut registered = false;
        assert!(!scheduler.wait_until(0, deadline, &mut registered, waker));
        counts.push(count);
    }
    assert_eq!(scheduler.next_wake(), ControlFlow::WaitUntil(100));
    assert_eq!(wake_all(scheduler.new_events(50)), 0);
    assert_eq!(wake_all(scheduler.new_events(150)), 2);
    let seen: Vec<usize> = counts.iter().map(woken).collect();
    assert_eq!(seen, vec![0, 1, 0, 1]);
    assert_eq!(scheduler.next_wake(), ControlFlow::WaitUntil(200));
    let rest = scheduler.new_events(1000);
    assert_eq!(rest.len(), 2);
    // the timer for 200 comes before the timer for 300
    rest[0].wake_by_ref();
    let seen: Vec<usize> = counts.iter().map(woken).collect();
    assert_eq!(seen, vec![0, 1, 1, 1]);
    wake_all(rest);
    let seen: Vec<usize> = counts.iter().map(woken).collect();
    assert_eq!(seen, vec![1, 1, 2, 1]);
    assert_eq!(scheduler.next_wake(), ControlFlow::Wait);
}

#[test]
fn firing_stops_at_the_first_timer_still_to_come() {
    let (_, waker) = counter();
    let mut scheduler: Scheduler<u32> = Scheduler::new();
    // not sorted yet: the timer at the front is still to come
    for deadline in [300u64, 100] {
        let mut registered = false;
        scheduler.wait_until(0, deadline, &mut registered, waker.clone());
    }
    assert_eq!(scheduler.fire_expired(150).len(), 0);
    assert_eq!(scheduler.next_wake(), ControlFlow::WaitUntil(100));
    assert_eq!(scheduler.fire_expired(150).len(), 1);
    assert_eq!(scheduler.fire_expired(150).len(), 0);
}

#[test]
fn a_deadline_that_has_come_leaves_no_timer() {
    let (_, waker) = counter();
    let mut scheduler: Scheduler<u32> = Scheduler::new();
    let mut registered = false;
    assert!(scheduler.wait_until(7, 7, &mut registered, waker));
    assert!(!registered);
    assert_eq!(scheduler.next_wake(), ControlFlow::Wait);
}

#[test]
fn wait_for_adds_and_saturates() {
    assert_eq!(wait_for(1000, 500), 1500);
    assert_eq!(wait_for(0, 0), 0);
    assert_eq!(wait_for(u64::MAX - 1, 5), u64::MAX);
}

#[test]
fn windows_are_routed_and_pruned_lazily() {
    let mut scheduler: Scheduler<&str> = Scheduler::new();
    assert_eq!(scheduler.window_sink(1), None);
    scheduler.register_window(1, "main");
    scheduler.register_window(2, "popup");
    assert_eq!(scheduler.window_sink(1), Some(&"main"));
    assert!(scheduler.route_window_event(1, true));
    assert_eq!(scheduler.window_sink(1), Some(&"main"));
    // the sink of the popup is found dead: the window is forgotten
    assert!(!scheduler.route_window_event(2, false));
    assert_eq!(scheduler.window_sink(2), None);
    assert_eq!(scheduler.window_sink(1), Some(&"main"));
    assert!(!scheduler.route_window_event(3, true));
    scheduler.register_window(1, "other");
    assert_eq!(scheduler.window_sink(1), Some(&"other"));
}

#[test]
fn quit_ends_the_loop_and_wake_requests_are_taken_once() {
    let (_, waker) = counter();
    let mut scheduler: Scheduler<u32> = Scheduler::new();
    assert_eq!(scheduler.take_wake_request(), None);
    wake_event_loop(&mut scheduler);
    assert_eq!(scheduler.take_wake_request(), Some(ExtEvent::UpdateUi));
    assert_eq!(scheduler.take_wake_request(), None);
    let mut registered = false;
    scheduler.wait_until(0, 10, &mut registered, waker);
    assert_eq!(scheduler.next_wake(), ControlFlow::WaitUntil(10));
    quit(&mut scheduler);
    assert_eq!(scheduler.next_wake(), ControlFlow::Exit);
}
