use std::sync::atomic::{AtomicUsize, Ordering};
use std::sync::Arc;
use std::task::{Wake, Waker};

use uicore::handler::Handler;

/// Counts how often its waker was woken.
struct Counter(AtomicUsize);

impl Wake for Counter {
    fn wake(self: Arc<Self>) {
        self.0.fetch_add(1, Ordering::SeqCst);
    }
}

fn counter() -> (Arc<Counter>, Waker) {
    let counter = Arc::new(Counter(AtomicUsize::new(0)));
    (counter.clone(), Waker::from(counter))
}

fn woken(counter: &Arc<Counter>) -> usize {
    counter.0.load(Ordering::SeqCst)
}

#[test]
fn emit_without_listeners_is_over_at_once() {
    let (_, emitter) = counter();
    let mut handler: Handler<u32> = Handler::new();
    assert!(handler.ready(emitter.clone()));
    assert!(handler.emit(5).is_empty());
    assert!(handler.ready(emitter));
}

#[test]
fn emit_waits_for_both_listeners() {
    let (emitter_count, emitter) = counter();
    let (first_count, first_waker) = counter();
    let (second_count, second_waker) = counter();
    let mut handler: Handler<String> = Handler::new();
    let first = handler.register();
    let second = handler.register();
    assert!(first != second);
    assert!(handler.is_registered(first));
    assert!(handler.is_registered(second));
    // both listeners are polled once and leave their wakers
    assert!(handler.wait(first, first_waker.clone()).value.is_none());
    assert!(handler.wait(second, second_waker.clone()).value.is_none());
    assert!(handler.ready(emitter.clone()));
    let made_ready = handler.emit(String::from("v"));
    let slots: Vec<usize> = made_ready.iter().map(|w| w.slot).collect();
    assert_eq!(slots, vec![first.min(second), first.max(second)]);
    for listener in made_ready {
        listener.waker.wake();
    }
    assert_eq!(woken(&first_count), 1);
    assert_eq!(woken(&second_count), 1);
    assert!(!handler.ready(emitter.clone()));
    let polled = handler.wait(first, first_waker.clone());
    assert_eq!(polled.value, Some(String::from("v")));
    // the emission still waits for the second listener
    assert!(polled.wake.is_none());
    assert!(!handler.ready(emitter.clone()));
    let polled = handler.wait(second, second_waker.clone());
    assert_eq!(polled.value, Some(String::from("v")));
    // the last listener is handed the waker of the emitter
    polled.wake.expect("the waker of the emitter").wake();
    assert_eq!(woken(&emitter_count), 1);
    assert!(handler.ready(emitter.clone()));
    // a listener that saw the value waits for the next one
    assert!(handler.wait(first, first_waker).value.is_none());
    assert!(handler.unregister(first).is_none());
    assert!(handler.unregister(second).is_none());
    assert!(!handler.is_registered(first));
    assert!(handler.ready(emitter));
    assert_eq!(woken(&first_count), 1);
    assert_eq!(woken(&second_count), 1);
}

#[test]
fn a_listener_that_goes_away_is_accounted_for() {
    let (emitter_count, emitter) = counter();
    let (_, listener) = counter();
    let mut handler: Handler<u8> = Handler::new();
    let first = handler.register();
    let second = handler.register();
    assert!(handler.wait(first, listener.clone()).value.is_none());
    assert!(handler.wait(second, listener.clone()).value.is_none());
    assert_eq!(handler.emit(9).len(), 2);
    assert!(!handler.ready(emitter.clone()));
    assert!(handler.unregister(first).is_none());
    assert!(!handler.ready(emitter.clone()));
    let polled = handler.wait(second, listener.clone());
    assert_eq!(polled.value, Some(9));
    polled.wake.expect("the waker of the emitter").wake();
    assert_eq!(woken(&emitter_count), 1);
    assert!(handler.ready(emitter.clone()));
    assert!(handler.unregister(second).is_none());
    assert!(handler.ready(emitter));
}

#[test]
fn the_last_listener_to_go_away_hands_out_the_emitter() {
    let (emitter_count, emitter) = counter();
    let (_, listener) = counter();
    let mut handler: Handler<u8> = Handler::new();
    let only = handler.register();
    assert!(handler.wait(only, listener).value.is_none());
    assert_eq!(handler.emit(4).len(), 1);
    assert!(!handler.ready(emitter.clone()));
    handler.unregister(only).expect("the waker of the emitter").wake();
    assert_eq!(woken(&emitter_count), 1);
    assert!(handler.ready(emitter));
}

#[test]
fn a_listener_that_was_never_polled_is_passed_over() {
    let (_, emitter) = counter();
    let (polled_count, polled_waker) = counter();
    let (idle_count, idle_waker) = counter();
    let mut handler: Handler<u8> = Handler::new();
    let polled = handler.register();
    let idle = handler.register();
    assert!(handler.wait(polled, polled_waker.clone()).value.is_none());
    let made_ready = handler.emit(1);
    assert_eq!(made_ready.len(), 1);
    assert_eq!(made_ready[0].slot, polled);
    for listener in made_ready {
        listener.waker.wake();
    }
    assert_eq!(woken(&polled_count), 1);
    assert_eq!(woken(&idle_count), 0);
    // the idle listener was not woken: its first poll only leaves a waker
    assert!(handler.wait(idle, idle_waker.clone()).value.is_none());
    assert!(!handler.ready(emitter.clone()));
    assert_eq!(handler.wait(polled, polled_waker.clone()).value, Some(1));
    assert!(handler.ready(emitter.clone()));
    // the next emission reaches the formerly idle listener only: the other
    // has left no waker since it saw the value
    let made_ready = handler.emit(2);
    assert_eq!(made_ready.len(), 1);
    assert_eq!(made_ready[0].slot, idle);
    assert!(handler.wait(polled, polled_waker).value.is_none());
    assert_eq!(handler.wait(idle, idle_waker).value, Some(2));
    assert!(handler.ready(emitter));
}

#[test]
fn only_registered_listeners_without_wakers_means_no_wait() {
    let (_, emitter) = counter();
    let (_, listener) = counter();
    let mut handler: Handler<u8> = Handler::new();
    let slot = handler.register();
    assert!(handler.emit(3).is_empty());
    assert!(handler.ready(emitter));
    assert!(handler.wait(slot, listener).value.is_none());
    assert!(handler.unregister(slot).is_none());
    // the slot can be given out again
    let again = handler.register();
    assert!(handler.is_registered(again));
}
