//! The wakers of tasks, which the core keeps and hands out without looking
//! into them.

use std::task::Waker;
use vstd::prelude::*;

verus! {

#[verifier::external_type_specification]
#[verifier::external_body]
pub struct ExWaker(Waker);

/// `Waker::will_wake`: whether the two wakers would wake the same task, as
/// far as the wakers can tell. Nothing is claimed of it.
#[verifier::external_body]
pub(crate) fn will_wake(waker: &Waker, other: &Waker) -> (r: bool) {
    waker.will_wake(other)
}

} // verus!
