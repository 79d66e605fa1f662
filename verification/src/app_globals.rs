//! What the whole application shares: one record, reached through a
//! registry that is set up at start and torn down at the end.

use vstd::prelude::*;

verus! {

/// The globals of the application.
#[derive(Copy, Clone, Debug, PartialEq, Eq, Structural)]
pub struct AppGlobals {
    /// The platform's double-click time, in milliseconds.
    pub double_click_time: u64,
}

/// The place where the globals of the running application are found.
pub struct Registry {
    pub current: Option<AppGlobals>,
}

impl Registry {
    /// A registry in which no application is active.
    pub fn new() -> (r: Registry)
        ensures
            r.current is None,
    {
        Registry { current: None }
    }
}

impl AppGlobals {
    /// Makes the globals of an application and registers them, in place of
    /// any that were registered.
    pub fn new(registry: &mut Registry, double_click_time: u64) -> (r: AppGlobals)
        ensures
            r.double_click_time == double_click_time,
            final(registry).current == Some(r),
    {
        let app = AppGlobals { double_click_time };
        registry.current = Some(app);
        app
    }

    /// The globals of the active application, if one is active.
    pub fn try_get(registry: &Registry) -> (r: Option<AppGlobals>)
        ensures
            r == registry.current,
    {
        registry.current
    }

    /// The globals of the active application. One must be active.
    pub fn get(registry: &Registry) -> (r: AppGlobals)
        requires
            registry.current is Some,
        ensures
            Some(r) == registry.current,
    {
        registry.current.unwrap()
    }

    /// The platform's double-click time, in milliseconds.
    pub fn double_click_time(&self) -> (r: u64)
        ensures
            r == self.double_click_time,
    {
        self.double_click_time
    }

    /// Ends the application: after this none is active.
    pub fn teardown(registry: &mut Registry)
        ensures
            final(registry).current is None,
    {
        registry.current = None;
    }
}

} // verus!
