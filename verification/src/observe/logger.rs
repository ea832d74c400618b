use vstd::prelude::*;

verus! {

/// A creature's log. Logging is switched off in this build: nothing is recorded.
pub struct Logger {}

impl Logger {
    /// A logger that records nothing.
    pub fn none() -> (r: Self)
        ensures
            r == (Logger {}),
    {
        Logger {}
    }

    /// A logger titled by `title`; with logging switched off it records nothing.
    pub fn printer<F: FnOnce() -> String>(title: F) -> (r: Self)
        ensures
            r == (Logger {}),
    {
        Logger {}
    }

    /// Logs the line that `f` makes; with logging switched off `f` is not called.
    pub fn print<S, F: FnOnce() -> S>(&self, f: F) {
    }
}

impl Clone for Logger {
    fn clone(&self) -> (r: Self) {
        Logger {}
    }
}

impl Default for Logger {
    fn default() -> (r: Self) {
        Logger {}
    }
}

} // verus!
