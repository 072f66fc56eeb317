//! Runtime options.

use vstd::prelude::*;

verus! {

/// Options of the runtime.
pub struct Options {
    /// The largest number of pending equations.
    pub stack_size: usize,
    /// Report each reduction.
    pub trace: bool,
    /// Report reduction counts and time.
    pub timing: bool,
}

/// The default bound on pending equations.
pub const DEFAULT_STACK_SIZE: usize = 1024;

impl Options {
    /// A stack of 1024 equations, without tracing or timing.
    pub fn new() -> (r: Options)
        ensures
            r.stack_size == DEFAULT_STACK_SIZE,
            !r.trace,
            !r.timing,
    {
        Options { stack_size: DEFAULT_STACK_SIZE, trace: false, timing: false }
    }
}

impl Default for Options {
    /// A stack of 1024 equations, without tracing or timing.
    fn default() -> (r: Options)
        ensures
            r.stack_size == DEFAULT_STACK_SIZE,
            !r.trace,
            !r.timing,
    {
        Options::new()
    }
}

} // verus!
