//! The profiler hooks, built without a profiler: every hook does nothing.
use vstd::prelude::*;

verus! {

/// The name of a plot.
#[derive(Clone, Copy)]
pub struct PlotName;

/// A profiler client; none ever runs in this build.
pub struct Client;

impl Client {
    /// The running client: there is none.
    pub fn running() -> (r: Option<Self>)
        ensures
            r is None,
    {
        None
    }

    pub fn start() -> Self {
        Client
    }

    pub fn set_thread_name(&self, _s: &str) {
    }

    pub fn message(&self, _s: &str, _depth: u16) {
    }

    pub fn color_message(&self, _s: &str, _rgba: u32, _depth: u16) {
    }
}

/// Name the current thread in the profiler.
pub fn set_thread_name(_s: &str) {
}

/// Send a message to the profiler.
pub fn message(_s: &str) {
}

/// Send a colored message to the profiler.
pub fn message_color(_s: &str, _rgba: u32) {
}

/// Make a plot name.
pub fn create_plot(_name: &str) -> PlotName {
    PlotName
}

} // verus!
