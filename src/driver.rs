use vstd::prelude::*;

verus! {

/// What the frame driver makes of one input event.
#[derive(Clone, Copy, Debug, PartialEq, Eq, Structural)]
pub enum Signal {
    /// The window was closed or Escape was pressed.
    Quit,
    /// Space was pressed: pause, or resume when paused.
    TogglePause,
    /// Any other event.
    Other,
}

/// State of the render loop between frames.
#[derive(Clone, Copy, Debug, PartialEq, Eq, Structural)]
pub struct Control {
    pub paused: bool,
    pub quit: bool,
}

/// The state after `s` arrives in state `c`. A quit is final; a toggle flips
/// the pause; other events change nothing.
pub open spec fn next_control(c: Control, s: Signal) -> Control {
    if c.quit {
        c
    } else {
        match s {
            Signal::Quit => Control { paused: c.paused, quit: true },
            Signal::TogglePause => Control { paused: !c.paused, quit: false },
            Signal::Other => c,
        }
    }
}

impl Control {
    /// A loop that has just started: running, not paused.
    pub fn new() -> (r: Control)
        ensures
            !r.paused,
            !r.quit,
    {
        Control { paused: false, quit: false }
    }

    /// The state once `signal` has been handled.
    pub fn on_signal(self, signal: Signal) -> (r: Control)
        ensures
            r == next_control(self, signal),
    {
        if self.quit {
            self
        } else {
            match signal {
                Signal::Quit => Control { paused: self.paused, quit: true },
                Signal::TogglePause => Control { paused: !self.paused, quit: false },
                Signal::Other => self,
            }
        }
    }

    /// Whether a frame is rendered and presented in this state: the loop
    /// goes on and is not paused. While paused, events are still drained.
    pub fn renders(&self) -> (r: bool)
        ensures
            r == (!self.quit && !self.paused),
    {
        !self.quit && !self.paused
    }
}

} // verus!
