//! What the loop around the monitor decides: when a tick is due, how long to
//! wait for input, and what an input does.

use crate::app::{resolve, App};
use vstd::prelude::*;

verus! {

/// The time from one tick to the next, in nanoseconds: half a second.
pub const TICK_RATE_NANOS: u64 = 500_000_000;

/// Whether a tick is due, `elapsed` nanoseconds after the last one.
pub fn tick_due(elapsed: u128) -> (due: bool)
    ensures
        due == (elapsed >= TICK_RATE_NANOS),
{
    elapsed >= TICK_RATE_NANOS as u128
}

/// How many nanoseconds to wait for input, `elapsed` nanoseconds after the
/// last tick: what is left until the next tick, and nothing once it is due.
pub fn poll_timeout(elapsed: u128) -> (wait: u64)
    ensures
        wait == if elapsed >= TICK_RATE_NANOS {
            0
        } else {
            TICK_RATE_NANOS - elapsed
        },
{
    if elapsed >= TICK_RATE_NANOS as u128 {
        0
    } else {
        TICK_RATE_NANOS - (elapsed as u64)
    }
}

/// An input, as far as the monitor tells inputs apart.
#[derive(Debug, Clone, Copy, PartialEq, Eq, Structural)]
pub enum InputEvent {
    /// The key that ends the monitor.
    Quit,
    /// The key that closes what is shown about a core.
    Dismiss,
    /// A press of the left button on the cell in `column` and `row`.
    Click { column: u16, row: u16 },
    /// Any other input.
    Other,
}

impl App {
    /// Takes in one input, and returns the core whose processes are to be
    /// looked up and shown: the core of the cell that was clicked, if that
    /// cell stands for one.
    pub fn handle_event(&mut self, event: InputEvent) -> (picked: Option<u32>)
        ensures
            picked == match event {
                InputEvent::Click { column, row } => resolve(
                    old(self).cpu_core_areas@,
                    column,
                    row,
                ),
                _ => None,
            },
            final(self).should_exit == (old(self).should_exit || event == InputEvent::Quit),
            final(self).popup_state.show == (old(self).popup_state.show && event
                != InputEvent::Dismiss),
            event == InputEvent::Dismiss ==> final(self).popup_state.processes@.len() == 0,
            event != InputEvent::Dismiss ==> final(self).popup_state == old(self).popup_state,
            final(self).popup_state.cpu_core_id == old(self).popup_state.cpu_core_id,
            final(self).numa_nodes == old(self).numa_nodes,
            final(self).prev_cpu_times == old(self).prev_cpu_times,
            final(self).cpu_core_areas == old(self).cpu_core_areas,
    {
        match event {
            InputEvent::Quit => {
                self.exit();
                None
            },
            InputEvent::Dismiss => {
                self.hide_popup();
                None
            },
            InputEvent::Click { column, row } => self.handle_mouse_click(column, row),
            InputEvent::Other => None,
        }
    }
}

} // verus!
