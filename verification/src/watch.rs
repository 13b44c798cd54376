//! Deciding when a watched file counts as modified: the first modification
//! ends the wait, or, with a debounce time, the first quiet period of that
//! length after a modification.

use vstd::prelude::*;

verus! {

/// The error returned when the watcher has stopped sending events.
#[derive(Clone, Copy, Debug, PartialEq, Eq)]
pub struct Closed;

/// What the watcher reports while waiting for a modification.
#[derive(Clone, Copy, Debug, PartialEq, Eq)]
pub enum WatchEvent {
    /// A file was modified.
    Modified,
    /// Something else happened to a file.
    Other,
    /// The watcher stopped.
    Closed,
    /// The debounce time passed without a modification.
    DebounceElapsed,
}

/// Where the wait for a modification stands.
#[derive(Clone, Copy, Debug, PartialEq, Eq)]
pub enum ModifiedState {
    /// No modification yet.
    Waiting,
    /// A modification was seen; waiting for the debounce time to pass
    /// without another one.
    Debouncing,
}

/// What to do after an event.
#[derive(Clone, Copy, Debug, PartialEq, Eq)]
pub enum ModifiedStep {
    /// Wait for the next event in this state, keeping any debounce timer
    /// running.
    Wait(ModifiedState),
    /// Start the debounce timer afresh, and wait for the next event while
    /// debouncing.
    RestartDebounce,
    /// The wait is over, with this result.
    Done(Result<(), Closed>),
}

/// Decides what to do after `event`, in `state`, where `debounce` says
/// whether a debounce time is set.
pub fn modified_step(state: ModifiedState, debounce: bool, event: WatchEvent) -> (r: ModifiedStep)
    ensures
        event == WatchEvent::Closed ==> r == ModifiedStep::Done(Err(Closed)),
        event == WatchEvent::Other ==> r == ModifiedStep::Wait(state),
        event == WatchEvent::Modified ==> r == if state == ModifiedState::Waiting && !debounce {
            ModifiedStep::Done(Ok(()))
        } else {
            ModifiedStep::RestartDebounce
        },
        event == WatchEvent::DebounceElapsed ==> r == if state == ModifiedState::Debouncing {
            ModifiedStep::Done(Ok(()))
        } else {
            ModifiedStep::Wait(state)
        },
{
    match event {
        WatchEvent::Closed => ModifiedStep::Done(Err(Closed)),
        WatchEvent::Other => ModifiedStep::Wait(state),
        WatchEvent::Modified => match state {
            ModifiedState::Waiting => {
                if debounce {
                    ModifiedStep::RestartDebounce
                } else {
                    ModifiedStep::Done(Ok(()))
                }
            },
            ModifiedState::Debouncing => ModifiedStep::RestartDebounce,
        },
        WatchEvent::DebounceElapsed => match state {
            ModifiedState::Waiting => ModifiedStep::Wait(state),
            ModifiedState::Debouncing => ModifiedStep::Done(Ok(())),
        },
    }
}

} // verus!
