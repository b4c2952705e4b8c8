//! The watcher's decisions: what a watch invocation does on each observed
//! event. Subscribing to the path, receiving events, delivering a signal and
//! exiting the process are outside work; the caller observes one event (or
//! one delivery outcome) at a time, asks this module for the action, and
//! performs it. Every event yields exactly one action.

use vstd::prelude::*;

verus! {

/// How a watcher wakes the consumer of the rc-file. The strategy is fixed
/// for the lifetime of one watch invocation.
#[derive(Clone, Copy, PartialEq, Eq, Structural, Debug)]
pub enum Notifier {
    /// Terminate the watching process with success status; a wrapping shell
    /// construct observes the exit and re-sources the file.
    ExitOnChange,
    /// Deliver the second user-defined signal to the target process, and
    /// keep watching.
    SignalTarget { pid: i32 },
}

/// One observation handed in by the watch facility.
#[derive(Clone, Copy, PartialEq, Eq, Structural, Debug)]
pub enum WatchEvent {
    /// The watched path changed (any kind: creation, write, metadata,
    /// rename).
    Changed,
    /// The subscription itself failed; there is no recovery.
    SubscriptionError,
}

/// The single action the watching process performs next.
#[derive(Clone, Copy, PartialEq, Eq, Structural, Debug)]
pub enum Action {
    /// Keep the watch loop alive, doing nothing else.
    KeepWatching,
    /// Exit the process with success status.
    ExitSuccess,
    /// Report the failure and exit the process with failure status.
    ExitFailure,
    /// Deliver the second user-defined signal to `pid`, then keep watching.
    SendUserSignal { pid: i32 },
}

/// The action a notifier takes on one event: fire on a change, fail on a
/// subscription error.
pub open spec fn spec_react(n: Notifier, e: WatchEvent) -> Action {
    match e {
        WatchEvent::Changed => match n {
            Notifier::ExitOnChange => Action::ExitSuccess,
            Notifier::SignalTarget { pid } => Action::SendUserSignal { pid },
        },
        WatchEvent::SubscriptionError => Action::ExitFailure,
    }
}

/// Whether the watch loop stays alive after the action.
pub open spec fn action_continues(a: Action) -> bool {
    a is KeepWatching || a is SendUserSignal
}

impl Notifier {
    /// The one action to perform for one observed event.
    pub fn react(&self, event: &WatchEvent) -> (a: Action)
        ensures
            a == spec_react(*self, *event),
    {
        match event {
            WatchEvent::Changed => match self {
                Notifier::ExitOnChange => Action::ExitSuccess,
                Notifier::SignalTarget { pid } => Action::SendUserSignal { pid: *pid },
            },
            WatchEvent::SubscriptionError => Action::ExitFailure,
        }
    }
}

/// The action after an attempted signal delivery: keep watching when the
/// signal was delivered, abort when the target could not be reached — a
/// watcher that cannot reach its target has no further purpose.
pub fn after_delivery(delivered: bool) -> (a: Action)
    ensures
        delivered ==> a == Action::KeepWatching,
        !delivered ==> a == Action::ExitFailure,
{
    if delivered {
        Action::KeepWatching
    } else {
        Action::ExitFailure
    }
}

/// Whether the watch loop stays alive after the action.
pub fn continues(a: &Action) -> (r: bool)
    ensures
        r == action_continues(*a),
{
    match a {
        Action::KeepWatching => true,
        Action::SendUserSignal { .. } => true,
        Action::ExitSuccess => false,
        Action::ExitFailure => false,
    }
}

/// A change event under a signal target fires exactly the signal-send to
/// that target, and the watch stays alive afterward.
pub proof fn lemma_signal_target_fires(pid: i32)
    ensures
        spec_react(Notifier::SignalTarget { pid }, WatchEvent::Changed) == (Action::SendUserSignal {
            pid,
        }),
        action_continues(spec_react(Notifier::SignalTarget { pid }, WatchEvent::Changed)),
{
}

/// A change event under exit-on-change fires exactly the successful exit,
/// which ends the watch.
pub proof fn lemma_exit_on_change_fires()
    ensures
        spec_react(Notifier::ExitOnChange, WatchEvent::Changed) == Action::ExitSuccess,
        !action_continues(spec_react(Notifier::ExitOnChange, WatchEvent::Changed)),
{
}

/// A subscription error is terminal whatever the notifier: the process
/// reports and exits with failure.
pub proof fn lemma_subscription_error_terminates(n: Notifier)
    ensures
        spec_react(n, WatchEvent::SubscriptionError) == Action::ExitFailure,
        !action_continues(spec_react(n, WatchEvent::SubscriptionError)),
{
}

} // verus!
