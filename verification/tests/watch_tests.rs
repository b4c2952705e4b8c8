use syncenv::watch::{after_delivery, continues, Action, Notifier, WatchEvent};

#[test]
fn change_under_signal_target_sends_exactly_one_signal() {
    // signal scenario: a write yields one signal to the target, watch stays alive
    let n = Notifier::SignalTarget { pid: 4242 };
    let a = n.react(&WatchEvent::Changed);
    assert_eq!(a, Action::SendUserSignal { pid: 4242 });
    assert!(continues(&a));
}

#[test]
fn change_under_exit_on_change_exits_with_success() {
    let n = Notifier::ExitOnChange;
    let a = n.react(&WatchEvent::Changed);
    assert_eq!(a, Action::ExitSuccess);
    assert!(!continues(&a));
}

#[test]
fn subscription_error_terminates_either_notifier() {
    let a = Notifier::ExitOnChange.react(&WatchEvent::SubscriptionError);
    let b = Notifier::SignalTarget { pid: 1 }.react(&WatchEvent::SubscriptionError);
    assert_eq!(a, Action::ExitFailure);
    assert_eq!(b, Action::ExitFailure);
    assert!(!continues(&a));
    assert!(!continues(&b));
}

#[test]
fn delivery_outcome_decides_whether_the_watch_lives_on() {
    let ok = after_delivery(true);
    let gone = after_delivery(false);
    assert_eq!(ok, Action::KeepWatching);
    assert!(continues(&ok));
    assert_eq!(gone, Action::ExitFailure);
    assert!(!continues(&gone));
}

#[test]
fn repeated_events_each_yield_one_idempotent_fire() {
    // rapid successive events must be tolerated: each one maps to the same
    // safe-to-repeat action
    let n = Notifier::SignalTarget { pid: 7 };
    let first = n.react(&WatchEvent::Changed);
    let second = n.react(&WatchEvent::Changed);
    assert_eq!(first, second);
    assert!(continues(&second));
}
