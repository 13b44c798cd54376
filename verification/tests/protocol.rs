use std::time::Duration;

use byst::reactor::{
    after_connection, connection_step, ConnectionAction, ConnectionEnd, ConnectionEvent,
    PingTimeout, Status,
};
use byst::watch::{modified_step, Closed, ModifiedState, ModifiedStep, WatchEvent};

#[test]
fn status_defaults_to_disconnected() {
    assert_eq!(Status::default(), Status::Disconnected);
}

#[test]
fn ping_timeout_runs_from_ping_to_pong() {
    let mut ping = PingTimeout::new(Duration::from_secs(5));
    assert!(!ping.is_armed());
    assert_eq!(ping.timeout(), Duration::from_secs(5));
    assert_eq!(
        connection_step(&mut ping, ConnectionEvent::PingTimedOut),
        ConnectionAction::Nothing
    );
    assert_eq!(
        connection_step(&mut ping, ConnectionEvent::PingTick),
        ConnectionAction::SendPing
    );
    assert!(ping.is_armed());
    assert_eq!(
        connection_step(&mut ping, ConnectionEvent::Pong),
        ConnectionAction::Nothing
    );
    assert!(!ping.is_armed());
    connection_step(&mut ping, ConnectionEvent::PingTick);
    assert_eq!(
        connection_step(&mut ping, ConnectionEvent::PingTimedOut),
        ConnectionAction::End(ConnectionEnd::PingTimeout)
    );
    ping.clear();
    ping.start();
    assert!(ping.is_armed());
}

#[test]
fn connection_handles_messages_and_commands() {
    let mut ping = PingTimeout::new(Duration::from_secs(1));
    let cases = [
        (ConnectionEvent::ReloadUi, ConnectionAction::TriggerReload),
        (
            ConnectionEvent::FlowEvent { subscribed: true },
            ConnectionAction::ForwardFlowEvent,
        ),
        (
            ConnectionEvent::FlowEvent { subscribed: false },
            ConnectionAction::SendUnsubscribe,
        ),
        (ConnectionEvent::Interrupt, ConnectionAction::SendContinue),
        (ConnectionEvent::Subscribe, ConnectionAction::AddSubscription),
        (
            ConnectionEvent::Closed,
            ConnectionAction::End(ConnectionEnd::Disconnected),
        ),
        (
            ConnectionEvent::CommandsClosed,
            ConnectionAction::End(ConnectionEnd::Shutdown),
        ),
        (
            ConnectionEvent::Failed,
            ConnectionAction::End(ConnectionEnd::Failed),
        ),
    ];
    for (event, action) in cases {
        assert_eq!(connection_step(&mut ping, event), action);
    }
}

#[test]
fn reconnects_only_after_losing_the_server() {
    assert_eq!(
        after_connection(ConnectionEnd::Shutdown),
        (Some(Status::Disconnected), false)
    );
    assert_eq!(
        after_connection(ConnectionEnd::Disconnected),
        (Some(Status::Disconnected), true)
    );
    assert_eq!(
        after_connection(ConnectionEnd::PingTimeout),
        (Some(Status::Disconnected), true)
    );
    assert_eq!(after_connection(ConnectionEnd::Failed), (None, false));
}

#[test]
fn modification_without_debounce_ends_the_wait() {
    assert_eq!(
        modified_step(ModifiedState::Waiting, false, WatchEvent::Other),
        ModifiedStep::Wait(ModifiedState::Waiting)
    );
    assert_eq!(
        modified_step(ModifiedState::Waiting, false, WatchEvent::Modified),
        ModifiedStep::Done(Ok(()))
    );
    assert_eq!(
        modified_step(ModifiedState::Waiting, false, WatchEvent::Closed),
        ModifiedStep::Done(Err(Closed))
    );
}

#[test]
fn debounce_waits_for_a_quiet_period() {
    assert_eq!(
        modified_step(ModifiedState::Waiting, true, WatchEvent::Modified),
        ModifiedStep::RestartDebounce
    );
    assert_eq!(
        modified_step(ModifiedState::Debouncing, true, WatchEvent::Modified),
        ModifiedStep::RestartDebounce
    );
    assert_eq!(
        modified_step(ModifiedState::Debouncing, true, WatchEvent::Other),
        ModifiedStep::Wait(ModifiedState::Debouncing)
    );
    assert_eq!(
        modified_step(ModifiedState::Debouncing, true, WatchEvent::DebounceElapsed),
        ModifiedStep::Done(Ok(()))
    );
    assert_eq!(
        modified_step(ModifiedState::Debouncing, true, WatchEvent::Closed),
        ModifiedStep::Done(Err(Closed))
    );
}

#[test]
fn cleared_ping_timeout_never_fires() {
    let mut ping = PingTimeout::new(Duration::from_secs(1));
    connection_step(&mut ping, ConnectionEvent::PingTick);
    ping.clear();
    let events = [
        ConnectionEvent::PingTimedOut,
        ConnectionEvent::Interrupt,
        ConnectionEvent::Pong,
        ConnectionEvent::PingTimedOut,
    ];
    for event in events {
        assert_ne!(
            connection_step(&mut ping, event),
            ConnectionAction::End(ConnectionEnd::PingTimeout)
        );
    }
    assert!(!ping.is_armed());
}
