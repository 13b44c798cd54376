//! The decisions of the client's connection to the server: what to do with
//! each message, command and timer event, and whether to reconnect when a
//! connection ends.

use vstd::prelude::*;

use std::time::Duration;

verus! {

/// Whether the client is connected to the server.
#[derive(Clone, Copy, Debug, PartialEq, Eq)]
pub enum Status {
    Disconnected,
    Connected,
}

impl Default for Status {
    fn default() -> (s: Self)
        ensures
            s == Status::Disconnected,
    {
        Status::Disconnected
    }
}

/// A timeout that runs after a ping was sent, until the pong arrives.
#[derive(Debug)]
pub struct PingTimeout {
    armed: bool,
    timeout: Duration,
}

impl PingTimeout {
    /// Whether the timeout is running.
    pub closed spec fn spec_armed(&self) -> bool {
        self.armed
    }

    /// How long the timeout runs.
    pub closed spec fn spec_timeout(&self) -> Duration {
        self.timeout
    }

    /// A timeout of `timeout` that isn't running yet.
    pub fn new(timeout: Duration) -> (r: Self)
        ensures
            !r.spec_armed(),
            r.spec_timeout() == timeout,
    {
        PingTimeout { armed: false, timeout }
    }

    /// Starts the timeout, afresh if it was running.
    pub fn start(&mut self)
        ensures
            (*final(self)).spec_armed(),
            (*final(self)).spec_timeout() == old(self).spec_timeout(),
    {
        self.armed = true;
    }

    /// Stops the timeout.
    pub fn clear(&mut self)
        ensures
            !(*final(self)).spec_armed(),
            (*final(self)).spec_timeout() == old(self).spec_timeout(),
    {
        self.armed = false;
    }

    /// Returns whether the timeout is running.
    pub fn is_armed(&self) -> (b: bool)
        ensures
            b == self.spec_armed(),
    {
        self.armed
    }

    /// Returns how long the timeout runs.
    pub fn timeout(&self) -> (d: Duration)
        ensures
            d == self.spec_timeout(),
    {
        self.timeout
    }
}

/// Something that happened on a connection.
#[derive(Clone, Copy, Debug, PartialEq, Eq)]
pub enum ConnectionEvent {
    /// The server closed the connection.
    Closed,
    /// The server asks to reload the user interface.
    ReloadUi,
    /// The server answered a ping.
    Pong,
    /// The server sent an event of a flow subscription, which is one the
    /// client listens to or not.
    FlowEvent { subscribed: bool },
    /// The server asks whether to go on.
    Interrupt,
    /// The client asks to be sent the events of a flow subscription.
    Subscribe,
    /// The client dropped its side of the command channel.
    CommandsClosed,
    /// It is time to send a ping.
    PingTick,
    /// The ping timeout ran out.
    PingTimedOut,
    /// Sending or receiving failed.
    Failed,
}

/// How a connection ended.
#[derive(Clone, Copy, Debug, PartialEq, Eq)]
pub enum ConnectionEnd {
    /// The client is shutting down.
    Shutdown,
    /// The server closed the connection.
    Disconnected,
    /// The server didn't answer a ping in time.
    PingTimeout,
    /// Sending or receiving failed.
    Failed,
}

/// What to do after an event on a connection.
#[derive(Clone, Copy, Debug, PartialEq, Eq)]
pub enum ConnectionAction {
    /// Nothing.
    Nothing,
    /// Tell the client to reload its user interface.
    TriggerReload,
    /// Hand the flow event to the listener of its subscription.
    ForwardFlowEvent,
    /// Tell the server that nobody listens to the subscription.
    SendUnsubscribe,
    /// Tell the server to go on.
    SendContinue,
    /// Keep the listener of the new subscription.
    AddSubscription,
    /// Send a ping.
    SendPing,
    /// End the connection.
    End(ConnectionEnd),
}

/// Whether the ping timeout runs after `event`, `armed` telling whether it
/// ran before: a ping starts it, a pong stops it.
pub open spec fn armed_after_event(armed: bool, event: ConnectionEvent) -> bool {
    match event {
        ConnectionEvent::PingTick => true,
        ConnectionEvent::Pong => false,
        _ => armed,
    }
}

/// Whether the ping timeout runs after `events`, one after the other,
/// `armed` telling whether it ran before.
pub open spec fn armed_after_events(armed: bool, events: Seq<ConnectionEvent>) -> bool
    decreases events.len(),
{
    if events.len() == 0 {
        armed
    } else {
        armed_after_event(armed_after_events(armed, events.drop_last()), events.last())
    }
}

/// What to do after `event` on a connection, `armed` telling whether the
/// ping timeout runs.
pub open spec fn connection_action(armed: bool, event: ConnectionEvent) -> ConnectionAction {
    match event {
        ConnectionEvent::Closed => ConnectionAction::End(ConnectionEnd::Disconnected),
        ConnectionEvent::ReloadUi => ConnectionAction::TriggerReload,
        ConnectionEvent::Pong => ConnectionAction::Nothing,
        ConnectionEvent::FlowEvent { subscribed } => if subscribed {
            ConnectionAction::ForwardFlowEvent
        } else {
            ConnectionAction::SendUnsubscribe
        },
        ConnectionEvent::Interrupt => ConnectionAction::SendContinue,
        ConnectionEvent::Subscribe => ConnectionAction::AddSubscription,
        ConnectionEvent::CommandsClosed => ConnectionAction::End(ConnectionEnd::Shutdown),
        ConnectionEvent::PingTick => ConnectionAction::SendPing,
        ConnectionEvent::PingTimedOut => if armed {
            ConnectionAction::End(ConnectionEnd::PingTimeout)
        } else {
            ConnectionAction::Nothing
        },
        ConnectionEvent::Failed => ConnectionAction::End(ConnectionEnd::Failed),
    }
}

/// What the client does about a message from the server, a command of its
/// own, a ping tick, a closed connection or a failure does not depend on
/// whether a ping awaits its pong: only the ping timeout running out does.
/// And every message is answered as it comes: a reload request triggers a
/// reload, an interrupt is answered with `Continue`, a flow event is handed
/// on or unsubscribed from, a ping tick sends a ping.
pub proof fn lemma_actions_independent_of_ping(event: ConnectionEvent)
    ensures
        event != ConnectionEvent::PingTimedOut ==> connection_action(true, event)
            == connection_action(false, event),
        connection_action(true, ConnectionEvent::Interrupt) == ConnectionAction::SendContinue,
        connection_action(false, ConnectionEvent::Interrupt) == ConnectionAction::SendContinue,
        connection_action(true, ConnectionEvent::ReloadUi) == ConnectionAction::TriggerReload,
        connection_action(false, ConnectionEvent::ReloadUi) == ConnectionAction::TriggerReload,
        connection_action(true, ConnectionEvent::PingTick) == ConnectionAction::SendPing,
        connection_action(false, ConnectionEvent::PingTick) == ConnectionAction::SendPing,
        connection_action(true, ConnectionEvent::Subscribe) == ConnectionAction::AddSubscription,
        connection_action(false, ConnectionEvent::Subscribe) == ConnectionAction::AddSubscription,
        forall|armed: bool|
            connection_action(armed, ConnectionEvent::FlowEvent { subscribed: true })
                == ConnectionAction::ForwardFlowEvent && connection_action(
                armed,
                ConnectionEvent::FlowEvent { subscribed: false },
            ) == ConnectionAction::SendUnsubscribe,
        forall|armed: bool|
            #[trigger] connection_action(armed, ConnectionEvent::PingTimedOut)
                == ConnectionAction::End(ConnectionEnd::PingTimeout) <==> armed,
        forall|armed: bool, e: ConnectionEvent|
            #[trigger] connection_action(armed, e) == ConnectionAction::End(ConnectionEnd::PingTimeout)
                ==> e == ConnectionEvent::PingTimedOut,
        forall|armed: bool|
            {
                &&& #[trigger] connection_action(armed, ConnectionEvent::Closed) == ConnectionAction::End(
                    ConnectionEnd::Disconnected,
                )
                &&& connection_action(armed, ConnectionEvent::CommandsClosed) == ConnectionAction::End(
                    ConnectionEnd::Shutdown,
                )
                &&& connection_action(armed, ConnectionEvent::Failed) == ConnectionAction::End(
                    ConnectionEnd::Failed,
                )
                &&& connection_action(armed, ConnectionEvent::Pong) == ConnectionAction::Nothing
            },
        forall|armed: bool|
            #[trigger] armed_after_event(armed, ConnectionEvent::PingTick) && !armed_after_event(
                armed,
                ConnectionEvent::Pong,
            ),
        forall|armed: bool, e: ConnectionEvent|
            e != ConnectionEvent::PingTick && e != ConnectionEvent::Pong ==> #[trigger] armed_after_event(
                armed,
                e,
            ) == armed,
{
}

proof fn lemma_stays_unarmed(events: Seq<ConnectionEvent>)
    requires
        forall|i: int| 0 <= i < events.len() ==> events[i] != ConnectionEvent::PingTick,
    ensures
        !armed_after_events(false, events),
    decreases events.len(),
{
    if events.len() > 0 {
        lemma_stays_unarmed(events.drop_last());
    }
}

/// A ping timeout that doesn't run, as after `PingTimeout::new` or
/// `PingTimeout::clear`, never ends the connection, whatever happens on it,
/// until the next ping is sent.
pub proof fn lemma_cleared_timeout_never_fires(events: Seq<ConnectionEvent>)
    requires
        forall|i: int| 0 <= i < events.len() ==> events[i] != ConnectionEvent::PingTick,
    ensures
        !armed_after_events(false, events),
        forall|i: int|
            0 <= i < events.len() ==> connection_action(
                armed_after_events(false, #[trigger] events.take(i)),
                events[i],
            ) != ConnectionAction::End(ConnectionEnd::PingTimeout),
{
    lemma_stays_unarmed(events);
    assert forall|i: int| 0 <= i < events.len() implies connection_action(
        armed_after_events(false, #[trigger] events.take(i)),
        events[i],
    ) != ConnectionAction::End(ConnectionEnd::PingTimeout) by {
        lemma_stays_unarmed(events.take(i));
    }
}

/// Decides what to do after `event` on a connection, and keeps the ping
/// timeout: a ping starts it, a pong stops it, and it only runs out while it
/// runs.
pub fn connection_step(ping: &mut PingTimeout, event: ConnectionEvent) -> (a: ConnectionAction)
    ensures
        (*final(ping)).spec_timeout() == old(ping).spec_timeout(),
        (*final(ping)).spec_armed() == armed_after_event(old(ping).spec_armed(), event),
        a == connection_action(old(ping).spec_armed(), event),
{
    match event {
        ConnectionEvent::Closed => ConnectionAction::End(ConnectionEnd::Disconnected),
        ConnectionEvent::ReloadUi => ConnectionAction::TriggerReload,
        ConnectionEvent::Pong => {
            ping.clear();
            ConnectionAction::Nothing
        },
        ConnectionEvent::FlowEvent { subscribed } => {
            if subscribed {
                ConnectionAction::ForwardFlowEvent
            } else {
                ConnectionAction::SendUnsubscribe
            }
        },
        ConnectionEvent::Interrupt => ConnectionAction::SendContinue,
        ConnectionEvent::Subscribe => ConnectionAction::AddSubscription,
        ConnectionEvent::CommandsClosed => ConnectionAction::End(ConnectionEnd::Shutdown),
        ConnectionEvent::PingTick => {
            ping.start();
            ConnectionAction::SendPing
        },
        ConnectionEvent::PingTimedOut => {
            if ping.is_armed() {
                ConnectionAction::End(ConnectionEnd::PingTimeout)
            } else {
                ConnectionAction::Nothing
            }
        },
        ConnectionEvent::Failed => ConnectionAction::End(ConnectionEnd::Failed),
    }
}

/// What the client does after a connection ended: the status to report, if
/// any, and whether to connect again.
pub fn after_connection(end: ConnectionEnd) -> (r: (Option<Status>, bool))
    ensures
        r == match end {
            ConnectionEnd::Shutdown => (Some(Status::Disconnected), false),
            ConnectionEnd::Disconnected => (Some(Status::Disconnected), true),
            ConnectionEnd::PingTimeout => (Some(Status::Disconnected), true),
            ConnectionEnd::Failed => (None::<Status>, false),
        },
{
    match end {
        ConnectionEnd::Shutdown => (Some(Status::Disconnected), false),
        ConnectionEnd::Disconnected => (Some(Status::Disconnected), true),
        ConnectionEnd::PingTimeout => (Some(Status::Disconnected), true),
        ConnectionEnd::Failed => (None, false),
    }
}

} // verus!
