//! Starting and stopping: the parts of a running engine, and its tasks.
use vstd::prelude::*;

use crate::addr::SocketAddr;
use crate::bucket::BucketState;
use crate::config::{EngineParams, LiveConfig};
use crate::receiver::{DownstreamReceiver, ReceiverPhase, ReceiverState};
use crate::sender::{DownstreamSender, UpstreamSender};
use crate::time::Instant;
use crate::upstream::{UpstreamPhase, UpstreamReceiver, UpstreamState};

verus! {

/// The parts of an engine that has just been started.
pub struct Engine<S> {
    /// The socket that clients send to.
    pub socket: S,
    /// What becomes of the packets of clients.
    pub receiver: DownstreamReceiver,
    /// What becomes of the replies to them.
    pub sender: DownstreamSender,
    /// The settings to start with.
    pub live_config: LiveConfig,
}

/// Sets up an engine on a socket that was bound to `params.bind_addr`. Where the socket
/// could not be bound, there is no engine. Connections for clients are made from any
/// port of the same host.
pub fn start_engine<S, E>(
    params: EngineParams,
    initial_config: LiveConfig,
    socket: Result<S, E>,
) -> (r: Result<Engine<S>, E>)
    ensures
        match socket {
            Ok(s) => r matches Ok(engine) && engine.socket == s && engine.live_config
                == initial_config && engine.receiver.well_formed() && engine.receiver@ == (
            ReceiverState {
                proxy_bind_addr: SocketAddr::at(params.bind_addr.host(), 0),
                upstream: params.upstream,
                clients: Map::empty(),
                phase: ReceiverPhase::Receiving,
            }) && engine.sender.phase is Dequeuing,
            Err(e) => r == Result::<Engine<S>, E>::Err(e),
        },
{
    let proxy_bind_addr: SocketAddr = SocketAddr::new(params.bind_addr.ip(), 0);
    match socket {
        Ok(socket) => Ok(
            Engine {
                socket,
                receiver: DownstreamReceiver::new(proxy_bind_addr, params.upstream),
                sender: DownstreamSender::new(),
                live_config: initial_config,
            },
        ),
        Err(e) => Err(e),
    }
}

/// The parts of a connection between one client and the upstream server.
pub struct UpstreamConnection<S> {
    /// The socket that faces the upstream server.
    pub socket: S,
    /// What becomes of the server's replies.
    pub receiver: UpstreamReceiver,
    /// What becomes of the client's packets.
    pub sender: UpstreamSender,
}

/// Sets up a connection between a client and the upstream server on a socket that was
/// bound for it. Where the socket could not be bound, there is no connection.
pub fn spawn_upstream_connection<S, E>(
    upstream: SocketAddr,
    downstream: SocketAddr,
    socket: Result<S, E>,
    config: LiveConfig,
    now: Instant,
) -> (r: Result<UpstreamConnection<S>, E>)
    ensures
        match socket {
            Ok(s) => r matches Ok(connection) && connection.socket == s && connection.receiver@ == (
            UpstreamState {
                upstream,
                downstream,
                bucket: BucketState::full(config.limit_down@, config.limit_down@, now@),
                phase: UpstreamPhase::Receiving,
            }) && connection.sender.upstream == upstream && connection.sender.phase is Dequeuing,
            Err(e) => r == Result::<UpstreamConnection<S>, E>::Err(e),
        },
{
    match socket {
        Ok(socket) => Ok(
            UpstreamConnection {
                socket,
                receiver: UpstreamReceiver::new(upstream, downstream, config.limit_down, now),
                sender: UpstreamSender::new(upstream),
            },
        ),
        Err(e) => Err(e),
    }
}

/// The tasks of a running engine, in the order in which they were started.
pub struct EngineHandle<T> {
    pub tasks: Vec<T>,
}

impl<T> EngineHandle<T> {
    /// An engine that has no tasks yet.
    pub fn new() -> (r: EngineHandle<T>)
        ensures
            r.tasks@ == Seq::<T>::empty(),
    {
        EngineHandle { tasks: Vec::new() }
    }

    /// Takes note of the two tasks of a socket, so that they can be stopped.
    pub fn register(&mut self, receiver: T, sender: T)
        ensures
            final(self).tasks@ == old(self).tasks@.push(receiver).push(sender),
    {
        self.tasks.push(receiver);
        self.tasks.push(sender);
    }

    /// Hands out the tasks that are to be aborted. A task may start others until it is
    /// aborted, so this is repeated until there is nothing left to hand out.
    pub fn stop(&mut self) -> (r: Option<Vec<T>>)
        ensures
            final(self).tasks@ == Seq::<T>::empty(),
            match r {
                Some(batch) => batch@ == old(self).tasks@ && batch@.len() > 0,
                None => old(self).tasks@.len() == 0,
            },
    {
        let mut batch: Vec<T> = Vec::new();
        std::mem::swap(&mut self.tasks, &mut batch);
        if batch.len() == 0 {
            None
        } else {
            Some(batch)
        }
    }
}

} // verus!
