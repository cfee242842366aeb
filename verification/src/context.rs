use vstd::prelude::*;

use crate::actor::{ActorId, Message};
use crate::addr::SendError;

verus! {

/// Something messages of type `M` can be sent to: an actor's address.
pub trait Recipient<M: Message> {
    /// Send `msg` and wait for the handler's result.
    fn send_message(&self, msg: M) -> Result<M::Result, SendError>;

    /// Send `msg` without waiting for a result.
    fn notify_message(&self, msg: M) -> Result<(), SendError>;
}

/// Execution context provided to an actor during message handling.
///
/// Besides the actor's identity and its "keep running" flag, a context
/// created by a multi-threaded runtime remembers which runtime and which
/// worker it belongs to, so that children can be spawned next to the parent.
pub struct Context {
    actor_id: ActorId,
    running: bool,
    runtime: Option<u64>,
    worker_idx: usize,
}

impl Context {
    pub closed spec fn spec_id(&self) -> ActorId {
        self.actor_id
    }

    pub closed spec fn spec_running(&self) -> bool {
        self.running
    }

    pub closed spec fn spec_runtime(&self) -> Option<u64> {
        self.runtime
    }

    pub closed spec fn spec_worker(&self) -> usize {
        self.worker_idx
    }

    /// A context for an actor that lives outside any multi-threaded runtime.
    pub fn new(actor_id: ActorId) -> (c: Self)
        ensures
            c.spec_id() == actor_id,
            c.spec_running(),
            c.spec_runtime() is None,
            c.spec_worker() == 0,
    {
        Context { actor_id, running: true, runtime: None, worker_idx: 0 }
    }

    /// A context for an actor hosted by worker `worker_idx` of runtime `runtime`.
    pub fn with_runtime(actor_id: ActorId, runtime: u64, worker_idx: usize) -> (c: Self)
        ensures
            c.spec_id() == actor_id,
            c.spec_running(),
            c.spec_runtime() == Some(runtime),
            c.spec_worker() == worker_idx,
    {
        Context { actor_id, running: true, runtime: Some(runtime), worker_idx }
    }

    /// A standalone context for actor 0, for driving handlers by hand.
    pub fn dummy() -> (c: Self)
        ensures
            c.spec_id() == ActorId(0),
            c.spec_running(),
            c.spec_runtime() is None,
            c.spec_worker() == 0,
    {
        Context::new(ActorId(0))
    }

    /// The context of a child that this actor spawns: the child's own id,
    /// running, on this actor's runtime and on this actor's worker.
    pub fn child_context(&self, child: ActorId) -> (c: Self)
        ensures
            c.spec_id() == child,
            c.spec_running(),
            c.spec_runtime() == self.spec_runtime(),
            c.spec_worker() == self.spec_worker(),
    {
        Context { actor_id: child, running: true, runtime: self.runtime, worker_idx: self.worker_idx }
    }

    /// Returns this actor's unique identifier.
    pub fn id(&self) -> (r: ActorId)
        ensures
            r == self.spec_id(),
    {
        self.actor_id
    }

    /// Send a message to another actor and wait for the result.
    ///
    /// Whatever the recipient answers (the handler's result, or why it could
    /// not be delivered) is returned unchanged: the result is an outcome of
    /// the recipient's `send_message` on this message.
    pub fn send<R: Recipient<M>, M: Message>(&self, addr: &R, msg: M) -> (r: Result<M::Result, SendError>)
        ensures
            call_ensures(R::send_message, (addr, msg), r),
    {
        addr.send_message(msg)
    }

    /// Notify another actor without waiting for a result. The message is
    /// handed to the recipient's `notify_message`; a message that cannot be
    /// delivered is dropped.
    pub fn notify<R: Recipient<M>, M: Message>(&self, addr: &R, msg: M)
        ensures
            exists|x: Result<(), SendError>| call_ensures(R::notify_message, (addr, msg), x),
    {
        let _ = addr.notify_message(msg);
    }

    /// Request this actor to stop after the current message is processed.
    pub fn stop(&mut self)
        ensures
            !final(self).spec_running(),
            final(self).spec_id() == old(self).spec_id(),
            final(self).spec_runtime() == old(self).spec_runtime(),
            final(self).spec_worker() == old(self).spec_worker(),
    {
        self.running = false;
    }

    /// Returns true if the actor should continue running.
    pub fn is_running(&self) -> (r: bool)
        ensures
            r == self.spec_running(),
    {
        self.running
    }

    /// The runtime this context belongs to, if any.
    pub fn runtime(&self) -> (r: Option<u64>)
        ensures
            r == self.spec_runtime(),
    {
        self.runtime
    }

    /// The worker that hosts this actor (0 outside a multi-threaded runtime).
    pub fn worker_idx(&self) -> (r: usize)
        ensures
            r == self.spec_worker(),
    {
        self.worker_idx
    }
}

} // verus!
