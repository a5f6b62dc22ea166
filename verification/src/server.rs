//! The server's rules: what it answers to each request and when its loops
//! end. Reading requests and sending answers is left to the caller.

use crate::common::{Command, CommandView, Response, ResponseView};
use crate::engine::KvsEngine;
use crate::error::KvsError;
use crate::protocol::{key_not_found_text, respond_get, respond_rm, respond_set};
use crate::thread_pool::ThreadPool;
use vstd::prelude::*;

verus! {

/// What became of an attempt to accept a connection.
#[derive(Debug, Clone, Copy, PartialEq, Eq, Structural)]
pub enum AcceptEvent {
    /// A client connected.
    Connection,
    /// No client is waiting.
    WouldBlock,
    /// The attempt failed for another reason.
    Failed,
}

/// What the accept loop does next.
#[derive(Debug, Clone, Copy, PartialEq, Eq, Structural)]
pub enum ServerStep {
    /// Hand the connection to the pool.
    Serve,
    /// Try to accept again.
    Retry,
    /// Leave the loop.
    Stop,
}

/// What the accept loop does after `event`: it serves a connection, stops
/// where no client waits and the server was told to stop, and tries again
/// otherwise.
pub open spec fn spec_accept_step(event: AcceptEvent, stopping: bool) -> ServerStep {
    match event {
        AcceptEvent::Connection => ServerStep::Serve,
        AcceptEvent::WouldBlock => if stopping {
            ServerStep::Stop
        } else {
            ServerStep::Retry
        },
        AcceptEvent::Failed => ServerStep::Retry,
    }
}

/// What the accept loop does after `event`.
pub fn accept_step(event: AcceptEvent, stopping: bool) -> (step: ServerStep)
    ensures
        step == spec_accept_step(event, stopping),
{
    match event {
        AcceptEvent::Connection => ServerStep::Serve,
        AcceptEvent::WouldBlock => {
            if stopping {
                ServerStep::Stop
            } else {
                ServerStep::Retry
            }
        },
        AcceptEvent::Failed => ServerStep::Retry,
    }
}

/// Whether `reason` is the text of one of the store's errors.
pub open spec fn error_text(reason: Seq<char>) -> bool {
    exists|error: KvsError| reason == #[trigger] error.spec_message()
}

/// Whether `response` and `after` are what a request `cmd` may give on an
/// engine that held `before`. A `Put` that succeeds stores the value; a
/// `Get` answers with the value, or with a text where there is none; an
/// `Rm` of a key that is not held fails with that text; and a request that
/// fails for another reason leaves the map as it was and answers with the
/// text of the error.
pub open spec fn answers(
    before: Map<Seq<char>, Seq<char>>,
    cmd: CommandView,
    response: ResponseView,
    after: Map<Seq<char>, Seq<char>>,
) -> bool {
    match cmd {
        CommandView::Put { key, value } => match response {
            ResponseView::Success(payload) => payload is None && after == before.insert(key, value),
            ResponseView::Failure(reason) => after == before && error_text(reason),
        },
        CommandView::Get { key } => after == before && match response {
            ResponseView::Success(payload) => payload == Some(
                if before.contains_key(key) {
                    before[key]
                } else {
                    key_not_found_text()
                },
            ),
            ResponseView::Failure(reason) => error_text(reason),
        },
        CommandView::Rm { key } => match response {
            ResponseView::Success(payload) => payload is None && before.contains_key(key) && after
                == before.remove(key),
            ResponseView::Failure(reason) => after == before && if before.contains_key(key) {
                error_text(reason)
            } else {
                reason == key_not_found_text()
            },
        },
    }
}

/// Carries out one request on `engine` and says what to answer.
pub fn handle_request<E: KvsEngine>(engine: &mut E, cmd: Command) -> (response: Response)
    requires
        old(engine).valid(),
    ensures
        final(engine).valid(),
        answers(old(engine).contents(), cmd@, response@, final(engine).contents()),
{
    match cmd {
        Command::Put { key, value } => {
            let done = engine.set(key, value);
            proof {
                if done is Err {
                    assert(error_text(done->Err_0.spec_message()));
                }
            }
            respond_set(done)
        },
        Command::Get { key } => {
            let found = engine.get(key);
            proof {
                if found is Err {
                    assert(error_text(found->Err_0.spec_message()));
                }
            }
            respond_get(found)
        },
        Command::Rm { key } => {
            let done = engine.remove(key);
            proof {
                if done is Err {
                    assert(error_text(done->Err_0.spec_message()));
                }
            }
            respond_rm(done)
        },
    }
}

/// A server: an engine, the pool that its connections are served on, and
/// the flag that ends its loops.
pub struct KvsServer<T, F> {
    engine: T,
    pool: F,
    shutdown_flag: bool,
}

impl<T: KvsEngine, F: ThreadPool> KvsServer<T, F> {
    /// The engine that the server drives.
    pub closed spec fn spec_engine(&self) -> T {
        self.engine
    }

    /// The pool of the server.
    pub closed spec fn spec_pool(&self) -> F {
        self.pool
    }

    /// Whether the server was told to stop.
    pub closed spec fn stopping(&self) -> bool {
        self.shutdown_flag
    }

    /// A server on `engine` and `pool` that was not told to stop.
    pub fn new(engine: T, pool: F) -> (server: Result<KvsServer<T, F>, KvsError>)
        ensures
            server is Ok,
            server->Ok_0.spec_engine() == engine,
            server->Ok_0.spec_pool() == pool,
            !server->Ok_0.stopping(),
    {
        Ok(KvsServer { engine, pool, shutdown_flag: false })
    }

    /// Tells the server to stop: its loops end at their next turn.
    pub fn shutdown(&mut self)
        ensures
            final(self).stopping(),
            final(self).spec_engine() == old(self).spec_engine(),
            final(self).spec_pool() == old(self).spec_pool(),
    {
        self.shutdown_flag = true;
    }

    /// Whether the server was told to stop.
    pub fn is_shut_down(&self) -> (stopping: bool)
        ensures
            stopping == self.stopping(),
    {
        self.shutdown_flag
    }

    /// The engine that the server drives.
    pub fn engine(&self) -> (engine: &T)
        ensures
            *engine == self.spec_engine(),
    {
        &self.engine
    }

    /// The engine that the server drives, to work on it between requests.
    pub fn engine_mut(&mut self) -> (engine: &mut T)
        ensures
            *engine == old(self).spec_engine(),
            final(self).spec_engine() == *final(engine),
            final(self).spec_pool() == old(self).spec_pool(),
            final(self).stopping() == old(self).stopping(),
    {
        &mut self.engine
    }

    /// The pool of the server.
    pub fn pool(&self) -> (pool: &F)
        ensures
            *pool == self.spec_pool(),
    {
        &self.pool
    }

    /// What the accept loop of this server does after `event`.
    pub fn on_accept(&self, event: AcceptEvent) -> (step: ServerStep)
        ensures
            step == spec_accept_step(event, self.stopping()),
    {
        accept_step(event, self.shutdown_flag)
    }

    /// Serves one request of a connection: `None`, with nothing done, once
    /// the server was told to stop, else the answer to send.
    pub fn handle(&mut self, cmd: Command) -> (response: Option<Response>)
        requires
            old(self).spec_engine().valid(),
        ensures
            final(self).spec_engine().valid(),
            final(self).stopping() == old(self).stopping(),
            final(self).spec_pool() == old(self).spec_pool(),
            match response {
                Some(sent) => !old(self).stopping() && answers(
                    old(self).spec_engine().contents(),
                    cmd@,
                    sent@,
                    final(self).spec_engine().contents(),
                ),
                None => old(self).stopping() && final(self).spec_engine() == old(
                    self,
                ).spec_engine(),
            },
    {
        if self.shutdown_flag {
            None
        } else {
            Some(handle_request(&mut self.engine, cmd))
        }
    }
}

} // verus!
