//! The values exchanged between a client, the server and the engine.

use crate::error::KvsError;
use vstd::prelude::*;

verus! {

/// What the store's operations return.
pub type Result<T> = std::result::Result<T, KvsError>;

/// A request to the store, and also the shape of a log record.
#[derive(Debug, Clone, PartialEq, Eq)]
pub enum Command {
    /// Store `value` under `key`, replacing what was there.
    Put { key: String, value: String },
    /// Read the value stored under `key`.
    Get { key: String },
    /// Delete `key`.
    Rm { key: String },
}

/// The mathematical content of a [`Command`].
pub enum CommandView {
    Put { key: Seq<char>, value: Seq<char> },
    Get { key: Seq<char> },
    Rm { key: Seq<char> },
}

impl CommandView {
    /// The key that the command speaks of.
    pub open spec fn key(self) -> Seq<char> {
        match self {
            CommandView::Put { key, value } => key,
            CommandView::Get { key } => key,
            CommandView::Rm { key } => key,
        }
    }
}

impl View for Command {
    type V = CommandView;

    open spec fn view(&self) -> CommandView {
        match self {
            Command::Put { key, value } => CommandView::Put { key: key@, value: value@ },
            Command::Get { key } => CommandView::Get { key: key@ },
            Command::Rm { key } => CommandView::Rm { key: key@ },
        }
    }
}

/// The answer to one request.
#[derive(Debug, Clone, PartialEq, Eq)]
pub enum Response {
    /// The request succeeded, possibly with a value.
    Success(Option<String>),
    /// The request failed, with the reason as text.
    Failure(String),
}

/// The mathematical content of a [`Response`].
pub enum ResponseView {
    Success(Option<Seq<char>>),
    Failure(Seq<char>),
}

impl View for Response {
    type V = ResponseView;

    open spec fn view(&self) -> ResponseView {
        match self {
            Response::Success(Some(text)) => ResponseView::Success(Some(text@)),
            Response::Success(None) => ResponseView::Success(None),
            Response::Failure(text) => ResponseView::Failure(text@),
        }
    }
}

/// Which storage backend a server runs on.
#[derive(Debug, Clone, Copy, PartialEq, Eq, Structural)]
pub enum EngineType {
    Kvs,
    Sled,
}

impl EngineType {
    /// The lower-case name of the backend.
    pub open spec fn spec_name(self) -> Seq<char> {
        match self {
            EngineType::Kvs => "kvs"@,
            EngineType::Sled => "sled"@,
        }
    }

    /// The lower-case name of the backend, as it is written on a command line.
    pub fn name(&self) -> (text: String)
        ensures
            text@ == self.spec_name(),
    {
        match self {
            EngineType::Kvs => "kvs".to_owned(),
            EngineType::Sled => "sled".to_owned(),
        }
    }
}

/// Whether a server may run on the backend `chosen` in a directory whose
/// marker file records `recorded`: on any backend where nothing is
/// recorded, else on the recorded one only.
pub fn engine_accepted(recorded: Option<EngineType>, chosen: EngineType) -> (accepted: bool)
    ensures
        accepted == (recorded is None || recorded == Some(chosen)),
{
    match recorded {
        None => true,
        Some(engine) => engine == chosen,
    }
}

/// Takes the key out of a command.
pub fn extract_key_from_cmd(cmd: Command) -> (key: String)
    ensures
        key@ == cmd@.key(),
{
    match cmd {
        Command::Rm { key } => key,
        Command::Get { key } => key,
        Command::Put { key, value: _ } => key,
    }
}

} // verus!
