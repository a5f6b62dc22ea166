//! A persistent key-value store built on an append-only, log-structured
//! storage engine, with the request handling and worker-pool rules that
//! surround it.

pub mod common;
pub mod engine;
pub mod error;
pub mod protocol;
pub mod server;
pub mod thread_pool;

pub use common::{Command, EngineType, Response, Result};
pub use engine::{KvStore, KvsEngine, LogStructKVStore, OptLogStructKvs};
pub use error::KvsError;
pub use protocol::Engine;
pub use server::KvsServer;
pub use thread_pool::{NaiveThreadPool, ThreadPool, ThreadPoolType};
