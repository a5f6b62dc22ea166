use kvs::common::{engine_accepted, Command, EngineType, Response};
use kvs::engine::directory::Directory;
use kvs::engine::olskv::OptLogStructKvs;
use kvs::error::KvsError;
use kvs::protocol::{respond_get, respond_malformed, respond_rm, respond_set, Engine};
use kvs::server::{handle_request, AcceptEvent, KvsServer, ServerStep};
use kvs::thread_pool::{
    queue_capacity, replace_worker, shutdown_messages, worker_step, Message, NaiveThreadPool,
    ThreadPool, ThreadPoolType, WorkerStep,
};
use std::cell::Cell;
use std::rc::Rc;
use std::sync::atomic::{AtomicUsize, Ordering};
use std::sync::Arc;

fn store() -> OptLogStructKvs {
    OptLogStructKvs::open(Directory::new()).unwrap()
}

fn put(key: &str, value: &str) -> Command {
    Command::Put { key: key.to_string(), value: value.to_string() }
}

#[test]
fn responses_to_each_outcome() {
    assert_eq!(respond_set(Ok(())), Response::Success(None));
    assert_eq!(respond_set(Err(KvsError::Io)), Response::Failure("Problem with IO".to_string()));
    assert_eq!(respond_get(Ok(Some("v".to_string()))), Response::Success(Some("v".to_string())));
    assert_eq!(respond_get(Ok(None)), Response::Success(Some("Key not found".to_string())));
    assert_eq!(
        respond_get(Err(KvsError::UnexpectedCommandType)),
        Response::Failure("Unexpected command type".to_string())
    );
    assert_eq!(respond_rm(Ok(())), Response::Success(None));
    assert_eq!(respond_rm(Err(KvsError::KeyNotFound)), Response::Failure("Key not found".to_string()));
    assert_eq!(
        respond_rm(Err(KvsError::Bincode)),
        Response::Failure("Error with de/serialization".to_string())
    );
    assert_eq!(respond_malformed("bad request".to_string()), Response::Failure("bad request".to_string()));
}

#[test]
fn error_messages() {
    assert_eq!(KvsError::KeyNotFound.message(), "Key Not Found");
    assert_eq!(KvsError::UnexpectedCommandType.message(), "Unexpected command type");
    assert_eq!(KvsError::Bincode.message(), "Error with de/serialization");
    assert_eq!(KvsError::Sled.message(), "Error with sled storage");
    assert_eq!(KvsError::Io.message(), "Problem with IO");
    assert_eq!(KvsError::Utf8.message(), "Problem with Utf8");
}

#[test]
fn engine_names_are_lower_case() {
    assert_eq!(EngineType::Kvs.name(), "kvs");
    assert_eq!(EngineType::Sled.name(), "sled");
    assert_eq!(Engine::Kvs.name(), "kvs");
    assert_eq!(Engine::Sled.name(), "sled");
    assert_ne!(ThreadPoolType::Rayon, ThreadPoolType::SharedQ);
}

#[test]
fn requests_are_answered_from_the_engine() {
    let mut engine = store();
    assert_eq!(handle_request(&mut engine, put("k", "v")), Response::Success(None));
    assert_eq!(
        handle_request(&mut engine, Command::Get { key: "k".to_string() }),
        Response::Success(Some("v".to_string()))
    );
    assert_eq!(
        handle_request(&mut engine, Command::Get { key: "other".to_string() }),
        Response::Success(Some("Key not found".to_string()))
    );
    assert_eq!(handle_request(&mut engine, Command::Rm { key: "k".to_string() }), Response::Success(None));
    assert_eq!(
        handle_request(&mut engine, Command::Rm { key: "k".to_string() }),
        Response::Failure("Key not found".to_string())
    );
    assert_eq!(
        handle_request(&mut engine, Command::Get { key: "k".to_string() }),
        Response::Success(Some("Key not found".to_string()))
    );
}

#[test]
fn server_answers_until_it_is_shut_down() {
    let mut server = KvsServer::new(store(), NaiveThreadPool::new(4).unwrap()).unwrap();
    assert!(!server.is_shut_down());
    assert_eq!(server.on_accept(AcceptEvent::Connection), ServerStep::Serve);
    assert_eq!(server.on_accept(AcceptEvent::WouldBlock), ServerStep::Retry);
    assert_eq!(server.on_accept(AcceptEvent::Failed), ServerStep::Retry);
    assert_eq!(server.handle(put("k", "v")), Some(Response::Success(None)));
    server.shutdown();
    assert!(server.is_shut_down());
    assert_eq!(server.on_accept(AcceptEvent::Connection), ServerStep::Serve);
    assert_eq!(server.on_accept(AcceptEvent::WouldBlock), ServerStep::Stop);
    assert_eq!(server.on_accept(AcceptEvent::Failed), ServerStep::Retry);
    assert_eq!(server.handle(put("k", "w")), None);
    assert_eq!(server.engine().pointer_of("k").map(|pointer| pointer.pos), Some(0));
    server.pool().spawn(|| {});
}

#[test]
fn naive_pool_runs_each_job_before_it_returns() {
    let pool = NaiveThreadPool::new(0).unwrap();
    let counter = Arc::new(AtomicUsize::new(0));
    for done in 0..100 {
        assert_eq!(counter.load(Ordering::SeqCst), done);
        let counter = Arc::clone(&counter);
        pool.spawn(move || {
            counter.fetch_add(1, Ordering::SeqCst);
        });
    }
    assert_eq!(counter.load(Ordering::SeqCst), 100);
}

#[test]
fn shared_queue_rules() {
    assert_eq!(queue_capacity(0), 0);
    assert_eq!(queue_capacity(4), 16);
    assert_eq!(queue_capacity(u32::MAX), 4 * (u32::MAX as u64));
    assert_eq!(shutdown_messages(4), 4);
    assert!(replace_worker(true));
    assert!(!replace_worker(false));
    let ran = Rc::new(Cell::new(0));
    let job = {
        let ran = Rc::clone(&ran);
        move || ran.set(ran.get() + 1)
    };
    match worker_step(Message::Task(job)) {
        WorkerStep::Run(job) => job(),
        WorkerStep::Exit => panic!("a task ends no worker"),
    }
    assert_eq!(ran.get(), 1);
    assert!(matches!(worker_step(Message::<fn()>::Shutdown), WorkerStep::Exit));
}

#[test]
fn server_runs_only_on_the_recorded_engine() {
    assert!(engine_accepted(None, EngineType::Kvs));
    assert!(engine_accepted(None, EngineType::Sled));
    assert!(engine_accepted(Some(EngineType::Kvs), EngineType::Kvs));
    assert!(engine_accepted(Some(EngineType::Sled), EngineType::Sled));
    assert!(!engine_accepted(Some(EngineType::Kvs), EngineType::Sled));
    assert!(!engine_accepted(Some(EngineType::Sled), EngineType::Kvs));
}

#[test]
fn engine_of_a_server_can_be_worked_on_between_requests() {
    let mut server = KvsServer::new(store(), NaiveThreadPool::new(1).unwrap()).unwrap();
    assert_eq!(server.handle(put("k", "v")), Some(Response::Success(None)));
    assert_eq!(server.engine_mut().take_changes().len(), 2);
    assert_eq!(server.engine_mut().compact(), Ok(true));
    assert_eq!(
        server.handle(Command::Get { key: "k".to_string() }),
        Some(Response::Success(Some("v".to_string())))
    );
    assert_eq!(server.engine().folder().len(), 2);
}
