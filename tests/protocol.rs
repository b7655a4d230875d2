use kvs::engine::{get_engine, get_engine_by_name, EngineKind};
use kvs::error::KvsError;
use kvs::protocol::{parse_command, respond, Command, CommandResult, Response};
use kvs::server::{
    accept_step, close_step, read_step, reply_step, server_kind, split_host_port, AcceptAction, AcceptEvent,
    ConnectionAction, PoolKind,
};

fn line(verb: &str, key: &str, value: Option<&str>) -> (String, String, Option<String>) {
    (verb.to_string(), key.to_string(), value.map(|v| v.to_string()))
}

#[test]
fn command_line_get_set_rm() {
    assert!(matches!(CommandResult::from(line("get", "k", None)).0, Ok(Command::Get(k)) if k == "k"));
    assert!(matches!(
        CommandResult::from(line("set", "k", Some("v"))).0,
        Ok(Command::Put(k, v)) if k == "k" && v == "v"
    ));
    assert!(matches!(CommandResult::from(line("rm", "k", None)).0, Ok(Command::Remove(k)) if k == "k"));
}

#[test]
fn command_line_wrong_arity_or_verb() {
    assert!(matches!(
        CommandResult::from(line("get", "k", Some("v"))).0,
        Err(KvsError::UnexpectedCommand { command }) if command == "get"
    ));
    assert!(matches!(
        CommandResult::from(line("set", "k", None)).0,
        Err(KvsError::UnexpectedCommand { .. })
    ));
    assert!(matches!(
        CommandResult::from(line("rm", "k", Some("v"))).0,
        Err(KvsError::UnexpectedCommand { .. })
    ));
    assert!(matches!(
        parse_command("put".to_string(), "k".to_string(), None),
        Err(KvsError::UnexpectedCommand { command }) if command == "put"
    ));
}

#[test]
fn missing_key_get_is_success_none() {
    let r = respond(&Command::Get("missing".to_string()), Ok(None)).unwrap();
    assert!(matches!(r, Response::Success(None)));
    assert!(matches!(r.into_result(), Ok(None)));
}

#[test]
fn responses_for_each_command() {
    let hit = respond(&Command::Get("k".to_string()), Ok(Some("v".to_string()))).unwrap();
    assert!(matches!(hit, Response::Success(Some(ref v)) if v == "v"));
    let set = respond(&Command::Put("k".to_string(), "v".to_string()), Ok(None)).unwrap();
    assert!(matches!(set, Response::Success(None)));
    let rm = respond(&Command::Remove("k".to_string()), Ok(None)).unwrap();
    assert!(matches!(rm, Response::Success(None)));
}

#[test]
fn remove_of_missing_key_is_error_response() {
    let r = respond(
        &Command::Remove("k".to_string()),
        Err(KvsError::KeyNotFound { key: "k".to_string() }),
    )
    .unwrap();
    assert!(matches!(r, Response::Error(ref m) if m == "Key not found"));
    assert!(matches!(r.into_result(), Err(KvsError::Other { message }) if message == "Key not found"));
}

#[test]
fn io_failure_drops_connection() {
    let r = respond(
        &Command::Get("k".to_string()),
        Err(KvsError::Io { message: "disk".to_string() }),
    );
    assert!(matches!(r, Err(KvsError::Io { .. })));
    let r = respond(
        &Command::Remove("k".to_string()),
        Err(KvsError::Io { message: "disk".to_string() }),
    );
    assert!(matches!(r, Err(KvsError::Io { .. })));
}

#[test]
fn other_failures_become_error_responses() {
    let r = respond(
        &Command::Put("k".to_string(), "v".to_string()),
        Err(KvsError::Serde { message: "bad".to_string() }),
    );
    assert!(matches!(r, Ok(Response::Error(ref m)) if m == "json serde error"));
    let r = respond(&Command::Get("k".to_string()), Err(KvsError::SystemTime));
    assert!(matches!(r, Ok(Response::Error(ref m)) if m == "system time error"));
}

#[test]
fn error_messages() {
    assert_eq!(KvsError::SystemTime.message(), "system time error");
    assert_eq!(KvsError::Io { message: "x".to_string() }.message(), "io error");
    assert_eq!(KvsError::Other { message: "boom".to_string() }.message(), "boom");
}

#[test]
fn engine_choice_rules() {
    assert_eq!(get_engine(None, None).unwrap(), "kvs");
    assert_eq!(get_engine(Some("sled".to_string()), None).unwrap(), "sled");
    assert_eq!(get_engine(None, Some("sled".to_string())).unwrap(), "sled");
    assert_eq!(get_engine(Some("kvs".to_string()), Some("kvs".to_string())).unwrap(), "kvs");
}

#[test]
fn engine_mismatch_is_refused() {
    assert!(matches!(
        get_engine(Some("kvs".to_string()), Some("sled".to_string())),
        Err(KvsError::Other { .. })
    ));
}

#[test]
fn engine_by_name() {
    assert_eq!(get_engine_by_name("kvs"), EngineKind::Kvs);
    assert_eq!(get_engine_by_name("sled"), EngineKind::Sled);
}

#[test]
fn server_kinds() {
    assert_eq!(server_kind("shared_queue_pool", "kvs"), (PoolKind::SharedQueue, EngineKind::Kvs));
    assert_eq!(server_kind("rayon", "kvs"), (PoolKind::Rayon, EngineKind::Kvs));
    assert_eq!(server_kind("rayon", "sled"), (PoolKind::Rayon, EngineKind::Sled));
}

#[test]
fn host_port_split() {
    let (h, p) = split_host_port("127.0.0.1:4000").unwrap();
    assert_eq!(h, "127.0.0.1");
    assert_eq!(p, 4000);
    let (h, p) = split_host_port("localhost:80:extra").unwrap();
    assert_eq!((h.as_str(), p), ("localhost", 80));
    assert!(split_host_port("127.0.0.1").is_err());
    assert!(split_host_port("127.0.0.1:70000").is_err());
    assert!(split_host_port("127.0.0.1:").is_err());
    assert!(split_host_port("127.0.0.1:4x").is_err());
}

#[test]
fn accept_loop_decisions() {
    assert_eq!(accept_step(false, AcceptEvent::Connection), AcceptAction::Serve);
    assert_eq!(accept_step(true, AcceptEvent::Connection), AcceptAction::Serve);
    assert_eq!(accept_step(false, AcceptEvent::WouldBlock), AcceptAction::Sleep { millis: 10 });
    assert_eq!(accept_step(true, AcceptEvent::WouldBlock), AcceptAction::Stop);
    assert_eq!(accept_step(false, AcceptEvent::Failed), AcceptAction::Fail);
}

#[test]
fn close_and_connection_decisions() {
    assert_eq!(close_step(0), None);
    assert_eq!(close_step(3), Some(100));
    assert_eq!(read_step(0), ConnectionAction::Stop);
    assert_eq!(read_step(12), ConnectionAction::Handle);
    assert_eq!(reply_step(true), ConnectionAction::Shutdown);
    assert_eq!(reply_step(false), ConnectionAction::Continue);
}
