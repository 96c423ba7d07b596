//! Tests for the command dispatcher, from raw frames to raw reply
//! bytes, the way a connection handler drives it.

use respkv::dispatch::{dbsize_function, extract_command, get_function, handle, set_function, unpack_bulk_str};
use respkv::resp::{parse, ProtocolError, Value};
use respkv::store::Store;

fn bulk(s: &str) -> Value {
    Value::BulkString(String::from(s))
}

/// Feed one wire frame through parse, handle and serialize, as the
/// connection handler does.
fn roundtrip(wire: &[u8], db: &mut Store, now: u64) -> Result<Vec<u8>, ProtocolError> {
    let (value, consumed) = parse(wire)?;
    assert_eq!(consumed, wire.len());
    let reply = handle(value, db, now)?;
    Ok(reply.serialize())
}

#[test]
fn ping_answers_pong() {
    let mut db = Store::new();
    let out = roundtrip(b"*1\r\n$4\r\nPING\r\n", &mut db, 0).unwrap();
    assert_eq!(out, b"+PONG\r\n".to_vec());
}

#[test]
fn set_then_get_over_the_wire() {
    let mut db = Store::new();
    let out = roundtrip(b"*3\r\n$3\r\nSET\r\n$1\r\nk\r\n$1\r\nv\r\n", &mut db, 0).unwrap();
    assert_eq!(out, b"+OK\r\n".to_vec());
    let out = roundtrip(b"*2\r\n$3\r\nGET\r\n$1\r\nk\r\n", &mut db, 0).unwrap();
    assert_eq!(out, b"$1\r\nv\r\n".to_vec());
}

#[test]
fn get_of_never_set_key_is_null() {
    let mut db = Store::new();
    let out = roundtrip(b"*2\r\n$3\r\nGET\r\n$1\r\nz\r\n", &mut db, 0).unwrap();
    assert_eq!(out, b"$-1\r\n".to_vec());
}

#[test]
fn echo_hands_the_argument_back() {
    let mut db = Store::new();
    let out = roundtrip(b"*2\r\n$4\r\nECHO\r\n$5\r\nhello\r\n", &mut db, 0).unwrap();
    assert_eq!(out, b"$5\r\nhello\r\n".to_vec());
}

#[test]
fn command_answers_ok() {
    let mut db = Store::new();
    let out = roundtrip(b"*1\r\n$7\r\nCOMMAND\r\n", &mut db, 0).unwrap();
    assert_eq!(out, b"+OK\r\n".to_vec());
}

#[test]
fn dbsize_reports_entry_count() {
    let mut db = Store::new();
    roundtrip(b"*3\r\n$3\r\nSET\r\n$1\r\na\r\n$1\r\n1\r\n", &mut db, 0).unwrap();
    roundtrip(b"*3\r\n$3\r\nSET\r\n$1\r\nb\r\n$1\r\n2\r\n", &mut db, 0).unwrap();
    let out = roundtrip(b"*1\r\n$6\r\nDBSIZE\r\n", &mut db, 0).unwrap();
    assert_eq!(out, b"+2\r\n".to_vec());
}

#[test]
fn set_with_ex_expires() {
    let mut db = Store::new();
    let out = roundtrip(
        b"*5\r\n$3\r\nSET\r\n$1\r\nk\r\n$1\r\nv\r\n$2\r\nEX\r\n$1\r\n1\r\n",
        &mut db,
        100,
    )
    .unwrap();
    assert_eq!(out, b"+OK\r\n".to_vec());
    let out = roundtrip(b"*2\r\n$3\r\nGET\r\n$1\r\nk\r\n", &mut db, 100).unwrap();
    assert_eq!(out, b"$1\r\nv\r\n".to_vec());
    let out = roundtrip(b"*2\r\n$3\r\nGET\r\n$1\r\nk\r\n", &mut db, 102).unwrap();
    assert_eq!(out, b"$-1\r\n".to_vec());
    assert_eq!(db.size(), 0);
}

#[test]
fn set_with_bad_expiration_reports_it() {
    let mut db = Store::new();
    let out = roundtrip(
        b"*5\r\n$3\r\nSET\r\n$1\r\nk\r\n$1\r\nv\r\n$2\r\nEX\r\n$3\r\nabc\r\n",
        &mut db,
        0,
    )
    .unwrap();
    assert_eq!(out, b"-Couldn't parse expiration time\r\n".to_vec());
    let out = roundtrip(
        b"*5\r\n$3\r\nSET\r\n$1\r\nk\r\n$1\r\nv\r\n$2\r\nEX\r\n$2\r\n-1\r\n",
        &mut db,
        0,
    )
    .unwrap();
    assert_eq!(out, b"-Couldn't parse expiration time\r\n".to_vec());
}

#[test]
fn set_with_unknown_option_reports_it() {
    let mut db = Store::new();
    let out = roundtrip(
        b"*5\r\n$3\r\nSET\r\n$1\r\nk\r\n$1\r\nv\r\n$2\r\nPX\r\n$1\r\n1\r\n",
        &mut db,
        0,
    )
    .unwrap();
    assert_eq!(out, b"-Unexpected argument received\r\n".to_vec());
}

#[test]
fn wrong_arity_reports_it() {
    let mut db = Store::new();
    let out = roundtrip(b"*2\r\n$3\r\nSET\r\n$1\r\nk\r\n", &mut db, 0).unwrap();
    assert_eq!(out, b"-Unexpected number of arguments\r\n".to_vec());
    let out = roundtrip(b"*1\r\n$3\r\nGET\r\n", &mut db, 0).unwrap();
    assert_eq!(out, b"-Unexpected number of arguments\r\n".to_vec());
    let out = roundtrip(b"*1\r\n$4\r\nECHO\r\n", &mut db, 0);
    // An ECHO with no argument is an arity error, not a crash.
    assert_eq!(out.unwrap(), b"-Unexpected number of arguments\r\n".to_vec());
}

#[test]
fn unknown_command_is_answered_not_fatal() {
    let mut db = Store::new();
    db.set(String::from("k"), String::from("v"), None, 0);
    let out = roundtrip(b"*1\r\n$5\r\nFLUSH\r\n", &mut db, 0).unwrap();
    assert_eq!(out, b"-Cannot handle command flush\r\n".to_vec());
    // The store is untouched and the connection can go on.
    let out = roundtrip(b"*2\r\n$3\r\nGET\r\n$1\r\nk\r\n", &mut db, 0).unwrap();
    assert_eq!(out, b"$1\r\nv\r\n".to_vec());
}

#[test]
fn malformed_frame_closes_only_that_connection() {
    let mut db = Store::new();
    // First connection sends garbage: its handling stops with a
    // protocol error and nothing reaches the store.
    assert_eq!(parse(b"!nonsense\r\n"), Err(ProtocolError::Malformed));
    // A second connection sharing the store still works.
    let out = roundtrip(b"*3\r\n$3\r\nSET\r\n$1\r\nk\r\n$1\r\nv\r\n", &mut db, 0).unwrap();
    assert_eq!(out, b"+OK\r\n".to_vec());
    let out = roundtrip(b"*2\r\n$3\r\nGET\r\n$1\r\nk\r\n", &mut db, 0).unwrap();
    assert_eq!(out, b"$1\r\nv\r\n".to_vec());
}

#[test]
fn non_array_frame_is_a_protocol_error() {
    let mut db = Store::new();
    let reply = handle(Value::SimpleString(String::from("PING")), &mut db, 0);
    assert_eq!(reply, Err(ProtocolError::Malformed));
}

#[test]
fn array_without_bulk_head_is_a_protocol_error() {
    let mut db = Store::new();
    let reply = handle(Value::Array(vec![Value::NullBulk]), &mut db, 0);
    assert_eq!(reply, Err(ProtocolError::Malformed));
    let reply = handle(Value::Array(vec![]), &mut db, 0);
    assert_eq!(reply, Err(ProtocolError::Malformed));
}

#[test]
fn extract_command_folds_case_and_splits_args() {
    let v = Value::Array(vec![bulk("GeT"), bulk("Key")]);
    let (name, args) = extract_command(v).unwrap();
    assert_eq!(name, "get");
    assert_eq!(args, vec![bulk("Key")]);
}

#[test]
fn unpack_bulk_str_folds_case() {
    assert_eq!(unpack_bulk_str(bulk("DBSize")), Ok(String::from("dbsize")));
    assert_eq!(
        unpack_bulk_str(Value::SimpleString(String::from("x"))),
        Err(ProtocolError::Malformed)
    );
}

#[test]
fn command_functions_mirror_the_wire_behavior() {
    let mut db = Store::new();
    let r = set_function(vec![bulk("k"), bulk("v")], &mut db, 7);
    assert_eq!(r, Value::SimpleString(String::from("OK")));
    let r = get_function(vec![bulk("k")], &mut db, 7);
    assert_eq!(r, bulk("v"));
    let r = dbsize_function(vec![], &db);
    assert_eq!(r, Value::SimpleString(String::from("1")));
    let r = get_function(vec![], &mut db, 7);
    assert_eq!(r, Value::SimpleError(String::from("Unexpected number of arguments")));
}
