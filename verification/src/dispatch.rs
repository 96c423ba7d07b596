//! Command dispatcher: read a parsed frame as a command name plus
//! arguments, check arity, and drive the store or craft a protocol-level
//! reply.

use vstd::prelude::*;

verus! {

use crate::num::{dec_bytes, spec_parse_i64};
use crate::resp::{text_of, view_items, lemma_view_items, ProtocolError, Value, ValueView};
use crate::store::{expired, EntryModel, Store};
use crate::text::{ascii_chars_of, lower_of};
use vstd::string::StringExecFns;
use vstd::utf8::encode_utf8;

/// The command a frame denotes: its case-folded name and its arguments,
/// in order. Anything but a non-empty array headed by a bulk string is
/// malformed.
pub open spec fn spec_extract(v: ValueView) -> Result<(Seq<char>, Seq<ValueView>), ProtocolError> {
    match v {
        ValueView::Array(items) => {
            if items.len() == 0 {
                Err(ProtocolError::Malformed)
            } else {
                match items[0] {
                    ValueView::BulkString(s) => Ok((lower_of(s), items.skip(1))),
                    _ => Err(ProtocolError::Malformed),
                }
            }
        },
        _ => Err(ProtocolError::Malformed),
    }
}

pub open spec fn arity_error() -> ValueView {
    ValueView::SimpleError("Unexpected number of arguments"@)
}

pub open spec fn argument_error() -> ValueView {
    ValueView::SimpleError("Unexpected argument received"@)
}

pub open spec fn ttl_error() -> ValueView {
    ValueView::SimpleError("Couldn't parse expiration time"@)
}

pub open spec fn ok_reply() -> ValueView {
    ValueView::SimpleString("OK"@)
}

/// What `set` does: two arguments store forever, four with an `ex`
/// option store with a time-to-live parsed from the fourth.
pub open spec fn spec_set_cmd(
    args: Seq<ValueView>,
    m: Map<Seq<char>, EntryModel>,
    now: u64,
) -> (ValueView, Map<Seq<char>, EntryModel>) {
    if args.len() == 2 {
        match (text_of(args[0]), text_of(args[1])) {
            (Some(k), Some(v)) => (
                ok_reply(),
                m.insert(k, EntryModel { item: v, time: now, ex: None }),
            ),
            _ => (argument_error(), m),
        }
    } else if args.len() == 4 {
        match (text_of(args[0]), text_of(args[1]), text_of(args[2]), text_of(args[3])) {
            (Some(k), Some(v), Some(opt), Some(exs)) => {
                if lower_of(opt) == "ex"@ {
                    match spec_parse_i64(encode_utf8(exs)) {
                        Some(t) => {
                            if t >= 0 {
                                (
                                    ok_reply(),
                                    m.insert(
                                        k,
                                        EntryModel { item: v, time: now, ex: Some(t as u64) },
                                    ),
                                )
                            } else {
                                (ttl_error(), m)
                            }
                        },
                        None => (ttl_error(), m),
                    }
                } else {
                    (argument_error(), m)
                }
            },
            _ => (argument_error(), m),
        }
    } else {
        (arity_error(), m)
    }
}

/// What `get` does: a present, live entry answers with its value; an
/// expired one is dropped and answers null; an absent one answers null.
pub open spec fn spec_get_cmd(
    args: Seq<ValueView>,
    m: Map<Seq<char>, EntryModel>,
    now: u64,
) -> (ValueView, Map<Seq<char>, EntryModel>) {
    if args.len() != 1 {
        (arity_error(), m)
    } else {
        match text_of(args[0]) {
            None => (argument_error(), m),
            Some(k) => {
                if m.contains_key(k) {
                    if expired(m[k], now) {
                        (ValueView::NullBulk, m.remove(k))
                    } else {
                        (ValueView::BulkString(m[k].item), m)
                    }
                } else {
                    (ValueView::NullBulk, m)
                }
            },
        }
    }
}

/// What `dbsize` answers: the entry count as decimal text, expired but
/// unevicted entries included.
pub open spec fn spec_dbsize_cmd(args: Seq<ValueView>, m: Map<Seq<char>, EntryModel>) -> ValueView {
    if args.len() != 0 {
        arity_error()
    } else {
        ValueView::SimpleString(ascii_chars_of(dec_bytes(m.len() as int)))
    }
}

/// The whole command table: the reply and the store that is left, or the
/// protocol error that closes the connection.
pub open spec fn spec_dispatch(v: ValueView, m: Map<Seq<char>, EntryModel>, now: u64) -> Result<
    (ValueView, Map<Seq<char>, EntryModel>),
    ProtocolError,
> {
    match spec_extract(v) {
        Err(e) => Err(e),
        Ok((name, args)) => Ok(
            if name == "ping"@ {
                if args.len() == 0 {
                    (ValueView::SimpleString("PONG"@), m)
                } else {
                    (arity_error(), m)
                }
            } else if name == "echo"@ {
                if args.len() == 1 {
                    (args[0], m)
                } else {
                    (arity_error(), m)
                }
            } else if name == "set"@ {
                spec_set_cmd(args, m, now)
            } else if name == "get"@ {
                spec_get_cmd(args, m, now)
            } else if name == "dbsize"@ {
                (spec_dbsize_cmd(args, m), m)
            } else if name == "command"@ {
                (ok_reply(), m)
            } else {
                (ValueView::SimpleError("Cannot handle command "@ + name), m)
            },
        ),
    }
}

/// Take a frame apart into the case-folded command name and the
/// positional arguments.
pub fn extract_command(value: Value) -> (r: Result<(String, Vec<Value>), ProtocolError>)
    ensures
        r matches Ok((name, args)) ==> spec_extract(value@) == Ok::<
            (Seq<char>, Seq<ValueView>),
            ProtocolError,
        >((name@, view_items(args@, 0))),
        r matches Err(e) ==> spec_extract(value@) == Err::<
            (Seq<char>, Seq<ValueView>),
            ProtocolError,
        >(e),
{
    match value {
        Value::Array(items) => {
            if items.len() == 0 {
                proof {
                    lemma_view_items(items@, 0);
                }
                return Err(ProtocolError::Malformed);
            }
            let ghost items0 = items@;
            let mut items = items;
            let first = items.remove(0);
            proof {
                lemma_view_items(items0, 0);
                lemma_view_items(items@, 0);
                assert(view_items(items0, 0)[0] == first@);
                assert(items@ =~= items0.subrange(1, items0.len() as int));
                assert(forall|k: int| 0 <= k < items@.len() ==> items@[k] == items0[k + 1]);
                assert forall|k: int| 0 <= k < view_items(items0, 0).skip(1).len() implies
                    view_items(items0, 0).skip(1)[k] == view_items(items@, 0)[k] by {
                    assert(view_items(items0, 0).skip(1)[k] == view_items(items0, 0)[k + 1]);
                    assert(view_items(items0, 0)[k + 1] == items0[k + 1]@);
                    assert(view_items(items@, 0)[k] == items@[k]@);
                }
                assert(view_items(items0, 0).skip(1) =~= view_items(items@, 0));
            }
            match unpack_bulk_str(first) {
                Err(e) => Err(e),
                Ok(name) => Ok((name, items)),
            }
        },
        _ => Err(ProtocolError::Malformed),
    }
}

/// The case-folded payload of a bulk string; anything else is malformed.
pub fn unpack_bulk_str(value: Value) -> (r: Result<String, ProtocolError>)
    ensures
        r matches Ok(s) ==> (value@ matches ValueView::BulkString(t) && s@ == lower_of(t)),
        r is Err ==> !(value@ is BulkString) && r == Err::<String, ProtocolError>(
            ProtocolError::Malformed,
        ),
{
    match value {
        Value::BulkString(s) => Ok(crate::text::to_lowercase(&s)),
        _ => Err(ProtocolError::Malformed),
    }
}

/// Run a `set` command against the store.
pub fn set_function(args: Vec<Value>, db: &mut Store, now: u64) -> (r: Value)
    requires
        old(db).wf(),
    ensures
        final(db).wf(),
        (r@, final(db)@) == spec_set_cmd(view_items(args@, 0), old(db)@, now),
{
    proof {
        lemma_view_items(args@, 0);
    }
    if args.len() == 2 {
        match (args[0].value(), args[1].value()) {
            (Some(k), Some(v)) => {
                db.set(k, v, None, now);
                Value::SimpleString(String::from_str("OK"))
            },
            _ => Value::SimpleError(String::from_str("Unexpected argument received")),
        }
    } else if args.len() == 4 {
        match (args[0].value(), args[1].value(), args[2].value(), args[3].value()) {
            (Some(k), Some(v), Some(opt), Some(exs)) => {
                let folded = crate::text::to_lowercase(&opt);
                if crate::text::str_eq(folded.as_str(), "ex") {
                    let ex_bytes = exs.as_str().as_bytes_vec();
                    match crate::resp::parse_int(ex_bytes.as_slice()) {
                        Ok(t) => {
                            if t >= 0 {
                                db.set(k, v, Some(t as u64), now);
                                Value::SimpleString(String::from_str("OK"))
                            } else {
                                Value::SimpleError(
                                    String::from_str("Couldn't parse expiration time"),
                                )
                            }
                        },
                        Err(_) => Value::SimpleError(
                            String::from_str("Couldn't parse expiration time"),
                        ),
                    }
                } else {
                    Value::SimpleError(String::from_str("Unexpected argument received"))
                }
            },
            _ => Value::SimpleError(String::from_str("Unexpected argument received")),
        }
    } else {
        Value::SimpleError(String::from_str("Unexpected number of arguments"))
    }
}

/// Run a `get` command against the store.
pub fn get_function(args: Vec<Value>, db: &mut Store, now: u64) -> (r: Value)
    requires
        old(db).wf(),
    ensures
        final(db).wf(),
        (r@, final(db)@) == spec_get_cmd(view_items(args@, 0), old(db)@, now),
{
    proof {
        lemma_view_items(args@, 0);
    }
    if args.len() != 1 {
        return Value::SimpleError(String::from_str("Unexpected number of arguments"));
    }
    match args[0].value() {
        None => Value::SimpleError(String::from_str("Unexpected argument received")),
        Some(k) => match db.get(&k, now) {
            Some(item) => Value::BulkString(item),
            None => Value::NullBulk,
        },
    }
}

/// Run a `dbsize` command against the store.
pub fn dbsize_function(args: Vec<Value>, db: &Store) -> (r: Value)
    requires
        db.wf(),
    ensures
        r@ == spec_dbsize_cmd(view_items(args@, 0), db@),
{
    proof {
        lemma_view_items(args@, 0);
    }
    if args.len() != 0 {
        return Value::SimpleError(String::from_str("Unexpected number of arguments"));
    }
    let n = db.size();
    let digits = crate::num::format_u64(n as u64);
    proof {
        crate::num::lemma_dec_bytes(n as int);
        assert(forall|i: int| 0 <= i < digits@.len() ==> digits@[i] < 128);
    }
    Value::SimpleString(crate::text::ascii_to_string(digits))
}

/// Interpret one parsed frame as a command and answer it: the reply to
/// send back, or the protocol error that closes the connection. The
/// store changes exactly as the command table says; on an error it does
/// not change at all.
pub fn handle(value: Value, db: &mut Store, now: u64) -> (r: Result<Value, ProtocolError>)
    requires
        old(db).wf(),
    ensures
        final(db).wf(),
        r matches Ok(reply) ==> spec_dispatch(value@, old(db)@, now) == Ok::<
            (ValueView, Map<Seq<char>, EntryModel>),
            ProtocolError,
        >((reply@, final(db)@)),
        r matches Err(e) ==> spec_dispatch(value@, old(db)@, now) == Err::<
            (ValueView, Map<Seq<char>, EntryModel>),
            ProtocolError,
        >(e) && final(db)@ == old(db)@,
{
    match extract_command(value) {
        Err(e) => Err(e),
        Ok((command, args)) => {
            proof {
                lemma_view_items(args@, 0);
            }
            if crate::text::str_eq(command.as_str(), "ping") {
                if args.len() == 0 {
                    Ok(Value::SimpleString(String::from_str("PONG")))
                } else {
                    Ok(Value::SimpleError(String::from_str("Unexpected number of arguments")))
                }
            } else if crate::text::str_eq(command.as_str(), "echo") {
                if args.len() == 1 {
                    let mut args = args;
                    Ok(args.remove(0))
                } else {
                    Ok(Value::SimpleError(String::from_str("Unexpected number of arguments")))
                }
            } else if crate::text::str_eq(command.as_str(), "set") {
                Ok(set_function(args, db, now))
            } else if crate::text::str_eq(command.as_str(), "get") {
                Ok(get_function(args, db, now))
            } else if crate::text::str_eq(command.as_str(), "dbsize") {
                Ok(dbsize_function(args, db))
            } else if crate::text::str_eq(command.as_str(), "command") {
                Ok(Value::SimpleString(String::from_str("OK")))
            } else {
                let mut msg = String::from_str("Cannot handle command ");
                msg.append(command.as_str());
                Ok(Value::SimpleError(msg))
            }
        },
    }
}


/// A `set k v` answered with OK, followed at once by a `get k`: the get
/// finds the key live and answers with exactly the stored value, at any
/// clock reading, since the entry has no time-to-live.
pub proof fn lemma_set_then_get_commands(
    m: Map<Seq<char>, EntryModel>,
    k: Seq<char>,
    v: Seq<char>,
    now: u64,
    then: u64,
)
    requires
        k.len() > 0,
        v.len() > 0,
    ensures
        ({
            let set_args = seq![ValueView::BulkString(k), ValueView::BulkString(v)];
            let m1 = spec_set_cmd(set_args, m, now).1;
            &&& spec_set_cmd(set_args, m, now).0 == ok_reply()
            &&& spec_get_cmd(seq![ValueView::BulkString(k)], m1, then) == (
                ValueView::BulkString(v),
                m1,
            )
        }),
{
}

/// An entry stored with a one-second time-to-live: a `get` at the same
/// clock reading answers with the value; once more than one second has
/// passed, the `get` answers null, evicts the entry, and the size
/// afterwards no longer counts the key.
pub proof fn lemma_ttl_expiry_commands(
    m: Map<Seq<char>, EntryModel>,
    k: Seq<char>,
    v: Seq<char>,
    now: u64,
    then: u64,
)
    requires
        m.dom().finite(),
    ensures
        ({
            let m1 = m.insert(k, EntryModel { item: v, time: now, ex: Some(1) });
            &&& spec_get_cmd(seq![ValueView::BulkString(k)], m1, now) == (
                ValueView::BulkString(v),
                m1,
            )
            &&& then > now + 1 ==> spec_get_cmd(seq![ValueView::BulkString(k)], m1, then) == (
                ValueView::NullBulk,
                m1.remove(k),
            )
            &&& then > now + 1 ==> !m1.remove(k).contains_key(k) && m1.remove(k).len() == m1.len()
                - 1
        }),
{
    let m1 = m.insert(k, EntryModel { item: v, time: now, ex: Some(1) });
    assert(m1.dom().finite());
    assert(m1.remove(k).dom() =~= m1.dom().remove(k));
}

} // verus!
