//! The request handler: dispatch of one decoded request against the
//! keyspace, and the full byte-in/byte-out step a connection loop performs.
use vstd::prelude::*;

use crate::command::{classify_bytes, classify_token, RedisCommand};
use crate::decode::{get_resp_value, spec_decode, RECURSION_LIMIT};
use crate::digits::{parse_unsigned, parses_unsigned, unsigned_val};
use crate::encode::{enc, encode_resp_value};
use crate::resp::{lemma_models_of, models_of, BulkEnumerator, BulkModel, RESPValue, ValueModel};
use crate::store::{
    lookup, spec_expired, spec_set_if_absent, Store, StoreModel, StoredModel, ValueProperties,
};

verus! {

/// The bytes of an ASCII text, character by character.
pub open spec fn ascii_bytes(s: Seq<char>) -> Seq<u8> {
    Seq::new(s.len(), |i: int| s[i] as u8)
}

pub open spec fn ok_text() -> Seq<u8> {
    ascii_bytes("OK"@)
}

pub open spec fn pong_text() -> Seq<u8> {
    ascii_bytes("PONG"@)
}

pub open spec fn invalid_args_text() -> Seq<u8> {
    ascii_bytes("ERR invalid arguments"@)
}

pub open spec fn invalid_command_text() -> Seq<u8> {
    ascii_bytes("ERR invalid command"@)
}

pub open spec fn unknown_command_text() -> Seq<u8> {
    ascii_bytes("ERR unknown command"@)
}

/// The request's command name: the payload of its first element, which must
/// be a present bulk string.
pub open spec fn first_token(items: Seq<ValueModel>) -> Option<Seq<u8>> {
    if items.len() > 0 {
        match items[0] {
            ValueModel::Bulk(BulkModel::Present(c)) => Some(c),
            _ => None,
        }
    } else {
        None
    }
}

/// A GET's key: the payload of the second element, which must be a present
/// bulk string.
pub open spec fn second_token(items: Seq<ValueModel>) -> Option<Seq<u8>> {
    if items.len() >= 2 {
        match items[1] {
            ValueModel::Bulk(BulkModel::Present(c)) => Some(c),
            _ => None,
        }
    } else {
        None
    }
}

/// The expiry a SET's millisecond token sets: none when the token does not
/// parse as an unsigned decimal that fits 128 bits.
pub open spec fn expiry_of(e: Seq<u8>) -> Option<int> {
    if parses_unsigned(e, u128::MAX as int) {
        Some(unsigned_val(e) as int)
    } else {
        None
    }
}

/// SET takes exactly `SET key value` or `SET key value <marker> <ms>`, the
/// key, value and millisecond tokens present bulk strings; it inserts only
/// when the key is absent and replies OK either way.
pub open spec fn dispatch_set(m: StoreModel, items: Seq<ValueModel>, now: int) -> (
    StoreModel,
    ValueModel,
) {
    if items.len() == 3 {
        match (items[1], items[2]) {
            (
                ValueModel::Bulk(BulkModel::Present(k)),
                ValueModel::Bulk(BulkModel::Present(v)),
            ) => (
                spec_set_if_absent(
                    m,
                    k,
                    StoredModel { value: v, insert_time: now, expire_time: None },
                ),
                ValueModel::Simple(ok_text()),
            ),
            _ => (m, ValueModel::Error(invalid_args_text())),
        }
    } else if items.len() == 5 {
        match (items[1], items[2], items[4]) {
            (
                ValueModel::Bulk(BulkModel::Present(k)),
                ValueModel::Bulk(BulkModel::Present(v)),
                ValueModel::Bulk(BulkModel::Present(e)),
            ) => (
                spec_set_if_absent(
                    m,
                    k,
                    StoredModel { value: v, insert_time: now, expire_time: expiry_of(e) },
                ),
                ValueModel::Simple(ok_text()),
            ),
            _ => (m, ValueModel::Error(invalid_args_text())),
        }
    } else {
        (m, ValueModel::Error(invalid_args_text()))
    }
}

/// GET replies the stored value, or the null bulk string when the key is
/// absent or its entry expired; the keyspace is left as it is.
pub open spec fn dispatch_get(m: StoreModel, items: Seq<ValueModel>, now: int) -> (
    StoreModel,
    ValueModel,
) {
    match second_token(items) {
        Some(k) => match lookup(m, k) {
            Some(entry) => if spec_expired(entry, now) {
                (m, ValueModel::Bulk(BulkModel::Null))
            } else {
                (m, ValueModel::Bulk(BulkModel::Present(entry.value)))
            },
            None => (m, ValueModel::Bulk(BulkModel::Null)),
        },
        None => (m, ValueModel::Error(invalid_args_text())),
    }
}

/// Dispatch of a classified command.
pub open spec fn dispatch_cmd(
    m: StoreModel,
    items: Seq<ValueModel>,
    cmd: Seq<u8>,
    now: int,
) -> (StoreModel, ValueModel) {
    match classify_bytes(cmd) {
        Some(RedisCommand::PING) => (m, ValueModel::Bulk(BulkModel::Present(pong_text()))),
        Some(RedisCommand::ECHO) => if items.len() >= 2 {
            (m, items[1])
        } else {
            (m, ValueModel::Error(invalid_args_text()))
        },
        Some(RedisCommand::SET) => dispatch_set(m, items, now),
        Some(RedisCommand::GET) => dispatch_get(m, items, now),
        _ => (m, ValueModel::Error(unknown_command_text())),
    }
}

/// The reply to one decoded request and the keyspace it leaves behind. A
/// request that is not an array, or whose first element is not a present
/// bulk string, is answered with the invalid-command error; a recognized
/// command without a handler (INFO) and an unrecognized name are answered
/// with the unknown-command error.
pub open spec fn dispatch(m: StoreModel, req: ValueModel, now: int) -> (StoreModel, ValueModel) {
    match req {
        ValueModel::Array(items) => match first_token(items) {
            Some(cmd) => dispatch_cmd(m, items, cmd, now),
            None => (m, ValueModel::Error(invalid_command_text())),
        },
        _ => (m, ValueModel::Error(invalid_command_text())),
    }
}

/// Copies the bytes of an ASCII text.
fn ascii_to_vec(s: &str) -> (r: Vec<u8>)
    requires
        vstd::string::is_ascii(s),
    ensures
        r@ == ascii_bytes(s@),
{
    proof {
        vstd::string::is_ascii_spec_bytes(s);
    }
    let b = s.as_bytes();
    let r = vstd::slice::slice_to_vec(b);
    proof {
        assert(r@ =~= ascii_bytes(s@));
    }
    r
}

fn msg_ok() -> (r: Vec<u8>)
    ensures
        r@ == ok_text(),
{
    proof {
        reveal_strlit("OK");
        assert(vstd::string::is_ascii("OK"));
    }
    ascii_to_vec("OK")
}

fn msg_pong() -> (r: Vec<u8>)
    ensures
        r@ == pong_text(),
{
    proof {
        reveal_strlit("PONG");
        assert(vstd::string::is_ascii("PONG"));
    }
    ascii_to_vec("PONG")
}

fn msg_invalid_args() -> (r: Vec<u8>)
    ensures
        r@ == invalid_args_text(),
{
    proof {
        reveal_strlit("ERR invalid arguments");
        assert(vstd::string::is_ascii("ERR invalid arguments"));
    }
    ascii_to_vec("ERR invalid arguments")
}

fn msg_invalid_command() -> (r: Vec<u8>)
    ensures
        r@ == invalid_command_text(),
{
    proof {
        reveal_strlit("ERR invalid command");
        assert(vstd::string::is_ascii("ERR invalid command"));
    }
    ascii_to_vec("ERR invalid command")
}

fn msg_unknown_command() -> (r: Vec<u8>)
    ensures
        r@ == unknown_command_text(),
{
    proof {
        reveal_strlit("ERR unknown command");
        assert(vstd::string::is_ascii("ERR unknown command"));
    }
    ascii_to_vec("ERR unknown command")
}

/// Executes one decoded request against the store and returns the reply.
pub fn apply_request(store: &mut Store, req: RESPValue, now: u128) -> (reply: RESPValue)
    ensures
        final(store).model() == dispatch(old(store).model(), req.model(), now as int).0,
        reply.model() == dispatch(old(store).model(), req.model(), now as int).1,
{
    let ghost reqm = req.model();
    match req {
        RESPValue::Array(mut items) => {
            proof {
                lemma_models_of(items@);
            }
            let ghost items_m = models_of(items@);
            proof {
                assert(reqm == ValueModel::Array(items_m));
            }
            let n = items.len();
            let cls: Option<Option<RedisCommand>> = if n > 0 {
                match &items[0] {
                    RESPValue::BulkString(BulkEnumerator::Value(cmd)) => Some(
                        classify_token(cmd.as_slice()),
                    ),
                    _ => None,
                }
            } else {
                None
            };
            proof {
                if n > 0 {
                    assert(items_m[0] == items@[0].model());
                }
                if n >= 2 {
                    assert(items_m[1] == items@[1].model());
                }
                if n >= 3 {
                    assert(items_m[2] == items@[2].model());
                }
                if n >= 5 {
                    assert(items_m[4] == items@[4].model());
                }
                match cls {
                    None => {
                        assert(first_token(items_m) is None);
                    },
                    Some(command) => {
                        assert(first_token(items_m) is Some);
                        assert(command == classify_bytes(first_token(items_m).unwrap()));
                    },
                }
            }
            match cls {
                None => RESPValue::Error(msg_invalid_command()),
                Some(command) => match command {
                    Some(RedisCommand::PING) => RESPValue::BulkString(
                        BulkEnumerator::Value(msg_pong()),
                    ),
                    Some(RedisCommand::ECHO) => {
                        if n >= 2 {
                            let out = items.remove(1);
                            proof {
                                assert(out.model() == items_m[1]);
                            }
                            out
                        } else {
                            RESPValue::Error(msg_invalid_args())
                        }
                    },
                    Some(RedisCommand::SET) => {
                        if n == 3 {
                            match (&items[1], &items[2]) {
                                (
                                    RESPValue::BulkString(BulkEnumerator::Value(k)),
                                    RESPValue::BulkString(BulkEnumerator::Value(v)),
                                ) => {
                                    let key = vstd::slice::slice_to_vec(k.as_slice());
                                    let val = vstd::slice::slice_to_vec(v.as_slice());
                                    let props = ValueProperties::new(val, now, None);
                                    store.set_if_absent(key, props);
                                    RESPValue::SimpleString(msg_ok())
                                },
                                _ => RESPValue::Error(msg_invalid_args()),
                            }
                        } else if n == 5 {
                            match (&items[1], &items[2], &items[4]) {
                                (
                                    RESPValue::BulkString(BulkEnumerator::Value(k)),
                                    RESPValue::BulkString(BulkEnumerator::Value(v)),
                                    RESPValue::BulkString(BulkEnumerator::Value(e)),
                                ) => {
                                    let key = vstd::slice::slice_to_vec(k.as_slice());
                                    let val = vstd::slice::slice_to_vec(v.as_slice());
                                    proof {
                                        assert(e@.subrange(0, e@.len() as int) =~= e@);
                                    }
                                    let expiry = parse_unsigned(
                                        e.as_slice(),
                                        0,
                                        e.len(),
                                        u128::MAX,
                                    );
                                    let props = ValueProperties::new(val, now, expiry);
                                    store.set_if_absent(key, props);
                                    RESPValue::SimpleString(msg_ok())
                                },
                                _ => RESPValue::Error(msg_invalid_args()),
                            }
                        } else {
                            RESPValue::Error(msg_invalid_args())
                        }
                    },
                    Some(RedisCommand::GET) => {
                        if n >= 2 {
                            match &items[1] {
                                RESPValue::BulkString(BulkEnumerator::Value(k)) => {
                                    match store.get(k.as_slice()) {
                                        Some(props) => {
                                            if props.is_expired(now) {
                                                RESPValue::BulkString(BulkEnumerator::Null)
                                            } else {
                                                RESPValue::BulkString(
                                                    BulkEnumerator::Value(
                                                        vstd::slice::slice_to_vec(
                                                            props.value.as_slice(),
                                                        ),
                                                    ),
                                                )
                                            }
                                        },
                                        None => RESPValue::BulkString(BulkEnumerator::Null),
                                    }
                                },
                                _ => RESPValue::Error(msg_invalid_args()),
                            }
                        } else {
                            RESPValue::Error(msg_invalid_args())
                        }
                    },
                    _ => RESPValue::Error(msg_unknown_command()),
                },
            }
        },
        _ => RESPValue::Error(msg_invalid_command()),
    }
}

/// One request-reply exchange: decode the buffer, dispatch, encode the
/// reply. A decode error is answered with the invalid-command error frame
/// and closes the connection; everything else leaves it open.
pub open spec fn server_step(m: StoreModel, input: Seq<u8>, now: int) -> (
    StoreModel,
    Seq<u8>,
    bool,
) {
    match spec_decode(input, RECURSION_LIMIT as nat) {
        Ok(r) => (
            dispatch(m, r.0, now).0,
            enc(dispatch(m, r.0, now).1),
            false,
        ),
        Err(_) => (m, enc(ValueModel::Error(invalid_command_text())), true),
    }
}

/// Handles the request at the head of `input` against the store: the reply
/// bytes to send back, and whether the connection must close.
pub fn handle_request(store: &mut Store, input: &[u8], now: u128) -> (r: (Vec<u8>, bool))
    ensures
        final(store).model() == server_step(old(store).model(), input@, now as int).0,
        r.0@ == server_step(old(store).model(), input@, now as int).1,
        r.1 == server_step(old(store).model(), input@, now as int).2,
{
    match get_resp_value(input) {
        Ok(decoded) => {
            let (v, _used) = decoded;
            let reply = apply_request(store, v, now);
            (encode_resp_value(&reply), false)
        },
        Err(_) => (encode_resp_value(&RESPValue::Error(msg_invalid_command())), true),
    }
}

} // verus!
