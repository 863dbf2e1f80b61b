//! The library's laws: the codec round trip, and what dispatch guarantees
//! across calls — proved once here, for all inputs.
use vstd::prelude::*;

use crate::command::{classify_bytes, RedisCommand};
use crate::decode::{
    first_crlf, lemma_first_crlf, line_next, line_of, spec_decode, spec_decode_elems, DecodeError,
    RECURSION_LIMIT,
};
use crate::digits::{
    all_digits, dec_digits, dec_int, is_digit, lemma_dec_digits_are_digits,
    lemma_signed_val_dec_int, lemma_unsigned_val_dec_digits, signed_val,
};
use crate::encode::{crlf, enc, enc_all, enc_bulk};
use crate::resp::{BulkModel, ValueModel, CR, LF};
use crate::server::{
    dispatch, expiry_of, first_token, invalid_args_text, ok_text, pong_text,
};
use crate::store::{
    contains_key, keys_unique, lemma_lookup_push, lemma_set_if_absent_keys_unique, lookup,
    StoreModel, StoredModel,
};

verus! {

/// How deep a value's arrays nest: scalars are at height zero.
pub open spec fn height(v: ValueModel) -> nat
    decreases v,
{
    match v {
        ValueModel::Array(items) => 1 + height_all(items),
        _ => 0,
    }
}

pub open spec fn height_all(items: Seq<ValueModel>) -> nat
    decreases items,
{
    if items.len() == 0 {
        0
    } else if height(items.first()) >= height_all(items.drop_first()) {
        height(items.first())
    } else {
        height_all(items.drop_first())
    }
}

/// No CR LF pair inside `s`, so a line holding `s` ends at the delimiter the
/// encoder writes after it.
pub open spec fn crlf_free(s: Seq<u8>) -> bool {
    forall|i: int| 0 <= i && i + 1 < s.len() ==> !(#[trigger] s[i] == CR && s[i + 1] == LF)
}

/// The values the encoder writes so that the decoder reads them back: line
/// payloads free of CR LF, integers within 32 bits, a present bulk payload
/// nonempty (an empty one is the distinct Empty form) and no longer than
/// `i32::MAX`, arrays no longer than `usize::MAX`, all of it recursively.
pub open spec fn wf(v: ValueModel) -> bool
    decreases v,
{
    match v {
        ValueModel::Null => true,
        ValueModel::Simple(s) => crlf_free(s),
        ValueModel::Error(s) => crlf_free(s),
        ValueModel::Integer(i) => i32::MIN <= i <= i32::MAX,
        ValueModel::Bulk(BulkModel::Present(p)) => 0 < p.len() <= i32::MAX,
        ValueModel::Bulk(_) => true,
        ValueModel::Array(items) => items.len() <= usize::MAX && forall|i: int|
            0 <= i < items.len() ==> wf(#[trigger] items[i]),
    }
}

/// A line the encoder wrote ends exactly at the CR LF it appended, whatever
/// follows.
proof fn lemma_line_roundtrip(line: Seq<u8>, suffix: Seq<u8>)
    requires
        crlf_free(line),
    ensures
        first_crlf(line + crlf() + suffix) == Some(line.len() as int),
        line_of(line + crlf() + suffix) == line,
        line_next(line + crlf() + suffix) == line.len() + 2,
{
    let s = line + crlf() + suffix;
    assert(s[line.len() as int] == CR && s[line.len() as int + 1] == LF);
    lemma_first_crlf(s);
    match first_crlf(s) {
        Some(k) => {
            if k < line.len() {
                if k + 1 < line.len() {
                    assert(s[k] == line[k] && s[k + 1] == line[k + 1]);
                    assert(!(line[k] == CR && line[k + 1] == LF));
                } else {
                    assert(s[k + 1] == CR);
                }
                assert(false);
            } else if k > line.len() {
                assert(!(s[line.len() as int] == CR && s[line.len() as int + 1] == LF));
                assert(false);
            }
            assert(line_of(s) =~= line);
        },
        None => {
            assert(false);
        },
    }
}

/// A run of digits holds no CR LF.
proof fn lemma_digits_crlf_free(s: Seq<u8>)
    requires
        all_digits(s),
    ensures
        crlf_free(s),
{
    assert forall|i: int| 0 <= i && i + 1 < s.len() implies !(#[trigger] s[i] == CR && s[i + 1]
        == LF) by {
        assert(is_digit(s[i]));
    }
}

/// The printed form of a signed integer holds no CR LF.
proof fn lemma_dec_int_crlf_free(i: int)
    ensures
        crlf_free(dec_int(i)),
{
    lemma_signed_val_dec_int(i);
    let s = dec_int(i);
    assert forall|j: int| 0 <= j && j + 1 < s.len() implies !(#[trigger] s[j] == CR && s[j + 1]
        == LF) by {
        if i < 0 {
            lemma_dec_digits_are_digits((-i) as nat);
            if j > 0 {
                assert(s[j] == dec_digits((-i) as nat)[j - 1]);
                assert(is_digit(s[j]));
            }
        } else {
            lemma_dec_digits_are_digits(i as nat);
            assert(is_digit(s[j]));
        }
    }
}

/// Decoding what the encoder wrote for `v` gives `v` back and consumes
/// exactly its bytes, whatever follows in the buffer.
pub proof fn lemma_decode_enc(v: ValueModel, suffix: Seq<u8>, depth: nat)
    requires
        wf(v),
        height(v) <= depth,
    ensures
        spec_decode(enc(v) + suffix, depth) == Ok::<(ValueModel, int), DecodeError>(
            (v, enc(v).len() as int),
        ),
    decreases v,
{
    let s = enc(v) + suffix;
    match v {
        ValueModel::Null => {
            assert(s.drop_first() =~= Seq::<u8>::empty() + crlf() + suffix);
            lemma_line_roundtrip(Seq::empty(), suffix);
        },
        ValueModel::Simple(txt) => {
            assert(s.drop_first() =~= txt + crlf() + suffix);
            lemma_line_roundtrip(txt, suffix);
        },
        ValueModel::Error(txt) => {
            assert(s.drop_first() =~= txt + crlf() + suffix);
            lemma_line_roundtrip(txt, suffix);
        },
        ValueModel::Integer(i) => {
            assert(s.drop_first() =~= dec_int(i) + crlf() + suffix);
            lemma_dec_int_crlf_free(i);
            lemma_line_roundtrip(dec_int(i), suffix);
            lemma_signed_val_dec_int(i);
        },
        ValueModel::Bulk(b) => {
            lemma_decode_enc_bulk(b, suffix, depth);
        },
        ValueModel::Array(items) => {
            let count = items.len();
            let line = dec_digits(count);
            let tail = enc_all(items) + suffix;
            assert(s.drop_first() =~= line + crlf() + tail);
            lemma_unsigned_val_dec_digits(count);
            lemma_dec_digits_are_digits(count);
            lemma_digits_crlf_free(line);
            lemma_line_roundtrip(line, tail);
            let rest = s.drop_first();
            assert(rest.skip(line.len() as int + 2) =~= tail);
            lemma_decode_enc_all(items, suffix, (depth - 1) as nat);
            assert(spec_decode(s, depth) == Ok::<(ValueModel, int), DecodeError>(
                (v, enc(v).len() as int),
            ));
        },
    }
}

/// The bulk-string cases of the round trip.
proof fn lemma_decode_enc_bulk(b: BulkModel, suffix: Seq<u8>, depth: nat)
    requires
        wf(ValueModel::Bulk(b)),
    ensures
        spec_decode(enc_bulk(b) + suffix, depth) == Ok::<(ValueModel, int), DecodeError>(
            (ValueModel::Bulk(b), enc_bulk(b).len() as int),
        ),
{
    let s = enc_bulk(b) + suffix;
    match b {
        BulkModel::Present(p) => {
            let n = p.len() as int;
            let line = dec_digits(p.len());
            let tail = p + crlf() + suffix;
            assert(s.drop_first() =~= line + crlf() + tail);
            lemma_dec_digits_are_digits(p.len());
            lemma_digits_crlf_free(line);
            lemma_line_roundtrip(line, tail);
            lemma_signed_val_dec_int(n);
            assert(dec_int(n) == line);
            let rest = s.drop_first();
            let off = line.len() + 2;
            assert(rest.len() == off + n + 2 + suffix.len());
            assert(rest[off + n] == CR && rest[off + n + 1] == LF) by {
                assert(rest[off + n] == tail[n] && rest[off + n + 1] == tail[n + 1]);
                assert(tail[n] == crlf()[0] && tail[n + 1] == crlf()[1]);
            }
            assert(rest.subrange(off as int, off + n) =~= p);
        },
        BulkModel::Empty => {
            let line = seq![48u8];
            let tail = crlf() + suffix;
            assert(s.drop_first() =~= line + crlf() + tail);
            lemma_digits_crlf_free(line);
            lemma_line_roundtrip(line, tail);
            assert(signed_val(line) == 0) by {
                assert(crate::digits::num_body(line) == line);
                assert(line.drop_last() =~= Seq::<u8>::empty());
                assert(crate::digits::digits_val(Seq::<u8>::empty()) == 0);
                assert(crate::digits::digits_val(line) == 0);
            }
            assert(all_digits(line));
            let rest = s.drop_first();
            assert(rest[3] == CR && rest[4] == LF) by {
                assert(rest[3] == tail[0] && rest[4] == tail[1]);
            }
        },
        BulkModel::Null => {
            let line = dec_int(-1);
            assert(s.drop_first() =~= line + crlf() + suffix);
            lemma_dec_int_crlf_free(-1);
            lemma_line_roundtrip(line, suffix);
            lemma_signed_val_dec_int(-1);
        },
    }
}

/// Decoding what the encoder wrote for a run of values gives the run back.
pub proof fn lemma_decode_enc_all(items: Seq<ValueModel>, suffix: Seq<u8>, depth: nat)
    requires
        forall|i: int| 0 <= i < items.len() ==> wf(#[trigger] items[i]),
        height_all(items) <= depth,
        items.len() <= usize::MAX,
    ensures
        spec_decode_elems(enc_all(items) + suffix, items.len(), depth) == Ok::<
            (Seq<ValueModel>, int),
            DecodeError,
        >((items, enc_all(items).len() as int)),
    decreases items,
{
    if items.len() == 0 {
        assert(enc_all(items) + suffix =~= suffix);
        assert(items =~= Seq::<ValueModel>::empty());
    } else {
        let first = items.first();
        let restv = items.drop_first();
        let s = enc_all(items) + suffix;
        assert(s =~= enc(first) + (enc_all(restv) + suffix));
        lemma_decode_enc(first, enc_all(restv) + suffix, depth);
        assert(s.skip(enc(first).len() as int) =~= enc_all(restv) + suffix);
        assert(forall|i: int| 0 <= i < restv.len() ==> wf(#[trigger] restv[i])) by {
            assert(forall|i: int| 0 <= i < restv.len() ==> restv[i] == items[i + 1]);
        }
        lemma_decode_enc_all(restv, suffix, depth);
        assert(seq![first] + restv =~= items);
    }
}

/// Round trip: a well-formed protocol value decodes from its own encoding,
/// back to itself, consuming every byte.
pub proof fn lemma_round_trip(v: ValueModel)
    requires
        wf(v),
        height(v) <= RECURSION_LIMIT,
    ensures
        spec_decode(enc(v), RECURSION_LIMIT as nat) == Ok::<(ValueModel, int), DecodeError>(
            (v, enc(v).len() as int),
        ),
{
    lemma_decode_enc(v, Seq::empty(), RECURSION_LIMIT as nat);
    assert(enc(v) + Seq::<u8>::empty() =~= enc(v));
}

/// A request of present bulk strings `[cmd, k, v]`.
pub open spec fn set_request_model(cmd: Seq<u8>, k: Seq<u8>, v: Seq<u8>) -> ValueModel {
    ValueModel::Array(
        seq![
            ValueModel::Bulk(BulkModel::Present(cmd)),
            ValueModel::Bulk(BulkModel::Present(k)),
            ValueModel::Bulk(BulkModel::Present(v)),
        ],
    )
}

/// A request of present bulk strings `[cmd, k, v, marker, ms]`; the marker
/// may be any value, as dispatch never reads it.
pub open spec fn set_px_request_model(
    cmd: Seq<u8>,
    k: Seq<u8>,
    v: Seq<u8>,
    marker: ValueModel,
    ms: Seq<u8>,
) -> ValueModel {
    ValueModel::Array(
        seq![
            ValueModel::Bulk(BulkModel::Present(cmd)),
            ValueModel::Bulk(BulkModel::Present(k)),
            ValueModel::Bulk(BulkModel::Present(v)),
            marker,
            ValueModel::Bulk(BulkModel::Present(ms)),
        ],
    )
}

/// A request of present bulk strings `[cmd, k]`.
pub open spec fn get_request_model(cmd: Seq<u8>, k: Seq<u8>) -> ValueModel {
    ValueModel::Array(
        seq![ValueModel::Bulk(BulkModel::Present(cmd)), ValueModel::Bulk(BulkModel::Present(k))],
    )
}

/// After `SET k v` on a keyspace without `k`, the reply is OK and `GET k`
/// replies the stored value — at any later time, since the entry never
/// expires.
pub proof fn lemma_set_then_get(
    m: StoreModel,
    set_cmd: Seq<u8>,
    get_cmd: Seq<u8>,
    k: Seq<u8>,
    v: Seq<u8>,
    now: int,
    later: int,
)
    requires
        classify_bytes(set_cmd) == Some(RedisCommand::SET),
        classify_bytes(get_cmd) == Some(RedisCommand::GET),
        !contains_key(m, k),
    ensures
        dispatch(m, set_request_model(set_cmd, k, v), now).1 == ValueModel::Simple(ok_text()),
        dispatch(
            dispatch(m, set_request_model(set_cmd, k, v), now).0,
            get_request_model(get_cmd, k),
            later,
        ).1 == ValueModel::Bulk(BulkModel::Present(v)),
{
    let stored = StoredModel { value: v, insert_time: now, expire_time: None };
    lemma_lookup_push(m, k, stored, k);
}

/// After `SET k v PX 0` on a keyspace without `k`, any `GET k` strictly
/// later than the insertion replies the null bulk string.
pub proof fn lemma_set_px_zero_then_get(
    m: StoreModel,
    set_cmd: Seq<u8>,
    get_cmd: Seq<u8>,
    k: Seq<u8>,
    v: Seq<u8>,
    marker: ValueModel,
    ms: Seq<u8>,
    now: int,
    later: int,
)
    requires
        classify_bytes(set_cmd) == Some(RedisCommand::SET),
        classify_bytes(get_cmd) == Some(RedisCommand::GET),
        !contains_key(m, k),
        expiry_of(ms) == Some(0int),
        later > now,
    ensures
        dispatch(m, set_px_request_model(set_cmd, k, v, marker, ms), now).1 == ValueModel::Simple(
            ok_text(),
        ),
        dispatch(
            dispatch(m, set_px_request_model(set_cmd, k, v, marker, ms), now).0,
            get_request_model(get_cmd, k),
            later,
        ).1 == ValueModel::Bulk(BulkModel::Null),
{
    let stored = StoredModel { value: v, insert_time: now, expire_time: Some(0int) };
    lemma_lookup_push(m, k, stored, k);
}

/// PING replies PONG and leaves the keyspace untouched, whatever the state
/// and whatever else the request carries.
pub proof fn lemma_ping_idempotent(m: StoreModel, items: Seq<ValueModel>, cmd: Seq<u8>, now: int)
    requires
        first_token(items) == Some(cmd),
        classify_bytes(cmd) == Some(RedisCommand::PING),
    ensures
        dispatch(m, ValueModel::Array(items), now) == (
            m,
            ValueModel::Bulk(BulkModel::Present(pong_text())),
        ),
{
}

/// ECHO with no second array element replies the invalid-arguments error and
/// leaves the keyspace untouched.
pub proof fn lemma_echo_missing_argument(m: StoreModel, cmd: Seq<u8>, now: int)
    requires
        classify_bytes(cmd) == Some(RedisCommand::ECHO),
    ensures
        dispatch(m, ValueModel::Array(seq![ValueModel::Bulk(BulkModel::Present(cmd))]), now) == (
            m,
            ValueModel::Error(invalid_args_text()),
        ),
{
}

/// SET writes no key but its own: every other key reads afterwards as it did
/// before, so concurrent SETs on disjoint keys are independent.
pub proof fn lemma_set_preserves_other_keys(
    m: StoreModel,
    set_cmd: Seq<u8>,
    k: Seq<u8>,
    v: Seq<u8>,
    now: int,
    q: Seq<u8>,
)
    requires
        classify_bytes(set_cmd) == Some(RedisCommand::SET),
        q != k,
    ensures
        lookup(dispatch(m, set_request_model(set_cmd, k, v), now).0, q) == lookup(m, q),
{
    let stored = StoredModel { value: v, insert_time: now, expire_time: None };
    if !contains_key(m, k) {
        lemma_lookup_push(m, k, stored, q);
    }
}

/// Racing SETs on one key have exactly one winner: once the key is present,
/// a later SET still replies OK but leaves the keyspace exactly as it is.
pub proof fn lemma_set_first_wins(
    m: StoreModel,
    set_cmd: Seq<u8>,
    k: Seq<u8>,
    v2: Seq<u8>,
    now: int,
)
    requires
        classify_bytes(set_cmd) == Some(RedisCommand::SET),
        contains_key(m, k),
    ensures
        dispatch(m, set_request_model(set_cmd, k, v2), now) == (m, ValueModel::Simple(ok_text())),
{
}

/// No request breaks the keyspace invariant: keys stay pairwise distinct.
pub proof fn lemma_dispatch_keys_unique(m: StoreModel, req: ValueModel, now: int)
    requires
        keys_unique(m),
    ensures
        keys_unique(dispatch(m, req, now).0),
{
    match req {
        ValueModel::Array(items) => match first_token(items) {
            Some(cmd) => match classify_bytes(cmd) {
                Some(RedisCommand::SET) => {
                    if items.len() == 3 {
                        match (items[1], items[2]) {
                            (
                                ValueModel::Bulk(BulkModel::Present(k)),
                                ValueModel::Bulk(BulkModel::Present(v)),
                            ) => {
                                lemma_set_if_absent_keys_unique(
                                    m,
                                    k,
                                    StoredModel { value: v, insert_time: now, expire_time: None },
                                );
                            },
                            _ => {},
                        }
                    } else if items.len() == 5 {
                        match (items[1], items[2], items[4]) {
                            (
                                ValueModel::Bulk(BulkModel::Present(k)),
                                ValueModel::Bulk(BulkModel::Present(v)),
                                ValueModel::Bulk(BulkModel::Present(e)),
                            ) => {
                                lemma_set_if_absent_keys_unique(
                                    m,
                                    k,
                                    StoredModel {
                                        value: v,
                                        insert_time: now,
                                        expire_time: expiry_of(e),
                                    },
                                );
                            },
                            _ => {},
                        }
                    }
                },
                _ => {},
            },
            None => {},
        },
        _ => {},
    }
}

} // verus!
