//! The RESP encoder: `enc` says which bytes a protocol value is written as,
//! and `encode_resp_value` produces exactly those bytes.
use vstd::prelude::*;

use crate::digits::{dec_digits, dec_int, push_digits, push_i32, MINUS, ZERO};
use crate::resp::{
    lemma_models_of, models_of, BulkEnumerator, BulkModel, RESPValue, ValueModel, CR, LF, TAG_ARRAY, TAG_BULK,
    TAG_ERROR, TAG_INTEGER, TAG_NULL, TAG_SIMPLE,
};

verus! {

broadcast use vstd::std_specs::vec::axiom_vec_index_decreases;

pub open spec fn crlf() -> Seq<u8> {
    seq![CR, LF]
}

/// The wire bytes of a bulk string: a `$` tag, the decimal payload length
/// (`-1` for the null bulk string), and the length-delimited payload.
pub open spec fn enc_bulk(b: BulkModel) -> Seq<u8> {
    match b {
        BulkModel::Present(p) => seq![TAG_BULK] + dec_digits(p.len()) + crlf() + p + crlf(),
        BulkModel::Empty => seq![TAG_BULK, ZERO] + crlf() + crlf(),
        BulkModel::Null => seq![TAG_BULK] + dec_int(-1) + crlf(),
    }
}

/// The wire bytes of a protocol value.
pub open spec fn enc(v: ValueModel) -> Seq<u8>
    decreases v,
{
    match v {
        ValueModel::Null => seq![TAG_NULL] + crlf(),
        ValueModel::Simple(s) => seq![TAG_SIMPLE] + s + crlf(),
        ValueModel::Error(s) => seq![TAG_ERROR] + s + crlf(),
        ValueModel::Integer(i) => seq![TAG_INTEGER] + dec_int(i) + crlf(),
        ValueModel::Bulk(b) => enc_bulk(b),
        ValueModel::Array(items) => seq![TAG_ARRAY] + dec_digits(items.len()) + crlf() + enc_all(
            items,
        ),
    }
}

/// The wire bytes of a run of values, in order.
pub open spec fn enc_all(items: Seq<ValueModel>) -> Seq<u8>
    decreases items,
{
    if items.len() == 0 {
        Seq::empty()
    } else {
        enc(items.first()) + enc_all(items.drop_first())
    }
}

/// Encoding a run of values one longer appends the last value's bytes.
pub proof fn lemma_enc_all_push(items: Seq<ValueModel>, x: ValueModel)
    ensures
        enc_all(items.push(x)) == enc_all(items) + enc(x),
    decreases items,
{
    if items.len() == 0 {
        assert(items.push(x).drop_first() =~= Seq::<ValueModel>::empty());
        assert(items.push(x).first() == x);
        assert(enc_all(items.push(x)) == enc(x) + enc_all(Seq::<ValueModel>::empty()));
        assert(enc(x) + Seq::<u8>::empty() =~= Seq::<u8>::empty() + enc(x));
    } else {
        assert(items.push(x).drop_first() =~= items.drop_first().push(x));
        assert(items.push(x).first() == items.first());
        lemma_enc_all_push(items.drop_first(), x);
        assert(enc(items.first()) + (enc_all(items.drop_first()) + enc(x)) =~= (enc(items.first())
            + enc_all(items.drop_first())) + enc(x));
    }
}

/// Appends a copy of `s` to `out`.
fn push_bytes(out: &mut Vec<u8>, s: &[u8])
    ensures
        final(out)@ == old(out)@ + s@,
{
    let mut i: usize = 0;
    while i < s.len()
        invariant
            i <= s@.len(),
            out@ == old(out)@ + s@.subrange(0, i as int),
        decreases s@.len() - i,
    {
        out.push(s[i]);
        i = i + 1;
        assert(out@ =~= old(out)@ + s@.subrange(0, i as int));
    }
    assert(out@ =~= old(out)@ + s@);
}

fn push_crlf(out: &mut Vec<u8>)
    ensures
        final(out)@ == old(out)@ + crlf(),
{
    out.push(CR);
    out.push(LF);
    assert(out@ =~= old(out)@ + crlf());
}

/// Appends the wire bytes of `value` to `out`.
#[verifier::loop_isolation(false)]
fn push_value(value: &RESPValue, out: &mut Vec<u8>)
    ensures
        final(out)@ == old(out)@ + enc(value.model()),
    decreases value,
{
    match value {
        RESPValue::NULL => {
            out.push(TAG_NULL);
            push_crlf(out);
            assert(out@ =~= old(out)@ + enc(value.model()));
        },
        RESPValue::SimpleString(s) => {
            out.push(TAG_SIMPLE);
            push_bytes(out, s.as_slice());
            push_crlf(out);
            assert(out@ =~= old(out)@ + enc(value.model()));
        },
        RESPValue::Error(s) => {
            out.push(TAG_ERROR);
            push_bytes(out, s.as_slice());
            push_crlf(out);
            assert(out@ =~= old(out)@ + enc(value.model()));
        },
        RESPValue::Integer(i) => {
            out.push(TAG_INTEGER);
            push_i32(*i, out);
            push_crlf(out);
            assert(out@ =~= old(out)@ + enc(value.model()));
        },
        RESPValue::BulkString(b) => {
            match b {
                BulkEnumerator::Value(p) => {
                    out.push(TAG_BULK);
                    push_digits(p.len() as u64, out);
                    push_crlf(out);
                    push_bytes(out, p.as_slice());
                    push_crlf(out);
                    assert(out@ =~= old(out)@ + enc(value.model()));
                },
                BulkEnumerator::Empty => {
                    out.push(TAG_BULK);
                    out.push(ZERO);
                    push_crlf(out);
                    push_crlf(out);
                    assert(out@ =~= old(out)@ + enc(value.model()));
                },
                BulkEnumerator::Null => {
                    out.push(TAG_BULK);
                    out.push(MINUS);
                    out.push(ZERO + 1);
                    push_crlf(out);
                    assert(out@ =~= old(out)@ + enc(value.model()));
                },
            }
        },
        RESPValue::Array(items) => {
            out.push(TAG_ARRAY);
            push_digits(items.len() as u64, out);
            push_crlf(out);
            let ghost base = out@;
            let mut i: usize = 0;
            while i < items.len()
                invariant
                    i <= items@.len(),
                    out@ == base + enc_all(models_of(items@.subrange(0, i as int))),
                decreases items@.len() - i,
            {
                assert(models_of(items@.subrange(0, i as int)).len() == i) by {
                    lemma_models_of(items@.subrange(0, i as int));
                }
                push_value(&items[i], out);
                proof {
                    let pre = items@.subrange(0, i as int);
                    let post = items@.subrange(0, i + 1);
                    assert(post.drop_last() =~= pre);
                    assert(models_of(post) == models_of(pre).push(items@[i as int].model()));
                    lemma_enc_all_push(models_of(pre), items@[i as int].model());
                    assert(base + enc_all(models_of(pre)) + enc(items@[i as int].model()) =~= base
                        + enc_all(models_of(post)));
                }
                i = i + 1;
            }
            proof {
                assert(items@.subrange(0, items@.len() as int) =~= items@);
                lemma_models_of(items@);
                assert(out@ =~= old(out)@ + enc(value.model()));
            }
        },
    }
}

/// Encodes one protocol value as its wire bytes, the total inverse of
/// decoding for values the wire can represent.
pub fn encode_resp_value(value: &RESPValue) -> (r: Vec<u8>)
    ensures
        r@ == enc(value.model()),
{
    let mut out: Vec<u8> = Vec::new();
    push_value(value, &mut out);
    proof {
        assert(out@ =~= enc(value.model()));
    }
    out
}

} // verus!
