//! The RESP decoder: `spec_decode` says which value and how many bytes a
//! byte sequence decodes to (or which error it raises), and `get_resp_value`
//! computes exactly that.
use vstd::prelude::*;

use crate::digits::{
    parse_i32, parse_unsigned, parses_signed, parses_unsigned, signed_val, unsigned_val,
};
use crate::resp::{
    models_of, BulkEnumerator, BulkModel, RESPValue, ValueModel, CR, LF, TAG_ARRAY, TAG_BULK,
    TAG_ERROR, TAG_INTEGER, TAG_SIMPLE,
};

verus! {

/// Deeper array nesting than this is rejected rather than decoded, so a
/// hostile frame cannot exhaust the stack.
pub const RECURSION_LIMIT: usize = 64;

/// Why a buffer failed to decode.
#[derive(Clone, Copy, Debug, PartialEq, Eq, Structural)]
pub enum DecodeError {
    /// The buffer ends before the value does: a missing tag byte, or a bulk
    /// payload shorter than its declared length.
    Truncated,
    /// A length or integer line is not a decimal number in range.
    BadNumber,
    /// A bulk payload is not followed by CR LF.
    MissingCrlf,
    /// Arrays nest more than `RECURSION_LIMIT` deep.
    TooDeep,
}

/// The index of the first CR LF pair in `s`, if any.
pub open spec fn first_crlf(s: Seq<u8>) -> Option<int>
    decreases s,
{
    if s.len() < 2 {
        None
    } else if s[0] == CR && s[1] == LF {
        Some(0)
    } else {
        match first_crlf(s.drop_first()) {
            Some(i) => Some(i + 1),
            None => None,
        }
    }
}

/// The bytes of `s` before its first CR LF delimiter, or all of `s` when it
/// has none.
pub open spec fn line_of(s: Seq<u8>) -> Seq<u8> {
    match first_crlf(s) {
        Some(i) => s.subrange(0, i),
        None => s,
    }
}

/// How many bytes reading one line consumes: through the delimiter when
/// there is one, to the end when there is none.
pub open spec fn line_next(s: Seq<u8>) -> int {
    match first_crlf(s) {
        Some(i) => i + 2,
        None => s.len() as int,
    }
}

/// `first_crlf` finds a CR LF pair, and the first one.
pub proof fn lemma_first_crlf(s: Seq<u8>)
    ensures
        match first_crlf(s) {
            Some(i) => 0 <= i && i + 2 <= s.len() && s[i] == CR && s[i + 1] == LF && forall|j: int|
                0 <= j < i ==> !(#[trigger] s[j] == CR && s[j + 1] == LF),
            None => forall|j: int|
                0 <= j && j + 2 <= s.len() ==> !(#[trigger] s[j] == CR && s[j + 1] == LF),
        },
    decreases s,
{
    if s.len() < 2 {
    } else if s[0] == CR && s[1] == LF {
    } else {
        lemma_first_crlf(s.drop_first());
        let t = s.drop_first();
        match first_crlf(t) {
            Some(i) => {
                assert forall|j: int| 0 <= j < i + 1 implies !(#[trigger] s[j] == CR && s[j + 1]
                    == LF) by {
                    if j > 0 {
                        assert(t[j - 1] == s[j] && t[j] == s[j + 1]);
                    }
                }
            },
            None => {
                assert forall|j: int| 0 <= j && j + 2 <= s.len() implies !(#[trigger] s[j] == CR
                    && s[j + 1] == LF) by {
                    if j > 0 {
                        assert(t[j - 1] == s[j] && t[j] == s[j + 1]);
                    }
                }
            },
        }
    }
}

/// Reading a line stays within the buffer.
pub proof fn lemma_line_next_bounds(s: Seq<u8>)
    ensures
        0 <= line_next(s) <= s.len(),
        line_of(s).len() <= line_next(s),
{
    lemma_first_crlf(s);
}

/// What one RESP value at the head of `s` decodes to, and how many bytes it
/// occupies, reading at most `depth` levels of array nesting.
pub open spec fn spec_decode(s: Seq<u8>, depth: nat) -> Result<(ValueModel, int), DecodeError>
    decreases depth, 0nat, 0nat,
{
    if s.len() == 0 {
        Err(DecodeError::Truncated)
    } else {
        let tag = s[0];
        let rest = s.drop_first();
        let line = line_of(rest);
        let p = line_next(rest);
        if tag == TAG_SIMPLE {
            Ok((ValueModel::Simple(line), 1 + p))
        } else if tag == TAG_ERROR {
            Ok((ValueModel::Error(line), 1 + p))
        } else if tag == TAG_INTEGER {
            if parses_signed(line, i32::MIN as int, i32::MAX as int) {
                Ok((ValueModel::Integer(signed_val(line)), 1 + p))
            } else {
                Err(DecodeError::BadNumber)
            }
        } else if tag == TAG_BULK {
            if !parses_signed(line, i32::MIN as int, i32::MAX as int) {
                Err(DecodeError::BadNumber)
            } else {
                let n = signed_val(line);
                if n < 0 {
                    Ok((ValueModel::Bulk(BulkModel::Null), 1 + p))
                } else if rest.len() < p + n {
                    Err(DecodeError::Truncated)
                } else if rest.len() < p + n + 2 || rest[p + n] != CR || rest[p + n + 1] != LF {
                    Err(DecodeError::MissingCrlf)
                } else if n == 0 {
                    Ok((ValueModel::Bulk(BulkModel::Empty), 1 + p + 2))
                } else {
                    Ok(
                        (
                            ValueModel::Bulk(BulkModel::Present(rest.subrange(p, p + n))),
                            1 + p + n + 2,
                        ),
                    )
                }
            }
        } else if tag == TAG_ARRAY {
            if !parses_unsigned(line, usize::MAX as int) {
                Err(DecodeError::BadNumber)
            } else if depth == 0 {
                Err(DecodeError::TooDeep)
            } else {
                match spec_decode_elems(rest.skip(p), unsigned_val(line), (depth - 1) as nat) {
                    Ok(r) => Ok((ValueModel::Array(r.0), 1 + p + r.1)),
                    Err(e) => Err(e),
                }
            }
        } else {
            // An unrecognized tag is read leniently as a protocol-level null,
            // discarding the rest of its line.
            Ok((ValueModel::Null, 1 + p))
        }
    }
}

/// What `count` consecutive values at the head of `s` decode to.
pub open spec fn spec_decode_elems(s: Seq<u8>, count: nat, depth: nat) -> Result<
    (Seq<ValueModel>, int),
    DecodeError,
>
    decreases depth, 1nat, count,
{
    if count == 0 {
        Ok((Seq::empty(), 0))
    } else {
        match spec_decode(s, depth) {
            Ok(r) => match spec_decode_elems(s.skip(r.1), (count - 1) as nat, depth) {
                Ok(r2) => Ok((seq![r.0] + r2.0, r.1 + r2.1)),
                Err(e) => Err(e),
            },
            Err(e) => Err(e),
        }
    }
}

/// Finds the first CR LF pair at or after `start`.
fn find_crlf(input: &[u8], start: usize) -> (r: Option<usize>)
    requires
        start <= input@.len(),
    ensures
        ({
            let t = input@.skip(start as int);
            match r {
                Some(i) => start <= i && i + 2 <= input@.len() && first_crlf(t) == Some(
                    i - start as int,
                ),
                None => first_crlf(t) is None,
            }
        }),
{
    let ghost t = input@.skip(start as int);
    proof {
        lemma_first_crlf(t);
    }
    let n = input.len();
    if n < 2 {
        return None;
    }
    let mut i: usize = start;
    while i < n - 1
        invariant
            start <= i <= input@.len(),
            n == input@.len(),
            n >= 2,
            t == input@.skip(start as int),
            forall|j: int| 0 <= j < i - start ==> !(#[trigger] t[j] == CR && t[j + 1] == LF),
        decreases n - i,
    {
        proof {
            assert(t[i - start] == input@[i as int]);
            assert(t[i + 1 - start] == input@[i + 1]);
        }
        if input[i] == CR && input[i + 1] == LF {
            proof {
                lemma_first_crlf(t);
                match first_crlf(t) {
                    Some(k) => {
                        if k < i - start {
                            assert(!(t[k] == CR && t[k + 1] == LF));
                        } else if k > i - start {
                            assert(!(t[i - start] == CR && t[i - start + 1] == LF));
                        }
                    },
                    None => {
                        assert(!(t[i - start] == CR && t[i - start + 1] == LF));
                    },
                }
            }
            return Some(i);
        }
        i = i + 1;
    }
    proof {
        lemma_first_crlf(t);
        match first_crlf(t) {
            Some(k) => {
                assert(!(t[k] == CR && t[k + 1] == LF));
            },
            None => {},
        }
    }
    None
}

/// Scans one line: returns the index just past its content and the index of
/// what follows the delimiter (both the buffer's end when there is none).
fn line_bounds(input: &[u8], start: usize) -> (r: (usize, usize))
    requires
        start <= input@.len(),
    ensures
        ({
            let t = input@.skip(start as int);
            &&& start <= r.0 <= r.1 <= input@.len()
            &&& input@.subrange(start as int, r.0 as int) == line_of(t)
            &&& r.1 - start == line_next(t)
        }),
{
    let ghost t = input@.skip(start as int);
    proof {
        lemma_first_crlf(t);
    }
    let n = input.len();
    match find_crlf(input, start) {
        Some(i) => {
            proof {
                assert(i + 2 <= n);
                assert(input@.subrange(start as int, i as int) =~= t.subrange(
                    0,
                    i - start as int,
                ));
            }
            (i, i + 2)
        },
        None => {
            proof {
                assert(input@.subrange(start as int, input@.len() as int) =~= t);
            }
            (input.len(), input.len())
        },
    }
}

/// Decodes the RESP value beginning at `pos`, reading at most `depth` levels
/// of array nesting.
#[verifier::loop_isolation(false)]
fn decode_value(input: &[u8], pos: usize, depth: usize) -> (r: Result<
    (RESPValue, usize),
    DecodeError,
>)
    requires
        pos <= input@.len(),
    ensures
        ({
            let res = spec_decode(input@.skip(pos as int), depth as nat);
            match r {
                Ok(p) => res == Ok::<(ValueModel, int), DecodeError>((p.0.model(), p.1 - pos))
                    && pos < p.1 <= input@.len(),
                Err(e) => res == Err::<(ValueModel, int), DecodeError>(e),
            }
        }),
    decreases depth, 0int,
{
    let ghost s = input@.skip(pos as int);
    let n = input.len();
    if pos == n {
        return Err(DecodeError::Truncated);
    }
    let tag = input[pos];
    proof {
        assert(s[0] == input@[pos as int]);
        assert(s.drop_first() =~= input@.skip(pos + 1));
        lemma_line_next_bounds(input@.skip(pos + 1));
    }
    let ghost rest = s.drop_first();
    let (line_end, nxt) = line_bounds(input, pos + 1);
    let ghost line = line_of(rest);
    let ghost p = line_next(rest);
    if tag == TAG_SIMPLE {
        let payload = vstd::slice::slice_to_vec(
            vstd::slice::slice_subrange(input, pos + 1, line_end),
        );
        Ok((RESPValue::SimpleString(payload), nxt))
    } else if tag == TAG_ERROR {
        let payload = vstd::slice::slice_to_vec(
            vstd::slice::slice_subrange(input, pos + 1, line_end),
        );
        Ok((RESPValue::Error(payload), nxt))
    } else if tag == TAG_INTEGER {
        match parse_i32(input, pos + 1, line_end) {
            Some(x) => Ok((RESPValue::Integer(x), nxt)),
            None => Err(DecodeError::BadNumber),
        }
    } else if tag == TAG_BULK {
        match parse_i32(input, pos + 1, line_end) {
            None => Err(DecodeError::BadNumber),
            Some(x) => {
                if x < 0 {
                    Ok((RESPValue::BulkString(BulkEnumerator::Null), nxt))
                } else {
                    let len = x as usize;
                    if len > n - nxt {
                        Err(DecodeError::Truncated)
                    } else {
                        let pay_end = nxt + len;
                        proof {
                            assert(rest.len() == n - (pos + 1));
                            if pay_end < n {
                                assert(rest[p + len] == input@[pay_end as int]);
                            }
                            if pay_end + 1 < n {
                                assert(rest[p + len + 1] == input@[pay_end + 1]);
                            }
                        }
                        if n - pay_end < 2 || input[pay_end] != CR || input[pay_end + 1] != LF {
                            Err(DecodeError::MissingCrlf)
                        } else if len == 0 {
                            Ok((RESPValue::BulkString(BulkEnumerator::Empty), pay_end + 2))
                        } else {
                            let payload = vstd::slice::slice_to_vec(
                                vstd::slice::slice_subrange(input, nxt, pay_end),
                            );
                            proof {
                                assert(input@.subrange(nxt as int, pay_end as int) =~= rest
                                    .subrange(p, p + len));
                            }
                            Ok((RESPValue::BulkString(BulkEnumerator::Value(payload)), pay_end + 2))
                        }
                    }
                }
            },
        }
    } else if tag == TAG_ARRAY {
        match parse_unsigned(input, pos + 1, line_end, usize::MAX as u128) {
            None => Err(DecodeError::BadNumber),
            Some(c) => {
                if depth == 0 {
                    Err(DecodeError::TooDeep)
                } else {
                    let count = c as usize;
                    proof {
                        assert(count == unsigned_val(line));
                        assert(rest.skip(p) =~= input@.skip(nxt as int));
                    }
                    match decode_elems(input, nxt, count, depth - 1) {
                        Ok(arr) => Ok((RESPValue::Array(arr.0), arr.1)),
                        Err(e) => Err(e),
                    }
                }
            },
        }
    } else {
        Ok((RESPValue::NULL, nxt))
    }
}

/// Decodes `count` consecutive RESP values beginning at `start`.
#[verifier::loop_isolation(false)]
fn decode_elems(input: &[u8], start: usize, count: usize, depth: usize) -> (r: Result<
    (Vec<RESPValue>, usize),
    DecodeError,
>)
    requires
        start <= input@.len(),
    ensures
        ({
            let res = spec_decode_elems(input@.skip(start as int), count as nat, depth as nat);
            match r {
                Ok(p) => res == Ok::<(Seq<ValueModel>, int), DecodeError>(
                    (models_of(p.0@), p.1 - start),
                ) && start <= p.1 <= input@.len(),
                Err(e) => res == Err::<(Seq<ValueModel>, int), DecodeError>(e),
            }
        }),
    decreases depth, 1int,
{
    let n = input.len();
    let ghost base = input@.skip(start as int);
    let mut items: Vec<RESPValue> = Vec::new();
    let mut cur: usize = start;
    let mut j: usize = 0;
    proof {
        match spec_decode_elems(base, count as nat, depth as nat) {
            Ok(q) => {
                assert(models_of(items@) + q.0 =~= q.0);
            },
            Err(e) => {},
        }
    }
    while j < count
        invariant
            start <= cur <= n,
            j <= count,
            items@.len() == j,
            ({
                let whole = spec_decode_elems(base, count as nat, depth as nat);
                let remaining = spec_decode_elems(
                    input@.skip(cur as int),
                    (count - j) as nat,
                    depth as nat,
                );
                match remaining {
                    Ok(q) => whole == Ok::<(Seq<ValueModel>, int), DecodeError>(
                        (models_of(items@) + q.0, cur - start + q.1),
                    ),
                    Err(e) => whole == Err::<(Seq<ValueModel>, int), DecodeError>(e),
                }
            }),
        decreases count - j,
    {
        match decode_value(input, cur, depth) {
            Ok(elem) => {
                let (v, end) = elem;
                proof {
                    let tail = input@.skip(cur as int).skip(end - cur);
                    assert(tail =~= input@.skip(end as int));
                    let remaining2 = spec_decode_elems(
                        input@.skip(end as int),
                        (count - j - 1) as nat,
                        depth as nat,
                    );
                    assert(items@.push(v).drop_last() =~= items@);
                    assert(models_of(items@.push(v)) == models_of(items@).push(v.model()));
                    match remaining2 {
                        Ok(q2) => {
                            assert(models_of(items@) + (seq![v.model()] + q2.0) =~= models_of(
                                items@.push(v),
                            ) + q2.0);
                        },
                        Err(e) => {},
                    }
                }
                items.push(v);
                cur = end;
                j = j + 1;
            },
            Err(e) => {
                return Err(e);
            },
        }
    }
    proof {
        assert(spec_decode_elems(input@.skip(cur as int), 0, depth as nat) == Ok::<
            (Seq<ValueModel>, int),
            DecodeError,
        >((Seq::empty(), 0)));
        match spec_decode_elems(base, count as nat, depth as nat) {
            Ok(q) => {
                assert(models_of(items@) + Seq::<ValueModel>::empty() =~= models_of(items@));
            },
            Err(e) => {},
        }
    }
    Ok((items, cur))
}

/// Decodes one protocol value from the head of `input`, returning it with
/// the count of bytes it occupied.
pub fn get_resp_value(input: &[u8]) -> (r: Result<(RESPValue, usize), DecodeError>)
    ensures
        ({
            let res = spec_decode(input@, RECURSION_LIMIT as nat);
            match r {
                Ok(p) => res == Ok::<(ValueModel, int), DecodeError>((p.0.model(), p.1 as int))
                    && 0 < p.1 <= input@.len(),
                Err(e) => res == Err::<(ValueModel, int), DecodeError>(e),
            }
        }),
{
    proof {
        assert(input@.skip(0) =~= input@);
    }
    decode_value(input, 0, RECURSION_LIMIT)
}

/// Reads one line from `input` at `start`: the bytes before the first CR LF
/// (or all remaining bytes when there is none), and the position just past
/// the delimiter.
pub fn read_line(input: &[u8], start: usize) -> (r: (Vec<u8>, usize))
    requires
        start <= input@.len(),
    ensures
        r.0@ == line_of(input@.skip(start as int)),
        r.1 - start == line_next(input@.skip(start as int)),
        start <= r.1 <= input@.len(),
{
    let (line_end, next) = line_bounds(input, start);
    let line = vstd::slice::slice_to_vec(vstd::slice::slice_subrange(input, start, line_end));
    (line, next)
}

} // verus!
