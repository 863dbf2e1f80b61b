//! Decimal notation on byte sequences: what the encoder prints for a number
//! and what the decoder accepts as a length or integer line.
use vstd::prelude::*;

verus! {

pub const PLUS: u8 = 43;
pub const MINUS: u8 = 45;
pub const ZERO: u8 = 48;
pub const NINE: u8 = 57;

/// The decimal digit bytes of `n`, most significant first, with no sign and
/// no leading zero (`0` itself is the single byte `b'0'`).
pub open spec fn dec_digits(n: nat) -> Seq<u8>
    decreases n,
{
    if n < 10 {
        seq![(n + 48) as u8]
    } else {
        dec_digits(n / 10).push(((n % 10) + 48) as u8)
    }
}

/// The decimal bytes of a signed integer, a minus sign first when negative,
/// exactly as `format!("{}", n)` prints it.
pub open spec fn dec_int(n: int) -> Seq<u8> {
    if n < 0 {
        seq![MINUS] + dec_digits((-n) as nat)
    } else {
        dec_digits(n as nat)
    }
}

pub open spec fn is_digit(b: u8) -> bool {
    ZERO <= b <= NINE
}

pub open spec fn all_digits(s: Seq<u8>) -> bool {
    forall|i: int| 0 <= i < s.len() ==> is_digit(s[i])
}

/// The value of a run of digit bytes, read in base 10.
pub open spec fn digits_val(s: Seq<u8>) -> nat
    decreases s,
{
    if s.len() == 0 {
        0
    } else {
        digits_val(s.drop_last()) * 10 + (s.last() - 48) as nat
    }
}

/// The digit run of a numeric token, after one optional leading sign byte.
pub open spec fn num_body(s: Seq<u8>) -> Seq<u8> {
    if s.len() > 0 && (s[0] == PLUS || s[0] == MINUS) {
        s.drop_first()
    } else {
        s
    }
}

pub open spec fn num_is_neg(s: Seq<u8>) -> bool {
    s.len() > 0 && s[0] == MINUS
}

/// Whether `s` is accepted as an unsigned decimal no greater than `bound`:
/// an optional `+`, then one or more digits, no minus sign — the tokens
/// unsigned `from_str_radix` in base 10 accepts.
pub open spec fn parses_unsigned(s: Seq<u8>, bound: int) -> bool {
    &&& !num_is_neg(s)
    &&& num_body(s).len() > 0
    &&& all_digits(num_body(s))
    &&& digits_val(num_body(s)) <= bound
}

pub open spec fn unsigned_val(s: Seq<u8>) -> nat {
    digits_val(num_body(s))
}

/// The value of a signed decimal token (sign applied to its digit run).
pub open spec fn signed_val(s: Seq<u8>) -> int {
    if num_is_neg(s) {
        -(digits_val(num_body(s)) as int)
    } else {
        digits_val(num_body(s)) as int
    }
}

/// Whether `s` is accepted as a signed decimal within `lo ..= hi`: an
/// optional sign, then one or more digits — the tokens signed
/// `from_str_radix` in base 10 accepts for a type with that range.
pub open spec fn parses_signed(s: Seq<u8>, lo: int, hi: int) -> bool {
    &&& num_body(s).len() > 0
    &&& all_digits(num_body(s))
    &&& lo <= signed_val(s) <= hi
}

/// A digit run never gains value when cut to a prefix.
pub proof fn lemma_digits_val_prefix_le(s: Seq<u8>, k: int)
    requires
        0 <= k <= s.len(),
    ensures
        digits_val(s.subrange(0, k)) <= digits_val(s),
    decreases s.len(),
{
    if k < s.len() {
        lemma_digits_val_prefix_le(s.drop_last(), k);
        assert(s.subrange(0, k) =~= s.drop_last().subrange(0, k));
    } else {
        assert(s.subrange(0, k) =~= s);
    }
}

/// Extending a digit run by one digit multiplies its value by ten and adds
/// the new digit.
pub proof fn lemma_digits_val_step(s: Seq<u8>, k: int)
    requires
        0 <= k < s.len(),
    ensures
        digits_val(s.subrange(0, k + 1)) == digits_val(s.subrange(0, k)) * 10 + (s[k]
            - 48) as nat,
{
    assert(s.subrange(0, k + 1).drop_last() =~= s.subrange(0, k));
    assert(s.subrange(0, k + 1).last() == s[k]);
}

/// What the encoder prints for `n` is a nonempty run of digits.
pub proof fn lemma_dec_digits_are_digits(n: nat)
    ensures
        dec_digits(n).len() >= 1,
        all_digits(dec_digits(n)),
    decreases n,
{
    if n < 10 {
        assert(dec_digits(n) == seq![(n + 48) as u8]);
    } else {
        lemma_dec_digits_are_digits(n / 10);
        let s = dec_digits(n);
        assert forall|i: int| 0 <= i < s.len() implies is_digit(s[i]) by {
            if i < s.len() - 1 {
                assert(s[i] == dec_digits(n / 10)[i]);
            }
        }
    }
}

/// Reading the printed digits of `n` gives `n` back.
pub proof fn lemma_digits_val_dec_digits(n: nat)
    ensures
        digits_val(dec_digits(n)) == n,
    decreases n,
{
    if n < 10 {
        assert(digits_val(Seq::<u8>::empty()) == 0);
        assert(dec_digits(n).drop_last() =~= Seq::<u8>::empty());
        assert(dec_digits(n).last() == (n + 48) as u8);
        assert((n + 48) as u8 == n + 48);
    } else {
        lemma_digits_val_dec_digits(n / 10);
        assert(dec_digits(n).drop_last() =~= dec_digits(n / 10));
        assert(dec_digits(n).last() == ((n % 10) + 48) as u8);
        assert(((n % 10) + 48) as u8 == (n % 10) + 48);
        assert(digits_val(dec_digits(n)) == (n / 10) * 10 + n % 10);
        assert(n == (n / 10) * 10 + n % 10);
    }
}

/// Reading the printed form of a signed integer gives it back.
pub proof fn lemma_signed_val_dec_int(i: int)
    ensures
        num_body(dec_int(i)).len() >= 1,
        all_digits(num_body(dec_int(i))),
        signed_val(dec_int(i)) == i,
{
    if i < 0 {
        lemma_dec_digits_are_digits((-i) as nat);
        lemma_digits_val_dec_digits((-i) as nat);
        assert(num_body(dec_int(i)) =~= dec_digits((-i) as nat));
    } else {
        lemma_dec_digits_are_digits(i as nat);
        lemma_digits_val_dec_digits(i as nat);
        assert(dec_int(i)[0] != PLUS && dec_int(i)[0] != MINUS) by {
            assert(is_digit(dec_digits(i as nat)[0]));
        }
        assert(num_body(dec_int(i)) == dec_int(i));
    }
}

/// Reading the printed digits of `n` as an unsigned token gives `n` back.
pub proof fn lemma_unsigned_val_dec_digits(n: nat)
    ensures
        parses_unsigned(dec_digits(n), n as int),
        unsigned_val(dec_digits(n)) == n,
{
    lemma_dec_digits_are_digits(n);
    lemma_digits_val_dec_digits(n);
    assert(dec_digits(n)[0] != PLUS && dec_digits(n)[0] != MINUS) by {
        assert(is_digit(dec_digits(n)[0]));
    }
    assert(num_body(dec_digits(n)) == dec_digits(n));
}

/// Parses the digit run `s[start..end]` as an unsigned decimal, failing
/// exactly when it is empty, holds a non-digit, or exceeds `bound`.
pub fn parse_digit_run(s: &[u8], start: usize, end: usize, bound: u128) -> (r: Option<u128>)
    requires
        start <= end <= s@.len(),
    ensures
        ({
            let seg = s@.subrange(start as int, end as int);
            match r {
                Some(v) => seg.len() > 0 && all_digits(seg) && v == digits_val(seg) && v <= bound,
                None => !(seg.len() > 0 && all_digits(seg) && digits_val(seg) <= bound),
            }
        }),
{
    let ghost seg = s@.subrange(start as int, end as int);
    if start == end {
        return None;
    }
    let mut acc: u128 = 0;
    let mut i: usize = start;
    while i < end
        invariant
            start <= i <= end <= s@.len(),
            seg == s@.subrange(start as int, end as int),
            all_digits(seg.subrange(0, i - start)),
            acc == digits_val(seg.subrange(0, i - start)),
            acc <= bound,
        decreases end - i,
    {
        let b = s[i];
        proof {
            assert(seg[i - start] == s@[i as int]);
        }
        if b < ZERO || b > NINE {
            proof {
                assert(!is_digit(seg[i - start]));
            }
            return None;
        }
        let d = (b - ZERO) as u128;
        proof {
            lemma_digits_val_step(seg, i - start);
        }
        if acc > bound / 10 || d > bound || acc * 10 > bound - d {
            proof {
                let k = i - start;
                assert(digits_val(seg.subrange(0, k + 1)) > bound) by {
                    if acc > bound / 10 {
                        assert(bound == 10 * (bound / 10) + bound % 10);
                        assert(acc * 10 >= (bound / 10 + 1) * 10) by (nonlinear_arith)
                            requires acc >= bound / 10 + 1;
                    }
                }
                if all_digits(seg) {
                    lemma_digits_val_prefix_le(seg, k + 1);
                }
            }
            return None;
        }
        acc = acc * 10 + d;
        i = i + 1;
        proof {
            assert(all_digits(seg.subrange(0, i - start))) by {
                assert forall|j: int| 0 <= j < i - start implies is_digit(
                    #[trigger] seg.subrange(0, i as int - start as int)[j],
                ) by {
                    assert(seg.subrange(0, i as int - start as int)[j] == seg[j]);
                }
            }
        }
    }
    proof {
        assert(seg.subrange(0, end - start) =~= seg);
    }
    Some(acc)
}

/// Parses `s[start..end]` as unsigned `from_str_radix` does in base 10:
/// an optional `+`, then digits, the value at most `bound`.
pub fn parse_unsigned(s: &[u8], start: usize, end: usize, bound: u128) -> (r: Option<u128>)
    requires
        start <= end <= s@.len(),
    ensures
        ({
            let seg = s@.subrange(start as int, end as int);
            match r {
                Some(v) => parses_unsigned(seg, bound as int) && v == unsigned_val(seg),
                None => !parses_unsigned(seg, bound as int),
            }
        }),
{
    let ghost seg = s@.subrange(start as int, end as int);
    if start < end && (s[start] == PLUS || s[start] == MINUS) {
        proof {
            assert(seg[0] == s@[start as int]);
        }
        if s[start] == MINUS {
            return None;
        }
        let r = parse_digit_run(s, start + 1, end, bound);
        proof {
            assert(num_body(seg) =~= s@.subrange(start + 1, end as int));
        }
        r
    } else {
        let r = parse_digit_run(s, start, end, bound);
        proof {
            if seg.len() > 0 {
                assert(seg[0] == s@[start as int]);
            }
            assert(num_body(seg) =~= seg);
        }
        r
    }
}

/// Parses `s[start..end]` as `i32::from_str_radix` does in base 10: an
/// optional sign, then digits, the value within `i32` range.
pub fn parse_i32(s: &[u8], start: usize, end: usize) -> (r: Option<i32>)
    requires
        start <= end <= s@.len(),
    ensures
        ({
            let seg = s@.subrange(start as int, end as int);
            match r {
                Some(v) => parses_signed(seg, i32::MIN as int, i32::MAX as int) && v
                    == signed_val(seg),
                None => !parses_signed(seg, i32::MIN as int, i32::MAX as int),
            }
        }),
{
    let ghost seg = s@.subrange(start as int, end as int);
    let mut neg = false;
    let mut run_start = start;
    if start < end && (s[start] == PLUS || s[start] == MINUS) {
        proof {
            assert(seg[0] == s@[start as int]);
        }
        neg = s[start] == MINUS;
        run_start = start + 1;
    }
    proof {
        assert(num_body(seg) =~= s@.subrange(run_start as int, end as int));
        assert(neg == num_is_neg(seg));
    }
    let bound: u128 = if neg {
        2147483648
    } else {
        2147483647
    };
    match parse_digit_run(s, run_start, end, bound) {
        Some(v) => {
            if neg {
                let out: i64 = -(v as i64);
                Some(out as i32)
            } else {
                Some(v as i32)
            }
        },
        None => None,
    }
}

/// Appends the decimal digits of `n` to `out`.
pub fn push_digits(n: u64, out: &mut Vec<u8>)
    ensures
        final(out)@ == old(out)@ + dec_digits(n as nat),
    decreases n,
{
    if n < 10 {
        out.push((n as u8) + 48);
        assert(out@ =~= old(out)@ + dec_digits(n as nat));
    } else {
        push_digits(n / 10, out);
        out.push(((n % 10) as u8) + 48);
        assert(out@ =~= old(out)@ + dec_digits(n as nat));
    }
}

/// Appends the decimal form of a signed 32-bit integer to `out`.
pub fn push_i32(n: i32, out: &mut Vec<u8>)
    ensures
        final(out)@ == old(out)@ + dec_int(n as int),
{
    if n < 0 {
        out.push(MINUS);
        let mag: u64 = (-(n as i64)) as u64;
        push_digits(mag, out);
        assert(out@ =~= old(out)@ + dec_int(n as int));
    } else {
        push_digits(n as u64, out);
    }
}

} // verus!
