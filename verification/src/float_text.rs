//! The textual grammar of floating-point atoms.
//!
//! A `,`-prefixed atom carries the ASCII decimal text of a double.  The
//! library keeps that text verbatim in the value, so encoding is
//! byte-exact; what it checks at decode time is that the text lies in the
//! grammar that Rust's `f64` parser accepts: an optional sign, then
//! `inf`, `infinity` or `nan` (case-insensitive), or a decimal number
//! with optional fraction and exponent.

use vstd::prelude::*;
use crate::number::is_digit;
use crate::number::all_digits;
use crate::number::digits_val;
use crate::number::pow10;
use crate::number::sat_i64;
use crate::number::lemma_digits_val_prefix;
use crate::number::lemma_digits_val_zero;
use crate::number::lemma_pow10_mono;
use crate::number::lemma_pow10_19;

verus! {

/// ASCII lower-casing of one byte.
pub open spec fn lower(b: u8) -> u8 {
    if 65 <= b <= 90 {
        (b + 32) as u8
    } else {
        b
    }
}

/// The first position at or after `i` that does not hold a digit.
pub open spec fn span_digits(s: Seq<u8>, i: int) -> int
    decreases s.len() - i,
{
    if i < s.len() && is_digit(s[i]) {
        span_digits(s, i + 1)
    } else {
        i
    }
}

/// Everything from `i` to the span's end is a digit; the byte at the end,
/// if any, is not.
pub proof fn lemma_span_digits(s: Seq<u8>, i: int)
    requires
        0 <= i <= s.len(),
    ensures
        i <= span_digits(s, i) <= s.len(),
        forall|k: int| i <= k < span_digits(s, i) ==> is_digit(#[trigger] s[k]),
        span_digits(s, i) < s.len() ==> !is_digit(s[span_digits(s, i)]),
    decreases s.len() - i,
{
    if i < s.len() && is_digit(s[i]) {
        lemma_span_digits(s, i + 1);
    }
}

/// True when an exponent part (`e` or `E`, an optional sign, then at
/// least one digit) fills `s` from position `k` to the end.
pub open spec fn is_exp_at(s: Seq<u8>, k: int) -> bool {
    &&& 0 <= k < s.len()
    &&& (s[k] == 101 || s[k] == 69)
    &&& {
        let m = if k + 1 < s.len() && (s[k + 1] == 43 || s[k + 1] == 45) {
            k + 2
        } else {
            k + 1
        };
        m < s.len() && span_digits(s, m) == s.len()
    }
}

/// True when `t` is a decimal number: digits, an optional `.` with
/// digits on at least one side, and an optional exponent.
pub open spec fn is_number_body(t: Seq<u8>) -> bool {
    let i = span_digits(t, 0);
    if i == t.len() {
        i > 0
    } else if t[i] == 46 {
        let j = span_digits(t, i + 1);
        (i > 0 || j > i + 1) && (j == t.len() || is_exp_at(t, j))
    } else {
        i > 0 && is_exp_at(t, i)
    }
}

/// True when `t` reads `inf`, `infinity` or `nan`, in any letter case.
pub open spec fn is_special_body(t: Seq<u8>) -> bool {
    ||| (t.len() == 3 && lower(t[0]) == 105 && lower(t[1]) == 110 && lower(t[2]) == 102)
    ||| (t.len() == 8 && lower(t[0]) == 105 && lower(t[1]) == 110 && lower(t[2]) == 102
        && lower(t[3]) == 105 && lower(t[4]) == 110 && lower(t[5]) == 105 && lower(t[6]) == 116
        && lower(t[7]) == 121)
    ||| (t.len() == 3 && lower(t[0]) == 110 && lower(t[1]) == 97 && lower(t[2]) == 110)
}

/// True when `s` is a well-formed floating-point atom.
pub open spec fn is_float_text(s: Seq<u8>) -> bool {
    let t = if s.len() > 0 && (s[0] == 43 || s[0] == 45) {
        s.skip(1)
    } else {
        s
    };
    is_special_body(t) || is_number_body(t)
}

/// A floating-point atom never contains CR or LF, so it always fits on
/// one line of the wire format.
pub proof fn lemma_float_text_no_crlf(s: Seq<u8>)
    requires
        is_float_text(s),
    ensures
        forall|i: int| 0 <= i < s.len() ==> s[i] != 13 && s[i] != 10,
{
    let t = if s.len() > 0 && (s[0] == 43 || s[0] == 45) {
        s.skip(1)
    } else {
        s
    };
    assert forall|i: int| 0 <= i < t.len() implies t[i] != 13 && t[i] != 10 by {
        if is_special_body(t) {
            assert(lower(t[i]) == 105 || lower(t[i]) == 110 || lower(t[i]) == 102
                || lower(t[i]) == 116 || lower(t[i]) == 121 || lower(t[i]) == 97);
        } else {
            let p = span_digits(t, 0);
            lemma_span_digits(t, 0);
            if i < p {
                assert(is_digit(t[i]));
            } else if p < t.len() && t[p] == 46 {
                let j = span_digits(t, p + 1);
                lemma_span_digits(t, p + 1);
                if i > p && i < j {
                    assert(is_digit(t[i]));
                } else if i >= j && j < t.len() {
                    lemma_exp_at_no_crlf(t, j, i);
                }
            } else if i >= p {
                lemma_exp_at_no_crlf(t, p, i);
            }
        }
    }
    assert forall|i: int| 0 <= i < s.len() implies s[i] != 13 && s[i] != 10 by {
        if s.len() > 0 && (s[0] == 43 || s[0] == 45) {
            if i > 0 {
                assert(t[i - 1] == s[i]);
            }
        } else {
            assert(t[i] == s[i]);
        }
    }
}

/// Helper for the lemma above: bytes of an exponent part are `e`, `E`,
/// a sign, or digits.
proof fn lemma_exp_at_no_crlf(t: Seq<u8>, k: int, i: int)
    requires
        is_exp_at(t, k),
        k <= i < t.len(),
    ensures
        t[i] != 13 && t[i] != 10,
{
    let m = if k + 1 < t.len() && (t[k + 1] == 43 || t[k + 1] == 45) {
        k + 2
    } else {
        k + 1
    };
    lemma_span_digits(t, m);
    if i >= m {
        assert(is_digit(t[i]));
    }
}

/// ASCII lower-casing of one byte.
pub fn lower_byte(b: u8) -> (r: u8)
    ensures
        r == lower(b),
{
    if 65 <= b && b <= 90 {
        b + 32
    } else {
        b
    }
}

/// The first position at or after `i` that does not hold a digit.
pub fn span_digits_from(s: &[u8], i: usize) -> (r: usize)
    requires
        i <= s@.len(),
    ensures
        r == span_digits(s@, i as int),
        i <= r <= s@.len(),
{
    proof {
        lemma_span_digits(s@, i as int);
    }
    let mut k: usize = i;
    while k < s.len() && 48 <= s[k] && s[k] <= 57
        invariant
            i <= k <= s@.len(),
            span_digits(s@, i as int) == span_digits(s@, k as int),
        decreases s@.len() - k,
    {
        k = k + 1;
    }
    proof {
        lemma_span_digits(s@, k as int);
    }
    k
}

/// Decides membership in the floating-point grammar.
pub fn is_float_bytes(s: &[u8]) -> (r: bool)
    ensures
        r == is_float_text(s@),
{
    let start: usize = if s.len() > 0 && (s[0] == 43 || s[0] == 45) {
        1
    } else {
        0
    };
    let ghost t = if s@.len() > 0 && (s@[0] == 43 || s@[0] == 45) { s@.skip(1) } else { s@ };
    proof {
        assert(t =~= s@.skip(start as int));
    }
    if is_special_bytes(s, start) {
        return true;
    }
    // Decimal number: digits, optional fraction, optional exponent.
    let ghost gstart = start;
    let i = span_digits_from(s, start);
    proof {
        lemma_span_shift(s@, start as int);
    }
    if i == s.len() {
        return i > start;
    }
    if s[i] == 46 {
        let j = span_digits_from(s, i + 1);
        proof {
            lemma_span_shift(s@, start as int);
        }
        if !(i > start || j > i + 1) {
            return false;
        }
        if j == s.len() {
            return true;
        }
        return is_exp_bytes(s, j, start);
    }
    if i == start {
        return false;
    }
    is_exp_bytes(s, i, start)
}

/// Digit spans in the suffix `s.skip(start)` line up with digit spans in
/// `s` itself, shifted by `start`.
proof fn lemma_span_shift(s: Seq<u8>, start: int)
    requires
        0 <= start <= s.len(),
    ensures
        forall|k: int|
            start <= k <= s.len() ==> span_digits(s.skip(start), k - start) == #[trigger] span_digits(
                s,
                k,
            ) - start,
{
    assert forall|k: int|
        start <= k <= s.len() implies span_digits(s.skip(start), k - start) == #[trigger] span_digits(
        s,
        k,
    ) - start by {
        lemma_span_shift_one(s, start, k);
    }
}

proof fn lemma_span_shift_one(s: Seq<u8>, start: int, k: int)
    requires
        0 <= start <= k <= s.len(),
    ensures
        span_digits(s.skip(start), k - start) == span_digits(s, k) - start,
    decreases s.len() - k,
{
    if k < s.len() && is_digit(s[k]) {
        lemma_span_shift_one(s, start, k + 1);
    }
}

/// Decides whether the suffix of `s` at `start` reads `inf`, `infinity`
/// or `nan`, in any letter case.
fn is_special_bytes(s: &[u8], start: usize) -> (r: bool)
    requires
        start <= s@.len(),
    ensures
        r == is_special_body(s@.skip(start as int)),
{
    let ghost t = s@.skip(start as int);
    let n = s.len() - start;
    if n == 3 {
        let a = lower_byte(s[start]);
        let b = lower_byte(s[start + 1]);
        let c = lower_byte(s[start + 2]);
        (a == 105 && b == 110 && c == 102) || (a == 110 && b == 97 && c == 110)
    } else if n == 8 {
        let r = lower_byte(s[start]) == 105 && lower_byte(s[start + 1]) == 110
            && lower_byte(s[start + 2]) == 102 && lower_byte(s[start + 3]) == 105
            && lower_byte(s[start + 4]) == 110 && lower_byte(s[start + 5]) == 105
            && lower_byte(s[start + 6]) == 116 && lower_byte(s[start + 7]) == 121;
        r
    } else {
        false
    }
}

/// Decides whether an exponent part fills `s` from `k` to the end, in
/// terms of the suffix at `start` that the grammar is judged on.
fn is_exp_bytes(s: &[u8], k: usize, start: usize) -> (r: bool)
    requires
        start <= k < s@.len(),
    ensures
        r == is_exp_at(s@.skip(start as int), k - start),
{
    let ghost t = s@.skip(start as int);
    if !(s[k] == 101 || s[k] == 69) {
        return false;
    }
    let m: usize = if k + 1 < s.len() && (s[k + 1] == 43 || s[k + 1] == 45) {
        k + 2
    } else {
        k + 1
    };
    if m >= s.len() {
        return false;
    }
    let e = span_digits_from(s, m);
    proof {
        lemma_span_shift(s@, start as int);
    }
    e == s.len()
}


/// The signed value of the exponent part starting at `k`.
pub open spec fn exp_val_at(t: Seq<u8>, k: int) -> int
    recommends
        is_exp_at(t, k),
{
    let neg = k + 1 < t.len() && t[k + 1] == 45;
    let m = if k + 1 < t.len() && (t[k + 1] == 43 || t[k + 1] == 45) {
        k + 2
    } else {
        k + 1
    };
    let v = digits_val(t.subrange(m, t.len() as int)) as int;
    if neg {
        -v
    } else {
        v
    }
}

/// The digits of the mantissa with the decimal point removed.
pub open spec fn mantissa_of(t: Seq<u8>) -> Seq<u8> {
    let i = span_digits(t, 0);
    if i < t.len() && t[i] == 46 {
        t.take(i) + t.subrange(i + 1, span_digits(t, i + 1))
    } else {
        t.take(i)
    }
}

/// The exponent of the atom, or zero when it has none.
pub open spec fn exp_of(t: Seq<u8>) -> int {
    let i = span_digits(t, 0);
    let j = if i < t.len() && t[i] == 46 {
        span_digits(t, i + 1)
    } else {
        i
    };
    if j < t.len() {
        exp_val_at(t, j)
    } else {
        0
    }
}

/// The number a float atom denotes, truncated toward zero into the
/// signed 64-bit range: infinities saturate, a not-a-number reads as
/// zero, and a finite value keeps the digits left of its shifted
/// decimal point.
pub open spec fn float_trunc(s: Seq<u8>) -> int
    recommends
        is_float_text(s),
{
    let neg = s.len() > 0 && s[0] == 45;
    let t = if s.len() > 0 && (s[0] == 43 || s[0] == 45) {
        s.skip(1)
    } else {
        s
    };
    if is_special_body(t) {
        if lower(t[0]) == 110 {
            0
        } else if neg {
            i64::MIN as int
        } else {
            i64::MAX as int
        }
    } else {
        let d = mantissa_of(t);
        let p = span_digits(t, 0) + exp_of(t);
        let m: int = if p <= 0 {
            0
        } else if p <= d.len() {
            digits_val(d.take(p)) as int
        } else {
            digits_val(d) as int * pow10((p - d.len()) as nat) as int
        };
        sat_i64(
            if neg {
                -m
            } else {
                m
            },
        )
    }
}

/// Copies `s[from..to]`.
fn copy_span(s: &[u8], from: usize, to: usize) -> (r: Vec<u8>)
    requires
        from <= to <= s@.len(),
    ensures
        r@ == s@.subrange(from as int, to as int),
{
    let mut r: Vec<u8> = Vec::new();
    let mut i: usize = from;
    while i < to
        invariant
            from <= i <= to <= s@.len(),
            r@ == s@.subrange(from as int, i as int),
        decreases to - i,
    {
        r.push(s[i]);
        i = i + 1;
        proof {
            assert(r@ =~= s@.subrange(from as int, i as int));
        }
    }
    r
}

/// The signed saturation of a digit-string magnitude: the value of
/// `d.take(p)` with the sign applied, clamped into `i64`.
fn trunc_take(d: &Vec<u8>, p: usize, neg: bool) -> (r: i64)
    requires
        p <= d@.len(),
        all_digits(d@),
    ensures
        r as int == sat_i64(
            if neg {
                -(digits_val(d@.take(p as int)) as int)
            } else {
                digits_val(d@.take(p as int)) as int
            },
        ),
{
    let bound: u64 = if neg {
        9223372036854775808u64
    } else {
        9223372036854775807u64
    };
    let mut acc: u64 = 0;
    let mut i: usize = 0;
    while i < p
        invariant
            i <= p <= d@.len(),
            all_digits(d@),
            acc == digits_val(d@.take(i as int)),
            acc <= bound,
            bound == if neg { 9223372036854775808u64 } else { 9223372036854775807u64 },
        decreases p - i,
    {
        let dig: u64 = (d[i] - 48) as u64;
        if acc > (bound - dig) / 10 {
            proof {
                lemma_digits_take_exceeds(d@, i as int, p as int, bound as int, dig as int);
            }
            if neg {
                return i64::MIN;
            } else {
                return i64::MAX;
            }
        }
        proof {
            assert(acc * 10 <= ((bound - dig) / 10) * 10) by (nonlinear_arith)
                requires acc <= (bound - dig) / 10;
            assert(((bound - dig) / 10) * 10 <= bound - dig) by (nonlinear_arith);
            assert(d@.take(i + 1).drop_last() =~= d@.take(i as int));
            assert(d@.take(i + 1).last() == d@[i as int]);
        }
        acc = acc * 10 + dig;
        i = i + 1;
    }
    if neg {
        if acc == 9223372036854775808u64 {
            i64::MIN
        } else {
            -(acc as i64)
        }
    } else {
        acc as i64
    }
}

/// When the running value already exceeds the bound after one more
/// digit, so does the value of the whole prefix.
proof fn lemma_digits_take_exceeds(d: Seq<u8>, i: int, p: int, bound: int, dig: int)
    requires
        0 <= i < p <= d.len(),
        all_digits(d),
        bound >= 1,
        dig == d[i] - 48,
        digits_val(d.take(i)) > (bound - dig) / 10,
    ensures
        digits_val(d.take(p)) > bound,
{
    let acc = digits_val(d.take(i)) as int;
    assert(d.take(i + 1).drop_last() =~= d.take(i));
    assert(d.take(i + 1).last() == d[i]);
    assert(digits_val(d.take(i + 1)) == acc * 10 + dig);
    assert(((bound - dig) / 10 + 1) * 10 > bound - dig) by (nonlinear_arith);
    assert(acc * 10 >= ((bound - dig) / 10 + 1) * 10) by (nonlinear_arith)
        requires acc >= (bound - dig) / 10 + 1;
    assert(all_digits(d.take(p))) by {
        assert forall|k: int| 0 <= k < d.take(p).len() implies is_digit(#[trigger] d.take(p)[k]) by {
            assert(d.take(p)[k] == d[k]);
        }
    }
    assert(d.take(p).take(i + 1) =~= d.take(i + 1));
    lemma_digits_val_prefix(d.take(p), i + 1);
}

/// The signed saturation of a padded magnitude: the value of all of
/// `d`, shifted up by `pad` decimal places, clamped into `i64`.
fn trunc_padded(d: &Vec<u8>, pad: u128, neg: bool) -> (r: i64)
    requires
        pad >= 1,
        all_digits(d@),
    ensures
        r as int == sat_i64(
            if neg {
                -(digits_val(d@) as int * pow10(pad as nat) as int)
            } else {
                digits_val(d@) as int * pow10(pad as nat) as int
            },
        ),
{
    let bound: u64 = if neg {
        9223372036854775808u64
    } else {
        9223372036854775807u64
    };
    // First the bare digit value, saturating.
    let whole = trunc_take(d, d.len(), neg);
    proof {
        assert(d@.take(d@.len() as int) =~= d@);
    }
    let dv_sat = if neg {
        whole == i64::MIN
    } else {
        whole == i64::MAX
    };
    let ghost dv = digits_val(d@) as int;
    if whole == 0 && !dv_sat {
        // A zero mantissa stays zero under any shift.
        proof {
            assert(dv * pow10(pad as nat) as int == 0) by (nonlinear_arith)
                requires dv == 0;
        }
        return 0;
    }
    if dv_sat || pad >= 19 {
        // Either the digits alone reach the edge of the range, or the
        // shift pushes any nonzero value past it.
        proof {
            lemma_pow10_mono(1, pad as nat);
            if dv > bound {
                assert(dv * pow10(pad as nat) as int >= dv * 1) by (nonlinear_arith)
                    requires dv >= 0 && pow10(pad as nat) >= 1;
            } else if dv_sat {
                assert(dv == bound);
                assert(dv * pow10(pad as nat) as int >= dv * 10) by (nonlinear_arith)
                    requires dv >= 0 && pow10(pad as nat) >= 10;
            } else {
                assert(dv >= 1);
                assert(pad >= 19);
                lemma_pow10_mono(19, pad as nat);
                lemma_pow10_19();
                assert(dv * pow10(pad as nat) as int >= pow10(pad as nat) as int)
                    by (nonlinear_arith)
                    requires dv >= 1 && pow10(pad as nat) >= 1;
            }
        }
        if neg {
            return i64::MIN;
        } else {
            return i64::MAX;
        }
    }
    // pad < 19 and the digit value is exact: shift with a checked
    // multiply, saturating on overflow.
    let mut acc: u64 = if neg {
        if whole == i64::MIN {
            9223372036854775808u64
        } else {
            (-whole) as u64
        }
    } else {
        whole as u64
    };
    let mut j: u64 = 0;
    let pad64: u64 = pad as u64;
    while j < pad64
        invariant
            j <= pad64,
            pad64 == pad,
            pad < 19,
            dv == digits_val(d@) as int,
            acc as int == dv * pow10(j as nat) as int,
            acc <= bound,
            dv >= 1,
            bound == if neg { 9223372036854775808u64 } else { 9223372036854775807u64 },
        decreases pad64 - j,
    {
        if acc > bound / 10 {
            proof {
                lemma_shift_exceeds(dv, j as nat, pad as nat, bound as int, acc as int);
            }
            if neg {
                return i64::MIN;
            } else {
                return i64::MAX;
            }
        }
        proof {
            assert(acc * 10 <= (bound / 10) * 10) by (nonlinear_arith)
                requires acc <= bound / 10;
            assert((bound / 10) * 10 <= bound) by (nonlinear_arith);
            assert(dv * pow10(j as nat) as int * 10 == dv * pow10((j + 1) as nat) as int)
                by (nonlinear_arith)
                requires pow10((j + 1) as nat) == 10 * pow10(j as nat);
        }
        acc = acc * 10;
        j = j + 1;
    }
    if neg {
        if acc == 9223372036854775808u64 {
            i64::MIN
        } else {
            -(acc as i64)
        }
    } else {
        acc as i64
    }
}

/// When a partial shift already exceeds one tenth of the bound, the
/// full shift exceeds the bound.
proof fn lemma_shift_exceeds(dv: int, j: nat, pad: nat, bound: int, acc: int)
    requires
        dv >= 1,
        j < pad,
        bound >= 1,
        acc == dv * pow10(j) as int,
        acc > bound / 10,
    ensures
        dv * pow10(pad) as int > bound,
{
    assert((bound / 10 + 1) * 10 > bound) by (nonlinear_arith);
    assert(acc * 10 >= (bound / 10 + 1) * 10) by (nonlinear_arith)
        requires acc >= bound / 10 + 1;
    assert(pow10((j + 1) as nat) == 10 * pow10(j));
    assert(dv * pow10((j + 1) as nat) as int == acc * 10) by (nonlinear_arith)
        requires acc == dv * pow10(j) as int && pow10((j + 1) as nat) == 10 * pow10(j);
    lemma_pow10_mono((j + 1) as nat, pad);
    assert(dv * pow10(pad) as int >= dv * pow10((j + 1) as nat) as int) by (nonlinear_arith)
        requires dv >= 1 && pow10((j + 1) as nat) <= pow10(pad);
}


/// Reads the decimal magnitude at `m..` of `s`, clamped just past
/// `cap`: an exact value when it fits, `cap + 1` when it exceeds it.
fn clamped_magnitude(s: &[u8], m: usize, cap: u128) -> (r: u128)
    requires
        m <= s@.len(),
        all_digits(s@.subrange(m as int, s@.len() as int)),
        cap < 0x40000000000000000u128,
    ensures
        r <= cap + 1,
        r <= cap ==> r as int == digits_val(s@.subrange(m as int, s@.len() as int)) as int,
        r == cap + 1 ==> digits_val(s@.subrange(m as int, s@.len() as int)) > cap,
{
    let ghost ed = s@.subrange(m as int, s@.len() as int);
    let mut acc: u128 = 0;
    let mut k: usize = m;
    while k < s.len()
        invariant
            m <= k <= s@.len(),
            ed == s@.subrange(m as int, s@.len() as int),
            all_digits(ed),
            cap < 0x40000000000000000u128,
            acc <= cap + 1,
            acc <= cap ==> acc as int == digits_val(ed.take(k - m)) as int,
            acc == cap + 1 ==> digits_val(ed.take(k - m)) > cap,
        decreases s@.len() - k,
    {
        proof {
            assert(ed[k - m] == s@[k as int]);
            assert(is_digit(ed[k - m]));
            assert(ed.take(k - m + 1).drop_last() =~= ed.take(k - m));
            assert(ed.take(k - m + 1).last() == ed[k - m]);
        }
        let dig: u128 = (s[k] - 48) as u128;
        if acc <= cap {
            let nv = acc * 10 + dig;
            if nv > cap {
                acc = cap + 1;
            } else {
                acc = nv;
            }
        } else {
            proof {
                let pre = digits_val(ed.take(k - m)) as int;
                assert(digits_val(ed.take(k - m + 1)) as int >= pre) by (nonlinear_arith)
                    requires
                        pre >= 0,
                        digits_val(ed.take(k - m + 1)) as int == pre * 10 + (ed[k - m] - 48),
                        ed[k - m] >= 48;
            }
        }
        k = k + 1;
    }
    proof {
        assert(ed.take(k - m) =~= ed);
    }
    acc
}

/// The saturation of a magnitude shifted past every useful size: zero
/// stays zero, anything else leaves the 64-bit range.
fn sat_or_zero(d: &Vec<u8>, neg: bool, Ghost(pad): Ghost<nat>) -> (r: i64)
    requires
        all_digits(d@),
        pad >= 19,
    ensures
        r as int == sat_i64(
            if neg {
                -(digits_val(d@) as int * pow10(pad) as int)
            } else {
                digits_val(d@) as int * pow10(pad) as int
            },
        ),
{
    let ghost dv = digits_val(d@) as int;
    let mut z: usize = 0;
    while z < d.len() && d[z] == 48
        invariant
            z <= d@.len(),
            forall|q: int| 0 <= q < z ==> d@[q] == 48,
        decreases d@.len() - z,
    {
        z = z + 1;
    }
    proof {
        lemma_digits_val_zero(d@);
    }
    if z == d.len() {
        proof {
            assert(dv == 0);
            assert(dv * pow10(pad) as int == 0) by (nonlinear_arith)
                requires dv == 0;
        }
        0
    } else {
        proof {
            assert(d@[z as int] != 48);
            assert(dv >= 1);
            lemma_pow10_mono(19, pad);
            lemma_pow10_19();
            assert(dv * pow10(pad) as int >= pow10(pad) as int) by (nonlinear_arith)
                requires dv >= 1 && pow10(pad) >= 1;
        }
        if neg {
            i64::MIN
        } else {
            i64::MAX
        }
    }
}


/// The canonical spelling of a float atom: every spelling of the
/// specials collapses to `nan`, `inf` or `-inf`; numeric texts stay as
/// they arrived.
pub open spec fn normal_float(s: Seq<u8>) -> Seq<u8> {
    let t = if s.len() > 0 && (s[0] == 43 || s[0] == 45) {
        s.skip(1)
    } else {
        s
    };
    if is_special_body(t) {
        if lower(t[0]) == 110 {
            seq![110u8, 97, 110]
        } else if s.len() > 0 && s[0] == 45 {
            seq![45u8, 105, 110, 102]
        } else {
            seq![105u8, 110, 102]
        }
    } else {
        s
    }
}

/// Rewrites a float atom into its canonical spelling.
pub fn normalize_float(v: Vec<u8>) -> (r: Vec<u8>)
    ensures
        r@ == normal_float(v@),
{
    let start: usize = if v.len() > 0 && (v[0] == 43 || v[0] == 45) {
        1
    } else {
        0
    };
    let ghost t = if v@.len() > 0 && (v@[0] == 43 || v@[0] == 45) { v@.skip(1) } else { v@ };
    proof {
        assert(t =~= v@.skip(start as int));
    }
    if is_special_bytes(v.as_slice(), start) {
        proof {
            assert(t[0] == v@[start as int]);
        }
        let mut r: Vec<u8> = Vec::new();
        if lower_byte(v[start]) == 110 {
            r.push(110);
            r.push(97);
            r.push(110);
            proof {
                assert(r@ =~= normal_float(v@));
            }
        } else if v[0] == 45 {
            r.push(45);
            r.push(105);
            r.push(110);
            r.push(102);
            proof {
                assert(r@ =~= normal_float(v@));
            }
        } else {
            r.push(105);
            r.push(110);
            r.push(102);
            proof {
                assert(r@ =~= normal_float(v@));
            }
        }
        r
    } else {
        v
    }
}

/// Truncates a float atom toward zero into `i64`, saturating, exactly
/// as `float_trunc` states it.
#[verifier::rlimit(100)]
#[verifier::spinoff_prover]
pub fn float_trunc_i64(s: &[u8]) -> (r: i64)
    requires
        is_float_text(s@),
    ensures
        r as int == float_trunc(s@),
{
    let neg = s.len() > 0 && s[0] == 45;
    let start: usize = if s.len() > 0 && (s[0] == 43 || s[0] == 45) {
        1
    } else {
        0
    };
    let ghost t = if s@.len() > 0 && (s@[0] == 43 || s@[0] == 45) { s@.skip(1) } else { s@ };
    proof {
        assert(t =~= s@.skip(start as int));
    }
    if is_special_bytes(s, start) {
        proof {
            assert(t[0] == s@[start as int]);
        }
        let c = lower_byte(s[start]);
        if c == 110 {
            0
        } else if neg {
            i64::MIN
        } else {
            i64::MAX
        }
    } else {
        let i = span_digits_from(s, start);
        proof {
            lemma_span_shift(s@, start as int);
            lemma_span_digits(s@, start as int);
        }
        let (fs, fe): (usize, usize) = if i < s.len() && s[i] == 46 {
            proof {
                assert(t[i - start] == s@[i as int]);
            }
            let e = span_digits_from(s, i + 1);
            proof {
                lemma_span_shift(s@, start as int);
                lemma_span_digits(s@, i as int + 1);
            }
            (i + 1, e)
        } else {
            (i, i)
        };
        let mut d = copy_span(s, start, i);
        let mut frac = copy_span(s, fs, fe);
        d.append(&mut frac);
        let ilen = i - start;
        proof {
            assert(t.take(i - start) =~= s@.subrange(start as int, i as int));
            if i < s@.len() && s@[i as int] == 46 {
                assert(t.subrange(i - start + 1, fe - start) =~= s@.subrange(
                    fs as int,
                    fe as int,
                ));
                assert(d@ =~= mantissa_of(t));
            } else {
                assert(d@ =~= mantissa_of(t));
            }
            assert(all_digits(d@)) by {
                assert forall|k: int| 0 <= k < d@.len() implies is_digit(#[trigger] d@[k]) by {
                    if k < i - start {
                        assert(d@[k] == s@[start + k]);
                    } else {
                        assert(d@[k] == s@[fs + (k - (i - start))]);
                    }
                }
            }
        }
        if fe == s.len() {
            // No exponent: the point sits after the integer digits.
            proof {
                assert(exp_of(t) == 0);
            }
            if ilen == 0 {
                0
            } else {
                trunc_take(&d, ilen, neg)
            }
        } else {
            trunc_with_exp(s, start, ilen, fe, &d, neg)
        }
    }
}

/// The exponent-bearing case of `float_trunc_i64`: applies the shift
/// the exponent calls for and truncates.
#[verifier::rlimit(100)]
#[verifier::spinoff_prover]
fn trunc_with_exp(s: &[u8], start: usize, ilen: usize, fe: usize, d: &Vec<u8>, neg: bool) -> (r:
    i64)
    requires
        ({
            let t = s@.skip(start as int);
            &&& is_float_text(s@)
            &&& neg == (s@.len() > 0 && s@[0] == 45)
            &&& start == (if s@.len() > 0 && (s@[0] == 43 || s@[0] == 45) {
                1int
            } else {
                0int
            })
            &&& !is_special_body(t)
            &&& ilen == span_digits(t, 0)
            &&& start + ilen <= s@.len()
            &&& start <= fe < s@.len()
            &&& fe - start == (if span_digits(t, 0) < t.len() && t[span_digits(t, 0)] == 46 {
                span_digits(t, span_digits(t, 0) + 1)
            } else {
                span_digits(t, 0)
            })
            &&& d@ == mantissa_of(t)
            &&& all_digits(d@)
            &&& ilen <= d@.len()
        }),
    ensures
        r as int == float_trunc(s@),
{
    let ghost t = s@.skip(start as int);
    let j_abs = fe;
    let ghost jt = fe - start;
    proof {
        assert(t =~= (if s@.len() > 0 && (s@[0] == 43 || s@[0] == 45) {
            s@.skip(1)
        } else {
            s@
        }));
        assert(t.len() == s@.len() - start);
        assert(is_number_body(t));
        let i0 = span_digits(t, 0);
        lemma_span_digits(t, 0);
        if i0 < t.len() && t[i0] == 46 {
            assert(jt == span_digits(t, i0 + 1));
            assert(is_exp_at(t, jt));
        } else {
            assert(jt == i0);
            assert(is_exp_at(t, jt));
        }
        assert(fe < s@.len());
    }
    let n = s.len();
    let eneg = j_abs < n - 1 && s[j_abs + 1] == 45;
    let m_abs: usize = if j_abs < n - 1 && (s[j_abs + 1] == 43 || s[j_abs + 1] == 45) {
        j_abs + 2
    } else {
        j_abs + 1
    };
    let ghost ed = t.subrange(m_abs - start, t.len() as int);
    proof {
        if j_abs + 1 < s@.len() {
            assert(t[jt + 1] == s@[j_abs as int + 1]);
        }
        assert(ed =~= s@.subrange(m_abs as int, s@.len() as int));
        lemma_span_digits(s@, m_abs as int);
        lemma_span_shift(s@, start as int);
        assert(all_digits(ed)) by {
            assert forall|k: int| 0 <= k < ed.len() implies is_digit(#[trigger] ed[k]) by {
                assert(ed[k] == s@[m_abs + k]);
            }
        }
    }
    // The exponent's magnitude, clamped just past any useful size.
    let cap: u128 = d.len() as u128 + 19;
    let e_acc = clamped_magnitude(s, m_abs, cap);
    let ghost ev = digits_val(ed) as int;
    if eneg {
        // A negative exponent can only pull the point left.
        if e_acc >= ilen as u128 {
            proof {
                if e_acc == cap + 1 {
                    assert(ev > cap);
                }
            }
            0
        } else {
            let p = ilen - (e_acc as usize);
            trunc_take(d, p, neg)
        }
    } else {
        if e_acc == cap + 1 {
            // The exponent outruns every digit.
            proof {
                assert(ev > cap);
            }
            sat_or_zero(d, neg, Ghost((ilen + ev - d@.len()) as nat))
        } else {
            let p128: u128 = ilen as u128 + e_acc;
            if p128 == 0 {
                0
            } else if p128 <= d.len() as u128 {
                trunc_take(d, p128 as usize, neg)
            } else {
                trunc_padded(d, p128 - d.len() as u128, neg)
            }
        }
    }
}

} // verus!
