//! ASCII decimal formatting and parsing.
//!
//! Lengths and integer atoms appear on the wire as ASCII decimal text.
//! `dec_nat` and `dec_int` are the mathematical decimal images; the
//! executable functions format and parse byte-exactly against them.

use vstd::prelude::*;

verus! {

/// True for the ASCII digits `0`..`9`.
pub open spec fn is_digit(b: u8) -> bool {
    48 <= b <= 57
}

/// True when every byte of `s` is an ASCII digit.
pub open spec fn all_digits(s: Seq<u8>) -> bool {
    forall|i: int| 0 <= i < s.len() ==> is_digit(#[trigger] s[i])
}

/// The decimal digit string of `n`, most significant digit first.
pub open spec fn dec_nat(n: nat) -> Seq<u8>
    decreases n,
{
    if n < 10 {
        seq![(48 + n) as u8]
    } else {
        dec_nat(n / 10).push((48 + n % 10) as u8)
    }
}

/// The decimal text of `i`: a minus sign for negative numbers, then digits.
pub open spec fn dec_int(i: int) -> Seq<u8> {
    if i < 0 {
        seq![45u8] + dec_nat((-i) as nat)
    } else {
        dec_nat(i as nat)
    }
}

/// The value of a digit string, read in base ten.
pub open spec fn digits_val(s: Seq<u8>) -> nat
    decreases s.len(),
{
    if s.len() == 0 {
        0
    } else {
        digits_val(s.drop_last()) * 10 + (if s.last() >= 48 { (s.last() - 48) as nat } else { 0 })
    }
}

/// Meaning of an unsigned decimal atom, as `usize::from_str` reads it:
/// an optional plus sign, then at least one digit, and the value must fit.
pub open spec fn spec_parse_usize(s: Seq<u8>) -> Option<int> {
    let d = if s.len() > 0 && s[0] == 43 {
        s.skip(1)
    } else {
        s
    };
    if d.len() > 0 && all_digits(d) && digits_val(d) <= usize::MAX {
        Some(digits_val(d) as int)
    } else {
        None
    }
}

/// Meaning of a signed decimal atom, as `i64::from_str` reads it:
/// an optional sign, then at least one digit, and the value must fit.
pub open spec fn spec_parse_i64(s: Seq<u8>) -> Option<int> {
    let neg = s.len() > 0 && s[0] == 45;
    let d = if s.len() > 0 && (s[0] == 43 || s[0] == 45) {
        s.skip(1)
    } else {
        s
    };
    if d.len() > 0 && all_digits(d) {
        if neg {
            if -(digits_val(d) as int) >= i64::MIN {
                Some(-(digits_val(d) as int))
            } else {
                None
            }
        } else {
            if digits_val(d) <= i64::MAX {
                Some(digits_val(d) as int)
            } else {
                None
            }
        }
    } else {
        None
    }
}

/// Every byte of a decimal digit string is a digit, and there is at
/// least one, so the text never contains CR or LF.
pub proof fn lemma_dec_nat_digits(n: nat)
    ensures
        dec_nat(n).len() >= 1,
        all_digits(dec_nat(n)),
    decreases n,
{
    if n >= 10 {
        lemma_dec_nat_digits(n / 10);
        assert forall|i: int| 0 <= i < dec_nat(n).len() implies is_digit(#[trigger] dec_nat(n)[i]) by {
            if i < dec_nat(n).len() - 1 {
                assert(dec_nat(n)[i] == dec_nat(n / 10)[i]);
            }
        }
    }
}

/// Reading the decimal digit string of `n` back yields `n`.
pub proof fn lemma_digits_val_dec_nat(n: nat)
    ensures
        digits_val(dec_nat(n)) == n,
    decreases n,
{
    if n < 10 {
        assert(dec_nat(n) =~= seq![(48 + n) as u8]);
        assert(dec_nat(n).drop_last() =~= Seq::<u8>::empty());
        assert(digits_val(dec_nat(n)) == digits_val(Seq::<u8>::empty()) * 10 + n);
    } else {
        lemma_digits_val_dec_nat(n / 10);
        assert(dec_nat(n).drop_last() =~= dec_nat(n / 10));
        assert(dec_nat(n).last() == (48 + n % 10) as u8);
        assert(digits_val(dec_nat(n)) == digits_val(dec_nat(n / 10)) * 10 + n % 10);
    }
}

/// A digit string's value only grows when digits are appended: the value
/// of a prefix is at most the value of the whole string.
pub proof fn lemma_digits_val_prefix(s: Seq<u8>, i: int)
    requires
        0 <= i <= s.len(),
        all_digits(s),
    ensures
        digits_val(s.take(i)) <= digits_val(s),
    decreases s.len() - i,
{
    if i < s.len() {
        lemma_digits_val_prefix(s, i + 1);
        assert(s.take(i + 1).drop_last() =~= s.take(i));
        assert(digits_val(s.take(i + 1)) == digits_val(s.take(i)) * 10 + (s[i] - 48));
        assert(digits_val(s.take(i)) <= digits_val(s.take(i)) * 10) by (nonlinear_arith)
            requires digits_val(s.take(i)) >= 0;
    } else {
        assert(s.take(i) =~= s);
    }
}


/// Ten to the `k`.
pub open spec fn pow10(k: nat) -> nat
    decreases k,
{
    if k == 0 {
        1
    } else {
        10 * pow10((k - 1) as nat)
    }
}

/// Clamping an integer into the signed 64-bit range.
pub open spec fn sat_i64(v: int) -> int {
    if v > i64::MAX {
        i64::MAX as int
    } else if v < i64::MIN {
        i64::MIN as int
    } else {
        v
    }
}

/// Powers of ten are positive and grow with the exponent.
pub proof fn lemma_pow10_mono(a: nat, b: nat)
    requires
        a <= b,
    ensures
        1 <= pow10(a) <= pow10(b),
    decreases b,
{
    if b > 0 {
        if a == b {
            lemma_pow10_mono((a - 1) as nat, (b - 1) as nat);
        } else {
            lemma_pow10_mono(a, (b - 1) as nat);
        }
    }
}

/// Ten to the nineteenth exceeds the signed 64-bit range.
pub proof fn lemma_pow10_19()
    ensures
        pow10(19) == 10000000000000000000,
{
    assert(pow10(0) == 1);
    assert(pow10(1) == 10);
    assert(pow10(2) == 100);
    assert(pow10(3) == 1000);
    assert(pow10(4) == 10000);
    assert(pow10(5) == 100000);
    assert(pow10(6) == 1000000);
    assert(pow10(7) == 10000000);
    assert(pow10(8) == 100000000);
    assert(pow10(9) == 1000000000);
    assert(pow10(10) == 10000000000);
    assert(pow10(11) == 100000000000);
    assert(pow10(12) == 1000000000000);
    assert(pow10(13) == 10000000000000);
    assert(pow10(14) == 100000000000000);
    assert(pow10(15) == 1000000000000000);
    assert(pow10(16) == 10000000000000000);
    assert(pow10(17) == 100000000000000000);
    assert(pow10(18) == 1000000000000000000);
}

/// A digit string's value is zero exactly when every digit is `0`.
pub proof fn lemma_digits_val_zero(s: Seq<u8>)
    requires
        all_digits(s),
    ensures
        (digits_val(s) == 0) <==> (forall|i: int| 0 <= i < s.len() ==> s[i] == 48),
    decreases s.len(),
{
    if s.len() > 0 {
        assert(all_digits(s.drop_last())) by {
            assert forall|i: int| 0 <= i < s.drop_last().len() implies is_digit(
                #[trigger] s.drop_last()[i],
            ) by {
                assert(s.drop_last()[i] == s[i]);
            }
        }
        lemma_digits_val_zero(s.drop_last());
        if digits_val(s) == 0 {
            assert(digits_val(s.drop_last()) == 0);
            assert(s.last() == 48);
            assert forall|i: int| 0 <= i < s.len() implies s[i] == 48 by {
                if i < s.len() - 1 {
                    assert(s.drop_last()[i] == s[i]);
                }
            }
        }
        if forall|i: int| 0 <= i < s.len() ==> s[i] == 48 {
            assert forall|i: int| 0 <= i < s.drop_last().len() implies s.drop_last()[i] == 48 by {
                assert(s.drop_last()[i] == s[i]);
            }
            assert(s.last() == 48);
        }
    }
}

/// Formats `n` as its decimal digit string.
pub fn fmt_usize(n: usize) -> (r: Vec<u8>)
    ensures
        r@ == dec_nat(n as nat),
{
    fmt_u64_digits(n as u64)
}

/// Formats `i` as decimal text, with a leading minus sign when negative.
pub fn fmt_i64(i: i64) -> (r: Vec<u8>)
    ensures
        r@ == dec_int(i as int),
{
    if i >= 0 {
        let mag = fmt_u64_digits(i as u64);
        mag
    } else {
        // -(i + 1) is representable for every negative i, including i64::MIN.
        let m: u64 = (-(i + 1)) as u64 + 1;
        proof {
            assert(m == -(i as int));
        }
        let mag = fmt_u64_digits(m);
        let mut r: Vec<u8> = Vec::new();
        r.push(45);
        let mut k: usize = 0;
        while k < mag.len()
            invariant
                k <= mag.len(),
                mag@ == dec_nat(m as nat),
                r@ =~= seq![45u8] + mag@.take(k as int),
            decreases mag.len() - k,
        {
            let b = mag[k];
            r.push(b);
            k = k + 1;
            proof {
                assert(r@ =~= seq![45u8] + mag@.take(k as int));
            }
        }
        proof {
            assert(mag@.take(mag@.len() as int) =~= mag@);
        }
        r
    }
}

/// Formats `n` as its decimal digit string (64-bit form).
pub fn fmt_u64_digits(n: u64) -> (r: Vec<u8>)
    ensures
        r@ == dec_nat(n as nat),
{
    let mut tmp: Vec<u8> = Vec::new();
    let mut m: u64 = n;
    while m >= 10
        invariant
            dec_nat(n as nat) == dec_nat(m as nat) + tmp@.reverse(),
        decreases m,
    {
        let ghost pre = tmp@;
        let d: u8 = (m % 10) as u8 + 48;
        tmp.push(d);
        proof {
            assert(tmp@.reverse() =~= seq![d] + pre.reverse());
            assert(dec_nat(m as nat) == dec_nat((m as nat) / 10).push((48 + (m as nat) % 10) as u8));
            assert(dec_nat((m as nat) / 10) + tmp@.reverse() =~= dec_nat(m as nat) + pre.reverse());
        }
        m = m / 10;
    }
    let ghost pre = tmp@;
    let d: u8 = m as u8 + 48;
    tmp.push(d);
    proof {
        assert(tmp@.reverse() =~= seq![d] + pre.reverse());
        assert(dec_nat(m as nat) =~= seq![d]);
        assert(tmp@.reverse() =~= dec_nat(m as nat) + pre.reverse());
    }
    let mut r: Vec<u8> = Vec::new();
    let mut i: usize = tmp.len();
    while i > 0
        invariant
            i <= tmp.len(),
            r@ =~= tmp@.reverse().take(tmp@.len() - i),
        decreases i,
    {
        i = i - 1;
        let b = tmp[i];
        r.push(b);
        proof {
            assert(tmp@.reverse()[tmp@.len() - i - 1] == tmp@[i as int]);
            assert(r@ =~= tmp@.reverse().take(tmp@.len() - i));
        }
    }
    proof {
        assert(r@ =~= tmp@.reverse());
    }
    r
}

/// Parses an unsigned decimal atom; `None` exactly when the text is not
/// a well-formed number or its value does not fit in `usize`.
pub fn parse_usize(s: &[u8]) -> (r: Option<usize>)
    ensures
        match r {
            Some(n) => spec_parse_usize(s@) == Some(n as int),
            None => spec_parse_usize(s@) is None,
        },
{
    let start: usize = if s.len() > 0 && s[0] == 43 {
        1
    } else {
        0
    };
    let ghost d = if s@.len() > 0 && s@[0] == 43 { s@.skip(1) } else { s@ };
    proof {
        assert(d =~= s@.skip(start as int));
    }
    if s.len() == start {
        return None;
    }
    let mut acc: usize = 0;
    let mut i: usize = start;
    while i < s.len()
        invariant
            start <= i <= s@.len(),
            start == if s@.len() > 0 && s@[0] == 43 { 1int } else { 0int },
            d == (if s@.len() > 0 && s@[0] == 43 { s@.skip(1) } else { s@ }),
            d == s@.skip(start as int),
            all_digits(d.take(i - start)),
            acc == digits_val(d.take(i - start)),
        decreases s@.len() - i,
    {
        let b = s[i];
        if b < 48 || b > 57 {
            proof {
                assert(d[i - start] == s@[i as int]);
                assert(!is_digit(d[i - start]));
            }
            return None;
        }
        let dig: usize = (b - 48) as usize;
        if acc > (usize::MAX - dig) / 10 {
            proof {
                if all_digits(d) {
                    lemma_digits_val_prefix(d, i - start + 1);
                    assert(d.take(i - start + 1).drop_last() =~= d.take(i - start));
                    assert(d.take(i - start + 1).last() == s@[i as int]);
                    assert(digits_val(d.take(i - start + 1)) == acc * 10 + dig);
                    assert(acc >= (usize::MAX - dig) / 10 + 1);
                    assert(((usize::MAX - dig) / 10 + 1) * 10 > usize::MAX - dig) by (nonlinear_arith);
                    assert(acc * 10 >= ((usize::MAX - dig) / 10 + 1) * 10) by (nonlinear_arith)
                        requires acc >= (usize::MAX - dig) / 10 + 1;
                    assert(digits_val(d) >= digits_val(d.take(i - start + 1)));
                    assert(digits_val(d) > usize::MAX);
                }
            }
            return None;
        }
        proof {
            assert(acc <= (usize::MAX - dig) / 10);
            assert(acc * 10 <= ((usize::MAX - dig) / 10) * 10) by (nonlinear_arith)
                requires acc <= (usize::MAX - dig) / 10;
            assert(((usize::MAX - dig) / 10) * 10 <= usize::MAX - dig) by (nonlinear_arith);
            assert(d.take(i - start + 1).drop_last() =~= d.take(i - start));
            assert(d.take(i - start + 1).last() == s@[i as int]);
        }
        acc = acc * 10 + dig;
        i = i + 1;
    }
    proof {
        assert(d.take(i - start) =~= d);
    }
    Some(acc)
}

/// Parses a signed decimal atom; `None` exactly when the text is not a
/// well-formed number or its value does not fit in `i64`.
pub fn parse_i64(s: &[u8]) -> (r: Option<i64>)
    ensures
        match r {
            Some(n) => spec_parse_i64(s@) == Some(n as int),
            None => spec_parse_i64(s@) is None,
        },
{
    let neg = s.len() > 0 && s[0] == 45;
    let start: usize = if s.len() > 0 && (s[0] == 43 || s[0] == 45) {
        1
    } else {
        0
    };
    let ghost d = if s@.len() > 0 && (s@[0] == 43 || s@[0] == 45) { s@.skip(1) } else { s@ };
    proof {
        assert(d =~= s@.skip(start as int));
    }
    if s.len() == start {
        return None;
    }
    // The magnitude bound differs by sign: 2^63 for negative, 2^63 - 1 otherwise.
    let bound: u64 = if neg {
        9223372036854775808u64
    } else {
        9223372036854775807u64
    };
    let mut acc: u64 = 0;
    let mut i: usize = start;
    while i < s.len()
        invariant
            start <= i <= s@.len(),
            start == if s@.len() > 0 && (s@[0] == 43 || s@[0] == 45) { 1int } else { 0int },
            d == (if s@.len() > 0 && (s@[0] == 43 || s@[0] == 45) { s@.skip(1) } else { s@ }),
            d == s@.skip(start as int),
            all_digits(d.take(i - start)),
            acc == digits_val(d.take(i - start)),
            acc <= bound,
            bound == if neg { 9223372036854775808u64 } else { 9223372036854775807u64 },
            neg == (s@.len() > 0 && s@[0] == 45),
        decreases s@.len() - i,
    {
        let b = s[i];
        if b < 48 || b > 57 {
            proof {
                assert(d[i - start] == s@[i as int]);
                assert(!is_digit(d[i - start]));
            }
            return None;
        }
        let dig: u64 = (b - 48) as u64;
        if acc > (bound - dig) / 10 {
            proof {
                if all_digits(d) {
                    lemma_digits_val_prefix(d, i - start + 1);
                    assert(d.take(i - start + 1).drop_last() =~= d.take(i - start));
                    assert(d.take(i - start + 1).last() == s@[i as int]);
                    assert(digits_val(d.take(i - start + 1)) == acc * 10 + dig);
                    assert(((bound - dig) / 10 + 1) * 10 > bound - dig) by (nonlinear_arith);
                    assert(acc * 10 >= ((bound - dig) / 10 + 1) * 10) by (nonlinear_arith)
                        requires acc >= (bound - dig) / 10 + 1;
                    assert(digits_val(d) >= digits_val(d.take(i - start + 1)));
                    assert(digits_val(d) > bound);
                }
            }
            return None;
        }
        proof {
            assert(acc * 10 <= ((bound - dig) / 10) * 10) by (nonlinear_arith)
                requires acc <= (bound - dig) / 10;
            assert(((bound - dig) / 10) * 10 <= bound - dig) by (nonlinear_arith);
            assert(d.take(i - start + 1).drop_last() =~= d.take(i - start));
            assert(d.take(i - start + 1).last() == s@[i as int]);
        }
        acc = acc * 10 + dig;
        i = i + 1;
    }
    proof {
        assert(d.take(i - start) =~= d);
    }
    if neg {
        if acc == 9223372036854775808u64 {
            Some(i64::MIN)
        } else {
            Some(-(acc as i64))
        }
    } else {
        Some(acc as i64)
    }
}

} // verus!
