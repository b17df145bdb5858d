//! The wire decoder.
//!
//! `spec_decode` is the mathematical meaning of a byte prefix: either a
//! value and the number of bytes it occupies, or the error the decoder
//! reports.  The executable decoder walks a byte buffer and returns
//! exactly that.  An input that ends before a frame is complete is an
//! I/O failure — never a panic and never a silent success.

use vstd::prelude::*;
use vstd::utf8::valid_utf8;
use crate::error::Error;
use crate::float_text::is_float_text;
use crate::float_text::is_float_bytes;
use crate::float_text::normal_float;
use crate::float_text::normalize_float;
use crate::number::spec_parse_usize;
use crate::number::spec_parse_i64;
use crate::number::parse_usize;
use crate::number::parse_i64;
use crate::sorted::set_from_spec;
use crate::sorted::dict_from_spec;
use crate::sorted::set_insert;
use crate::sorted::dict_insert;
use crate::value::Entry;
use crate::value::SpecValue;
use crate::value::Value;
use crate::value::view_list;
use crate::value::view_entries;
use crate::value::lemma_view_list;
use crate::value::lemma_view_entries;

verus! {

/// What a lossy text conversion makes of arbitrary bytes: the result
/// depends on the bytes alone.
pub uninterp spec fn lossy_of(b: Seq<u8>) -> Seq<u8>;

/// Decides UTF-8 validity, one scalar at a time.
fn utf8_ok(b: &[u8]) -> (r: bool)
    ensures
        r == valid_utf8(b@),
{
    let mut i: usize = 0;
    while i < b.len()
        invariant
            i <= b@.len(),
            valid_utf8(b@.subrange(0, i as int)),
        decreases b@.len() - i,
    {
        let k = scalar_len_at(b, i);
        let ghost suf = b@.skip(i as int);
        proof {
            assert(b@.subrange(i as int, b@.len() as int) =~= suf);
        }
        if k == 0 {
            proof {
                assert(!valid_utf8(suf));
                vstd::utf8::partial_valid_partial_invalid_utf8(b@, i as int);
            }
            return false;
        }
        proof {
            assert(vstd::utf8::partial_valid_utf8(b@, i as int));
            vstd::utf8::partial_valid_utf8_extend(b@, i as int);
            assert(b@.subrange(0, i + k) =~= b@.subrange(
                0,
                i + vstd::utf8::length_of_first_scalar(suf),
            ));
        }
        i = i + k;
    }
    proof {
        assert(b@.subrange(0, i as int) =~= b@);
    }
    true
}

/// The byte length of the scalar encoded at position `i`, or zero when
/// no well-formed scalar starts there.
fn scalar_len_at(b: &[u8], i: usize) -> (r: usize)
    requires
        i < b@.len(),
    ensures
        ({
            let suf = b@.skip(i as int);
            if r == 0 {
                !vstd::utf8::valid_first_scalar(suf)
            } else {
                &&& vstd::utf8::valid_first_scalar(suf)
                &&& r == vstd::utf8::length_of_first_scalar(suf)
                &&& i + r <= b@.len()
            }
        }),
{
    let ghost suf = b@.skip(i as int);
    let n = b.len();
    let b0 = b[i];
    proof {
        assert(suf[0] == b@[i as int]);
    }
    if b0 < 0x80 {
        // One byte: plain ASCII; never overlong, never a surrogate.
        proof {
            assert((b0 & 0x7F) < 0xD800 && !(b0 & 0x7F >= 0x80)) by (bit_vector)
                requires b0 < 0x80;
        }
        1
    } else if b0 < 0xC0 {
        // A continuation byte in leading position.
        proof {
            assert(!(b0 <= 0x7F) && !(0xC0 <= b0 <= 0xDF) && !(0xE0 <= b0 <= 0xEF) && !(0xF0 <= b0
                <= 0xF7)) by (bit_vector)
                requires 0x80 <= b0 < 0xC0;
        }
        0
    } else if b0 < 0xE0 {
        // Two bytes: one continuation, and the value must reach 0x80.
        if n - i < 2 {
            return 0;
        }
        let b1 = b[i + 1];
        proof {
            assert(suf[1] == b@[i as int + 1]);
        }
        if b1 < 0x80 || b1 > 0xBF {
            proof {
                assert(!(b0 <= 0x7F) && !(0xE0 <= b0 <= 0xEF) && !(0xF0 <= b0 <= 0xF7))
                    by (bit_vector)
                    requires 0xC0 <= b0 < 0xE0;
            }
            return 0;
        }
        if b0 < 0xC2 {
            proof {
                assert(((((b0 & 0x1F) as u32) << 6) | ((b1 & 0x3F) as u32)) < 0x80)
                    by (bit_vector)
                    requires 0xC0 <= b0 < 0xC2;
            }
            return 0;
        }
        proof {
            assert(((((b0 & 0x1F) as u32) << 6) | ((b1 & 0x3F) as u32)) >= 0x80 && ((((b0
                & 0x1F) as u32) << 6) | ((b1 & 0x3F) as u32)) < 0xD800) by (bit_vector)
                requires 0xC2 <= b0 < 0xE0;
        }
        2
    } else if b0 < 0xF0 {
        // Three bytes: two continuations, no overlong form, and the
        // surrogate range is excluded.
        if n - i < 3 {
            return 0;
        }
        let b1 = b[i + 1];
        let b2 = b[i + 2];
        proof {
            assert(suf[1] == b@[i as int + 1]);
            assert(suf[2] == b@[i as int + 2]);
        }
        if b1 < 0x80 || b1 > 0xBF || b2 < 0x80 || b2 > 0xBF {
            proof {
                assert(!(b0 <= 0x7F) && !(0xC0 <= b0 <= 0xDF) && !(0xF0 <= b0 <= 0xF7))
                    by (bit_vector)
                    requires 0xE0 <= b0 < 0xF0;
            }
            return 0;
        }
        if b0 == 0xE0 && b1 < 0xA0 {
            proof {
                assert(((((b0 & 0x0F) as u32) << 12) | (((b1 & 0x3F) as u32) << 6) | ((b2
                    & 0x3F) as u32)) < 0x800) by (bit_vector)
                    requires b0 == 0xE0 && 0x80 <= b1 < 0xA0;
            }
            return 0;
        }
        if b0 == 0xED && b1 >= 0xA0 {
            proof {
                assert(0xD800 <= ((((b0 & 0x0F) as u32) << 12) | (((b1 & 0x3F) as u32) << 6) | ((b2
                    & 0x3F) as u32)) <= 0xDFFF) by (bit_vector)
                    requires b0 == 0xED && 0xA0 <= b1 <= 0xBF;
            }
            return 0;
        }
        proof {
            assert(((((b0 & 0x0F) as u32) << 12) | (((b1 & 0x3F) as u32) << 6) | ((b2
                & 0x3F) as u32)) >= 0x800 && !(0xD800 <= ((((b0 & 0x0F) as u32) << 12) | (((b1
                & 0x3F) as u32) << 6) | ((b2 & 0x3F) as u32)) <= 0xDFFF)) by (bit_vector)
                requires
                    0xE0 <= b0 < 0xF0,
                    0x80 <= b1 <= 0xBF,
                    !(b0 == 0xE0 && b1 < 0xA0),
                    !(b0 == 0xED && b1 >= 0xA0);
        }
        3
    } else if b0 < 0xF8 {
        // Four bytes: three continuations, no overlong form, and the
        // value must not exceed the last Unicode scalar.
        if n - i < 4 {
            return 0;
        }
        let b1 = b[i + 1];
        let b2 = b[i + 2];
        let b3 = b[i + 3];
        proof {
            assert(suf[1] == b@[i as int + 1]);
            assert(suf[2] == b@[i as int + 2]);
            assert(suf[3] == b@[i as int + 3]);
        }
        if b1 < 0x80 || b1 > 0xBF || b2 < 0x80 || b2 > 0xBF || b3 < 0x80 || b3 > 0xBF {
            proof {
                assert(!(b0 <= 0x7F) && !(0xC0 <= b0 <= 0xDF) && !(0xE0 <= b0 <= 0xEF))
                    by (bit_vector)
                    requires 0xF0 <= b0 < 0xF8;
            }
            return 0;
        }
        if b0 == 0xF0 && b1 < 0x90 {
            proof {
                assert(((((b0 & 0x07) as u32) << 18) | (((b1 & 0x3F) as u32) << 12) | (((b2
                    & 0x3F) as u32) << 6) | ((b3 & 0x3F) as u32)) < 0x10000) by (bit_vector)
                    requires b0 == 0xF0 && 0x80 <= b1 < 0x90;
            }
            return 0;
        }
        if b0 > 0xF4 || (b0 == 0xF4 && b1 >= 0x90) {
            proof {
                assert(((((b0 & 0x07) as u32) << 18) | (((b1 & 0x3F) as u32) << 12) | (((b2
                    & 0x3F) as u32) << 6) | ((b3 & 0x3F) as u32)) > 0x10FFFF) by (bit_vector)
                    requires
                        0xF0 <= b0 < 0xF8,
                        0x80 <= b1 <= 0xBF,
                        b0 > 0xF4 || (b0 == 0xF4 && b1 >= 0x90);
            }
            return 0;
        }
        proof {
            assert(0x10000 <= ((((b0 & 0x07) as u32) << 18) | (((b1 & 0x3F) as u32) << 12) | (((b2
                & 0x3F) as u32) << 6) | ((b3 & 0x3F) as u32)) <= 0x10FFFF) by (bit_vector)
                requires
                    0xF0 <= b0 <= 0xF4,
                    0x80 <= b1 <= 0xBF,
                    !(b0 == 0xF0 && b1 < 0x90),
                    !(b0 == 0xF4 && b1 >= 0x90);
        }
        4
    } else {
        proof {
            assert(!(b0 <= 0x7F) && !(0xC0 <= b0 <= 0xDF) && !(0xE0 <= b0 <= 0xEF) && !(0xF0 <= b0
                <= 0xF7)) by (bit_vector)
                requires b0 >= 0xF8;
        }
        0
    }
}

/// Relies on `String::from_utf8_lossy`: the result is a function of the
/// bytes alone, and valid UTF-8 comes back unchanged.
#[verifier::external_body]
fn utf8_lossy(b: &[u8]) -> (r: Vec<u8>)
    ensures
        r@ == lossy_of(b@),
        valid_utf8(b@) ==> r@ == b@,
{
    String::from_utf8_lossy(b).into_owned().into_bytes()
}

/// The position of the first LF byte at or after `i`, or the length
/// when there is none.
pub open spec fn find_lf(s: Seq<u8>, i: int) -> int
    decreases s.len() - i,
{
    if i >= s.len() {
        s.len() as int
    } else if s[i] == 10 {
        i
    } else {
        find_lf(s, i + 1)
    }
}

/// One CR LF line read from the front of `s`: its content and the bytes
/// consumed.  No LF before the end is a truncation; a line not ending
/// in CR LF is a protocol violation naming the byte before the LF.
pub open spec fn spec_line(s: Seq<u8>) -> Result<(Seq<u8>, int), Error> {
    let p = find_lf(s, 0);
    if p >= s.len() {
        Err(Error::IO)
    } else if p == 0 {
        Err(Error::InvalidByte(None))
    } else if s[p - 1] != 13 {
        Err(Error::InvalidByte(Some(s[p - 1])))
    } else {
        Ok((s.take(p - 1), p + 1))
    }
}

/// A line holding an unsigned decimal length.
pub open spec fn spec_usize_line(s: Seq<u8>) -> Result<(int, int), Error> {
    match spec_line(s) {
        Err(e) => Err(e),
        Ok((c, n)) => match spec_parse_usize(c) {
            Some(v) => Ok((v, n)),
            None => Err(Error::ParseInt),
        },
    }
}

/// The meaning of a byte prefix of the wire stream: the decoded value
/// and the bytes it occupies, or the error reported.  `preserve` keeps
/// attribute frames; without it they are skipped and the annotated
/// value is returned alone.
pub open spec fn spec_decode(s: Seq<u8>, preserve: bool) -> Result<(SpecValue, int), Error>
    decreases s.len(), 0int, 0int,
{
    if s.len() == 0 {
        Err(Error::IO)
    } else {
        let t = s.skip(1);
        let b = s[0];
        let body: Result<(SpecValue, int), Error> = if b == 43 {  // '+'
            spec_simple_string(t)
        } else if b == 36 {  // '$'
            spec_blob_string(t)
        } else if b == 45 {  // '-'
            spec_simple_error(t)
        } else if b == 58 {  // ':'
            spec_number(t)
        } else if b == 95 {  // '_'
            spec_null(t)
        } else if b == 44 {  // ','
            spec_double(t)
        } else if b == 35 {  // '#'
            spec_bool(t)
        } else if b == 33 {  // '!'
            spec_blob_error(t)
        } else if b == 61 {  // '='
            spec_verbatim(t)
        } else if b == 40 {  // '('
            spec_big_number(t)
        } else if b == 42 {  // '*'
            spec_array(t, preserve)
        } else if b == 37 {  // '%'
            spec_map(t, preserve)
        } else if b == 126 {  // '~'
            spec_set(t, preserve)
        } else if b == 124 {  // '|'
            spec_attribute(t, preserve)
        } else if b == 62 {  // '>'
            spec_push(t, preserve)
        } else {
            Err(Error::InvalidByte(Some(b)))
        };
        match body {
            Ok((v, c)) => Ok((v, c + 1)),
            Err(e) => Err(e),
        }
    }
}

/// A `+` body: one line of UTF-8 text.
pub open spec fn spec_simple_string(s: Seq<u8>) -> Result<(SpecValue, int), Error> {
    match spec_line(s) {
        Err(e) => Err(e),
        Ok((c, n)) => if valid_utf8(c) {
            Ok((SpecValue::String(c), n))
        } else {
            Err(Error::IO)
        },
    }
}

/// A `-` body: one line of UTF-8 error text.
pub open spec fn spec_simple_error(s: Seq<u8>) -> Result<(SpecValue, int), Error> {
    match spec_line(s) {
        Err(e) => Err(e),
        Ok((c, n)) => if valid_utf8(c) {
            Ok((SpecValue::Error(c), n))
        } else {
            Err(Error::IO)
        },
    }
}

/// A `(` body: one line of UTF-8 big-number text, kept verbatim.
pub open spec fn spec_big_number(s: Seq<u8>) -> Result<(SpecValue, int), Error> {
    match spec_line(s) {
        Err(e) => Err(e),
        Ok((c, n)) => if valid_utf8(c) {
            Ok((SpecValue::BigNumber(c), n))
        } else {
            Err(Error::IO)
        },
    }
}

/// A `:` body: one line holding a signed 64-bit decimal.
pub open spec fn spec_number(s: Seq<u8>) -> Result<(SpecValue, int), Error> {
    match spec_line(s) {
        Err(e) => Err(e),
        Ok((c, n)) => match spec_parse_i64(c) {
            Some(v) => Ok((SpecValue::Int(v), n)),
            None => Err(Error::ParseInt),
        },
    }
}

/// A `,` body: one line in the floating-point grammar.  The specials
/// are normalised to a single spelling each, so a not-a-number is one
/// value; numeric texts are kept verbatim.
pub open spec fn spec_double(s: Seq<u8>) -> Result<(SpecValue, int), Error> {
    match spec_line(s) {
        Err(e) => Err(e),
        Ok((c, n)) => if is_float_text(c) {
            Ok((SpecValue::Float(normal_float(c)), n))
        } else {
            Err(Error::ParseFloat)
        },
    }
}

/// A `_` body: the two line-end bytes are consumed unexamined.
pub open spec fn spec_null(s: Seq<u8>) -> Result<(SpecValue, int), Error> {
    if s.len() < 2 {
        Err(Error::IO)
    } else {
        Ok((SpecValue::Null, 2))
    }
}

/// A `#` body: one line holding `t` or `f`.  A longer line names its
/// second byte; an empty line is a structural violation.
pub open spec fn spec_bool(s: Seq<u8>) -> Result<(SpecValue, int), Error> {
    match spec_line(s) {
        Err(e) => Err(e),
        Ok((c, n)) => if c.len() == 0 {
            Err(Error::InvalidByte(None))
        } else if c.len() > 1 {
            Err(Error::InvalidByte(Some(c[1])))
        } else {
            Ok((SpecValue::Bool(c[0] == 116), n))
        },
    }
}

/// A `$` body: a length line, that many payload bytes, CR LF.  A zero
/// length yields the empty string; invalid UTF-8 yields raw bytes.
pub open spec fn spec_blob_string(s: Seq<u8>) -> Result<(SpecValue, int), Error> {
    match spec_usize_line(s) {
        Err(e) => Err(e),
        Ok((len, n)) => if n + len + 2 > s.len() {
            Err(Error::IO)
        } else {
            let payload = s.subrange(n, n + len);
            if valid_utf8(payload) {
                Ok((SpecValue::String(payload), n + len + 2))
            } else {
                Ok((SpecValue::Bytes(payload), n + len + 2))
            }
        },
    }
}

/// A `!` body: like a blob string, but invalid UTF-8 is rendered
/// lossily into error text rather than kept as bytes.
pub open spec fn spec_blob_error(s: Seq<u8>) -> Result<(SpecValue, int), Error> {
    match spec_usize_line(s) {
        Err(e) => Err(e),
        Ok((len, n)) => if n + len + 2 > s.len() {
            Err(Error::IO)
        } else {
            let payload = s.subrange(n, n + len);
            if valid_utf8(payload) {
                Ok((SpecValue::Error(payload), n + len + 2))
            } else {
                Ok((SpecValue::Error(lossy_of(payload)), n + len + 2))
            }
        },
    }
}

/// A `=` body: the declared length covers a four-byte format tag and
/// the content; the tag is read and discarded.
pub open spec fn spec_verbatim(s: Seq<u8>) -> Result<(SpecValue, int), Error> {
    match spec_usize_line(s) {
        Err(e) => Err(e),
        Ok((len, n)) => if len < 4 {
            Err(Error::InvalidByte(None))
        } else if n + len + 2 > s.len() {
            Err(Error::IO)
        } else {
            let payload = s.subrange(n + 4, n + len);
            if valid_utf8(payload) {
                Ok((SpecValue::String(payload), n + len + 2))
            } else {
                Ok((SpecValue::Bytes(payload), n + len + 2))
            }
        },
    }
}

/// A `*` body: a count line, then that many values.
pub open spec fn spec_array(s: Seq<u8>, preserve: bool) -> Result<(SpecValue, int), Error>
    decreases s.len(), 2int, 0int,
{
    match spec_usize_line(s) {
        Err(e) => Err(e),
        Ok((cnt, n)) => if n < 1 || n > s.len() {
            Err(Error::IO)
        } else {
            match spec_decode_n(s.skip(n), cnt, preserve) {
                Err(e) => Err(e),
                Ok((items, c)) => Ok((SpecValue::Array(items), n + c)),
            }
        },
    }
}

/// A `~` body: a count line, then that many members, stored in order.
pub open spec fn spec_set(s: Seq<u8>, preserve: bool) -> Result<(SpecValue, int), Error>
    decreases s.len(), 2int, 0int,
{
    match spec_usize_line(s) {
        Err(e) => Err(e),
        Ok((cnt, n)) => if n < 1 || n > s.len() {
            Err(Error::IO)
        } else {
            match spec_decode_n(s.skip(n), cnt, preserve) {
                Err(e) => Err(e),
                Ok((items, c)) => Ok((SpecValue::SetOf(set_from_spec(items)), n + c)),
            }
        },
    }
}

/// A `%` body: a count line, then that many key/value pairs, stored in
/// key order with a later duplicate key replacing the earlier value.
pub open spec fn spec_map(s: Seq<u8>, preserve: bool) -> Result<(SpecValue, int), Error>
    decreases s.len(), 2int, 0int,
{
    match spec_usize_line(s) {
        Err(e) => Err(e),
        Ok((cnt, n)) => if n < 1 || n > s.len() {
            Err(Error::IO)
        } else {
            match spec_decode_pairs(s.skip(n), cnt, preserve) {
                Err(e) => Err(e),
                Ok((pairs, c)) => Ok((SpecValue::Dict(dict_from_spec(pairs)), n + c)),
            }
        },
    }
}

/// A `|` body: an attribute map, then the annotated value.  With
/// `preserve` the pair is kept; otherwise only the value is returned.
pub open spec fn spec_attribute(s: Seq<u8>, preserve: bool) -> Result<(SpecValue, int), Error>
    decreases s.len(), 2int, 0int,
{
    match spec_usize_line(s) {
        Err(e) => Err(e),
        Ok((cnt, n)) => if n < 1 || n > s.len() {
            Err(Error::IO)
        } else {
            match spec_decode_pairs(s.skip(n), cnt, preserve) {
                Err(e) => Err(e),
                Ok((pairs, c1)) => if c1 < 0 || n + c1 > s.len() {
                    Err(Error::IO)
                } else {
                    match spec_decode(s.skip(n + c1), preserve) {
                        Err(e) => Err(e),
                        Ok((inner, c2)) => if preserve {
                            Ok(
                                (
                                    SpecValue::Attribute(dict_from_spec(pairs), Box::new(inner)),
                                    n + c1 + c2,
                                ),
                            )
                        } else {
                            Ok((inner, n + c1 + c2))
                        },
                    }
                },
            }
        },
    }
}

/// A `>` body: a count line covering the kind string and the payload
/// values; the kind must decode as a string.
pub open spec fn spec_push(s: Seq<u8>, preserve: bool) -> Result<(SpecValue, int), Error>
    decreases s.len(), 2int, 0int,
{
    match spec_usize_line(s) {
        Err(e) => Err(e),
        Ok((cnt, n)) => if n < 1 || n > s.len() {
            Err(Error::IO)
        } else if cnt < 1 {
            Err(Error::InvalidByte(None))
        } else {
            match spec_decode(s.skip(n), preserve) {
                Err(e) => Err(e),
                Ok((kv, c1)) => match kv {
                    SpecValue::String(k) => if c1 < 1 || n + c1 > s.len() {
                        Err(Error::IO)
                    } else {
                        match spec_decode_n(s.skip(n + c1), cnt - 1, preserve) {
                            Err(e) => Err(e),
                            Ok((items, c2)) => Ok((SpecValue::Push(k, items), n + c1 + c2)),
                        }
                    },
                    _ => Err(Error::InvalidByte(None)),
                },
            }
        },
    }
}

/// `cnt` consecutive values from the front of `s`, and the bytes they
/// occupy together.
pub open spec fn spec_decode_n(s: Seq<u8>, cnt: int, preserve: bool) -> Result<
    (Seq<SpecValue>, int),
    Error,
>
    decreases s.len(), 1int, cnt,
{
    if cnt <= 0 {
        Ok((Seq::empty(), 0))
    } else {
        match spec_decode(s, preserve) {
            Err(e) => Err(e),
            Ok((v, c)) => if c < 1 || c > s.len() {
                Err(Error::IO)
            } else {
                match spec_decode_n(s.skip(c), cnt - 1, preserve) {
                    Err(e) => Err(e),
                    Ok((rest, c2)) => Ok((seq![v] + rest, c + c2)),
                }
            },
        }
    }
}

/// `cnt` consecutive key/value pairs from the front of `s`.
pub open spec fn spec_decode_pairs(s: Seq<u8>, cnt: int, preserve: bool) -> Result<
    (Seq<(SpecValue, SpecValue)>, int),
    Error,
>
    decreases s.len(), 1int, cnt,
{
    if cnt <= 0 {
        Ok((Seq::empty(), 0))
    } else {
        match spec_decode(s, preserve) {
            Err(e) => Err(e),
            Ok((k, c1)) => if c1 < 1 || c1 > s.len() {
                Err(Error::IO)
            } else {
                match spec_decode(s.skip(c1), preserve) {
                    Err(e) => Err(e),
                    Ok((v, c2)) => if c2 < 1 || c1 + c2 > s.len() {
                        Err(Error::IO)
                    } else {
                        match spec_decode_pairs(s.skip(c1 + c2), cnt - 1, preserve) {
                            Err(e) => Err(e),
                            Ok((rest, c3)) => Ok((seq![(k, v)] + rest, c1 + c2 + c3)),
                        }
                    },
                }
            },
        }
    }
}


/// Copies `input[from..to]`.
fn copy_range(input: &[u8], from: usize, to: usize) -> (r: Vec<u8>)
    requires
        from <= to <= input@.len(),
    ensures
        r@ == input@.subrange(from as int, to as int),
{
    let mut r: Vec<u8> = Vec::new();
    let mut i: usize = from;
    while i < to
        invariant
            from <= i <= to <= input@.len(),
            r@ == input@.subrange(from as int, i as int),
        decreases to - i,
    {
        r.push(input[i]);
        i = i + 1;
        proof {
            assert(r@ =~= input@.subrange(from as int, i as int));
        }
    }
    r
}

/// Reads one CR LF line starting at `pos`: the content bytes and the
/// position just past the LF.
fn line_at(input: &[u8], pos: usize) -> (r: Result<(Vec<u8>, usize), Error>)
    requires
        pos <= input@.len(),
    ensures
        ({
            let s = input@.skip(pos as int);
            match r {
                Ok((content, end)) => spec_line(s) == Ok::<(Seq<u8>, int), Error>(
                    (content@, end - pos),
                ) && pos < end <= input@.len(),
                Err(e) => spec_line(s) == Err::<(Seq<u8>, int), Error>(e),
            }
        }),
{
    let ghost s = input@.skip(pos as int);
    let mut j: usize = pos;
    while j < input.len() && input[j] != 10
        invariant
            pos <= j <= input@.len(),
            s == input@.skip(pos as int),
            find_lf(s, 0) == find_lf(s, j - pos),
            forall|k: int| pos <= k < j ==> input@[k] != 10,
        decreases input@.len() - j,
    {
        proof {
            assert(s[j - pos] == input@[j as int]);
        }
        j = j + 1;
    }
    proof {
        if j < input@.len() {
            assert(s[j - pos] == input@[j as int]);
        }
        assert(find_lf(s, j - pos) == j - pos);
    }
    if j == input.len() {
        return Err(Error::IO);
    }
    if j == pos {
        return Err(Error::InvalidByte(None));
    }
    if input[j - 1] != 13 {
        proof {
            assert(s[j - pos - 1] == input@[j - 1]);
        }
        return Err(Error::InvalidByte(Some(input[j - 1])));
    }
    let content = copy_range(input, pos, j - 1);
    proof {
        assert(s[j - pos - 1] == input@[j - 1]);
        assert(content@ =~= s.take(j - pos - 1));
    }
    Ok((content, j + 1))
}

/// Reads a line holding an unsigned decimal length.
fn usize_line_at(input: &[u8], pos: usize) -> (r: Result<(usize, usize), Error>)
    requires
        pos <= input@.len(),
    ensures
        ({
            let s = input@.skip(pos as int);
            match r {
                Ok((v, end)) => spec_usize_line(s) == Ok::<(int, int), Error>(
                    (v as int, end - pos),
                ) && pos < end <= input@.len(),
                Err(e) => spec_usize_line(s) == Err::<(int, int), Error>(e),
            }
        }),
{
    match line_at(input, pos) {
        Err(e) => Err(e),
        Ok((content, end)) => match parse_usize(content.as_slice()) {
            Some(v) => Ok((v, end)),
            None => Err(Error::ParseInt),
        },
    }
}

/// Decodes the value starting at `pos` in `input`.  The result is
/// exactly what `spec_decode` gives for the byte suffix at `pos`.
pub fn decode_at(input: &[u8], pos: usize, preserve: bool) -> (r: Result<(Value, usize), Error>)
    requires
        pos <= input@.len(),
    ensures
        ({
            let s = input@.skip(pos as int);
            match r {
                Ok((v, end)) => spec_decode(s, preserve) == Ok::<(SpecValue, int), Error>(
                    (v@, end - pos),
                ) && pos < end <= input@.len(),
                Err(e) => spec_decode(s, preserve) == Err::<(SpecValue, int), Error>(e),
            }
        }),
    decreases input@.len() - pos, 0int,
{
    let ghost s = input@.skip(pos as int);
    if pos == input.len() {
        return Err(Error::IO);
    }
    let b = input[pos];
    proof {
        assert(s[0] == input@[pos as int]);
        assert(s.skip(1) =~= input@.skip(pos as int + 1));
    }
    let q0 = pos + 1;
    let body = if b == 43 {
        simple_string_at(input, q0)
    } else if b == 36 {
        blob_string_at(input, q0)
    } else if b == 45 {
        simple_error_at(input, q0)
    } else if b == 58 {
        number_at(input, q0)
    } else if b == 95 {
        null_at(input, q0)
    } else if b == 44 {
        double_at(input, q0)
    } else if b == 35 {
        bool_at(input, q0)
    } else if b == 33 {
        blob_error_at(input, q0)
    } else if b == 61 {
        verbatim_at(input, q0)
    } else if b == 40 {
        big_number_at(input, q0)
    } else if b == 42 {
        array_at(input, q0, preserve)
    } else if b == 37 {
        map_at(input, q0, preserve)
    } else if b == 126 {
        set_at(input, q0, preserve)
    } else if b == 124 {
        attribute_at(input, q0, preserve)
    } else if b == 62 {
        push_at(input, q0, preserve)
    } else {
        Err(Error::InvalidByte(Some(b)))
    };
    body
}

/// A `+` body starting at `pos`.
fn simple_string_at(input: &[u8], pos: usize) -> (r: Result<(Value, usize), Error>)
    requires
        pos <= input@.len(),
    ensures
        body_matches(r, spec_simple_string(input@.skip(pos as int)), input@.len() as int, pos as int),
{
    match line_at(input, pos) {
        Err(e) => Err(e),
        Ok((content, end)) => {
            if utf8_ok(content.as_slice()) {
                Ok((Value::String(content), end))
            } else {
                Err(Error::IO)
            }
        },
    }
}

/// The shared shape of every body contract: the executable result is
/// the specified one, with positions made absolute.
pub open spec fn body_matches(
    r: Result<(Value, usize), Error>,
    spec_r: Result<(SpecValue, int), Error>,
    len: int,
    pos: int,
) -> bool {
    match r {
        Ok((v, end)) => spec_r == Ok::<(SpecValue, int), Error>((v@, end - pos)) && pos < end
            <= len,
        Err(e) => spec_r == Err::<(SpecValue, int), Error>(e),
    }
}

/// A `-` body starting at `pos`.
fn simple_error_at(input: &[u8], pos: usize) -> (r: Result<(Value, usize), Error>)
    requires
        pos <= input@.len(),
    ensures
        body_matches(r, spec_simple_error(input@.skip(pos as int)), input@.len() as int, pos as int),
{
    match line_at(input, pos) {
        Err(e) => Err(e),
        Ok((content, end)) => {
            if utf8_ok(content.as_slice()) {
                Ok((Value::Error(content), end))
            } else {
                Err(Error::IO)
            }
        },
    }
}

/// A `(` body starting at `pos`.
fn big_number_at(input: &[u8], pos: usize) -> (r: Result<(Value, usize), Error>)
    requires
        pos <= input@.len(),
    ensures
        body_matches(r, spec_big_number(input@.skip(pos as int)), input@.len() as int, pos as int),
{
    match line_at(input, pos) {
        Err(e) => Err(e),
        Ok((content, end)) => {
            if utf8_ok(content.as_slice()) {
                Ok((Value::BigNumber(content), end))
            } else {
                Err(Error::IO)
            }
        },
    }
}

/// A `:` body starting at `pos`.
fn number_at(input: &[u8], pos: usize) -> (r: Result<(Value, usize), Error>)
    requires
        pos <= input@.len(),
    ensures
        body_matches(r, spec_number(input@.skip(pos as int)), input@.len() as int, pos as int),
{
    match line_at(input, pos) {
        Err(e) => Err(e),
        Ok((content, end)) => match parse_i64(content.as_slice()) {
            Some(v) => Ok((Value::Int(v), end)),
            None => Err(Error::ParseInt),
        },
    }
}

/// A `,` body starting at `pos`.
fn double_at(input: &[u8], pos: usize) -> (r: Result<(Value, usize), Error>)
    requires
        pos <= input@.len(),
    ensures
        body_matches(r, spec_double(input@.skip(pos as int)), input@.len() as int, pos as int),
{
    match line_at(input, pos) {
        Err(e) => Err(e),
        Ok((content, end)) => {
            if is_float_bytes(content.as_slice()) {
                Ok((Value::Float(normalize_float(content)), end))
            } else {
                Err(Error::ParseFloat)
            }
        },
    }
}

/// A `_` body starting at `pos`.
fn null_at(input: &[u8], pos: usize) -> (r: Result<(Value, usize), Error>)
    requires
        pos <= input@.len(),
    ensures
        body_matches(r, spec_null(input@.skip(pos as int)), input@.len() as int, pos as int),
{
    if input.len() - pos < 2 {
        Err(Error::IO)
    } else {
        Ok((Value::Null, pos + 2))
    }
}

/// A `#` body starting at `pos`.
fn bool_at(input: &[u8], pos: usize) -> (r: Result<(Value, usize), Error>)
    requires
        pos <= input@.len(),
    ensures
        body_matches(r, spec_bool(input@.skip(pos as int)), input@.len() as int, pos as int),
{
    match line_at(input, pos) {
        Err(e) => Err(e),
        Ok((content, end)) => {
            if content.len() == 0 {
                Err(Error::InvalidByte(None))
            } else if content.len() > 1 {
                Err(Error::InvalidByte(Some(content[1])))
            } else {
                Ok((Value::Bool(content[0] == 116), end))
            }
        },
    }
}

/// A `$` body starting at `pos`.
fn blob_string_at(input: &[u8], pos: usize) -> (r: Result<(Value, usize), Error>)
    requires
        pos <= input@.len(),
    ensures
        body_matches(r, spec_blob_string(input@.skip(pos as int)), input@.len() as int, pos as int),
{
    match usize_line_at(input, pos) {
        Err(e) => Err(e),
        Ok((len, q)) => {
            if input.len() - q < len || input.len() - q - len < 2 {
                Err(Error::IO)
            } else {
                let payload = copy_range(input, q, q + len);
                proof {
                    assert(payload@ =~= input@.skip(pos as int).subrange(q - pos, q - pos + len));
                }
                let ok = utf8_ok(payload.as_slice());
                let end = q + len + 2;
                if ok {
                    Ok((Value::String(payload), end))
                } else {
                    Ok((Value::Bytes(payload), end))
                }
            }
        },
    }
}

/// A `!` body starting at `pos`.
fn blob_error_at(input: &[u8], pos: usize) -> (r: Result<(Value, usize), Error>)
    requires
        pos <= input@.len(),
    ensures
        body_matches(r, spec_blob_error(input@.skip(pos as int)), input@.len() as int, pos as int),
{
    match usize_line_at(input, pos) {
        Err(e) => Err(e),
        Ok((len, q)) => {
            if input.len() - q < len || input.len() - q - len < 2 {
                Err(Error::IO)
            } else {
                let payload = copy_range(input, q, q + len);
                proof {
                    assert(payload@ =~= input@.skip(pos as int).subrange(q - pos, q - pos + len));
                }
                let ok = utf8_ok(payload.as_slice());
                let end = q + len + 2;
                if ok {
                    Ok((Value::Error(payload), end))
                } else {
                    Ok((Value::Error(utf8_lossy(payload.as_slice())), end))
                }
            }
        },
    }
}

/// A `=` body starting at `pos`.
fn verbatim_at(input: &[u8], pos: usize) -> (r: Result<(Value, usize), Error>)
    requires
        pos <= input@.len(),
    ensures
        body_matches(r, spec_verbatim(input@.skip(pos as int)), input@.len() as int, pos as int),
{
    match usize_line_at(input, pos) {
        Err(e) => Err(e),
        Ok((len, q)) => {
            if len < 4 {
                Err(Error::InvalidByte(None))
            } else if input.len() - q < len || input.len() - q - len < 2 {
                Err(Error::IO)
            } else {
                let payload = copy_range(input, q + 4, q + len);
                proof {
                    assert(payload@ =~= input@.skip(pos as int).subrange(
                        q - pos + 4,
                        q - pos + len,
                    ));
                }
                let ok = utf8_ok(payload.as_slice());
                let end = q + len + 2;
                if ok {
                    Ok((Value::String(payload), end))
                } else {
                    Ok((Value::Bytes(payload), end))
                }
            }
        },
    }
}

/// A `*` body starting at `pos`.
fn array_at(input: &[u8], pos: usize, preserve: bool) -> (r: Result<(Value, usize), Error>)
    requires
        pos <= input@.len(),
    ensures
        body_matches(
            r,
            spec_array(input@.skip(pos as int), preserve),
            input@.len() as int,
            pos as int,
        ),
    decreases input@.len() - pos, 2int,
{
    match usize_line_at(input, pos) {
        Err(e) => Err(e),
        Ok((cnt, q)) => {
            proof {
                assert(input@.skip(pos as int).skip(q - pos) =~= input@.skip(q as int));
            }
            match decode_list_at(input, q, cnt, preserve) {
                Err(e) => Err(e),
                Ok((items, end)) => {
                    proof {
                        lemma_view_list(items@);
                    }
                    Ok((Value::Array(items), end))
                },
            }
        },
    }
}

/// A `~` body starting at `pos`.
fn set_at(input: &[u8], pos: usize, preserve: bool) -> (r: Result<(Value, usize), Error>)
    requires
        pos <= input@.len(),
    ensures
        body_matches(
            r,
            spec_set(input@.skip(pos as int), preserve),
            input@.len() as int,
            pos as int,
        ),
    decreases input@.len() - pos, 2int,
{
    match usize_line_at(input, pos) {
        Err(e) => Err(e),
        Ok((cnt, q)) => {
            proof {
                assert(input@.skip(pos as int).skip(q - pos) =~= input@.skip(q as int));
            }
            match decode_set_at(input, q, cnt, preserve) {
                Err(e) => Err(e),
                Ok((items, end)) => Ok((Value::SetOf(items), end)),
            }
        },
    }
}

/// A `%` body starting at `pos`.
fn map_at(input: &[u8], pos: usize, preserve: bool) -> (r: Result<(Value, usize), Error>)
    requires
        pos <= input@.len(),
    ensures
        body_matches(
            r,
            spec_map(input@.skip(pos as int), preserve),
            input@.len() as int,
            pos as int,
        ),
    decreases input@.len() - pos, 2int,
{
    match usize_line_at(input, pos) {
        Err(e) => Err(e),
        Ok((cnt, q)) => {
            proof {
                assert(input@.skip(pos as int).skip(q - pos) =~= input@.skip(q as int));
            }
            match decode_dict_at(input, q, cnt, preserve) {
                Err(e) => Err(e),
                Ok((es, end)) => Ok((Value::Dict(es), end)),
            }
        },
    }
}

/// A `|` body starting at `pos`.
fn attribute_at(input: &[u8], pos: usize, preserve: bool) -> (r: Result<(Value, usize), Error>)
    requires
        pos <= input@.len(),
    ensures
        body_matches(
            r,
            spec_attribute(input@.skip(pos as int), preserve),
            input@.len() as int,
            pos as int,
        ),
    decreases input@.len() - pos, 2int,
{
    match usize_line_at(input, pos) {
        Err(e) => Err(e),
        Ok((cnt, q)) => {
            proof {
                assert(input@.skip(pos as int).skip(q - pos) =~= input@.skip(q as int));
            }
            match decode_dict_at(input, q, cnt, preserve) {
                Err(e) => Err(e),
                Ok((es, mid)) => {
                    proof {
                        assert(input@.skip(pos as int).skip(mid - pos) =~= input@.skip(
                            mid as int,
                        ));
                    }
                    match decode_at(input, mid, preserve) {
                    Err(e) => Err(e),
                    Ok((inner, end)) => {
                        if preserve {
                            Ok((Value::Attribute(es, Box::new(inner)), end))
                        } else {
                            Ok((inner, end))
                        }
                    },
                }
                },
            }
        },
    }
}

/// A `>` body starting at `pos`.
fn push_at(input: &[u8], pos: usize, preserve: bool) -> (r: Result<(Value, usize), Error>)
    requires
        pos <= input@.len(),
    ensures
        body_matches(
            r,
            spec_push(input@.skip(pos as int), preserve),
            input@.len() as int,
            pos as int,
        ),
    decreases input@.len() - pos, 2int,
{
    match usize_line_at(input, pos) {
        Err(e) => Err(e),
        Ok((cnt, q)) => {
            if cnt < 1 {
                Err(Error::InvalidByte(None))
            } else {
                proof {
                    assert(input@.skip(pos as int).skip(q - pos) =~= input@.skip(q as int));
                }
                match decode_at(input, q, preserve) {
                    Err(e) => Err(e),
                    Ok((kv, mid)) => match kv {
                        Value::String(k) => {
                            proof {
                                assert(input@.skip(pos as int).skip(mid - pos) =~= input@.skip(
                                    mid as int,
                                ));
                            }
                            match decode_list_at(input, mid, cnt - 1, preserve) {
                                Err(e) => Err(e),
                                Ok((items, end)) => {
                                    proof {
                                        lemma_view_list(items@);
                                    }
                                    Ok((Value::Push(k, items), end))
                                },
                            }
                        },
                        _ => Err(Error::InvalidByte(None)),
                    },
                }
            }
        },
    }
}

/// Decodes `cnt` values in a row, collecting them in order.
fn decode_list_at(input: &[u8], pos: usize, cnt: usize, preserve: bool) -> (r: Result<
    (Vec<Value>, usize),
    Error,
>)
    requires
        pos <= input@.len(),
    ensures
        ({
            let s = input@.skip(pos as int);
            match r {
                Ok((items, end)) => spec_decode_n(s, cnt as int, preserve) == Ok::<
                    (Seq<SpecValue>, int),
                    Error,
                >((view_list(items@), end - pos)) && pos <= end <= input@.len(),
                Err(e) => spec_decode_n(s, cnt as int, preserve) == Err::<
                    (Seq<SpecValue>, int),
                    Error,
                >(e),
            }
        }),
    decreases input@.len() - pos, 1int,
{
    let ghost s = input@.skip(pos as int);
    let mut items: Vec<Value> = Vec::new();
    let mut cur: usize = pos;
    let mut k: usize = 0;
    proof {
        lemma_view_list(items@);
        assert(view_list(items@) =~= Seq::<SpecValue>::empty());
    }
    while k < cnt
        invariant
            pos <= cur <= input@.len(),
            k <= cnt,
            k < cnt ==> cur > pos || k == 0,
            s == input@.skip(pos as int),
            ({
                match spec_decode_n(input@.skip(cur as int), cnt - k, preserve) {
                    Ok((rest, c)) => spec_decode_n(s, cnt as int, preserve) == Ok::<
                        (Seq<SpecValue>, int),
                        Error,
                    >((view_list(items@) + rest, (cur - pos) + c)),
                    Err(e) => spec_decode_n(s, cnt as int, preserve) == Err::<
                        (Seq<SpecValue>, int),
                        Error,
                    >(e),
                }
            }),
        decreases cnt - k,
    {
        proof {
            lemma_view_list(items@);
        }
        let ghost items_before = items@;
        match decode_at(input, cur, preserve) {
            Err(e) => {
                return Err(e);
            },
            Ok((v, next)) => {
                proof {
                    lemma_step_list(input@, cur as int, next as int, cnt - k, v@, preserve);
                    lemma_view_list_push(items@, v);
                }
                items.push(v);
                cur = next;
            },
        }
        k = k + 1;
        proof {
            assert(view_list(items_before).push(view_list(items@).last()) =~= view_list(items@));
            lemma_regroup(view_list(items_before), view_list(items@));
        }
    }
    proof {
        assert(spec_decode_n(input@.skip(cur as int), 0, preserve) == Ok::<
            (Seq<SpecValue>, int),
            Error,
        >((Seq::empty(), 0)));
        assert(view_list(items@) + Seq::<SpecValue>::empty() =~= view_list(items@));
    }
    Ok((items, cur))
}

/// One unfolding step of `spec_decode_n` when the head value is known.
proof fn lemma_step_list(
    whole: Seq<u8>,
    cur: int,
    next: int,
    left: int,
    v: SpecValue,
    preserve: bool,
)
    requires
        0 <= cur < next <= whole.len(),
        left >= 1,
        spec_decode(whole.skip(cur), preserve) == Ok::<(SpecValue, int), Error>((v, next - cur)),
    ensures
        spec_decode_n(whole.skip(cur), left, preserve) == (match spec_decode_n(
            whole.skip(next),
            left - 1,
            preserve,
        ) {
            Ok((rest, c)) => Ok::<(Seq<SpecValue>, int), Error>((seq![v] + rest, (next - cur) + c)),
            Err(e) => Err::<(Seq<SpecValue>, int), Error>(e),
        }),
{
    assert(whole.skip(cur).skip(next - cur) =~= whole.skip(next));
}

/// Appending an element to a built prefix regroups the concatenation.
proof fn lemma_regroup(done: Seq<SpecValue>, done2: Seq<SpecValue>)
    requires
        done2 == done.push(done2.last()),
        done2.len() == done.len() + 1,
    ensures
        forall|rest: Seq<SpecValue>|
            done + (seq![done2.last()] + rest) =~= #[trigger] (done2 + rest),
{
    assert forall|rest: Seq<SpecValue>|
        done + (seq![done2.last()] + rest) =~= #[trigger] (done2 + rest) by {
        assert(done + (seq![done2.last()] + rest) =~= done2 + rest);
    }
}

/// The list view after a push grows by the pushed value's view.
proof fn lemma_view_list_push(l: Seq<Value>, v: Value)
    ensures
        view_list(l.push(v)) == view_list(l).push(v@),
{
    assert(l.push(v).drop_last() =~= l);
    assert(view_list(l.push(v)) == view_list(l.push(v).drop_last()).push(l.push(v).last()@));
}

/// Decodes `cnt` values in a row into a sorted, duplicate-free member
/// vector.
fn decode_set_at(input: &[u8], pos: usize, cnt: usize, preserve: bool) -> (r: Result<
    (Vec<Value>, usize),
    Error,
>)
    requires
        pos <= input@.len(),
    ensures
        ({
            let s = input@.skip(pos as int);
            match r {
                Ok((items, end)) => spec_decode_n(s, cnt as int, preserve) is Ok && view_list(
                    items@,
                ) == set_from_spec(spec_decode_n(s, cnt as int, preserve)->Ok_0.0) && end - pos
                    == spec_decode_n(s, cnt as int, preserve)->Ok_0.1 && pos <= end
                    <= input@.len(),
                Err(e) => spec_decode_n(s, cnt as int, preserve) == Err::<
                    (Seq<SpecValue>, int),
                    Error,
                >(e),
            }
        }),
    decreases input@.len() - pos, 1int,
{
    let ghost s = input@.skip(pos as int);
    let mut items: Vec<Value> = Vec::new();
    let ghost done: Seq<SpecValue> = Seq::empty();
    let mut cur: usize = pos;
    let mut k: usize = 0;
    proof {
        lemma_view_list(items@);
        assert(view_list(items@) =~= set_from_spec(done));
    }
    while k < cnt
        invariant
            pos <= cur <= input@.len(),
            k <= cnt,
            s == input@.skip(pos as int),
            view_list(items@) == set_from_spec(done),
            done.len() == k,
            ({
                match spec_decode_n(input@.skip(cur as int), cnt - k, preserve) {
                    Ok((rest, c)) => spec_decode_n(s, cnt as int, preserve) == Ok::<
                        (Seq<SpecValue>, int),
                        Error,
                    >((done + rest, (cur - pos) + c)),
                    Err(e) => spec_decode_n(s, cnt as int, preserve) == Err::<
                        (Seq<SpecValue>, int),
                        Error,
                    >(e),
                }
            }),
        decreases cnt - k,
    {
        let ghost done_before = done;
        match decode_at(input, cur, preserve) {
            Err(e) => {
                return Err(e);
            },
            Ok((v, next)) => {
                proof {
                    lemma_step_list(input@, cur as int, next as int, cnt - k, v@, preserve);
                }
                proof {
                    done = done.push(v@);
                }
                set_insert(&mut items, v);
                cur = next;
                proof {
                    assert(done.drop_last() =~= done_before);
                    lemma_regroup(done_before, done);
                }
            },
        }
        k = k + 1;
    }
    proof {
        assert(spec_decode_n(input@.skip(cur as int), 0, preserve) == Ok::<
            (Seq<SpecValue>, int),
            Error,
        >((Seq::empty(), 0)));
        assert(done + Seq::<SpecValue>::empty() =~= done);
    }
    Ok((items, cur))
}

/// Decodes `cnt` key/value pairs into a key-sorted entry vector; a
/// repeated key keeps the last value.
fn decode_dict_at(input: &[u8], pos: usize, cnt: usize, preserve: bool) -> (r: Result<
    (Vec<Entry>, usize),
    Error,
>)
    requires
        pos <= input@.len(),
    ensures
        ({
            let s = input@.skip(pos as int);
            match r {
                Ok((es, end)) => spec_decode_pairs(s, cnt as int, preserve) is Ok && view_entries(
                    es@,
                ) == dict_from_spec(spec_decode_pairs(s, cnt as int, preserve)->Ok_0.0) && end - pos
                    == spec_decode_pairs(s, cnt as int, preserve)->Ok_0.1 && pos <= end
                    <= input@.len(),
                Err(e) => spec_decode_pairs(s, cnt as int, preserve) == Err::<
                    (Seq<(SpecValue, SpecValue)>, int),
                    Error,
                >(e),
            }
        }),
    decreases input@.len() - pos, 1int,
{
    let ghost s = input@.skip(pos as int);
    let mut es: Vec<Entry> = Vec::new();
    let ghost done: Seq<(SpecValue, SpecValue)> = Seq::empty();
    let mut cur: usize = pos;
    let mut k: usize = 0;
    proof {
        lemma_view_entries(es@);
        assert(view_entries(es@) =~= dict_from_spec(done));
    }
    while k < cnt
        invariant
            pos <= cur <= input@.len(),
            k <= cnt,
            s == input@.skip(pos as int),
            view_entries(es@) == dict_from_spec(done),
            done.len() == k,
            ({
                match spec_decode_pairs(input@.skip(cur as int), cnt - k, preserve) {
                    Ok((rest, c)) => spec_decode_pairs(s, cnt as int, preserve) == Ok::<
                        (Seq<(SpecValue, SpecValue)>, int),
                        Error,
                    >((done + rest, (cur - pos) + c)),
                    Err(e) => spec_decode_pairs(s, cnt as int, preserve) == Err::<
                        (Seq<(SpecValue, SpecValue)>, int),
                        Error,
                    >(e),
                }
            }),
        decreases cnt - k,
    {
        let ghost done_before = done;
        match decode_at(input, cur, preserve) {
            Err(e) => {
                return Err(e);
            },
            Ok((kv, mid)) => {
                proof {
                    assert(input@.skip(cur as int).skip(mid - cur) =~= input@.skip(mid as int));
                }
                match decode_at(input, mid, preserve) {
                    Err(e) => {
                        return Err(e);
                    },
                    Ok((vv, next)) => {
                        proof {
                            lemma_step_pairs(
                                input@,
                                cur as int,
                                mid as int,
                                next as int,
                                cnt - k,
                                kv@,
                                vv@,
                                preserve,
                            );
                        }
                        proof {
                            done = done.push((kv@, vv@));
                        }
                        dict_insert(&mut es, kv, vv);
                        cur = next;
                        proof {
                            assert(done.drop_last() =~= done_before);
                            lemma_regroup_pairs(done_before, done);
                        }
                    },
                }
            },
        }
        k = k + 1;
    }
    proof {
        assert(spec_decode_pairs(input@.skip(cur as int), 0, preserve) == Ok::<
            (Seq<(SpecValue, SpecValue)>, int),
            Error,
        >((Seq::empty(), 0)));
        assert(done + Seq::<(SpecValue, SpecValue)>::empty() =~= done);
    }
    Ok((es, cur))
}

/// One unfolding step of `spec_decode_pairs` when both halves of the
/// head pair are known.
proof fn lemma_step_pairs(
    whole: Seq<u8>,
    cur: int,
    mid: int,
    next: int,
    left: int,
    k: SpecValue,
    v: SpecValue,
    preserve: bool,
)
    requires
        0 <= cur < mid < next <= whole.len() || (0 <= cur < mid && mid < next && next
            <= whole.len()),
        left >= 1,
        spec_decode(whole.skip(cur), preserve) == Ok::<(SpecValue, int), Error>((k, mid - cur)),
        spec_decode(whole.skip(mid), preserve) == Ok::<(SpecValue, int), Error>((v, next - mid)),
    ensures
        spec_decode_pairs(whole.skip(cur), left, preserve) == (match spec_decode_pairs(
            whole.skip(next),
            left - 1,
            preserve,
        ) {
            Ok((rest, c)) => Ok::<(Seq<(SpecValue, SpecValue)>, int), Error>(
                (seq![(k, v)] + rest, (next - cur) + c),
            ),
            Err(e) => Err::<(Seq<(SpecValue, SpecValue)>, int), Error>(e),
        }),
{
    assert(whole.skip(cur).skip(mid - cur) =~= whole.skip(mid));
    assert(whole.skip(cur).skip((mid - cur) + (next - mid)) =~= whole.skip(next));
}

/// See `lemma_regroup`, for pairs.
proof fn lemma_regroup_pairs(done: Seq<(SpecValue, SpecValue)>, done2: Seq<(SpecValue, SpecValue)>)
    requires
        done2 == done.push(done2.last()),
        done2.len() == done.len() + 1,
    ensures
        forall|rest: Seq<(SpecValue, SpecValue)>|
            done + (seq![done2.last()] + rest) =~= #[trigger] (done2 + rest),
{
    assert forall|rest: Seq<(SpecValue, SpecValue)>|
        done + (seq![done2.last()] + rest) =~= #[trigger] (done2 + rest) by {
        assert(done + (seq![done2.last()] + rest) =~= done2 + rest);
    }
}


/// The wire decoder: a cursor over a byte buffer.  Feed more bytes by
/// extending the buffer; a frame that runs past the end reports an I/O
/// failure and leaves the cursor where it was.
pub struct Decoder {
    /// The bytes received so far.
    pub input: Vec<u8>,
    /// The read position: everything before it has been decoded.
    pub pos: usize,
    /// Whether `|` frames are kept as `Attribute` values (the default)
    /// or silently skipped, yielding only the annotated value.
    pub preserve_attributes: bool,
}

impl Decoder {
    /// Starts a decoder at the beginning of the given bytes.
    pub fn new(x: Vec<u8>) -> (r: Decoder)
        ensures
            r.input@ == x@,
            r.pos == 0,
            r.preserve_attributes,
    {
        Decoder { input: x, pos: 0, preserve_attributes: true }
    }

    /// The underlying buffer.
    pub fn get_ref(&self) -> (r: &Vec<u8>)
        ensures
            r@ == self.input@,
    {
        &self.input
    }

    /// The underlying buffer, for in-place use; a caller that shrinks
    /// it below the cursor must move the cursor back as well.
    pub fn get_mut(&mut self) -> (r: &mut Vec<u8>)
        ensures
            *r == old(self).input,
            final(self).input == *final(r),
            final(self).pos == old(self).pos,
            final(self).preserve_attributes == old(self).preserve_attributes,
    {
        &mut self.input
    }

    /// Gives the buffer up.
    pub fn into_inner(self) -> (r: Vec<u8>)
        ensures
            r@ == self.input@,
    {
        self.input
    }

    /// Appends freshly received bytes to the buffer.
    pub fn feed(&mut self, more: &[u8])
        ensures
            final(self).input@ == old(self).input@ + more@,
            final(self).pos == old(self).pos,
            final(self).preserve_attributes == old(self).preserve_attributes,
    {
        let mut i: usize = 0;
        while i < more.len()
            invariant
                i <= more@.len(),
                self.input@ == old(self).input@ + more@.take(i as int),
                self.pos == old(self).pos,
                self.preserve_attributes == old(self).preserve_attributes,
            decreases more@.len() - i,
        {
            self.input.push(more[i]);
            i = i + 1;
            proof {
                assert(self.input@ =~= old(self).input@ + more@.take(i as int));
            }
        }
        proof {
            assert(more@.take(i as int) =~= more@);
        }
    }

    /// Advances the cursor by `n` bytes, at most to the end.
    pub fn skip(&mut self, n: usize)
        ensures
            final(self).input == old(self).input,
            final(self).preserve_attributes == old(self).preserve_attributes,
            final(self).pos == if old(self).pos + n <= old(self).input@.len() {
                old(self).pos + n
            } else {
                old(self).input@.len() as int
            },
    {
        if n <= self.input.len() && self.pos <= self.input.len() - n {
            self.pos = self.pos + n;
        } else {
            self.pos = self.input.len();
        }
    }

    /// Advances the cursor past one CR LF pair, unexamined.
    pub fn skip_crlf(&mut self)
        ensures
            final(self).input == old(self).input,
            final(self).preserve_attributes == old(self).preserve_attributes,
            final(self).pos == if old(self).pos + 2 <= old(self).input@.len() {
                old(self).pos + 2
            } else {
                old(self).input@.len() as int
            },
    {
        self.skip(2)
    }

    /// Reads the prefix byte of the next frame.
    pub fn next_prefix(&mut self) -> (r: Result<u8, Error>)
        requires
            old(self).pos <= old(self).input@.len(),
        ensures
            final(self).input == old(self).input,
            final(self).preserve_attributes == old(self).preserve_attributes,
            match r {
                Ok(b) => old(self).pos < old(self).input@.len() && b == old(self).input@[old(self).pos as int] && final(self).pos == old(self).pos + 1,
                Err(e) => old(self).pos == old(self).input@.len() && e == Error::IO && final(self).pos == old(self).pos,
            },
    {
        if self.pos == self.input.len() {
            Err(Error::IO)
        } else {
            let b = self.input[self.pos];
            self.pos = self.pos + 1;
            Ok(b)
        }
    }

    /// Reads a `+` simple string body; the frame's prefix byte must already be consumed.
    pub fn read_simple_string(&mut self) -> (r: Result<Value, Error>)
        requires
            old(self).pos <= old(self).input@.len(),
        ensures
            final(self).input == old(self).input,
            final(self).preserve_attributes == old(self).preserve_attributes,
            ({
                let d = spec_simple_string(old(self).input@.skip(old(self).pos as int));
                match r {
                    Ok(v) => d is Ok && v@ == d->Ok_0.0 && final(self).pos == old(self).pos
                        + d->Ok_0.1 && final(self).pos <= old(self).input@.len(),
                    Err(e) => d == Err::<(SpecValue, int), Error>(e) && final(self).pos == old(self).pos,
                }
            }),
    {
        match simple_string_at(self.input.as_slice(), self.pos) {
            Ok((v, end)) => {
                self.pos = end;
                Ok(v)
            },
            Err(e) => Err(e),
        }
    }

    /// Reads a `-` simple error body; the frame's prefix byte must already be consumed.
    pub fn read_simple_error(&mut self) -> (r: Result<Value, Error>)
        requires
            old(self).pos <= old(self).input@.len(),
        ensures
            final(self).input == old(self).input,
            final(self).preserve_attributes == old(self).preserve_attributes,
            ({
                let d = spec_simple_error(old(self).input@.skip(old(self).pos as int));
                match r {
                    Ok(v) => d is Ok && v@ == d->Ok_0.0 && final(self).pos == old(self).pos
                        + d->Ok_0.1 && final(self).pos <= old(self).input@.len(),
                    Err(e) => d == Err::<(SpecValue, int), Error>(e) && final(self).pos == old(self).pos,
                }
            }),
    {
        match simple_error_at(self.input.as_slice(), self.pos) {
            Ok((v, end)) => {
                self.pos = end;
                Ok(v)
            },
            Err(e) => Err(e),
        }
    }

    /// Reads a `$` blob string body; the frame's prefix byte must already be consumed.
    pub fn read_blob_string(&mut self) -> (r: Result<Value, Error>)
        requires
            old(self).pos <= old(self).input@.len(),
        ensures
            final(self).input == old(self).input,
            final(self).preserve_attributes == old(self).preserve_attributes,
            ({
                let d = spec_blob_string(old(self).input@.skip(old(self).pos as int));
                match r {
                    Ok(v) => d is Ok && v@ == d->Ok_0.0 && final(self).pos == old(self).pos
                        + d->Ok_0.1 && final(self).pos <= old(self).input@.len(),
                    Err(e) => d == Err::<(SpecValue, int), Error>(e) && final(self).pos == old(self).pos,
                }
            }),
    {
        match blob_string_at(self.input.as_slice(), self.pos) {
            Ok((v, end)) => {
                self.pos = end;
                Ok(v)
            },
            Err(e) => Err(e),
        }
    }

    /// Reads a `:` integer body; the frame's prefix byte must already be consumed.
    pub fn read_number(&mut self) -> (r: Result<Value, Error>)
        requires
            old(self).pos <= old(self).input@.len(),
        ensures
            final(self).input == old(self).input,
            final(self).preserve_attributes == old(self).preserve_attributes,
            ({
                let d = spec_number(old(self).input@.skip(old(self).pos as int));
                match r {
                    Ok(v) => d is Ok && v@ == d->Ok_0.0 && final(self).pos == old(self).pos
                        + d->Ok_0.1 && final(self).pos <= old(self).input@.len(),
                    Err(e) => d == Err::<(SpecValue, int), Error>(e) && final(self).pos == old(self).pos,
                }
            }),
    {
        match number_at(self.input.as_slice(), self.pos) {
            Ok((v, end)) => {
                self.pos = end;
                Ok(v)
            },
            Err(e) => Err(e),
        }
    }

    /// Reads a `_` null body; the frame's prefix byte must already be consumed.
    pub fn read_null(&mut self) -> (r: Result<Value, Error>)
        requires
            old(self).pos <= old(self).input@.len(),
        ensures
            final(self).input == old(self).input,
            final(self).preserve_attributes == old(self).preserve_attributes,
            ({
                let d = spec_null(old(self).input@.skip(old(self).pos as int));
                match r {
                    Ok(v) => d is Ok && v@ == d->Ok_0.0 && final(self).pos == old(self).pos
                        + d->Ok_0.1 && final(self).pos <= old(self).input@.len(),
                    Err(e) => d == Err::<(SpecValue, int), Error>(e) && final(self).pos == old(self).pos,
                }
            }),
    {
        match null_at(self.input.as_slice(), self.pos) {
            Ok((v, end)) => {
                self.pos = end;
                Ok(v)
            },
            Err(e) => Err(e),
        }
    }

    /// Reads a `,` double body; the frame's prefix byte must already be consumed.
    pub fn read_double(&mut self) -> (r: Result<Value, Error>)
        requires
            old(self).pos <= old(self).input@.len(),
        ensures
            final(self).input == old(self).input,
            final(self).preserve_attributes == old(self).preserve_attributes,
            ({
                let d = spec_double(old(self).input@.skip(old(self).pos as int));
                match r {
                    Ok(v) => d is Ok && v@ == d->Ok_0.0 && final(self).pos == old(self).pos
                        + d->Ok_0.1 && final(self).pos <= old(self).input@.len(),
                    Err(e) => d == Err::<(SpecValue, int), Error>(e) && final(self).pos == old(self).pos,
                }
            }),
    {
        match double_at(self.input.as_slice(), self.pos) {
            Ok((v, end)) => {
                self.pos = end;
                Ok(v)
            },
            Err(e) => Err(e),
        }
    }

    /// Reads a `#` boolean body; the frame's prefix byte must already be consumed.
    pub fn read_bool(&mut self) -> (r: Result<Value, Error>)
        requires
            old(self).pos <= old(self).input@.len(),
        ensures
            final(self).input == old(self).input,
            final(self).preserve_attributes == old(self).preserve_attributes,
            ({
                let d = spec_bool(old(self).input@.skip(old(self).pos as int));
                match r {
                    Ok(v) => d is Ok && v@ == d->Ok_0.0 && final(self).pos == old(self).pos
                        + d->Ok_0.1 && final(self).pos <= old(self).input@.len(),
                    Err(e) => d == Err::<(SpecValue, int), Error>(e) && final(self).pos == old(self).pos,
                }
            }),
    {
        match bool_at(self.input.as_slice(), self.pos) {
            Ok((v, end)) => {
                self.pos = end;
                Ok(v)
            },
            Err(e) => Err(e),
        }
    }

    /// Reads a `!` blob error body; the frame's prefix byte must already be consumed.
    pub fn read_blob_error(&mut self) -> (r: Result<Value, Error>)
        requires
            old(self).pos <= old(self).input@.len(),
        ensures
            final(self).input == old(self).input,
            final(self).preserve_attributes == old(self).preserve_attributes,
            ({
                let d = spec_blob_error(old(self).input@.skip(old(self).pos as int));
                match r {
                    Ok(v) => d is Ok && v@ == d->Ok_0.0 && final(self).pos == old(self).pos
                        + d->Ok_0.1 && final(self).pos <= old(self).input@.len(),
                    Err(e) => d == Err::<(SpecValue, int), Error>(e) && final(self).pos == old(self).pos,
                }
            }),
    {
        match blob_error_at(self.input.as_slice(), self.pos) {
            Ok((v, end)) => {
                self.pos = end;
                Ok(v)
            },
            Err(e) => Err(e),
        }
    }

    /// Reads a `=` verbatim string body; the frame's prefix byte must already be consumed.
    pub fn read_verbatim_string(&mut self) -> (r: Result<Value, Error>)
        requires
            old(self).pos <= old(self).input@.len(),
        ensures
            final(self).input == old(self).input,
            final(self).preserve_attributes == old(self).preserve_attributes,
            ({
                let d = spec_verbatim(old(self).input@.skip(old(self).pos as int));
                match r {
                    Ok(v) => d is Ok && v@ == d->Ok_0.0 && final(self).pos == old(self).pos
                        + d->Ok_0.1 && final(self).pos <= old(self).input@.len(),
                    Err(e) => d == Err::<(SpecValue, int), Error>(e) && final(self).pos == old(self).pos,
                }
            }),
    {
        match verbatim_at(self.input.as_slice(), self.pos) {
            Ok((v, end)) => {
                self.pos = end;
                Ok(v)
            },
            Err(e) => Err(e),
        }
    }

    /// Reads a `(` big number body; the frame's prefix byte must already be consumed.
    pub fn read_big_number(&mut self) -> (r: Result<Value, Error>)
        requires
            old(self).pos <= old(self).input@.len(),
        ensures
            final(self).input == old(self).input,
            final(self).preserve_attributes == old(self).preserve_attributes,
            ({
                let d = spec_big_number(old(self).input@.skip(old(self).pos as int));
                match r {
                    Ok(v) => d is Ok && v@ == d->Ok_0.0 && final(self).pos == old(self).pos
                        + d->Ok_0.1 && final(self).pos <= old(self).input@.len(),
                    Err(e) => d == Err::<(SpecValue, int), Error>(e) && final(self).pos == old(self).pos,
                }
            }),
    {
        match big_number_at(self.input.as_slice(), self.pos) {
            Ok((v, end)) => {
                self.pos = end;
                Ok(v)
            },
            Err(e) => Err(e),
        }
    }

    /// Reads a `*` array body; the frame's prefix byte must already be consumed.
    pub fn read_array(&mut self) -> (r: Result<Value, Error>)
        requires
            old(self).pos <= old(self).input@.len(),
        ensures
            final(self).input == old(self).input,
            final(self).preserve_attributes == old(self).preserve_attributes,
            ({
                let d = spec_array(old(self).input@.skip(old(self).pos as int), old(self).preserve_attributes);
                match r {
                    Ok(v) => d is Ok && v@ == d->Ok_0.0 && final(self).pos == old(self).pos
                        + d->Ok_0.1 && final(self).pos <= old(self).input@.len(),
                    Err(e) => d == Err::<(SpecValue, int), Error>(e) && final(self).pos == old(self).pos,
                }
            }),
    {
        match array_at(self.input.as_slice(), self.pos, self.preserve_attributes) {
            Ok((v, end)) => {
                self.pos = end;
                Ok(v)
            },
            Err(e) => Err(e),
        }
    }

    /// Reads a `%` map body; the frame's prefix byte must already be consumed.
    pub fn read_map(&mut self) -> (r: Result<Value, Error>)
        requires
            old(self).pos <= old(self).input@.len(),
        ensures
            final(self).input == old(self).input,
            final(self).preserve_attributes == old(self).preserve_attributes,
            ({
                let d = spec_map(old(self).input@.skip(old(self).pos as int), old(self).preserve_attributes);
                match r {
                    Ok(v) => d is Ok && v@ == d->Ok_0.0 && final(self).pos == old(self).pos
                        + d->Ok_0.1 && final(self).pos <= old(self).input@.len(),
                    Err(e) => d == Err::<(SpecValue, int), Error>(e) && final(self).pos == old(self).pos,
                }
            }),
    {
        match map_at(self.input.as_slice(), self.pos, self.preserve_attributes) {
            Ok((v, end)) => {
                self.pos = end;
                Ok(v)
            },
            Err(e) => Err(e),
        }
    }

    /// Reads a `~` set body; the frame's prefix byte must already be consumed.
    pub fn read_set(&mut self) -> (r: Result<Value, Error>)
        requires
            old(self).pos <= old(self).input@.len(),
        ensures
            final(self).input == old(self).input,
            final(self).preserve_attributes == old(self).preserve_attributes,
            ({
                let d = spec_set(old(self).input@.skip(old(self).pos as int), old(self).preserve_attributes);
                match r {
                    Ok(v) => d is Ok && v@ == d->Ok_0.0 && final(self).pos == old(self).pos
                        + d->Ok_0.1 && final(self).pos <= old(self).input@.len(),
                    Err(e) => d == Err::<(SpecValue, int), Error>(e) && final(self).pos == old(self).pos,
                }
            }),
    {
        match set_at(self.input.as_slice(), self.pos, self.preserve_attributes) {
            Ok((v, end)) => {
                self.pos = end;
                Ok(v)
            },
            Err(e) => Err(e),
        }
    }

    /// Reads a `>` push body; the frame's prefix byte must already be consumed.
    pub fn read_push(&mut self) -> (r: Result<Value, Error>)
        requires
            old(self).pos <= old(self).input@.len(),
        ensures
            final(self).input == old(self).input,
            final(self).preserve_attributes == old(self).preserve_attributes,
            ({
                let d = spec_push(old(self).input@.skip(old(self).pos as int), old(self).preserve_attributes);
                match r {
                    Ok(v) => d is Ok && v@ == d->Ok_0.0 && final(self).pos == old(self).pos
                        + d->Ok_0.1 && final(self).pos <= old(self).input@.len(),
                    Err(e) => d == Err::<(SpecValue, int), Error>(e) && final(self).pos == old(self).pos,
                }
            }),
    {
        match push_at(self.input.as_slice(), self.pos, self.preserve_attributes) {
            Ok((v, end)) => {
                self.pos = end;
                Ok(v)
            },
            Err(e) => Err(e),
        }
    }

    /// Decodes one value at the cursor.  On success the cursor moves
    /// past the frame; on failure it stays put.
    pub fn decode(&mut self) -> (r: Result<Value, Error>)
        requires
            old(self).pos <= old(self).input@.len(),
        ensures
            final(self).input == old(self).input,
            final(self).preserve_attributes == old(self).preserve_attributes,
            ({
                let s = old(self).input@.skip(old(self).pos as int);
                let d = spec_decode(s, old(self).preserve_attributes);
                match r {
                    Ok(v) => d is Ok && v@ == d->Ok_0.0 && final(self).pos == old(self).pos
                        + d->Ok_0.1 && final(self).pos <= old(self).input@.len(),
                    Err(e) => d == Err::<(SpecValue, int), Error>(e) && final(self).pos == old(self).pos,
                }
            }),
    {
        match decode_at(self.input.as_slice(), self.pos, self.preserve_attributes) {
            Ok((v, end)) => {
                self.pos = end;
                Ok(v)
            },
            Err(e) => Err(e),
        }
    }
}

} // verus!
