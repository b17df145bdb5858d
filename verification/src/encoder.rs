//! The wire encoder.
//!
//! `spec_encode` is the byte-exact mathematical image of a value on the
//! wire; `Encoder` appends exactly those bytes to its output buffer.
//! Strings and errors use the short, prefix-only form when the payload
//! holds no CR or LF, and the length-prefixed blob form otherwise.
//! Encoding is total for every value that does not contain the `Done`
//! sentinel; a value containing `Done` is refused without writing.

use vstd::prelude::*;
use crate::error::Error;
use crate::number::dec_int;
use crate::number::dec_nat;
use crate::number::fmt_i64;
use crate::number::fmt_usize;
use crate::value::Entry;
use crate::value::SpecValue;
use crate::value::Value;
use crate::value::view_list;
use crate::value::view_entries;
use crate::value::lemma_view_list;
use crate::value::lemma_view_entries;
use vstd::string::StrSliceExecFns;

verus! {

/// The two bytes that end every line of the wire format.
pub open spec fn crlf() -> Seq<u8> {
    seq![13u8, 10u8]
}

/// True when the payload holds a CR or LF byte, which rules out the
/// short, prefix-only text form.
pub open spec fn has_line_break(s: Seq<u8>) -> bool {
    exists|i: int| 0 <= i < s.len() && (s[i] == 13 || s[i] == 10)
}

/// One line: a prefix byte, a payload, CR LF.
pub open spec fn enc_line(prefix: u8, s: Seq<u8>) -> Seq<u8> {
    seq![prefix] + s + crlf()
}

/// One blob: a prefix byte, the payload length in decimal, CR LF, the
/// payload, CR LF.
pub open spec fn enc_blob(prefix: u8, s: Seq<u8>) -> Seq<u8> {
    seq![prefix] + dec_nat(s.len()) + crlf() + s + crlf()
}

/// A text payload: short form without line breaks, blob form with.
pub open spec fn enc_text(short: u8, blob: u8, s: Seq<u8>) -> Seq<u8> {
    if has_line_break(s) {
        enc_blob(blob, s)
    } else {
        enc_line(short, s)
    }
}

/// The bytes of `v` on the wire.  `Done` has no encoding; this function
/// gives it the empty sequence, and the encoder refuses it instead.
pub open spec fn spec_encode(v: SpecValue) -> Seq<u8>
    decreases v,
{
    match v {
        SpecValue::Null => enc_line(95, Seq::empty()),
        SpecValue::Bool(b) => enc_line(
            35,
            seq![
                if b {
                    116u8
                } else {
                    102u8
                },
            ],
        ),
        SpecValue::Int(i) => enc_line(58, dec_int(i)),
        SpecValue::Float(t) => enc_line(44, t),
        SpecValue::BigNumber(t) => enc_line(40, t),
        SpecValue::Error(t) => enc_text(45, 33, t),
        SpecValue::String(t) => enc_text(43, 36, t),
        SpecValue::Bytes(t) => enc_text(43, 36, t),
        SpecValue::Array(items) => enc_line(42, dec_nat(items.len())) + spec_encode_list(items),
        SpecValue::Dict(es) => enc_line(37, dec_nat(es.len())) + spec_encode_entries(es),
        SpecValue::SetOf(items) => enc_line(126, dec_nat(items.len())) + spec_encode_list(items),
        SpecValue::Attribute(es, inner) => enc_line(124, dec_nat(es.len())) + spec_encode_entries(
            es,
        ) + spec_encode(*inner),
        SpecValue::Push(kind, items) => enc_line(62, dec_nat((items.len() + 1) as nat)) + enc_text(
            43,
            36,
            kind,
        ) + spec_encode_list(items),
        SpecValue::Done => Seq::empty(),
    }
}

/// The bytes of a sequence of values, in order.
pub open spec fn spec_encode_list(s: Seq<SpecValue>) -> Seq<u8>
    decreases s,
{
    if s.len() == 0 {
        Seq::empty()
    } else {
        spec_encode_list(s.drop_last()) + spec_encode(s.last())
    }
}

/// The bytes of a sequence of entries: each key, then its value.
pub open spec fn spec_encode_entries(s: Seq<(SpecValue, SpecValue)>) -> Seq<u8>
    decreases s,
{
    if s.len() == 0 {
        Seq::empty()
    } else {
        spec_encode_entries(s.drop_last()) + spec_encode(s.last().0) + spec_encode(s.last().1)
    }
}

/// True when `v` can be put on the wire: the `Done` sentinel appears
/// nowhere in it, and every push frame's count header fits the machine.
pub open spec fn no_done(v: SpecValue) -> bool
    decreases v,
{
    match v {
        SpecValue::Array(items) => no_done_list(items),
        SpecValue::Dict(es) => no_done_entries(es),
        SpecValue::SetOf(items) => no_done_list(items),
        SpecValue::Attribute(es, inner) => no_done_entries(es) && no_done(*inner),
        SpecValue::Push(_, items) => items.len() < usize::MAX && no_done_list(items),
        SpecValue::Done => false,
        _ => true,
    }
}

/// See `no_done`.
pub open spec fn no_done_list(s: Seq<SpecValue>) -> bool
    decreases s,
{
    if s.len() == 0 {
        true
    } else {
        no_done_list(s.drop_last()) && no_done(s.last())
    }
}

/// See `no_done`.
pub open spec fn no_done_entries(s: Seq<(SpecValue, SpecValue)>) -> bool
    decreases s,
{
    if s.len() == 0 {
        true
    } else {
        no_done_entries(s.drop_last()) && no_done(s.last().0) && no_done(s.last().1)
    }
}

/// A prefix of a list stays free of `Done`.
pub proof fn lemma_no_done_list_prefix(s: Seq<SpecValue>, i: int)
    requires
        0 <= i <= s.len(),
        no_done_list(s),
    ensures
        no_done_list(s.take(i)),
        i < s.len() ==> no_done(s[i]),
    decreases s.len() - i,
{
    if i < s.len() {
        lemma_no_done_list_prefix(s, i + 1);
        assert(s.take(i + 1).drop_last() =~= s.take(i));
        assert(s.take(i + 1).last() == s[i]);
    } else {
        assert(s.take(i) =~= s);
    }
}

/// A prefix of an entry list stays free of `Done`.
pub proof fn lemma_no_done_entries_prefix(s: Seq<(SpecValue, SpecValue)>, i: int)
    requires
        0 <= i <= s.len(),
        no_done_entries(s),
    ensures
        no_done_entries(s.take(i)),
        i < s.len() ==> no_done(s[i].0) && no_done(s[i].1),
    decreases s.len() - i,
{
    if i < s.len() {
        lemma_no_done_entries_prefix(s, i + 1);
        assert(s.take(i + 1).drop_last() =~= s.take(i));
        assert(s.take(i + 1).last() == s[i]);
    } else {
        assert(s.take(i) =~= s);
    }
}

/// Reports whether the `Done` sentinel appears anywhere in `v`.
pub fn value_has_done(v: &Value) -> (r: bool)
    ensures
        r == !no_done(v@),
    decreases v,
{
    match v {
        Value::Array(items) => list_has_done(items),
        Value::Dict(es) => entries_have_done(es),
        Value::SetOf(items) => list_has_done(items),
        Value::Attribute(es, inner) => {
            if entries_have_done(es) {
                true
            } else {
                value_has_done(inner)
            }
        },
        Value::Push(_, items) => {
            proof {
                lemma_view_list(items@);
            }
            if items.len() == usize::MAX {
                true
            } else {
                list_has_done(items)
            }
        },
        Value::Done => true,
        _ => false,
    }
}

/// See `value_has_done`.
fn list_has_done(items: &Vec<Value>) -> (r: bool)
    ensures
        r == !no_done_list(view_list(items@)),
    decreases items,
{
    proof {
        lemma_view_list(items@);
        lemma_no_done_list_unfold(view_list(items@));
    }
    let mut i: usize = 0;
    while i < items.len()
        invariant
            i <= items@.len(),
            no_done_list(view_list(items@).take(i as int)),
        decreases items@.len() - i,
    {
        proof {
            lemma_view_list(items@);
        }
        if value_has_done(&items[i]) {
            proof {
                lemma_no_done_found(view_list(items@), i as int);
            }
            return true;
        }
        proof {
            assert(view_list(items@).take(i + 1).drop_last() =~= view_list(items@).take(i as int));
            assert(view_list(items@).take(i + 1).last() == view_list(items@)[i as int]);
        }
        i = i + 1;
    }
    proof {
        assert(view_list(items@).take(i as int) =~= view_list(items@));
    }
    false
}

/// See `value_has_done`.
fn entries_have_done(es: &Vec<Entry>) -> (r: bool)
    ensures
        r == !no_done_entries(view_entries(es@)),
    decreases es,
{
    proof {
        lemma_view_entries(es@);
    }
    let mut i: usize = 0;
    while i < es.len()
        invariant
            i <= es@.len(),
            no_done_entries(view_entries(es@).take(i as int)),
        decreases es@.len() - i,
    {
        proof {
            lemma_view_entries(es@);
            assert(view_entries(es@)[i as int] == es@[i as int]@);
            assert(es@[i as int]@ == (es@[i as int].key@, es@[i as int].val@));
        }
        let found = if value_has_done(&es[i].key) {
            true
        } else {
            value_has_done(&es[i].val)
        };
        if found {
            proof {
                lemma_no_done_entries_found(view_entries(es@), i as int);
            }
            return true;
        }
        proof {
            assert(view_entries(es@).take(i + 1).drop_last() =~= view_entries(es@).take(i as int));
            assert(view_entries(es@).take(i + 1).last() == view_entries(es@)[i as int]);
        }
        i = i + 1;
    }
    proof {
        assert(view_entries(es@).take(i as int) =~= view_entries(es@));
    }
    false
}

/// A list with a `Done` member is not free of `Done`.
proof fn lemma_no_done_found(s: Seq<SpecValue>, i: int)
    requires
        0 <= i < s.len(),
        !no_done(s[i]),
    ensures
        !no_done_list(s),
{
    if no_done_list(s) {
        lemma_no_done_list_prefix(s, i);
    }
}

/// An entry list with a `Done` key or value is not free of `Done`.
proof fn lemma_no_done_entries_found(s: Seq<(SpecValue, SpecValue)>, i: int)
    requires
        0 <= i < s.len(),
        !no_done(s[i].0) || !no_done(s[i].1),
    ensures
        !no_done_entries(s),
{
    if no_done_entries(s) {
        lemma_no_done_entries_prefix(s, i);
    }
}

/// Trivial unfolding helper so the empty case is visible.
proof fn lemma_no_done_list_unfold(s: Seq<SpecValue>)
    ensures
        s.len() == 0 ==> no_done_list(s),
{
    if s.len() == 0 {
        assert(s.take(0) =~= s);
    }
}

/// The wire encoder: appends the encoding of values to a byte buffer.
pub struct Encoder {
    pub output: Vec<u8>,
}

impl Encoder {
    /// Starts an encoder over the given buffer; new bytes are appended.
    pub fn new(x: Vec<u8>) -> (r: Encoder)
        ensures
            r.output@ == x@,
    {
        Encoder { output: x }
    }

    /// The buffer written so far.
    pub fn get_ref(&self) -> (r: &Vec<u8>)
        ensures
            r@ == self.output@,
    {
        &self.output
    }

    /// The buffer written so far, for in-place use.
    pub fn get_mut(&mut self) -> (r: &mut Vec<u8>)
        ensures
            *r == old(self).output,
            final(self).output == *final(r),
    {
        &mut self.output
    }

    /// Gives the buffer up.
    pub fn into_inner(self) -> (r: Vec<u8>)
        ensures
            r@ == self.output@,
    {
        self.output
    }

    /// Appends one full line: prefix, payload, CR LF.
    fn push_line(&mut self, prefix: u8, payload: &[u8])
        ensures
            final(self).output@ == old(self).output@ + enc_line(prefix, payload@),
    {
        self.output.push(prefix);
        let mut i: usize = 0;
        while i < payload.len()
            invariant
                i <= payload@.len(),
                self.output@ == old(self).output@ + seq![prefix] + payload@.take(i as int),
            decreases payload@.len() - i,
        {
            self.output.push(payload[i]);
            i = i + 1;
            proof {
                assert(self.output@ =~= old(self).output@ + seq![prefix] + payload@.take(i as int));
            }
        }
        proof {
            assert(payload@.take(i as int) =~= payload@);
        }
        self.push_crlf();
        proof {
            assert(final(self).output@ =~= old(self).output@ + enc_line(prefix, payload@));
        }
    }

    /// Appends CR LF.
    fn push_crlf(&mut self)
        ensures
            final(self).output@ == old(self).output@ + crlf(),
    {
        self.output.push(13);
        self.output.push(10);
        proof {
            assert(final(self).output@ =~= old(self).output@ + crlf());
        }
    }

    /// Writes a length header: a prefix byte, the decimal length, CR LF.
    pub fn write_length(&mut self, prefix: u8, len: usize) -> (r: Result<(), Error>)
        ensures
            r is Ok,
            final(self).output@ == old(self).output@ + enc_line(prefix, dec_nat(len as nat)),
    {
        let digits = fmt_usize(len);
        self.push_line(prefix, digits.as_slice());
        Ok(())
    }

    /// Writes the null frame.
    pub fn write_null(&mut self) -> (r: Result<(), Error>)
        ensures
            r is Ok,
            final(self).output@ == old(self).output@ + spec_encode(SpecValue::Null),
    {
        let empty: Vec<u8> = Vec::new();
        self.push_line(95, empty.as_slice());
        proof {
            assert(enc_line(95, empty@) =~= spec_encode(SpecValue::Null));
        }
        Ok(())
    }

    /// Writes a boolean frame: `#t` or `#f`.
    pub fn write_bool(&mut self, b: &bool) -> (r: Result<(), Error>)
        ensures
            r is Ok,
            final(self).output@ == old(self).output@ + spec_encode(SpecValue::Bool(*b)),
    {
        let mut payload: Vec<u8> = Vec::new();
        if *b {
            payload.push(116);
        } else {
            payload.push(102);
        }
        self.push_line(35, payload.as_slice());
        proof {
            assert(payload@ =~= seq![
                if *b {
                    116u8
                } else {
                    102u8
                },
            ]);
        }
        Ok(())
    }

    /// Writes an integer frame: `:` and the decimal text.
    pub fn write_int(&mut self, i: &i64) -> (r: Result<(), Error>)
        ensures
            r is Ok,
            final(self).output@ == old(self).output@ + spec_encode(SpecValue::Int(*i as int)),
    {
        let digits = fmt_i64(*i);
        self.push_line(58, digits.as_slice());
        Ok(())
    }

    /// Writes a double frame: `,` and the stored decimal text.
    pub fn write_float(&mut self, t: &[u8]) -> (r: Result<(), Error>)
        ensures
            r is Ok,
            final(self).output@ == old(self).output@ + spec_encode(SpecValue::Float(t@)),
    {
        self.push_line(44, t);
        Ok(())
    }

    /// Writes a big-number frame: `(` and the stored text.
    pub fn write_big_number(&mut self, t: &[u8]) -> (r: Result<(), Error>)
        ensures
            r is Ok,
            final(self).output@ == old(self).output@ + spec_encode(SpecValue::BigNumber(t@)),
    {
        self.push_line(40, t);
        Ok(())
    }

    /// Writes an error frame: short `-` form on one line, blob `!` form
    /// when the text holds a line break.
    pub fn write_error(&mut self, e: &[u8]) -> (r: Result<(), Error>)
        ensures
            r is Ok,
            final(self).output@ == old(self).output@ + spec_encode(SpecValue::Error(e@)),
    {
        self.write_text(45, 33, e);
        Ok(())
    }

    /// Writes a string frame: short `+` form on one line, blob `$` form
    /// when the payload holds a line break.
    pub fn write_string(&mut self, e: &[u8]) -> (r: Result<(), Error>)
        ensures
            r is Ok,
            final(self).output@ == old(self).output@ + spec_encode(SpecValue::String(e@)),
    {
        self.write_text(43, 36, e);
        Ok(())
    }

    /// The common text path of strings and errors.
    fn write_text(&mut self, short: u8, blob: u8, e: &[u8])
        ensures
            final(self).output@ == old(self).output@ + enc_text(short, blob, e@),
    {
        if contains_line_break(e) {
            let ghost before = self.output@;
            let _r = self.write_length(blob, e.len());
            let mut i: usize = 0;
            while i < e.len()
                invariant
                    i <= e@.len(),
                    self.output@ == before + enc_line(blob, dec_nat(e@.len() as nat)) + e@.take(
                        i as int,
                    ),
                decreases e@.len() - i,
            {
                self.output.push(e[i]);
                i = i + 1;
                proof {
                    assert(self.output@ =~= before + enc_line(blob, dec_nat(e@.len() as nat))
                        + e@.take(i as int));
                }
            }
            proof {
                assert(e@.take(i as int) =~= e@);
            }
            self.push_crlf();
            proof {
                assert(final(self).output@ =~= old(self).output@ + enc_blob(blob, e@));
            }
        } else {
            self.push_line(short, e);
        }
    }

    /// Writes an array header: `*` and the element count.
    pub fn write_array_header(&mut self, n: usize) -> (r: Result<(), Error>)
        ensures
            r is Ok,
            final(self).output@ == old(self).output@ + enc_line(42, dec_nat(n as nat)),
    {
        self.write_length(42, n)
    }

    /// Writes a map header: `%` and the entry count.
    pub fn write_map_header(&mut self, n: usize) -> (r: Result<(), Error>)
        ensures
            r is Ok,
            final(self).output@ == old(self).output@ + enc_line(37, dec_nat(n as nat)),
    {
        self.write_length(37, n)
    }

    /// Writes a set header: `~` and the member count.
    pub fn write_set_header(&mut self, n: usize) -> (r: Result<(), Error>)
        ensures
            r is Ok,
            final(self).output@ == old(self).output@ + enc_line(126, dec_nat(n as nat)),
    {
        self.write_length(126, n)
    }

    /// Writes a push header: `>` with the count raised by one for the
    /// kind, then the kind string itself.
    pub fn write_push_header(&mut self, kind: &[u8], len: usize) -> (r: Result<(), Error>)
        requires
            len < usize::MAX,
        ensures
            r is Ok,
            final(self).output@ == old(self).output@ + enc_line(62, dec_nat((len + 1) as nat))
                + enc_text(43, 36, kind@),
    {
        let _r = self.write_length(62, len + 1);
        self.write_text(43, 36, kind);
        Ok(())
    }


    /// Writes a whole array: header, then each element.
    pub fn write_array(&mut self, arr: &Vec<Value>) -> (r: Result<(), Error>)
        requires
            no_done_list(view_list(arr@)),
        ensures
            r is Ok,
            final(self).output@ == old(self).output@ + enc_line(42, dec_nat(arr@.len() as nat))
                + spec_encode_list(view_list(arr@)),
    {
        proof {
            lemma_view_list(arr@);
        }
        let _r = self.write_length(42, arr.len());
        self.encode_list(arr);
        Ok(())
    }

    /// Writes a whole map: header, then each key and value.
    pub fn write_map(&mut self, map: &Vec<Entry>) -> (r: Result<(), Error>)
        requires
            no_done_entries(view_entries(map@)),
        ensures
            r is Ok,
            final(self).output@ == old(self).output@ + enc_line(37, dec_nat(map@.len() as nat))
                + spec_encode_entries(view_entries(map@)),
    {
        proof {
            lemma_view_entries(map@);
        }
        let _r = self.write_length(37, map.len());
        self.encode_entries(map);
        Ok(())
    }

    /// Writes a whole set: header, then each member.
    pub fn write_set(&mut self, set: &Vec<Value>) -> (r: Result<(), Error>)
        requires
            no_done_list(view_list(set@)),
        ensures
            r is Ok,
            final(self).output@ == old(self).output@ + enc_line(126, dec_nat(set@.len() as nat))
                + spec_encode_list(view_list(set@)),
    {
        proof {
            lemma_view_list(set@);
        }
        let _r = self.write_length(126, set.len());
        self.encode_list(set);
        Ok(())
    }

    /// Writes a whole push frame: header with the kind, then each value.
    pub fn write_push(&mut self, kind: &[u8], values: &Vec<Value>) -> (r: Result<(), Error>)
        requires
            no_done_list(view_list(values@)),
            values@.len() < usize::MAX,
        ensures
            r is Ok,
            final(self).output@ == old(self).output@ + enc_line(
                62,
                dec_nat((values@.len() + 1) as nat),
            ) + enc_text(43, 36, kind@) + spec_encode_list(view_list(values@)),
    {
        proof {
            lemma_view_list(values@);
        }
        let _r = self.write_push_header(kind, values.len());
        self.encode_list(values);
        Ok(())
    }

    /// Leaves the buffer as it is; a buffer sink needs no draining.
    pub fn flush(&mut self) -> (r: Result<(), Error>)
        ensures
            r is Ok,
            final(self).output@ == old(self).output@,
    {
        Ok(())
    }

    /// Encodes one value.  A value containing the `Done` sentinel is
    /// refused without writing; anything else appends exactly its wire
    /// bytes.
    pub fn encode(&mut self, value: &Value) -> (r: Result<(), Error>)
        ensures
            no_done(value@) ==> r is Ok && final(self).output@ == old(self).output@ + spec_encode(
                value@,
            ),
            !no_done(value@) ==> r is Err && r->Err_0 is Internal && final(self).output@ == old(
                self,
            ).output@,
    {
        if value_has_done(value) {
            return Err(Error::Internal("ERR the value cannot be encoded".as_bytes_vec()));
        }
        self.encode_value(value);
        Ok(())
    }

    /// Encodes a value known to be free of `Done`.
    fn encode_value(&mut self, value: &Value)
        requires
            no_done(value@),
        ensures
            final(self).output@ == old(self).output@ + spec_encode(value@),
        decreases value,
    {
        match value {
            Value::Null => {
                let _r = self.write_null();
            },
            Value::Bool(b) => {
                let _r = self.write_bool(b);
            },
            Value::Int(i) => {
                let _r = self.write_int(i);
            },
            Value::Float(t) => {
                let _r = self.write_float(t.as_slice());
            },
            Value::BigNumber(t) => {
                let _r = self.write_big_number(t.as_slice());
            },
            Value::Error(t) => {
                let _r = self.write_error(t.as_slice());
            },
            Value::String(t) => {
                let _r = self.write_string(t.as_slice());
            },
            Value::Bytes(t) => {
                let _r = self.write_string(t.as_slice());
                proof {
                    assert(spec_encode(value@) == enc_text(43, 36, t@));
                }
            },
            Value::Array(items) => {
                let _r = self.write_length(42, items.len());
                self.encode_list(items);
                proof {
                    lemma_view_list(items@);
                }
            },
            Value::Dict(es) => {
                let _r = self.write_length(37, es.len());
                self.encode_entries(es);
                proof {
                    lemma_view_entries(es@);
                }
            },
            Value::SetOf(items) => {
                let _r = self.write_length(126, items.len());
                self.encode_list(items);
                proof {
                    lemma_view_list(items@);
                }
            },
            Value::Attribute(es, inner) => {
                let _r = self.write_length(124, es.len());
                self.encode_entries(es);
                self.encode_value(inner);
                proof {
                    lemma_view_entries(es@);
                }
            },
            Value::Push(kind, items) => {
                proof {
                    lemma_view_list(items@);
                }
                let _r = self.write_push_header(kind.as_slice(), items.len());
                self.encode_list(items);
            },
            Value::Done => {
                proof {
                    assert(false);
                }
            },
        }
    }

    /// Encodes the members of a list, in order.
    fn encode_list(&mut self, items: &Vec<Value>)
        requires
            no_done_list(view_list(items@)),
        ensures
            final(self).output@ == old(self).output@ + spec_encode_list(view_list(items@)),
        decreases items,
    {
        proof {
            lemma_view_list(items@);
        }
        let ghost vs = view_list(items@);
        let mut i: usize = 0;
        proof {
            assert(spec_encode_list(vs.take(0)) =~= Seq::<u8>::empty()) by {
                assert(vs.take(0) =~= Seq::<SpecValue>::empty());
            }
            assert(self.output@ =~= old(self).output@ + spec_encode_list(vs.take(0)));
        }
        while i < items.len()
            invariant
                i <= items@.len(),
                vs == view_list(items@),
                no_done_list(vs),
                self.output@ == old(self).output@ + spec_encode_list(vs.take(i as int)),
            decreases items@.len() - i,
        {
            proof {
                lemma_view_list(items@);
                lemma_no_done_list_prefix(vs, i as int);
            }
            self.encode_value(&items[i]);
            i = i + 1;
            proof {
                assert(vs.take(i as int).drop_last() =~= vs.take(i as int - 1));
                assert(vs.take(i as int).last() == vs[i as int - 1]);
            }
        }
        proof {
            assert(vs.take(i as int) =~= vs);
        }
    }

    /// Encodes the entries of a map, each key then its value, in order.
    fn encode_entries(&mut self, es: &Vec<Entry>)
        requires
            no_done_entries(view_entries(es@)),
        ensures
            final(self).output@ == old(self).output@ + spec_encode_entries(view_entries(es@)),
        decreases es,
    {
        proof {
            lemma_view_entries(es@);
        }
        let ghost vs = view_entries(es@);
        let mut i: usize = 0;
        proof {
            assert(spec_encode_entries(vs.take(0)) =~= Seq::<u8>::empty()) by {
                assert(vs.take(0) =~= Seq::<(SpecValue, SpecValue)>::empty());
            }
            assert(self.output@ =~= old(self).output@ + spec_encode_entries(vs.take(0)));
        }
        while i < es.len()
            invariant
                i <= es@.len(),
                vs == view_entries(es@),
                no_done_entries(vs),
                self.output@ == old(self).output@ + spec_encode_entries(vs.take(i as int)),
            decreases es@.len() - i,
        {
            proof {
                lemma_view_entries(es@);
                lemma_no_done_entries_prefix(vs, i as int);
                assert(view_entries(es@)[i as int] == es@[i as int]@);
                assert(es@[i as int]@ == (es@[i as int].key@, es@[i as int].val@));
            }
            self.encode_value(&es[i].key);
            self.encode_value(&es[i].val);
            i = i + 1;
            proof {
                assert(vs.take(i as int).drop_last() =~= vs.take(i as int - 1));
                assert(vs.take(i as int).last() == vs[i as int - 1]);
            }
        }
        proof {
            assert(vs.take(i as int) =~= vs);
        }
    }
}

/// Reports whether the payload holds a CR or LF byte.
pub fn contains_line_break(s: &[u8]) -> (r: bool)
    ensures
        r == has_line_break(s@),
{
    let mut i: usize = 0;
    while i < s.len()
        invariant
            i <= s@.len(),
            forall|k: int| 0 <= k < i ==> #[trigger] s@[k] != 13 && s@[k] != 10,
        decreases s@.len() - i,
    {
        if s[i] == 13 || s[i] == 10 {
            return true;
        }
        i = i + 1;
    }
    false
}

} // verus!
