//! The codec's round-trip laws.
//!
//! A value in canonical form — sorted maps and sets, text payloads that
//! are valid UTF-8, float atoms in the floating-point grammar, byte
//! payloads that could not have been written as text — decodes from its
//! own encoding to exactly itself, and its encoding is a deterministic
//! function of its contents.

use vstd::prelude::*;
use vstd::utf8::valid_utf8;
use crate::decoder::find_lf;
use crate::decoder::spec_line;
use crate::decoder::spec_usize_line;
use crate::decoder::spec_decode;
use crate::decoder::spec_decode_n;
use crate::decoder::spec_decode_pairs;
use crate::encoder::crlf;
use crate::encoder::enc_line;
use crate::encoder::enc_text;
use crate::encoder::has_line_break;
use crate::encoder::no_done;
use crate::encoder::no_done_list;
use crate::encoder::no_done_entries;
use crate::encoder::spec_encode;
use crate::encoder::spec_encode_list;
use crate::encoder::spec_encode_entries;
use crate::error::Error;
use crate::float_text::is_float_text;
use crate::float_text::lemma_float_text_no_crlf;
use crate::number::dec_int;
use crate::number::dec_nat;
use crate::number::is_digit;
use crate::number::lemma_dec_nat_digits;
use crate::number::lemma_digits_val_dec_nat;
use crate::number::spec_parse_i64;
use crate::order::cmp_value;
use crate::sorted::sorted_strict;
use crate::sorted::sorted_keys;
use crate::sorted::set_from_spec;
use crate::sorted::dict_from_spec;
use crate::sorted::spec_set_insert;
use crate::sorted::spec_dict_insert;
use crate::sorted::lemma_sorted_keys_index;
use crate::sorted::lemma_sorted_index;
use crate::order::lemma_cmp_value_antisym;
use crate::value::SpecValue;

verus! {

/// Canonical form: what the decoder itself produces.  Maps and sets are
/// strictly sorted; strings, errors, big numbers and push kinds hold
/// valid UTF-8; big numbers fit on one line; float atoms lie in the
/// floating-point grammar; and a `Bytes` payload is one that the wire
/// cannot carry as text — invalid UTF-8 with a line break in it.
pub open spec fn canonical(v: SpecValue) -> bool
    decreases v,
{
    match v {
        SpecValue::Null => true,
        SpecValue::Bool(_) => true,
        SpecValue::Int(i) => i64::MIN <= i <= i64::MAX,
        SpecValue::Float(t) => is_float_text(t) && crate::float_text::normal_float(t) == t
            && t.len() <= usize::MAX,
        SpecValue::BigNumber(t) => valid_utf8(t) && !has_line_break(t) && t.len() <= usize::MAX,
        SpecValue::Error(t) => valid_utf8(t) && t.len() <= usize::MAX,
        SpecValue::String(t) => valid_utf8(t) && t.len() <= usize::MAX,
        SpecValue::Bytes(t) => !valid_utf8(t) && has_line_break(t) && t.len() <= usize::MAX,
        SpecValue::Array(items) => items.len() <= usize::MAX && canonical_list(items),
        SpecValue::Dict(es) => es.len() <= usize::MAX && sorted_keys(es) && canonical_entries(es),
        SpecValue::SetOf(items) => items.len() <= usize::MAX && sorted_strict(items)
            && canonical_list(items),
        SpecValue::Attribute(es, inner) => es.len() <= usize::MAX && sorted_keys(es)
            && canonical_entries(es) && canonical(*inner),
        SpecValue::Push(kind, items) => valid_utf8(kind) && kind.len() <= usize::MAX
            && canonical_list(items),
        SpecValue::Done => true,
    }
}

/// See `canonical`.
pub open spec fn canonical_list(s: Seq<SpecValue>) -> bool
    decreases s,
{
    if s.len() == 0 {
        true
    } else {
        canonical_list(s.drop_last()) && canonical(s.last())
    }
}

/// See `canonical`.
pub open spec fn canonical_entries(s: Seq<(SpecValue, SpecValue)>) -> bool
    decreases s,
{
    if s.len() == 0 {
        true
    } else {
        canonical_entries(s.drop_last()) && canonical(s.last().0) && canonical(s.last().1)
    }
}

/// A prefix of a canonical list is canonical, and each member is.
pub proof fn lemma_canonical_list_prefix(s: Seq<SpecValue>, i: int)
    requires
        0 <= i <= s.len(),
        canonical_list(s),
    ensures
        canonical_list(s.take(i)),
        i < s.len() ==> canonical(s[i]),
    decreases s.len() - i,
{
    if i < s.len() {
        lemma_canonical_list_prefix(s, i + 1);
        assert(s.take(i + 1).drop_last() =~= s.take(i));
        assert(s.take(i + 1).last() == s[i]);
    } else {
        assert(s.take(i) =~= s);
    }
}

/// A prefix of a canonical entry list is canonical, and each entry is.
pub proof fn lemma_canonical_entries_prefix(s: Seq<(SpecValue, SpecValue)>, i: int)
    requires
        0 <= i <= s.len(),
        canonical_entries(s),
    ensures
        canonical_entries(s.take(i)),
        i < s.len() ==> canonical(s[i].0) && canonical(s[i].1),
    decreases s.len() - i,
{
    if i < s.len() {
        lemma_canonical_entries_prefix(s, i + 1);
        assert(s.take(i + 1).drop_last() =~= s.take(i));
        assert(s.take(i + 1).last() == s[i]);
    } else {
        assert(s.take(i) =~= s);
    }
}

/// When no byte before position `j` is an LF and the byte at `j` is,
/// the first LF is at `j`.
proof fn lemma_find_lf_at(s: Seq<u8>, i: int, j: int)
    requires
        0 <= i <= j < s.len(),
        forall|k: int| i <= k < j ==> s[k] != 10,
        s[j] == 10,
    ensures
        find_lf(s, i) == j,
    decreases j - i,
{
    if i < j {
        lemma_find_lf_at(s, i + 1, j);
    }
}

/// Reading a line from `content + CR LF + rest` yields the content and
/// consumes it with its terminator, provided the content has no LF.
proof fn lemma_line_round(content: Seq<u8>, rest: Seq<u8>)
    requires
        forall|k: int| 0 <= k < content.len() ==> content[k] != 10,
    ensures
        spec_line(content + crlf() + rest) == Ok::<(Seq<u8>, int), Error>(
            (content, content.len() as int + 2),
        ),
{
    let s = content + crlf() + rest;
    assert(s[content.len() as int + 1] == 10);
    assert(s[content.len() as int] == 13);
    assert forall|k: int| 0 <= k < content.len() + 1 implies s[k] != 10 by {
        if k < content.len() {
            assert(s[k] == content[k]);
        }
    }
    lemma_find_lf_at(s, 0, content.len() as int + 1);
    assert(s.take(content.len() as int) =~= content);
}

/// Decimal digit strings contain no LF and do not start with a sign.
proof fn lemma_dec_nat_line(n: nat)
    ensures
        forall|k: int| 0 <= k < dec_nat(n).len() ==> dec_nat(n)[k] != 10,
        forall|k: int| 0 <= k < dec_nat(n).len() ==> dec_nat(n)[k] != 13,
{
    lemma_dec_nat_digits(n);
    assert forall|k: int| 0 <= k < dec_nat(n).len() implies dec_nat(n)[k] != 10 && dec_nat(n)[k]
        != 13 by {
        assert(is_digit(dec_nat(n)[k]));
    }
}

/// Reading a length line written as `dec_nat(n) + CR LF` yields `n`.
proof fn lemma_usize_line_round(n: nat, rest: Seq<u8>)
    requires
        n <= usize::MAX,
    ensures
        spec_usize_line(dec_nat(n) + crlf() + rest) == Ok::<(int, int), Error>(
            (n as int, dec_nat(n).len() as int + 2),
        ),
{
    lemma_dec_nat_line(n);
    lemma_dec_nat_digits(n);
    lemma_digits_val_dec_nat(n);
    lemma_line_round(dec_nat(n), rest);
    assert(dec_nat(n)[0] != 43) by {
        assert(is_digit(dec_nat(n)[0]));
    }
}

/// Reading back the decimal text of a signed 64-bit integer yields it.
proof fn lemma_i64_line_round(i: int, rest: Seq<u8>)
    requires
        i64::MIN <= i <= i64::MAX,
    ensures
        spec_line(dec_int(i) + crlf() + rest) == Ok::<(Seq<u8>, int), Error>(
            (dec_int(i), dec_int(i).len() as int + 2),
        ),
        spec_parse_i64(dec_int(i)) == Some(i),
{
    if i >= 0 {
        lemma_dec_nat_line(i as nat);
        lemma_dec_nat_digits(i as nat);
        lemma_digits_val_dec_nat(i as nat);
        lemma_line_round(dec_int(i), rest);
        assert(dec_int(i)[0] != 43 && dec_int(i)[0] != 45) by {
            assert(is_digit(dec_nat(i as nat)[0]));
        }
    } else {
        let m = (-i) as nat;
        lemma_dec_nat_line(m);
        lemma_dec_nat_digits(m);
        lemma_digits_val_dec_nat(m);
        assert forall|k: int| 0 <= k < dec_int(i).len() implies dec_int(i)[k] != 10 by {
            if k > 0 {
                assert(dec_int(i)[k] == dec_nat(m)[k - 1]);
                assert(is_digit(dec_nat(m)[k - 1]));
            }
        }
        lemma_line_round(dec_int(i), rest);
        assert(dec_int(i)[0] == 45);
        assert(dec_int(i).skip(1) =~= dec_nat(m));
    }
}


/// Inserting a member above every present member appends it.
proof fn lemma_set_insert_end(s: Seq<SpecValue>, v: SpecValue)
    requires
        forall|i: int| 0 <= i < s.len() ==> cmp_value(#[trigger] s[i], v) == -1,
    ensures
        spec_set_insert(s, v) == s.push(v),
    decreases s.len(),
{
    if s.len() == 0 {
        assert(spec_set_insert(s, v) =~= s.push(v));
    } else {
        lemma_cmp_value_antisym(v, s[0]);
        assert forall|i: int| 0 <= i < s.skip(1).len() implies cmp_value(
            #[trigger] s.skip(1)[i],
            v,
        ) == -1 by {
            assert(s.skip(1)[i] == s[i + 1]);
        }
        lemma_set_insert_end(s.skip(1), v);
        assert(spec_set_insert(s, v) =~= s.push(v));
    }
}

/// Inserting an entry whose key lies above every present key appends it.
proof fn lemma_dict_insert_end(s: Seq<(SpecValue, SpecValue)>, k: SpecValue, v: SpecValue)
    requires
        forall|i: int| 0 <= i < s.len() ==> cmp_value(#[trigger] s[i].0, k) == -1,
    ensures
        spec_dict_insert(s, k, v) == s.push((k, v)),
    decreases s.len(),
{
    if s.len() == 0 {
        assert(spec_dict_insert(s, k, v) =~= s.push((k, v)));
    } else {
        lemma_cmp_value_antisym(k, s[0].0);
        assert forall|i: int| 0 <= i < s.skip(1).len() implies cmp_value(
            #[trigger] s.skip(1)[i].0,
            k,
        ) == -1 by {
            assert(s.skip(1)[i] == s[i + 1]);
        }
        lemma_dict_insert_end(s.skip(1), k, v);
        assert(spec_dict_insert(s, k, v) =~= s.push((k, v)));
    }
}

/// Building a set from an already sorted member list returns the list.
pub proof fn lemma_set_from_sorted_id(s: Seq<SpecValue>)
    requires
        sorted_strict(s),
    ensures
        set_from_spec(s) == s,
    decreases s.len(),
{
    if s.len() > 0 {
        let front = s.drop_last();
        assert(sorted_strict(front)) by {
            assert forall|i: int| 0 <= i && i + 1 < front.len() implies cmp_value(
                #[trigger] front[i],
                front[i + 1],
            ) == -1 by {
                assert(front[i] == s[i]);
                assert(front[i + 1] == s[i + 1]);
            }
        }
        lemma_set_from_sorted_id(front);
        assert forall|i: int| 0 <= i < front.len() implies cmp_value(
            #[trigger] front[i],
            s.last(),
        ) == -1 by {
            assert(front[i] == s[i]);
            lemma_sorted_index(s, i, s.len() - 1);
        }
        lemma_set_insert_end(front, s.last());
        assert(front.push(s.last()) =~= s);
    }
}

/// Building a map from an already key-sorted entry list returns it.
pub proof fn lemma_dict_from_sorted_id(s: Seq<(SpecValue, SpecValue)>)
    requires
        sorted_keys(s),
    ensures
        dict_from_spec(s) == s,
    decreases s.len(),
{
    if s.len() > 0 {
        let front = s.drop_last();
        assert(sorted_keys(front)) by {
            assert forall|i: int| 0 <= i && i + 1 < front.len() implies cmp_value(
                #[trigger] front[i].0,
                front[i + 1].0,
            ) == -1 by {
                assert(front[i] == s[i]);
                assert(front[i + 1] == s[i + 1]);
            }
        }
        lemma_dict_from_sorted_id(front);
        assert forall|i: int| 0 <= i < front.len() implies cmp_value(
            #[trigger] front[i].0,
            s.last().0,
        ) == -1 by {
            assert(front[i] == s[i]);
            lemma_sorted_keys_index(s, i, s.len() - 1);
        }
        lemma_dict_insert_end(front, s.last().0, s.last().1);
        assert(front.push(s.last()) =~= s);
    }
}

/// An encoded list splits at its first member.
proof fn lemma_encode_list_first(items: Seq<SpecValue>)
    requires
        items.len() > 0,
    ensures
        spec_encode_list(items) == spec_encode(items[0]) + spec_encode_list(items.skip(1)),
    decreases items.len(),
{
    if items.len() == 1 {
        assert(items.drop_last() =~= Seq::<SpecValue>::empty());
        assert(items.skip(1) =~= Seq::<SpecValue>::empty());
        assert(items.last() == items[0]);
        assert(spec_encode_list(items) =~= spec_encode(items[0]) + spec_encode_list(
            items.skip(1),
        ));
    } else {
        lemma_encode_list_first(items.drop_last());
        assert(items.drop_last()[0] == items[0]);
        assert(items.drop_last().skip(1) =~= items.skip(1).drop_last());
        assert(items.skip(1).last() == items.last());
        assert(spec_encode_list(items.skip(1)) == spec_encode_list(items.skip(1).drop_last())
            + spec_encode(items.skip(1).last()));
        assert(spec_encode_list(items) =~= spec_encode(items[0]) + spec_encode_list(
            items.skip(1),
        ));
    }
}

/// An encoded entry list splits at its first entry.
proof fn lemma_encode_entries_first(es: Seq<(SpecValue, SpecValue)>)
    requires
        es.len() > 0,
    ensures
        spec_encode_entries(es) == spec_encode(es[0].0) + spec_encode(es[0].1)
            + spec_encode_entries(es.skip(1)),
    decreases es.len(),
{
    if es.len() == 1 {
        assert(es.drop_last() =~= Seq::<(SpecValue, SpecValue)>::empty());
        assert(es.skip(1) =~= Seq::<(SpecValue, SpecValue)>::empty());
        assert(es.last() == es[0]);
        assert(spec_encode_entries(es) =~= spec_encode(es[0].0) + spec_encode(es[0].1)
            + spec_encode_entries(es.skip(1)));
    } else {
        lemma_encode_entries_first(es.drop_last());
        assert(es.drop_last()[0] == es[0]);
        assert(es.drop_last().skip(1) =~= es.skip(1).drop_last());
        assert(es.skip(1).last() == es.last());
        assert(spec_encode_entries(es.skip(1)) == spec_encode_entries(es.skip(1).drop_last())
            + spec_encode(es.skip(1).last().0) + spec_encode(es.skip(1).last().1));
        assert(spec_encode_entries(es) =~= spec_encode(es[0].0) + spec_encode(es[0].1)
            + spec_encode_entries(es.skip(1)));
    }
}

/// Canonical members survive taking the front or the rest of a list.
proof fn lemma_canonical_list_skip(s: Seq<SpecValue>)
    requires
        s.len() > 0,
        canonical_list(s),
        no_done_list(s),
    ensures
        canonical(s[0]),
        no_done(s[0]),
        canonical_list(s.skip(1)),
        no_done_list(s.skip(1)),
    decreases s.len(),
{
    lemma_canonical_list_prefix(s, 0);
    crate::encoder::lemma_no_done_list_prefix(s, 0);
    if s.len() == 1 {
        assert(s.skip(1) =~= Seq::<SpecValue>::empty());
        assert(s.last() == s[0]);
    } else {
        assert(s.drop_last()[0] == s[0]);
        lemma_canonical_list_skip(s.drop_last());
        assert(s.skip(1).drop_last() =~= s.drop_last().skip(1));
        assert(s.skip(1).last() == s.last());
        assert(canonical_list(s.skip(1)));
        assert(no_done_list(s.skip(1)));
        assert(canonical(s[0]));
        assert(no_done(s[0]));
    }
}

/// Canonical entries survive taking the front or the rest of the list.
proof fn lemma_canonical_entries_skip(s: Seq<(SpecValue, SpecValue)>)
    requires
        s.len() > 0,
        canonical_entries(s),
        no_done_entries(s),
    ensures
        canonical(s[0].0),
        canonical(s[0].1),
        no_done(s[0].0),
        no_done(s[0].1),
        canonical_entries(s.skip(1)),
        no_done_entries(s.skip(1)),
    decreases s.len(),
{
    lemma_canonical_entries_prefix(s, 0);
    crate::encoder::lemma_no_done_entries_prefix(s, 0);
    if s.len() == 1 {
        assert(s.skip(1) =~= Seq::<(SpecValue, SpecValue)>::empty());
        assert(s.last() == s[0]);
    } else {
        assert(s.drop_last()[0] == s[0]);
        lemma_canonical_entries_skip(s.drop_last());
        assert(s.skip(1).drop_last() =~= s.drop_last().skip(1));
        assert(s.skip(1).last() == s.last());
    }
}

/// A text payload decodes from its own text encoding: the short form
/// reads back as the line content, the blob form as the payload.
proof fn lemma_text_round(t: Seq<u8>, rest: Seq<u8>)
    requires
        t.len() <= usize::MAX,
    ensures
        ({
            let e = enc_text(43, 36, t) + rest;
            &&& e.len() > 0
            &&& e[0] == (if has_line_break(t) {
                36u8
            } else {
                43u8
            })
            &&& (has_line_break(t) ==> crate::decoder::spec_blob_string(e.skip(1)) == Ok::<
                (SpecValue, int),
                Error,
            >(
                (
                    if valid_utf8(t) {
                        SpecValue::String(t)
                    } else {
                        SpecValue::Bytes(t)
                    },
                    enc_text(43, 36, t).len() - 1,
                ),
            ))
            &&& (!has_line_break(t) && valid_utf8(t) ==> crate::decoder::spec_simple_string(
                e.skip(1),
            ) == Ok::<(SpecValue, int), Error>((SpecValue::String(t), enc_text(43, 36, t).len() - 1)))
        }),
{
    let e = enc_text(43, 36, t) + rest;
    if has_line_break(t) {
        assert(e[0] == 36);
        let body = e.skip(1);
        assert(body =~= dec_nat(t.len()) + crlf() + (t + crlf() + rest));
        lemma_usize_line_round(t.len(), t + crlf() + rest);
        let h = dec_nat(t.len()).len() as int + 2;
        assert(body.subrange(h, h + t.len()) =~= t);
        assert(enc_text(43, 36, t).len() - 1 == h + t.len() + 2);
    } else {
        assert(e[0] == 43);
        let body = e.skip(1);
        assert(body =~= t + crlf() + rest);
        assert forall|k: int| 0 <= k < t.len() implies t[k] != 10 by {
            assert(!(t[k] == 13 || t[k] == 10));
        }
        lemma_line_round(t, rest);
    }
}

/// A UTF-8 text payload decodes from its full string encoding, prefix
/// included, to a string value.
proof fn lemma_string_round(t: Seq<u8>, rest: Seq<u8>)
    requires
        valid_utf8(t),
        t.len() <= usize::MAX,
    ensures
        spec_decode(enc_text(43, 36, t) + rest, true) == Ok::<(SpecValue, int), Error>(
            (SpecValue::String(t), enc_text(43, 36, t).len() as int),
        ),
{
    lemma_text_round(t, rest);
    let e = enc_text(43, 36, t) + rest;
    if has_line_break(t) {
        assert(e[0] == 36);
    } else {
        assert(e[0] == 43);
    }
}

/// Decoding an encoding: every canonical value free of the sentinel
/// reads back from its own bytes, whatever follows them.
#[verifier::rlimit(90)]
#[verifier::spinoff_prover]
pub proof fn lemma_decode_encode(v: SpecValue, rest: Seq<u8>)
    requires
        canonical(v),
        no_done(v),
    ensures
        spec_decode(spec_encode(v) + rest, true) == Ok::<(SpecValue, int), Error>(
            (v, spec_encode(v).len() as int),
        ),
    decreases v, 0int,
{
    let e = spec_encode(v) + rest;
    match v {
        SpecValue::Null => {
            assert(e[0] == 95);
            assert(e.skip(1) =~= crlf() + rest);
            assert(e.skip(1).len() >= 2);
        },
        SpecValue::Bool(b) => {
            assert(e[0] == 35);
            let c: Seq<u8> = seq![
                if b {
                    116u8
                } else {
                    102u8
                },
            ];
            assert(e.skip(1) =~= c + crlf() + rest);
            lemma_line_round(c, rest);
            assert(c[0] == 116 <==> b);
        },
        SpecValue::Int(i) => {
            assert(e[0] == 58);
            assert(e.skip(1) =~= dec_int(i) + crlf() + rest);
            lemma_i64_line_round(i, rest);
        },
        SpecValue::Float(t) => {
            assert(e[0] == 44);
            assert(e.skip(1) =~= t + crlf() + rest);
            lemma_float_text_no_crlf(t);
            lemma_line_round(t, rest);
        },
        SpecValue::BigNumber(t) => {
            assert(e[0] == 40);
            assert(e.skip(1) =~= t + crlf() + rest);
            assert forall|k: int| 0 <= k < t.len() implies t[k] != 10 by {
                assert(!(t[k] == 13 || t[k] == 10));
            }
            lemma_line_round(t, rest);
        },
        SpecValue::Error(t) => {
            if has_line_break(t) {
                assert(e[0] == 33);
                let body = e.skip(1);
                assert(body =~= dec_nat(t.len()) + crlf() + (t + crlf() + rest));
                lemma_usize_line_round(t.len(), t + crlf() + rest);
                let h = dec_nat(t.len()).len() as int + 2;
                assert(body.subrange(h, h + t.len()) =~= t);
            } else {
                assert(e[0] == 45);
                assert(e.skip(1) =~= t + crlf() + rest);
                assert forall|k: int| 0 <= k < t.len() implies t[k] != 10 by {
                    assert(!(t[k] == 13 || t[k] == 10));
                }
                lemma_line_round(t, rest);
            }
        },
        SpecValue::String(t) => {
            lemma_string_round(t, rest);
            assert(e =~= enc_text(43, 36, t) + rest);
        },
        SpecValue::Bytes(t) => {
            lemma_text_round(t, rest);
            assert(e =~= enc_text(43, 36, t) + rest);
        },
        SpecValue::Array(items) => {
            lemma_de_array(items, rest);
        },
        SpecValue::SetOf(items) => {
            lemma_de_set(items, rest);
        },
        SpecValue::Dict(es) => {
            lemma_de_dict(es, rest);
        },
        SpecValue::Attribute(es, inner) => {
            lemma_de_attribute(es, inner, rest);
        },
        SpecValue::Push(kind, items) => {
            lemma_de_push(kind, items, rest);
        },
        SpecValue::Done => {
            assert(false);
        },
    }
}

/// The array case of `lemma_decode_encode`.
proof fn lemma_de_array(items: Seq<SpecValue>, rest: Seq<u8>)
    requires
        canonical(SpecValue::Array(items)),
        no_done(SpecValue::Array(items)),
    ensures
        spec_decode(spec_encode(SpecValue::Array(items)) + rest, true) == Ok::<
            (SpecValue, int),
            Error,
        >((SpecValue::Array(items), spec_encode(SpecValue::Array(items)).len() as int)),
    decreases items, 2int,
{
    let e = spec_encode(SpecValue::Array(items)) + rest;
    assert(e[0] == 42);
    let tail = spec_encode_list(items) + rest;
    assert(e.skip(1) =~= dec_nat(items.len()) + crlf() + tail);
    lemma_usize_line_round(items.len(), tail);
    let h = dec_nat(items.len()).len() as int + 2;
    assert(e.skip(1).skip(h) =~= tail);
    lemma_decode_encode_list(items, rest);
}

/// The set case of `lemma_decode_encode`.
proof fn lemma_de_set(items: Seq<SpecValue>, rest: Seq<u8>)
    requires
        canonical(SpecValue::SetOf(items)),
        no_done(SpecValue::SetOf(items)),
    ensures
        spec_decode(spec_encode(SpecValue::SetOf(items)) + rest, true) == Ok::<
            (SpecValue, int),
            Error,
        >((SpecValue::SetOf(items), spec_encode(SpecValue::SetOf(items)).len() as int)),
    decreases items, 2int,
{
    let e = spec_encode(SpecValue::SetOf(items)) + rest;
    assert(e[0] == 126);
    let tail = spec_encode_list(items) + rest;
    assert(e.skip(1) =~= dec_nat(items.len()) + crlf() + tail);
    lemma_usize_line_round(items.len(), tail);
    let h = dec_nat(items.len()).len() as int + 2;
    assert(e.skip(1).skip(h) =~= tail);
    lemma_decode_encode_list(items, rest);
    lemma_set_from_sorted_id(items);
}

/// The map case of `lemma_decode_encode`.
proof fn lemma_de_dict(es: Seq<(SpecValue, SpecValue)>, rest: Seq<u8>)
    requires
        canonical(SpecValue::Dict(es)),
        no_done(SpecValue::Dict(es)),
    ensures
        spec_decode(spec_encode(SpecValue::Dict(es)) + rest, true) == Ok::<
            (SpecValue, int),
            Error,
        >((SpecValue::Dict(es), spec_encode(SpecValue::Dict(es)).len() as int)),
    decreases es, 2int,
{
    let e = spec_encode(SpecValue::Dict(es)) + rest;
    assert(e[0] == 37);
    let tail = spec_encode_entries(es) + rest;
    assert(e.skip(1) =~= dec_nat(es.len()) + crlf() + tail);
    lemma_usize_line_round(es.len(), tail);
    let h = dec_nat(es.len()).len() as int + 2;
    assert(e.skip(1).skip(h) =~= tail);
    lemma_decode_encode_entries(es, rest);
    lemma_dict_from_sorted_id(es);
}

/// The attribute case of `lemma_decode_encode`.
#[verifier::rlimit(100)]
#[verifier::spinoff_prover]
proof fn lemma_de_attribute(es: Seq<(SpecValue, SpecValue)>, inner: Box<SpecValue>, rest: Seq<u8>)
    requires
        canonical(SpecValue::Attribute(es, inner)),
        no_done(SpecValue::Attribute(es, inner)),
    ensures
        spec_decode(spec_encode(SpecValue::Attribute(es, inner)) + rest, true) == Ok::<
            (SpecValue, int),
            Error,
        >(
            (
                SpecValue::Attribute(es, inner),
                spec_encode(SpecValue::Attribute(es, inner)).len() as int,
            ),
        ),
    decreases SpecValue::Attribute(es, inner), 0int, 0int,
{
    let e = spec_encode(SpecValue::Attribute(es, inner)) + rest;
    assert(e[0] == 124);
    let etail = spec_encode(*inner) + rest;
    let tail = spec_encode_entries(es) + etail;
    assert(e.skip(1) =~= dec_nat(es.len()) + crlf() + tail);
    lemma_usize_line_round(es.len(), tail);
    let h = dec_nat(es.len()).len() as int + 2;
    assert(e.skip(1).skip(h) =~= tail);
    lemma_decode_encode_entries(es, etail);
    lemma_dict_from_sorted_id(es);
    let c1 = spec_encode_entries(es).len() as int;
    assert(e.skip(1).skip(h + c1) =~= etail);
    lemma_decode_encode(*inner, rest);
}

/// The push case of `lemma_decode_encode`.
#[verifier::rlimit(100)]
#[verifier::spinoff_prover]
proof fn lemma_de_push(kind: Seq<u8>, items: Seq<SpecValue>, rest: Seq<u8>)
    requires
        canonical(SpecValue::Push(kind, items)),
        no_done(SpecValue::Push(kind, items)),
    ensures
        spec_decode(spec_encode(SpecValue::Push(kind, items)) + rest, true) == Ok::<
            (SpecValue, int),
            Error,
        >((SpecValue::Push(kind, items), spec_encode(SpecValue::Push(kind, items)).len() as int)),
    decreases items, 2int,
{
    let e = spec_encode(SpecValue::Push(kind, items)) + rest;
    assert(e[0] == 62);
    let ktail = enc_text(43, 36, kind) + (spec_encode_list(items) + rest);
    assert(e.skip(1) =~= dec_nat((items.len() + 1) as nat) + crlf() + ktail);
    lemma_usize_line_round((items.len() + 1) as nat, ktail);
    let h = dec_nat((items.len() + 1) as nat).len() as int + 2;
    assert(e.skip(1).skip(h) =~= ktail);
    // The kind string reads back as one string value of its own.
    lemma_string_round(kind, spec_encode_list(items) + rest);
    let c1 = enc_text(43, 36, kind).len() as int;
    assert(e.skip(1).skip(h + c1) =~= spec_encode_list(items) + rest);
    lemma_decode_encode_list(items, rest);
}

/// Every member of an encoded canonical list reads back in order.
#[verifier::rlimit(100)]
#[verifier::spinoff_prover]
pub proof fn lemma_decode_encode_list(items: Seq<SpecValue>, rest: Seq<u8>)
    requires
        canonical_list(items),
        no_done_list(items),
    ensures
        spec_decode_n(spec_encode_list(items) + rest, items.len() as int, true) == Ok::<
            (Seq<SpecValue>, int),
            Error,
        >((items, spec_encode_list(items).len() as int)),
    decreases items, 1int,
{
    if items.len() == 0 {
        assert(spec_encode_list(items) =~= Seq::<u8>::empty());
        assert(items =~= Seq::<SpecValue>::empty());
    } else {
        lemma_canonical_list_skip(items);
        lemma_encode_list_first(items);
        let e0 = spec_encode(items[0]);
        let tail = spec_encode_list(items.skip(1));
        let s = spec_encode_list(items) + rest;
        assert(s =~= e0 + (tail + rest));
        lemma_decode_encode(items[0], tail + rest);
        let c0 = e0.len() as int;
        assert(c0 >= 1) by {
            lemma_encode_nonempty(items[0]);
        }
        assert(s.skip(c0) =~= tail + rest);
        lemma_decode_encode_list(items.skip(1), rest);
        assert(seq![items[0]] + items.skip(1) =~= items);
    }
}

/// Every entry of an encoded canonical entry list reads back in order.
#[verifier::rlimit(100)]
#[verifier::spinoff_prover]
pub proof fn lemma_decode_encode_entries(es: Seq<(SpecValue, SpecValue)>, rest: Seq<u8>)
    requires
        canonical_entries(es),
        no_done_entries(es),
    ensures
        spec_decode_pairs(spec_encode_entries(es) + rest, es.len() as int, true) == Ok::<
            (Seq<(SpecValue, SpecValue)>, int),
            Error,
        >((es, spec_encode_entries(es).len() as int)),
    decreases es, 1int,
{
    if es.len() == 0 {
        assert(spec_encode_entries(es) =~= Seq::<u8>::empty());
        assert(es =~= Seq::<(SpecValue, SpecValue)>::empty());
    } else {
        lemma_canonical_entries_skip(es);
        lemma_encode_entries_first(es);
        let ek = spec_encode(es[0].0);
        let ev = spec_encode(es[0].1);
        let tail = spec_encode_entries(es.skip(1));
        let s = spec_encode_entries(es) + rest;
        assert(s =~= ek + (ev + (tail + rest)));
        lemma_decode_encode(es[0].0, ev + (tail + rest));
        let ck = ek.len() as int;
        assert(ck >= 1) by {
            lemma_encode_nonempty(es[0].0);
        }
        assert(s.skip(ck) =~= ev + (tail + rest));
        lemma_decode_encode(es[0].1, tail + rest);
        let cv = ev.len() as int;
        assert(cv >= 1) by {
            lemma_encode_nonempty(es[0].1);
        }
        assert(s.skip(ck + cv) =~= tail + rest);
        lemma_decode_encode_entries(es.skip(1), rest);
        assert(seq![es[0]] + es.skip(1) =~= es);
    }
}

/// Every encoding of a value free of the sentinel is nonempty.
proof fn lemma_encode_nonempty(v: SpecValue)
    requires
        no_done(v),
    ensures
        spec_encode(v).len() >= 1,
{
}

/// Encoding, decoding and encoding again gives the same bytes: the
/// decoder returns the value whose encoding was read.
pub proof fn lemma_encode_stable(v: SpecValue)
    requires
        canonical(v),
        no_done(v),
    ensures
        spec_decode(spec_encode(v), true) is Ok,
        spec_encode(spec_decode(spec_encode(v), true)->Ok_0.0) == spec_encode(v),
{
    lemma_decode_encode(v, Seq::empty());
    assert(spec_encode(v) + Seq::<u8>::empty() =~= spec_encode(v));
}

/// The encoding of a set is a function of its members alone: member
/// lists with the same contents, in any order, encode identically.
pub proof fn lemma_set_encoding_deterministic(l1: Seq<SpecValue>, l2: Seq<SpecValue>)
    requires
        forall|w: SpecValue| l1.contains(w) <==> l2.contains(w),
    ensures
        spec_encode(SpecValue::SetOf(set_from_spec(l1))) == spec_encode(
            SpecValue::SetOf(set_from_spec(l2)),
        ),
{
    crate::sorted::lemma_set_from_deterministic(l1, l2);
}

/// The encoding of a map is a function of its entries alone: entry
/// lists with distinct keys and the same entries, in any insertion
/// order, encode identically.
pub proof fn lemma_dict_encoding_deterministic(
    l1: Seq<(SpecValue, SpecValue)>,
    l2: Seq<(SpecValue, SpecValue)>,
)
    requires
        crate::sorted::distinct_keys(l1),
        crate::sorted::distinct_keys(l2),
        forall|p: (SpecValue, SpecValue)| l1.contains(p) <==> l2.contains(p),
    ensures
        spec_encode(SpecValue::Dict(dict_from_spec(l1))) == spec_encode(
            SpecValue::Dict(dict_from_spec(l2)),
        ),
{
    crate::sorted::lemma_dict_from_deterministic(l1, l2);
}


/// A sequence without an LF has no line in it.
proof fn lemma_find_lf_none(s: Seq<u8>, i: int)
    requires
        0 <= i <= s.len(),
        forall|k: int| i <= k < s.len() ==> s[k] != 10,
    ensures
        find_lf(s, i) == s.len(),
    decreases s.len() - i,
{
    if i < s.len() {
        lemma_find_lf_none(s, i + 1);
    }
}

/// Law: a truncated frame reads as an I/O failure — never a panic and
/// never a silent success.  Every strict prefix of the encoding of a
/// canonical, sentinel-free value decodes to the I/O error; this is
/// the general cut law applied to the value's own encoding.
pub proof fn lemma_truncated_is_io(v: SpecValue, n: int)
    requires
        canonical(v),
        no_done(v),
        0 <= n < spec_encode(v).len(),
    ensures
        spec_decode(spec_encode(v).take(n), true) == Err::<(SpecValue, int), Error>(Error::IO),
{
    lemma_decode_encode(v, Seq::empty());
    assert(spec_encode(v) + Seq::<u8>::empty() =~= spec_encode(v));
    lemma_decode_cut(spec_encode(v), n, true);
}

/// Everything before the first LF is not an LF, and the position is in
/// bounds; when it is properly inside, it holds an LF.
proof fn lemma_find_lf_facts(t: Seq<u8>, i: int)
    requires
        0 <= i <= t.len(),
    ensures
        i <= find_lf(t, i) <= t.len(),
        forall|k: int| i <= k < find_lf(t, i) ==> t[k] != 10,
        find_lf(t, i) < t.len() ==> t[find_lf(t, i)] == 10,
    decreases t.len() - i,
{
    if i < t.len() && t[i] != 10 {
        lemma_find_lf_facts(t, i + 1);
    }
}

/// A line, once complete, is unchanged by whatever follows it.
proof fn lemma_line_stable(t: Seq<u8>, n: int)
    requires
        spec_line(t) is Ok,
        spec_line(t)->Ok_0.1 <= n <= t.len(),
    ensures
        spec_line(t.take(n)) == spec_line(t),
{
    let p = find_lf(t, 0);
    lemma_find_lf_facts(t, 0);
    assert forall|k: int| 0 <= k < p implies t.take(n)[k] != 10 by {
        assert(t.take(n)[k] == t[k]);
    }
    assert(t.take(n)[p] == t[p]);
    lemma_find_lf_at(t.take(n), 0, p);
    assert(t.take(n).take(p - 1) =~= t.take(p - 1));
}

/// A line cut before its LF reads as a truncation.
proof fn lemma_line_cut(t: Seq<u8>, n: int)
    requires
        spec_line(t) is Ok,
        0 <= n < spec_line(t)->Ok_0.1,
    ensures
        spec_line(t.take(n)) == Err::<(Seq<u8>, int), Error>(Error::IO),
{
    let p = find_lf(t, 0);
    lemma_find_lf_facts(t, 0);
    assert forall|k: int| 0 <= k < t.take(n).len() implies t.take(n)[k] != 10 by {
        assert(t.take(n)[k] == t[k]);
    }
    lemma_find_lf_none(t.take(n), 0);
}

/// The two line facts, lifted to length lines.
proof fn lemma_usize_line_stable(t: Seq<u8>, n: int)
    requires
        spec_usize_line(t) is Ok,
        spec_usize_line(t)->Ok_0.1 <= n <= t.len(),
    ensures
        spec_usize_line(t.take(n)) == spec_usize_line(t),
{
    lemma_line_stable(t, n);
}

/// See `lemma_usize_line_stable`.
proof fn lemma_usize_line_cut(t: Seq<u8>, n: int)
    requires
        spec_usize_line(t) is Ok,
        0 <= n < spec_usize_line(t)->Ok_0.1,
    ensures
        spec_usize_line(t.take(n)) == Err::<(int, int), Error>(Error::IO),
{
    lemma_line_cut(t, n);
}


/// A successful parse consumes at least the prefix byte and at most
/// the whole input; runs consume a nonnegative count within bounds.
pub proof fn lemma_decode_bounds(s: Seq<u8>, preserve: bool)
    requires
        spec_decode(s, preserve) is Ok,
    ensures
        1 <= spec_decode(s, preserve)->Ok_0.1 <= s.len(),
    decreases s.len(), 0int, 1int,
{
    let b = s[0];
    let t = s.skip(1);
    if b == 43 || b == 45 || b == 40 || b == 58 || b == 44 || b == 35 {
        lemma_find_lf_facts(t, 0);
    } else if b == 36 || b == 33 || b == 61 {
        lemma_find_lf_facts(t, 0);
    } else if b == 42 || b == 126 || b == 37 {
        let h = spec_usize_line(t)->Ok_0.1;
        let cnt = spec_usize_line(t)->Ok_0.0;
        if b == 37 {
            lemma_decode_pairs_bounds(t.skip(h), cnt, preserve);
        } else {
            lemma_decode_n_bounds(t.skip(h), cnt, preserve);
        }
    } else if b == 124 {
        let h = spec_usize_line(t)->Ok_0.1;
        let cnt = spec_usize_line(t)->Ok_0.0;
        lemma_decode_pairs_bounds(t.skip(h), cnt, preserve);
        let c1 = spec_decode_pairs(t.skip(h), cnt, preserve)->Ok_0.1;
        lemma_decode_bounds(t.skip(h + c1), preserve);
    } else if b == 62 {
        let h = spec_usize_line(t)->Ok_0.1;
        let cnt = spec_usize_line(t)->Ok_0.0;
        lemma_decode_bounds(t.skip(h), preserve);
        let c1 = spec_decode(t.skip(h), preserve)->Ok_0.1;
        lemma_decode_n_bounds(t.skip(h + c1), cnt - 1, preserve);
    }
}

/// See `lemma_decode_bounds`.
pub proof fn lemma_decode_n_bounds(s: Seq<u8>, cnt: int, preserve: bool)
    requires
        spec_decode_n(s, cnt, preserve) is Ok,
    ensures
        0 <= spec_decode_n(s, cnt, preserve)->Ok_0.1 <= s.len(),
    decreases s.len(), 1int, cnt,
{
    if cnt > 0 {
        lemma_decode_bounds(s, preserve);
        let c0 = spec_decode(s, preserve)->Ok_0.1;
        lemma_decode_n_bounds(s.skip(c0), cnt - 1, preserve);
    }
}

/// See `lemma_decode_bounds`.
pub proof fn lemma_decode_pairs_bounds(s: Seq<u8>, cnt: int, preserve: bool)
    requires
        spec_decode_pairs(s, cnt, preserve) is Ok,
    ensures
        0 <= spec_decode_pairs(s, cnt, preserve)->Ok_0.1 <= s.len(),
    decreases s.len(), 1int, cnt,
{
    if cnt > 0 {
        lemma_decode_bounds(s, preserve);
        let c1 = spec_decode(s, preserve)->Ok_0.1;
        lemma_decode_bounds(s.skip(c1), preserve);
        let c2 = spec_decode(s.skip(c1), preserve)->Ok_0.1;
        lemma_decode_pairs_bounds(s.skip(c1 + c2), cnt - 1, preserve);
    }
}

/// Law, on arbitrary wire input: a successful parse reads only the
/// bytes it consumes, so whatever follows a complete frame cannot
/// change its value.
#[verifier::rlimit(100)]
#[verifier::spinoff_prover]
pub proof fn lemma_decode_stable(s: Seq<u8>, n: int, preserve: bool)
    requires
        spec_decode(s, preserve) is Ok,
        spec_decode(s, preserve)->Ok_0.1 <= n <= s.len(),
    ensures
        spec_decode(s.take(n), preserve) == spec_decode(s, preserve),
    decreases s.len(), 0int, 1int,
{
    lemma_decode_bounds(s, preserve);
    let c = spec_decode(s, preserve)->Ok_0.1;
    let b = s[0];
    let t = s.skip(1);
    let u = s.take(n);
    assert(u[0] == b);
    assert(u.skip(1) =~= t.take(n - 1));
    if b == 95 {
        // Null consumes a fixed two bytes.
    } else if b == 43 || b == 45 || b == 40 || b == 58 || b == 44 || b == 35 {
        lemma_line_stable(t, n - 1);
        assert(spec_line(t.take(n - 1)) == spec_line(t));
    } else if b == 36 || b == 33 || b == 61 {
        let h = spec_usize_line(t)->Ok_0.1;
        let len0 = spec_usize_line(t)->Ok_0.0;
        assert(c - 1 == h + len0 + 2);
        lemma_find_lf_facts(t, 0);
        lemma_usize_line_stable(t, n - 1);
        assert(t.take(n - 1).subrange(h, h + len0) =~= t.subrange(h, h + len0));
        if b == 61 && len0 >= 4 {
            assert(t.take(n - 1).subrange(h + 4, h + len0) =~= t.subrange(h + 4, h + len0));
        }
    } else if b == 42 || b == 126 || b == 37 {
        let h = spec_usize_line(t)->Ok_0.1;
        let cnt = spec_usize_line(t)->Ok_0.0;
        if b == 37 {
            lemma_decode_pairs_bounds(t.skip(h), cnt, preserve);
            assert(c - 1 == h + spec_decode_pairs(t.skip(h), cnt, preserve)->Ok_0.1);
            lemma_usize_line_stable(t, n - 1);
            assert(t.take(n - 1).skip(h) =~= t.skip(h).take(n - 1 - h));
            lemma_decode_pairs_stable(t.skip(h), cnt, n - 1 - h, preserve);
        } else {
            lemma_decode_n_bounds(t.skip(h), cnt, preserve);
            assert(c - 1 == h + spec_decode_n(t.skip(h), cnt, preserve)->Ok_0.1);
            lemma_usize_line_stable(t, n - 1);
            assert(t.take(n - 1).skip(h) =~= t.skip(h).take(n - 1 - h));
            lemma_decode_n_stable(t.skip(h), cnt, n - 1 - h, preserve);
        }
    } else if b == 124 {
        let h = spec_usize_line(t)->Ok_0.1;
        let cnt = spec_usize_line(t)->Ok_0.0;
        lemma_decode_pairs_bounds(t.skip(h), cnt, preserve);
        let c1 = spec_decode_pairs(t.skip(h), cnt, preserve)->Ok_0.1;
        lemma_decode_bounds(t.skip(h + c1), preserve);
        let c2 = spec_decode(t.skip(h + c1), preserve)->Ok_0.1;
        assert(c - 1 == h + c1 + c2);
        lemma_usize_line_stable(t, n - 1);
        assert(t.take(n - 1).skip(h) =~= t.skip(h).take(n - 1 - h));
        lemma_decode_pairs_stable(t.skip(h), cnt, n - 1 - h, preserve);
        assert(t.take(n - 1).skip(h + c1) =~= t.skip(h + c1).take(n - 1 - h - c1));
        lemma_decode_stable(t.skip(h + c1), n - 1 - h - c1, preserve);
    } else if b == 62 {
        let h = spec_usize_line(t)->Ok_0.1;
        let cnt = spec_usize_line(t)->Ok_0.0;
        lemma_decode_bounds(t.skip(h), preserve);
        let c1 = spec_decode(t.skip(h), preserve)->Ok_0.1;
        lemma_decode_n_bounds(t.skip(h + c1), cnt - 1, preserve);
        let c2 = spec_decode_n(t.skip(h + c1), cnt - 1, preserve)->Ok_0.1;
        assert(c - 1 == h + c1 + c2);
        lemma_usize_line_stable(t, n - 1);
        assert(t.take(n - 1).skip(h) =~= t.skip(h).take(n - 1 - h));
        lemma_decode_stable(t.skip(h), n - 1 - h, preserve);
        assert(t.take(n - 1).skip(h + c1) =~= t.skip(h + c1).take(n - 1 - h - c1));
        lemma_decode_n_stable(t.skip(h + c1), cnt - 1, n - 1 - h - c1, preserve);
    }
}

/// See `lemma_decode_stable`, for value runs.
#[verifier::rlimit(100)]
#[verifier::spinoff_prover]
proof fn lemma_decode_n_stable(s: Seq<u8>, cnt: int, n: int, preserve: bool)
    requires
        spec_decode_n(s, cnt, preserve) is Ok,
        spec_decode_n(s, cnt, preserve)->Ok_0.1 <= n <= s.len(),
    ensures
        spec_decode_n(s.take(n), cnt, preserve) == spec_decode_n(s, cnt, preserve),
    decreases s.len(), 1int, cnt,
{
    if cnt > 0 {
        lemma_decode_bounds(s, preserve);
        let c0 = spec_decode(s, preserve)->Ok_0.1;
        lemma_decode_n_bounds(s.skip(c0), cnt - 1, preserve);
        lemma_decode_stable(s, n, preserve);
        assert(s.take(n).skip(c0) =~= s.skip(c0).take(n - c0));
        lemma_decode_n_stable(s.skip(c0), cnt - 1, n - c0, preserve);
    }
}

/// See `lemma_decode_stable`, for pair runs.
#[verifier::rlimit(100)]
#[verifier::spinoff_prover]
proof fn lemma_decode_pairs_stable(s: Seq<u8>, cnt: int, n: int, preserve: bool)
    requires
        spec_decode_pairs(s, cnt, preserve) is Ok,
        spec_decode_pairs(s, cnt, preserve)->Ok_0.1 <= n <= s.len(),
    ensures
        spec_decode_pairs(s.take(n), cnt, preserve) == spec_decode_pairs(s, cnt, preserve),
    decreases s.len(), 1int, cnt,
{
    if cnt > 0 {
        lemma_decode_bounds(s, preserve);
        let c1 = spec_decode(s, preserve)->Ok_0.1;
        lemma_decode_bounds(s.skip(c1), preserve);
        let c2 = spec_decode(s.skip(c1), preserve)->Ok_0.1;
        lemma_decode_pairs_bounds(s.skip(c1 + c2), cnt - 1, preserve);
        lemma_decode_stable(s, n, preserve);
        assert(s.take(n).skip(c1) =~= s.skip(c1).take(n - c1));
        lemma_decode_stable(s.skip(c1), n - c1, preserve);
        assert(s.take(n).skip(c1 + c2) =~= s.skip(c1 + c2).take(n - c1 - c2));
        lemma_decode_pairs_stable(s.skip(c1 + c2), cnt - 1, n - c1 - c2, preserve);
    }
}


/// Law, on arbitrary wire input: cutting any successfully parsed frame
/// short yields the I/O error — never a panic and never a silent
/// success, whatever the frame held.
#[verifier::rlimit(100)]
#[verifier::spinoff_prover]
pub proof fn lemma_decode_cut(s: Seq<u8>, n: int, preserve: bool)
    requires
        spec_decode(s, preserve) is Ok,
        0 <= n < spec_decode(s, preserve)->Ok_0.1,
    ensures
        spec_decode(s.take(n), preserve) == Err::<(SpecValue, int), Error>(Error::IO),
    decreases s.len(), 0int, 1int,
{
    lemma_decode_bounds(s, preserve);
    let c = spec_decode(s, preserve)->Ok_0.1;
    let u = s.take(n);
    if n == 0 {
        assert(u.len() == 0);
    } else {
        let b = s[0];
        let t = s.skip(1);
        assert(u[0] == b);
        assert(u.skip(1) =~= t.take(n - 1));
        if b == 95 {
            assert(c - 1 == 2);
        } else if b == 43 || b == 45 || b == 40 || b == 58 || b == 44 || b == 35 {
            lemma_line_cut(t, n - 1);
        } else if b == 36 || b == 33 || b == 61 {
            let h = spec_usize_line(t)->Ok_0.1;
            let len0 = spec_usize_line(t)->Ok_0.0;
            assert(c - 1 == h + len0 + 2);
            if n - 1 < h {
                lemma_usize_line_cut(t, n - 1);
            } else {
                lemma_usize_line_stable(t, n - 1);
            }
        } else if b == 42 || b == 126 || b == 37 {
            let h = spec_usize_line(t)->Ok_0.1;
            let cnt = spec_usize_line(t)->Ok_0.0;
            if b == 37 {
                lemma_decode_pairs_bounds(t.skip(h), cnt, preserve);
                assert(c - 1 == h + spec_decode_pairs(t.skip(h), cnt, preserve)->Ok_0.1);
                if n - 1 < h {
                    lemma_usize_line_cut(t, n - 1);
                } else {
                    lemma_usize_line_stable(t, n - 1);
                    assert(t.take(n - 1).skip(h) =~= t.skip(h).take(n - 1 - h));
                    lemma_decode_pairs_cut(t.skip(h), cnt, n - 1 - h, preserve);
                }
            } else {
                lemma_decode_n_bounds(t.skip(h), cnt, preserve);
                assert(c - 1 == h + spec_decode_n(t.skip(h), cnt, preserve)->Ok_0.1);
                if n - 1 < h {
                    lemma_usize_line_cut(t, n - 1);
                } else {
                    lemma_usize_line_stable(t, n - 1);
                    assert(t.take(n - 1).skip(h) =~= t.skip(h).take(n - 1 - h));
                    lemma_decode_n_cut(t.skip(h), cnt, n - 1 - h, preserve);
                }
            }
        } else if b == 124 {
            let h = spec_usize_line(t)->Ok_0.1;
            let cnt = spec_usize_line(t)->Ok_0.0;
            lemma_decode_pairs_bounds(t.skip(h), cnt, preserve);
            let c1 = spec_decode_pairs(t.skip(h), cnt, preserve)->Ok_0.1;
            lemma_decode_bounds(t.skip(h + c1), preserve);
            let c2 = spec_decode(t.skip(h + c1), preserve)->Ok_0.1;
            assert(c - 1 == h + c1 + c2);
            if n - 1 < h {
                lemma_usize_line_cut(t, n - 1);
            } else {
                lemma_usize_line_stable(t, n - 1);
                assert(t.take(n - 1).skip(h) =~= t.skip(h).take(n - 1 - h));
                if n - 1 - h < c1 {
                    lemma_decode_pairs_cut(t.skip(h), cnt, n - 1 - h, preserve);
                } else {
                    lemma_decode_pairs_stable(t.skip(h), cnt, n - 1 - h, preserve);
                    assert(t.take(n - 1).skip(h + c1) =~= t.skip(h + c1).take(n - 1 - h - c1));
                    lemma_decode_cut(t.skip(h + c1), n - 1 - h - c1, preserve);
                }
            }
        } else if b == 62 {
            let h = spec_usize_line(t)->Ok_0.1;
            let cnt = spec_usize_line(t)->Ok_0.0;
            lemma_decode_bounds(t.skip(h), preserve);
            let c1 = spec_decode(t.skip(h), preserve)->Ok_0.1;
            lemma_decode_n_bounds(t.skip(h + c1), cnt - 1, preserve);
            let c2 = spec_decode_n(t.skip(h + c1), cnt - 1, preserve)->Ok_0.1;
            assert(c - 1 == h + c1 + c2);
            if n - 1 < h {
                lemma_usize_line_cut(t, n - 1);
            } else {
                lemma_usize_line_stable(t, n - 1);
                assert(t.take(n - 1).skip(h) =~= t.skip(h).take(n - 1 - h));
                if n - 1 - h < c1 {
                    lemma_decode_cut(t.skip(h), n - 1 - h, preserve);
                } else {
                    lemma_decode_stable(t.skip(h), n - 1 - h, preserve);
                    assert(t.take(n - 1).skip(h + c1) =~= t.skip(h + c1).take(n - 1 - h - c1));
                    lemma_decode_n_cut(t.skip(h + c1), cnt - 1, n - 1 - h - c1, preserve);
                }
            }
        }
    }
}

/// See `lemma_decode_cut`, for value runs.
#[verifier::rlimit(100)]
#[verifier::spinoff_prover]
proof fn lemma_decode_n_cut(s: Seq<u8>, cnt: int, n: int, preserve: bool)
    requires
        spec_decode_n(s, cnt, preserve) is Ok,
        0 <= n < spec_decode_n(s, cnt, preserve)->Ok_0.1,
    ensures
        spec_decode_n(s.take(n), cnt, preserve) == Err::<(Seq<SpecValue>, int), Error>(Error::IO),
    decreases s.len(), 1int, cnt,
{
    lemma_decode_bounds(s, preserve);
    let c0 = spec_decode(s, preserve)->Ok_0.1;
    lemma_decode_n_bounds(s.skip(c0), cnt - 1, preserve);
    if n < c0 {
        lemma_decode_cut(s, n, preserve);
    } else {
        lemma_decode_stable(s, n, preserve);
        assert(s.take(n).skip(c0) =~= s.skip(c0).take(n - c0));
        lemma_decode_n_cut(s.skip(c0), cnt - 1, n - c0, preserve);
    }
}

/// See `lemma_decode_cut`, for pair runs.
#[verifier::rlimit(100)]
#[verifier::spinoff_prover]
proof fn lemma_decode_pairs_cut(s: Seq<u8>, cnt: int, n: int, preserve: bool)
    requires
        spec_decode_pairs(s, cnt, preserve) is Ok,
        0 <= n < spec_decode_pairs(s, cnt, preserve)->Ok_0.1,
    ensures
        spec_decode_pairs(s.take(n), cnt, preserve) == Err::<
            (Seq<(SpecValue, SpecValue)>, int),
            Error,
        >(Error::IO),
    decreases s.len(), 1int, cnt,
{
    lemma_decode_bounds(s, preserve);
    let c1 = spec_decode(s, preserve)->Ok_0.1;
    lemma_decode_bounds(s.skip(c1), preserve);
    let c2 = spec_decode(s.skip(c1), preserve)->Ok_0.1;
    lemma_decode_pairs_bounds(s.skip(c1 + c2), cnt - 1, preserve);
    if n < c1 {
        lemma_decode_cut(s, n, preserve);
    } else {
        lemma_decode_stable(s, n, preserve);
        assert(s.take(n).skip(c1) =~= s.skip(c1).take(n - c1));
        if n - c1 < c2 {
            lemma_decode_cut(s.skip(c1), n - c1, preserve);
        } else {
            lemma_decode_stable(s.skip(c1), n - c1, preserve);
            assert(s.take(n).skip(c1 + c2) =~= s.skip(c1 + c2).take(n - c1 - c2));
            lemma_decode_pairs_cut(s.skip(c1 + c2), cnt - 1, n - c1 - c2, preserve);
        }
    }
}

} // verus!
