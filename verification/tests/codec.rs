//! Wire codec behaviour: framing, round trips, and error reporting.

use worm::decoder::decode_at;
use worm::sorted::{dict_insert, set_insert};
use worm::value::Entry;
use worm::Decoder;
use worm::Encoder;
use worm::Error;
use worm::Value;

fn enc(v: &Value) -> Vec<u8> {
    let mut e = Encoder::new(Vec::new());
    e.encode(v).expect("value must encode");
    e.into_inner()
}

fn dec(bytes: &[u8]) -> Result<Value, Error> {
    let mut d = Decoder::new(bytes.to_vec());
    d.decode()
}

fn dict(pairs: Vec<(Value, Value)>) -> Value {
    let mut es: Vec<Entry> = Vec::new();
    for (k, v) in pairs {
        dict_insert(&mut es, k, v);
    }
    Value::Dict(es)
}

fn set(items: Vec<Value>) -> Value {
    let mut s: Vec<Value> = Vec::new();
    for v in items {
        set_insert(&mut s, v);
    }
    Value::SetOf(s)
}

#[test]
fn test_roundtrip() {
    let ex = Value::Array(vec![
        dict(vec![
            (Value::Int(1), Value::String(b"abc".to_vec())),
            (Value::String(b"test".to_vec()), Value::Bool(true)),
        ]),
        Value::Array(vec![Value::Int(1), Value::Int(2), Value::Int(3)]),
    ]);
    let buffer = enc(&ex);
    println!("{}", String::from_utf8_lossy(buffer.as_slice()));
    let value = dec(&buffer).expect("the encoding must decode");
    assert_eq!(ex, value);
}

#[test]
fn atoms_encode_exactly() {
    assert_eq!(enc(&Value::Null), b"_\r\n");
    assert_eq!(enc(&Value::Bool(true)), b"#t\r\n");
    assert_eq!(enc(&Value::Bool(false)), b"#f\r\n");
    assert_eq!(enc(&Value::Int(0)), b":0\r\n");
    assert_eq!(enc(&Value::Int(-5)), b":-5\r\n");
    assert_eq!(
        enc(&Value::Int(i64::MIN)),
        b":-9223372036854775808\r\n"
    );
    assert_eq!(enc(&Value::Float(b"1.5".to_vec())), b",1.5\r\n");
    assert_eq!(enc(&Value::BigNumber(b"34987623489\r".to_vec())), b"(34987623489\r\r\n");
    assert_eq!(enc(&Value::String(b"hi".to_vec())), b"+hi\r\n");
    assert_eq!(enc(&Value::String(b"a\r\nb".to_vec())), b"$4\r\na\r\nb\r\n");
    assert_eq!(enc(&Value::Error(b"ERR x".to_vec())), b"-ERR x\r\n");
    assert_eq!(enc(&Value::Error(b"two\nlines".to_vec())), b"!9\r\ntwo\nlines\r\n");
}

#[test]
fn done_is_refused() {
    let mut e = Encoder::new(Vec::new());
    let r = e.encode(&Value::Done);
    assert!(matches!(r, Err(Error::Internal(_))));
    assert!(e.into_inner().is_empty());
    let mut e = Encoder::new(Vec::new());
    let r = e.encode(&Value::Array(vec![Value::Int(1), Value::Done]));
    assert!(matches!(r, Err(Error::Internal(_))));
    assert!(e.into_inner().is_empty());
}

#[test]
fn truncated_frames_are_io_errors() {
    assert!(matches!(dec(b""), Err(Error::IO)));
    assert!(matches!(dec(b":12"), Err(Error::IO)));
    assert!(matches!(dec(b"*2\r\n:1\r\n"), Err(Error::IO)));
    assert!(matches!(dec(b"$5\r\nab"), Err(Error::IO)));
    assert!(matches!(dec(b"$3\r\nabc"), Err(Error::IO)));
    assert!(matches!(dec(b"_"), Err(Error::IO)));
}

#[test]
fn invalid_utf8_blob_decodes_as_bytes() {
    let v = dec(b"$3\r\n\xff\xfe\xfd\r\n").unwrap();
    assert_eq!(v, Value::Bytes(vec![0xff, 0xfe, 0xfd]));
}

#[test]
fn invalid_utf8_blob_error_is_rendered_lossily() {
    let v = dec(b"!3\r\n\xff\xfe\xfd\r\n").unwrap();
    let expected = String::from_utf8_lossy(&[0xff, 0xfe, 0xfd]).into_owned();
    assert_eq!(v, Value::Error(expected.into_bytes()));
}

#[test]
fn empty_blob_is_the_empty_string() {
    assert_eq!(dec(b"$0\r\n\r\n").unwrap(), Value::String(Vec::new()));
}

#[test]
fn unknown_prefix_names_the_byte() {
    assert!(matches!(dec(b"@x\r\n"), Err(Error::InvalidByte(Some(b'@')))));
}

#[test]
fn malformed_line_names_the_byte_before_lf() {
    assert!(matches!(dec(b"+ab\n"), Err(Error::InvalidByte(Some(b'b')))));
}

#[test]
fn null_respected_inside_blob() {
    assert_eq!(dec(b"$3\r\na\x00b\r\n").unwrap(), Value::String(b"a\x00b".to_vec()));
}

#[test]
fn set_encoding_is_deterministic() {
    let a = set(vec![Value::Int(2), Value::Int(1), Value::Int(3)]);
    let b = set(vec![Value::Int(3), Value::Int(2), Value::Int(1)]);
    assert_eq!(enc(&a), b"~3\r\n:1\r\n:2\r\n:3\r\n");
    assert_eq!(enc(&a), enc(&b));
    assert_eq!(a, b);
}

#[test]
fn map_encoding_is_deterministic() {
    let a = dict(vec![
        (Value::Int(2), Value::Int(22)),
        (Value::Int(1), Value::Int(11)),
    ]);
    let b = dict(vec![
        (Value::Int(1), Value::Int(11)),
        (Value::Int(2), Value::Int(22)),
    ]);
    assert_eq!(enc(&a), b"%2\r\n:1\r\n:11\r\n:2\r\n:22\r\n");
    assert_eq!(enc(&a), enc(&b));
}

#[test]
fn wire_maps_are_reordered_canonically() {
    let v = dec(b"%2\r\n:2\r\n:22\r\n:1\r\n:11\r\n").unwrap();
    assert_eq!(enc(&v), b"%2\r\n:1\r\n:11\r\n:2\r\n:22\r\n");
}

#[test]
fn duplicate_map_keys_keep_the_last_value() {
    let v = dec(b"%2\r\n:1\r\n:11\r\n:1\r\n:99\r\n").unwrap();
    assert_eq!(enc(&v), b"%1\r\n:1\r\n:99\r\n");
}

#[test]
fn number_atoms_follow_integer_parsing() {
    assert_eq!(dec(b":+42\r\n").unwrap(), Value::Int(42));
    assert_eq!(dec(b":007\r\n").unwrap(), Value::Int(7));
    assert!(matches!(dec(b":99999999999999999999\r\n"), Err(Error::ParseInt)));
    assert!(matches!(dec(b":1x\r\n"), Err(Error::ParseInt)));
    assert!(matches!(dec(b":\r\n"), Err(Error::ParseInt)));
    assert!(matches!(dec(b"*x\r\n:1\r\n"), Err(Error::ParseInt)));
}

#[test]
fn float_atoms_follow_the_float_grammar() {
    assert_eq!(dec(b",1.5e3\r\n").unwrap(), Value::Float(b"1.5e3".to_vec()));
    assert_eq!(dec(b",-.5\r\n").unwrap(), Value::Float(b"-.5".to_vec()));
    assert_eq!(dec(b",iNf\r\n").unwrap(), Value::Float(b"inf".to_vec()));
    assert_eq!(dec(b",NaN\r\n").unwrap(), Value::Float(b"nan".to_vec()));
    assert!(matches!(dec(b",notanum\r\n"), Err(Error::ParseFloat)));
    assert!(matches!(dec(b",1.5e\r\n"), Err(Error::ParseFloat)));
    assert!(matches!(dec(b",\r\n"), Err(Error::ParseFloat)));
}

#[test]
fn bool_frames() {
    assert_eq!(dec(b"#t\r\n").unwrap(), Value::Bool(true));
    assert_eq!(dec(b"#f\r\n").unwrap(), Value::Bool(false));
    assert!(matches!(dec(b"#\r\n"), Err(Error::InvalidByte(None))));
    assert!(matches!(dec(b"#ty\r\n"), Err(Error::InvalidByte(Some(b'y')))));
}

#[test]
fn verbatim_string_drops_its_format_tag() {
    assert_eq!(dec(b"=8\r\ntxt:abcd\r\n").unwrap(), Value::String(b"abcd".to_vec()));
    assert!(matches!(dec(b"=2\r\nab\r\n"), Err(Error::InvalidByte(None))));
}

#[test]
fn push_frames() {
    let v = dec(b">2\r\n+evt\r\n:1\r\n").unwrap();
    assert_eq!(v, Value::Push(b"evt".to_vec(), vec![Value::Int(1)]));
    assert_eq!(enc(&v), b">2\r\n+evt\r\n:1\r\n");
    assert!(matches!(dec(b">0\r\n"), Err(Error::InvalidByte(None))));
    assert!(matches!(dec(b">1\r\n:5\r\n"), Err(Error::InvalidByte(None))));
}

#[test]
fn attributes_are_preserved_by_default() {
    let v = dec(b"|1\r\n+k\r\n+v\r\n:7\r\n").unwrap();
    assert_eq!(
        v,
        Value::Attribute(
            vec![Entry { key: Value::String(b"k".to_vec()), val: Value::String(b"v".to_vec()) }],
            Box::new(Value::Int(7)),
        )
    );
    assert_eq!(enc(&v), b"|1\r\n+k\r\n+v\r\n:7\r\n");
}

#[test]
fn attributes_can_be_skipped() {
    let mut d = Decoder::new(b"|1\r\n+k\r\n+v\r\n:7\r\n".to_vec());
    d.preserve_attributes = false;
    assert_eq!(d.decode().unwrap(), Value::Int(7));
}

#[test]
fn decoder_cursor_advances_per_frame() {
    let mut d = Decoder::new(b":1\r\n:2\r\n".to_vec());
    assert_eq!(d.decode().unwrap(), Value::Int(1));
    assert_eq!(d.decode().unwrap(), Value::Int(2));
    assert!(matches!(d.decode(), Err(Error::IO)));
}

#[test]
fn decoder_feed_appends_bytes() {
    let mut d = Decoder::new(b":4".to_vec());
    assert!(matches!(d.decode(), Err(Error::IO)));
    d.feed(b"2\r\n");
    assert_eq!(d.decode().unwrap(), Value::Int(42));
}

#[test]
fn decode_at_reports_positions() {
    let input = b"+ok\r\n:1\r\n";
    let (v, end) = decode_at(input, 0, true).unwrap();
    assert_eq!(v, Value::String(b"ok".to_vec()));
    assert_eq!(end, 5);
    let (v2, end2) = decode_at(input, end, true).unwrap();
    assert_eq!(v2, Value::Int(1));
    assert_eq!(end2, input.len());
}

#[test]
fn encoder_header_methods() {
    let mut e = Encoder::new(Vec::new());
    e.write_array_header(2).unwrap();
    e.write_int(&1).unwrap();
    e.write_string(b"x").unwrap();
    e.flush().unwrap();
    assert_eq!(e.get_ref().as_slice(), b"*2\r\n:1\r\n+x\r\n");
}

#[test]
fn value_write_and_read() {
    let v = Value::Array(vec![Value::Int(7), Value::String(b"x".to_vec())]);
    let mut out = Vec::new();
    v.write(&mut out).unwrap();
    assert_eq!(out, b"*2\r\n:7\r\n+x\r\n");
    assert_eq!(Value::read(&out).unwrap(), v);
    let mut out2 = Vec::new();
    assert!(Value::Done.write(&mut out2).is_err());
    assert!(out2.is_empty());
}

#[test]
fn composite_write_methods() {
    let mut e = Encoder::new(Vec::new());
    e.write_push(b"note", &vec![Value::Int(1)]).unwrap();
    assert_eq!(e.get_ref().as_slice(), b">2\r\n+note\r\n:1\r\n");
    let mut e = Encoder::new(Vec::new());
    e.write_set(&vec![Value::Int(1), Value::Int(2)]).unwrap();
    e.write_map(&vec![Entry { key: Value::Int(1), val: Value::Int(2) }]).unwrap();
    assert_eq!(e.into_inner(), b"~2\r\n:1\r\n:2\r\n%1\r\n:1\r\n:2\r\n");
}

#[test]
fn mutable_accessors() {
    let mut v = Value::Int(1);
    *v.as_int_mut().unwrap() = 9;
    assert_eq!(v, Value::Int(9));
    assert!(v.as_bool_mut().is_none());
    let mut s = Value::String(b"a".to_vec());
    s.as_string_mut().unwrap().push(b'b');
    assert_eq!(s, Value::String(b"ab".to_vec()));
    let mut a = Value::Array(vec![]);
    a.as_array_mut().unwrap().push(Value::Null);
    assert_eq!(a, Value::Array(vec![Value::Null]));
}

#[test]
fn from_conversions() {
    assert_eq!(Value::from(true), Value::Bool(true));
    assert_eq!(Value::from(3i64), Value::Int(3));
    assert_eq!(Value::from(vec![1u8, 2]), Value::Bytes(vec![1, 2]));
    assert_eq!(
        Value::from(vec![Value::Int(1)]),
        Value::Array(vec![Value::Int(1)])
    );
}

#[test]
fn decoder_buffer_access() {
    let mut d = Decoder::new(b":1\r\n".to_vec());
    assert_eq!(d.get_ref().as_slice(), b":1\r\n");
    d.get_mut().extend_from_slice(b":2\r\n");
    assert_eq!(d.decode().unwrap(), Value::Int(1));
    assert_eq!(d.decode().unwrap(), Value::Int(2));
    assert_eq!(d.into_inner(), b":1\r\n:2\r\n");
    let mut e = Encoder::new(Vec::new());
    e.get_mut().push(b'x');
    assert_eq!(e.into_inner(), b"x");
}

#[test]
fn special_float_spellings_normalise_to_one_value() {
    assert_eq!(dec(b",nan\r\n").unwrap(), Value::Float(b"nan".to_vec()));
    assert_eq!(dec(b",-NAN\r\n").unwrap(), Value::Float(b"nan".to_vec()));
    assert_eq!(dec(b",+Infinity\r\n").unwrap(), Value::Float(b"inf".to_vec()));
    assert_eq!(dec(b",-iNfInItY\r\n").unwrap(), Value::Float(b"-inf".to_vec()));
    // Two spellings of NaN land on the same set member.
    let v = dec(b"~2\r\n,NaN\r\n,nan\r\n").unwrap();
    assert_eq!(v, Value::SetOf(vec![Value::Float(b"nan".to_vec())]));
    assert_eq!(enc(&v), b"~1\r\n,nan\r\n");
}
