//! The protocol's value domain.
//!
//! `Value` is the executable tagged sum that travels over the wire;
//! `SpecValue` is its mathematical image, used by every contract in the
//! crate.  Text-bearing variants hold their payload as the exact bytes
//! that appear on the wire; the `String` and `Error` variants carry valid
//! UTF-8, the `Bytes` variant carries arbitrary octets.  The `Float`
//! variant holds the ASCII decimal text of the number, so that encoding
//! is byte-exact and ordering is deterministic.

use vstd::prelude::*;

verus! {

/// The mathematical image of a `Value`: the same tree with mathematical
/// sequences in place of vectors and `int` in place of `i64`.
#[verifier::ext_equal]
pub enum SpecValue {
    Null,
    Bool(bool),
    Int(int),
    Float(Seq<u8>),
    BigNumber(Seq<u8>),
    Error(Seq<u8>),
    String(Seq<u8>),
    Bytes(Seq<u8>),
    Array(Seq<SpecValue>),
    Dict(Seq<(SpecValue, SpecValue)>),
    SetOf(Seq<SpecValue>),
    Attribute(Seq<(SpecValue, SpecValue)>, Box<SpecValue>),
    Push(Seq<u8>, Seq<SpecValue>),
    Done,
}

/// One key/value pair of a `Dict` or `Attribute` value.
#[derive(Debug, PartialEq, Eq)]
pub struct Entry {
    pub key: Value,
    pub val: Value,
}

/// One value of the protocol.  Thirteen variants appear on the wire;
/// `Done` is an internal sentinel meaning "the handler already wrote its
/// response" and is never encoded.
#[derive(Debug, PartialEq, Eq)]
pub enum Value {
    Null,
    Bool(bool),
    Int(i64),
    Float(Vec<u8>),
    BigNumber(Vec<u8>),
    Error(Vec<u8>),
    String(Vec<u8>),
    Bytes(Vec<u8>),
    Array(Vec<Value>),
    Dict(Vec<Entry>),
    SetOf(Vec<Value>),
    Attribute(Vec<Entry>, Box<Value>),
    Push(Vec<u8>, Vec<Value>),
    Done,
}

/// The image of a sequence of values.
pub open spec fn view_list(s: Seq<Value>) -> Seq<SpecValue>
    decreases s,
{
    if s.len() == 0 {
        Seq::empty()
    } else {
        view_list(s.drop_last()).push(s.last()@)
    }
}

/// The image of a sequence of key/value pairs.
pub open spec fn view_entries(s: Seq<Entry>) -> Seq<(SpecValue, SpecValue)>
    decreases s,
{
    if s.len() == 0 {
        Seq::empty()
    } else {
        view_entries(s.drop_last()).push(s.last()@)
    }
}

impl View for Entry {
    type V = (SpecValue, SpecValue);

    open spec fn view(&self) -> (SpecValue, SpecValue)
        decreases self,
    {
        (self.key@, self.val@)
    }
}

impl View for Value {
    type V = SpecValue;

    open spec fn view(&self) -> SpecValue
        decreases self,
    {
        match self {
            Value::Null => SpecValue::Null,
            Value::Bool(b) => SpecValue::Bool(*b),
            Value::Int(i) => SpecValue::Int(*i as int),
            Value::Float(t) => SpecValue::Float(t@),
            Value::BigNumber(t) => SpecValue::BigNumber(t@),
            Value::Error(t) => SpecValue::Error(t@),
            Value::String(t) => SpecValue::String(t@),
            Value::Bytes(t) => SpecValue::Bytes(t@),
            Value::Array(a) => SpecValue::Array(view_list(a@)),
            Value::Dict(m) => SpecValue::Dict(view_entries(m@)),
            Value::SetOf(s) => SpecValue::SetOf(view_list(s@)),
            Value::Attribute(m, inner) => SpecValue::Attribute(
                view_entries(m@),
                Box::new((**inner)@),
            ),
            Value::Push(kind, a) => SpecValue::Push(kind@, view_list(a@)),
            Value::Done => SpecValue::Done,
        }
    }
}

/// Basic shape facts about `view_list`: length and pointwise image.
pub proof fn lemma_view_list(s: Seq<Value>)
    ensures
        view_list(s).len() == s.len(),
        forall|i: int| 0 <= i < s.len() ==> #[trigger] view_list(s)[i] == s[i]@,
    decreases s,
{
    if s.len() > 0 {
        lemma_view_list(s.drop_last());
        assert(view_list(s) == view_list(s.drop_last()).push(s.last()@));
        assert forall|i: int| 0 <= i < s.len() implies #[trigger] view_list(s)[i] == s[i]@ by {
            if i < s.len() - 1 {
                assert(view_list(s)[i] == view_list(s.drop_last())[i]);
                assert(s.drop_last()[i] == s[i]);
            } else {
                assert(s.last() == s[i]);
            }
        }
    }
}

/// Basic shape facts about `view_entries`: length and pointwise image.
pub proof fn lemma_view_entries(s: Seq<Entry>)
    ensures
        view_entries(s).len() == s.len(),
        forall|i: int| 0 <= i < s.len() ==> #[trigger] view_entries(s)[i] == s[i]@,
    decreases s,
{
    if s.len() > 0 {
        lemma_view_entries(s.drop_last());
        assert(view_entries(s) == view_entries(s.drop_last()).push(s.last()@));
        assert forall|i: int| 0 <= i < s.len() implies #[trigger] view_entries(s)[i] == s[i]@ by {
            if i < s.len() - 1 {
                assert(view_entries(s)[i] == view_entries(s.drop_last())[i]);
                assert(s.drop_last()[i] == s[i]);
            } else {
                assert(s.last() == s[i]);
            }
        }
    }
}


/// The numeric reading of a value, with permissive coercions: integers
/// read as themselves, strings as their decimal text, and float atoms
/// as their denoted number truncated toward zero with saturation —
/// infinities clamp to the range's ends and a not-a-number reads as
/// zero.
pub open spec fn spec_as_int(v: SpecValue) -> Option<int> {
    match v {
        SpecValue::Int(x) => Some(x),
        SpecValue::String(t) => crate::number::spec_parse_i64(t),
        SpecValue::Float(t) => if crate::float_text::is_float_text(t) {
            Some(crate::float_text::float_trunc(t))
        } else {
            None
        },
        _ => None,
    }
}

impl Value {
    /// True for the null value.
    pub fn is_null(&self) -> (r: bool)
        ensures
            r == (self@ is Null),
    {
        matches!(self, Value::Null)
    }

    /// The boolean payload, when this is a boolean.
    pub fn as_bool(&self) -> (r: Option<bool>)
        ensures
            r == (match self@ {
                SpecValue::Bool(b) => Some(b),
                _ => None::<bool>,
            }),
    {
        if let Value::Bool(b) = self {
            Some(*b)
        } else {
            None
        }
    }

    /// The integer reading of this value, as `spec_as_int` gives it.
    pub fn as_int(&self) -> (r: Option<i64>)
        ensures
            match r {
                Some(n) => spec_as_int(self@) == Some(n as int),
                None => spec_as_int(self@) is None,
            },
    {
        match self {
            Value::Int(x) => Some(*x),
            Value::String(t) => crate::number::parse_i64(t.as_slice()),
            Value::Float(t) => {
                if crate::float_text::is_float_bytes(t.as_slice()) {
                    Some(crate::float_text::float_trunc_i64(t.as_slice()))
                } else {
                    None
                }
            },
            _ => None,
        }
    }

    /// The error text, when this is an error.
    pub fn as_error(&self) -> (r: Option<&Vec<u8>>)
        ensures
            match r {
                Some(t) => self@ is Error && t@ == self@->Error_0,
                None => !(self@ is Error),
            },
    {
        if let Value::Error(t) = self {
            Some(t)
        } else {
            None
        }
    }

    /// The string bytes, when this is a string.
    pub fn as_string(&self) -> (r: Option<&Vec<u8>>)
        ensures
            match r {
                Some(t) => self@ is String && t@ == self@->String_0,
                None => !(self@ is String),
            },
    {
        if let Value::String(t) = self {
            Some(t)
        } else {
            None
        }
    }

    /// The raw bytes of a string or a bytes value.
    pub fn as_bytes(&self) -> (r: Option<&Vec<u8>>)
        ensures
            match r {
                Some(t) => (self@ is String && t@ == self@->String_0) || (self@ is Bytes && t@
                    == self@->Bytes_0),
                None => !(self@ is String) && !(self@ is Bytes),
            },
    {
        match self {
            Value::Bytes(t) => Some(t),
            Value::String(t) => Some(t),
            _ => None,
        }
    }

    /// The float atom's text, when this is a float.
    pub fn as_float_text(&self) -> (r: Option<&Vec<u8>>)
        ensures
            match r {
                Some(t) => self@ is Float && t@ == self@->Float_0,
                None => !(self@ is Float),
            },
    {
        if let Value::Float(t) = self {
            Some(t)
        } else {
            None
        }
    }

    /// The element vector, when this is an array.
    pub fn as_array(&self) -> (r: Option<&Vec<Value>>)
        ensures
            match r {
                Some(a) => self@ is Array && view_list(a@) == self@->Array_0,
                None => !(self@ is Array),
            },
    {
        if let Value::Array(a) = self {
            Some(a)
        } else {
            None
        }
    }

    /// The entry vector, when this is a map.
    pub fn as_map(&self) -> (r: Option<&Vec<Entry>>)
        ensures
            match r {
                Some(m) => self@ is Dict && view_entries(m@) == self@->Dict_0,
                None => !(self@ is Dict),
            },
    {
        if let Value::Dict(m) = self {
            Some(m)
        } else {
            None
        }
    }

    /// The member vector, when this is a set.
    pub fn as_set(&self) -> (r: Option<&Vec<Value>>)
        ensures
            match r {
                Some(m) => self@ is SetOf && view_list(m@) == self@->SetOf_0,
                None => !(self@ is SetOf),
            },
    {
        if let Value::SetOf(m) = self {
            Some(m)
        } else {
            None
        }
    }


    /// Appends this value's encoding to a buffer; a value holding the
    /// `Done` sentinel is refused without writing.
    pub fn write(&self, out: &mut Vec<u8>) -> (r: Result<(), crate::error::Error>)
        ensures
            crate::encoder::no_done(self@) ==> r is Ok && final(out)@ == old(out)@
                + crate::encoder::spec_encode(self@),
            !crate::encoder::no_done(self@) ==> r is Err && final(out)@ == old(out)@,
    {
        let mut enc = crate::encoder::Encoder::new(Vec::new());
        let r = enc.encode(self);
        let bytes = enc.into_inner();
        match r {
            Ok(()) => {
                let mut i: usize = 0;
                while i < bytes.len()
                    invariant
                        i <= bytes@.len(),
                        out@ == old(out)@ + bytes@.take(i as int),
                    decreases bytes@.len() - i,
                {
                    out.push(bytes[i]);
                    i = i + 1;
                    proof {
                        assert(out@ =~= old(out)@ + bytes@.take(i as int));
                    }
                }
                proof {
                    assert(bytes@.take(i as int) =~= bytes@);
                }
                Ok(())
            },
            Err(e) => Err(e),
        }
    }

    /// Decodes the first value of a byte buffer.
    pub fn read(input: &[u8]) -> (r: Result<Value, crate::error::Error>)
        ensures
            ({
                let d = crate::decoder::spec_decode(input@, true);
                match r {
                    Ok(v) => d is Ok && v@ == d->Ok_0.0,
                    Err(e) => d == Err::<(SpecValue, int), crate::error::Error>(e),
                }
            }),
    {
        match crate::decoder::decode_at(input, 0, true) {
            Ok((v, _end)) => {
                proof {
                    assert(input@.skip(0) =~= input@);
                }
                Ok(v)
            },
            Err(e) => {
                proof {
                    assert(input@.skip(0) =~= input@);
                }
                Err(e)
            },
        }
    }


    /// The integer payload, writable, when this is an integer.
    pub fn as_int_mut(&mut self) -> (r: Option<&mut i64>)
        ensures
            match r {
                Some(x) => old(self)@ is Int && *x == old(self)@->Int_0 && final(self)@
                    == SpecValue::Int(*final(x) as int),
                None => !(old(self)@ is Int) && *final(self) == *old(self),
            },
    {
        if let Value::Int(x) = self {
            Some(x)
        } else {
            None
        }
    }


    /// The boolean payload, writable, when this is a boolean.
    pub fn as_bool_mut(&mut self) -> (r: Option<&mut bool>)
        ensures
            match r {
                Some(x) => old(self)@ is Bool && *x == old(self)@->Bool_0 && final(self)@
                    == SpecValue::Bool(*final(x)),
                None => !(old(self)@ is Bool) && *final(self) == *old(self),
            },
    {
        if let Value::Bool(x) = self {
            Some(x)
        } else {
            None
        }
    }

    /// The error text, writable, when this is an error.
    pub fn as_error_mut(&mut self) -> (r: Option<&mut Vec<u8>>)
        ensures
            match r {
                Some(t) => old(self)@ is Error && (*t)@ == old(self)@->Error_0 && final(self)@
                    == SpecValue::Error((*final(t))@),
                None => !(old(self)@ is Error) && *final(self) == *old(self),
            },
    {
        if let Value::Error(t) = self {
            Some(t)
        } else {
            None
        }
    }

    /// The string bytes, writable, when this is a string.
    pub fn as_string_mut(&mut self) -> (r: Option<&mut Vec<u8>>)
        ensures
            match r {
                Some(t) => old(self)@ is String && (*t)@ == old(self)@->String_0 && final(self)@
                    == SpecValue::String((*final(t))@),
                None => !(old(self)@ is String) && *final(self) == *old(self),
            },
    {
        if let Value::String(t) = self {
            Some(t)
        } else {
            None
        }
    }

    /// The raw bytes, writable, when this is a bytes value.
    pub fn as_bytes_mut(&mut self) -> (r: Option<&mut Vec<u8>>)
        ensures
            match r {
                Some(t) => old(self)@ is Bytes && (*t)@ == old(self)@->Bytes_0 && final(self)@
                    == SpecValue::Bytes((*final(t))@),
                None => !(old(self)@ is Bytes) && *final(self) == *old(self),
            },
    {
        if let Value::Bytes(t) = self {
            Some(t)
        } else {
            None
        }
    }

    /// The float atom's text, writable, when this is a float.
    pub fn as_float_text_mut(&mut self) -> (r: Option<&mut Vec<u8>>)
        ensures
            match r {
                Some(t) => old(self)@ is Float && (*t)@ == old(self)@->Float_0 && final(self)@
                    == SpecValue::Float((*final(t))@),
                None => !(old(self)@ is Float) && *final(self) == *old(self),
            },
    {
        if let Value::Float(t) = self {
            Some(t)
        } else {
            None
        }
    }

    /// The element vector, writable, when this is an array.
    pub fn as_array_mut(&mut self) -> (r: Option<&mut Vec<Value>>)
        ensures
            match r {
                Some(a) => old(self)@ is Array && view_list((*a)@) == old(self)@->Array_0 && final(self)@ == SpecValue::Array(view_list((*final(a))@)),
                None => !(old(self)@ is Array) && *final(self) == *old(self),
            },
    {
        if let Value::Array(a) = self {
            Some(a)
        } else {
            None
        }
    }

    /// The entry vector, writable, when this is a map.
    pub fn as_map_mut(&mut self) -> (r: Option<&mut Vec<Entry>>)
        ensures
            match r {
                Some(m) => old(self)@ is Dict && view_entries((*m)@) == old(self)@->Dict_0 && final(self)@ == SpecValue::Dict(view_entries((*final(m))@)),
                None => !(old(self)@ is Dict) && *final(self) == *old(self),
            },
    {
        if let Value::Dict(m) = self {
            Some(m)
        } else {
            None
        }
    }

    /// The member vector, writable, when this is a set.
    pub fn as_set_mut(&mut self) -> (r: Option<&mut Vec<Value>>)
        ensures
            match r {
                Some(m) => old(self)@ is SetOf && view_list((*m)@) == old(self)@->SetOf_0 && final(self)@ == SpecValue::SetOf(view_list((*final(m))@)),
                None => !(old(self)@ is SetOf) && *final(self) == *old(self),
            },
    {
        if let Value::SetOf(m) = self {
            Some(m)
        } else {
            None
        }
    }

    /// Wraps anything with a conversion into a value.
    pub fn new<T: Into<Value>>(x: T) -> Value {
        x.into()
    }

    /// The error value carrying the given message.
    pub fn error(x: &str) -> (r: Value)
        ensures
            r@ == SpecValue::Error(vstd::string::StringSliceAdditionalSpecFns::spec_bytes(x)),
    {
        Value::Error(vstd::string::StrSliceExecFns::as_bytes_vec(x))
    }

    /// The conventional success reply: the string `OK`.
    pub fn ok() -> (r: Value)
        ensures
            r@ == SpecValue::String(vstd::utf8::encode_utf8("OK"@)),
    {
        Value::String(vstd::string::StrSliceExecFns::as_bytes_vec("OK"))
    }

    /// The sentinel reply of a handler that already wrote its response.
    pub fn done() -> (r: Result<Value, crate::error::Error>)
        ensures
            r is Ok && r->Ok_0@ is Done,
    {
        Ok(Value::Done)
    }
}


impl From<bool> for Value {
    fn from(b: bool) -> (r: Value) {
        Value::Bool(b)
    }
}

impl vstd::std_specs::convert::FromSpecImpl<bool> for Value {
    open spec fn obeys_from_spec() -> bool {
        true
    }

    open spec fn from_spec(v: bool) -> Value {
        Value::Bool(v)
    }
}

impl From<i64> for Value {
    fn from(x: i64) -> (r: Value) {
        Value::Int(x)
    }
}

impl vstd::std_specs::convert::FromSpecImpl<i64> for Value {
    open spec fn obeys_from_spec() -> bool {
        true
    }

    open spec fn from_spec(v: i64) -> Value {
        Value::Int(v)
    }
}

impl From<Vec<u8>> for Value {
    fn from(x: Vec<u8>) -> (r: Value) {
        Value::Bytes(x)
    }
}

impl vstd::std_specs::convert::FromSpecImpl<Vec<u8>> for Value {
    open spec fn obeys_from_spec() -> bool {
        true
    }

    open spec fn from_spec(v: Vec<u8>) -> Value {
        Value::Bytes(v)
    }
}

impl From<Vec<Value>> for Value {
    fn from(x: Vec<Value>) -> (r: Value) {
        Value::Array(x)
    }
}

impl vstd::std_specs::convert::FromSpecImpl<Vec<Value>> for Value {
    open spec fn obeys_from_spec() -> bool {
        true
    }

    open spec fn from_spec(v: Vec<Value>) -> Value {
        Value::Array(v)
    }
}


impl From<()> for Value {
    fn from(_x: ()) -> (r: Value) {
        Value::Null
    }
}

impl vstd::std_specs::convert::FromSpecImpl<()> for Value {
    open spec fn obeys_from_spec() -> bool {
        true
    }

    open spec fn from_spec(v: ()) -> Value {
        Value::Null
    }
}

// Text conversions carry no contract: no spec-level constructor
// denotes the vector holding a string's bytes.
impl From<String> for Value {
    fn from(x: String) -> (r: Value) {
        Value::String(vstd::string::StrSliceExecFns::as_bytes_vec(x.as_str()))
    }
}

impl vstd::std_specs::convert::FromSpecImpl<String> for Value {
    open spec fn obeys_from_spec() -> bool {
        false
    }

    open spec fn from_spec(v: String) -> Value {
        Value::Null
    }
}

impl<'a> From<&'a str> for Value {
    fn from(x: &'a str) -> (r: Value) {
        Value::String(vstd::string::StrSliceExecFns::as_bytes_vec(x))
    }
}

impl<'a> vstd::std_specs::convert::FromSpecImpl<&'a str> for Value {
    open spec fn obeys_from_spec() -> bool {
        false
    }

    open spec fn from_spec(v: &'a str) -> Value {
        Value::Null
    }
}

impl TryFrom<Value> for () {
    type Error = crate::error::Error;

    fn try_from(v: Value) -> (r: Result<(), crate::error::Error>) {
        if let Value::Null = v {
            Ok(())
        } else {
            Err(crate::error::Error::InvalidValue(v))
        }
    }
}

impl vstd::std_specs::convert::TryFromSpecImpl<Value> for () {
    open spec fn obeys_try_from_spec() -> bool {
        true
    }

    open spec fn try_from_spec(v: Value) -> Result<(), crate::error::Error> {
        match v {
            Value::Null => Ok(()),
            _ => Err(crate::error::Error::InvalidValue(v)),
        }
    }
}

impl TryFrom<Value> for bool {
    type Error = crate::error::Error;

    fn try_from(v: Value) -> (r: Result<bool, crate::error::Error>) {
        if let Value::Bool(b) = v {
            Ok(b)
        } else {
            Err(crate::error::Error::InvalidValue(v))
        }
    }
}

impl vstd::std_specs::convert::TryFromSpecImpl<Value> for bool {
    open spec fn obeys_try_from_spec() -> bool {
        true
    }

    open spec fn try_from_spec(v: Value) -> Result<bool, crate::error::Error> {
        match v {
            Value::Bool(b) => Ok(b),
            _ => Err(crate::error::Error::InvalidValue(v)),
        }
    }
}

impl TryFrom<Value> for i64 {
    type Error = crate::error::Error;

    fn try_from(v: Value) -> (r: Result<i64, crate::error::Error>) {
        if let Value::Int(x) = v {
            Ok(x)
        } else {
            Err(crate::error::Error::InvalidValue(v))
        }
    }
}

impl vstd::std_specs::convert::TryFromSpecImpl<Value> for i64 {
    open spec fn obeys_try_from_spec() -> bool {
        true
    }

    open spec fn try_from_spec(v: Value) -> Result<i64, crate::error::Error> {
        match v {
            Value::Int(x) => Ok(x),
            _ => Err(crate::error::Error::InvalidValue(v)),
        }
    }
}

impl TryFrom<Value> for Vec<u8> {
    type Error = crate::error::Error;

    fn try_from(v: Value) -> (r: Result<Vec<u8>, crate::error::Error>) {
        if let Value::Bytes(b) = v {
            Ok(b)
        } else {
            Err(crate::error::Error::InvalidValue(v))
        }
    }
}

impl vstd::std_specs::convert::TryFromSpecImpl<Value> for Vec<u8> {
    open spec fn obeys_try_from_spec() -> bool {
        true
    }

    open spec fn try_from_spec(v: Value) -> Result<Vec<u8>, crate::error::Error> {
        match v {
            Value::Bytes(b) => Ok(b),
            _ => Err(crate::error::Error::InvalidValue(v)),
        }
    }
}

impl TryFrom<Value> for Vec<Value> {
    type Error = crate::error::Error;

    fn try_from(v: Value) -> (r: Result<Vec<Value>, crate::error::Error>) {
        if let Value::Array(a) = v {
            Ok(a)
        } else {
            Err(crate::error::Error::InvalidValue(v))
        }
    }
}

impl vstd::std_specs::convert::TryFromSpecImpl<Value> for Vec<Value> {
    open spec fn obeys_try_from_spec() -> bool {
        true
    }

    open spec fn try_from_spec(v: Value) -> Result<Vec<Value>, crate::error::Error> {
        match v {
            Value::Array(a) => Ok(a),
            _ => Err(crate::error::Error::InvalidValue(v)),
        }
    }
}

} // verus!
