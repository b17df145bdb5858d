//! The library's error taxonomy.
//!
//! Decode failures are fatal to a session: the stream can no longer be
//! framed.  `Disconnect` is the controlled termination a handler asks
//! for; `Internal` is a handler-originated fault that is reported as an
//! error frame while the connection stays open.

use vstd::prelude::*;
use vstd::string::StrSliceExecFns;
use vstd::string::StringSliceAdditionalSpecFns;
use crate::number::dec_nat;
use crate::value::Value;
use vstd::utf8::encode_utf8;

verus! {

/// What can go wrong while framing, parsing or serving.
#[derive(Debug, PartialEq, Eq)]
pub enum Error {
    /// The underlying byte source ended or failed mid-frame.
    IO,
    /// A malformed integer atom.
    ParseInt,
    /// A malformed floating-point atom.
    ParseFloat,
    /// A received value had the wrong shape for the caller's expectation.
    InvalidValue(Value),
    /// A protocol violation: an unexpected prefix or a malformed line.
    InvalidByte(Option<u8>),
    /// A handler-originated fault, reported but not fatal.
    Internal(Vec<u8>),
    /// A controlled termination carrying the final error message.
    Disconnect(Vec<u8>),
}

/// The text of the reply to a command called with too few arguments.
pub open spec fn spec_invalid_args_msg(cmd: Seq<char>, got: int, expected: int) -> Seq<u8> {
    encode_utf8("ERR wrong number of arguments for "@) + encode_utf8(cmd) + encode_utf8(
        " command, got "@,
    ) + dec_nat(got as nat) + encode_utf8(" but expected "@) + dec_nat(expected as nat)
}

impl Error {
    /// A handler's way to end the session: an `Err` carrying the final
    /// message for the client.
    pub fn disconnect(s: &str) -> (r: Result<Value, Error>)
        ensures
            r is Err,
            r->Err_0 is Disconnect,
            r->Err_0->Disconnect_0@ == vstd::string::StringSliceAdditionalSpecFns::spec_bytes(s),
    {
        Err(Error::Disconnect(s.as_bytes_vec()))
    }

    /// The normal reply for a wrong argument count: an error frame, not
    /// a disconnect.
    pub fn invalid_args(cmd: &str, got: usize, expected: usize) -> (r: Result<Value, Error>)
        ensures
            r is Ok,
            r->Ok_0 is Error,
            r->Ok_0->Error_0@ == spec_invalid_args_msg(cmd@, got as int, expected as int),
    {
        let mut msg: Vec<u8> = "ERR wrong number of arguments for ".as_bytes_vec();
        let mut part = cmd.as_bytes_vec();
        msg.append(&mut part);
        let mut part = " command, got ".as_bytes_vec();
        msg.append(&mut part);
        let mut part = crate::number::fmt_usize(got);
        msg.append(&mut part);
        let mut part = " but expected ".as_bytes_vec();
        msg.append(&mut part);
        let mut part = crate::number::fmt_usize(expected);
        msg.append(&mut part);
        Ok(Value::Error(msg))
    }

    /// A short description of the error, used when a handler fault is
    /// reported to the client as an error frame.
    pub fn describe(&self) -> (r: Vec<u8>)
        ensures
            r@ == spec_describe(*self),
    {
        match self {
            Error::IO => "ERR i/o error".as_bytes_vec(),
            Error::ParseInt => "ERR malformed integer".as_bytes_vec(),
            Error::ParseFloat => "ERR malformed double".as_bytes_vec(),
            Error::InvalidValue(_) => "ERR unexpected value".as_bytes_vec(),
            Error::InvalidByte(_) => "ERR protocol violation".as_bytes_vec(),
            Error::Internal(m) => {
                let mut msg: Vec<u8> = "ERR internal error: ".as_bytes_vec();
                let mut part = clone_bytes(m);
                msg.append(&mut part);
                msg
            },
            Error::Disconnect(m) => clone_bytes(m),
        }
    }
}

/// The description each error variant carries to the client.
pub open spec fn spec_describe(e: Error) -> Seq<u8> {
    match e {
        Error::IO => encode_utf8("ERR i/o error"@),
        Error::ParseInt => encode_utf8("ERR malformed integer"@),
        Error::ParseFloat => encode_utf8("ERR malformed double"@),
        Error::InvalidValue(_) => encode_utf8("ERR unexpected value"@),
        Error::InvalidByte(_) => encode_utf8("ERR protocol violation"@),
        Error::Internal(m) => encode_utf8("ERR internal error: "@) + m@,
        Error::Disconnect(m) => m@,
    }
}

/// Copies a byte vector.
pub fn clone_bytes(b: &Vec<u8>) -> (r: Vec<u8>)
    ensures
        r@ == b@,
{
    let mut r: Vec<u8> = Vec::new();
    let mut i: usize = 0;
    while i < b.len()
        invariant
            i <= b@.len(),
            r@ == b@.take(i as int),
        decreases b@.len() - i,
    {
        r.push(b[i]);
        i = i + 1;
        proof {
            assert(r@ =~= b@.take(i as int));
        }
    }
    proof {
        assert(b@.take(i as int) =~= b@);
    }
    r
}

} // verus!
