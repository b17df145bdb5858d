//! The outbound client's protocol logic.
//!
//! Connecting, writing and reading are the host's work; what the
//! library owns is the handshake request a client must open with and
//! the check on the server's answer.

use vstd::prelude::*;
use vstd::utf8::encode_utf8;
use crate::command::Command;
use crate::command::lower_bytes;
use crate::error::Error;
use crate::value::SpecValue;
use crate::value::Value;
use crate::value::view_list;

verus! {

/// Builds the opening request: `HELLO 3`, with `AUTH user pass`
/// appended when credentials are given.
pub fn hello_command(auth: Option<(&str, &str)>) -> (r: Command)
    ensures
        r.0@ == lower_bytes(encode_utf8("HELLO"@)),
        match auth {
            None => view_list(r.1@) =~= seq![SpecValue::String(encode_utf8("3"@))],
            Some((u, p)) => view_list(r.1@) =~= seq![
                SpecValue::String(encode_utf8("3"@)),
                SpecValue::String(encode_utf8("AUTH"@)),
                SpecValue::String(vstd::string::StringSliceAdditionalSpecFns::spec_bytes(u)),
                SpecValue::String(vstd::string::StringSliceAdditionalSpecFns::spec_bytes(p)),
            ],
        },
{
    let cmd = Command::new("HELLO").arg("3");
    match auth {
        None => cmd,
        Some((user, pass)) => cmd.arg("AUTH").arg(user).arg(pass),
    }
}

/// The handshake answer must be a map; anything else is reported as an
/// unexpected value and the connection is abandoned.
pub fn check_hello_reply(v: Value) -> (r: Result<Value, Error>)
    ensures
        v@ is Dict ==> r == Ok::<Value, Error>(v),
        !(v@ is Dict) ==> r == Err::<Value, Error>(Error::InvalidValue(v)),
{
    if matches!(v, Value::Dict(_)) {
        Ok(v)
    } else {
        Err(Error::InvalidValue(v))
    }
}

} // verus!
