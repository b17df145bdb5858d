//! The per-connection state machine.
//!
//! A connection must complete the `HELLO` handshake before anything but
//! `HELLO` or `AUTH` is served.  The machine is pure: it consumes one
//! decoded value and yields the next action — a reply to send, an error
//! to send before closing, a password check to perform, or a user
//! command to dispatch.  The host performs the action and, for password
//! checks, feeds the outcome back in.

use vstd::prelude::*;
use vstd::string::StrSliceExecFns;
use vstd::utf8::encode_utf8;
use crate::command::Command;
use crate::command::lower_bytes;
use crate::command::lower_vec;
use crate::error::Error;
use crate::error::spec_describe;
use crate::error::spec_invalid_args_msg;
use crate::value::Entry;
use crate::value::SpecValue;
use crate::value::Value;
use crate::value::spec_as_int;
use crate::value::view_list;
use crate::value::view_entries;
use crate::value::lemma_view_list;
use crate::value::lemma_view_entries;

verus! {

/// What the host must do next with a connection.
pub enum Action {
    /// No response: the frame did not have the shape of a command.
    Ignore,
    /// Encode and send this value; the connection stays open.
    Reply(Value),
    /// Send one error frame with this message, flush, and close.
    ReplyClose(Vec<u8>),
    /// Ask the application whether these credentials are valid, then
    /// call `session_password_result` with the outcome.
    CheckPassword { username: Vec<u8>, password: Vec<u8> },
    /// Route this request to the user handler, then feed its result to
    /// `session_response`.
    Dispatch(Command),
}

/// The mathematical image of an `Action`.
pub enum SpecAction {
    Ignore,
    Reply(SpecValue),
    ReplyClose(Seq<u8>),
    CheckPassword(Seq<u8>, Seq<u8>),
    Dispatch(Seq<u8>, Seq<SpecValue>),
}

impl View for Action {
    type V = SpecAction;

    open spec fn view(&self) -> SpecAction {
        match self {
            Action::Ignore => SpecAction::Ignore,
            Action::Reply(v) => SpecAction::Reply(v@),
            Action::ReplyClose(m) => SpecAction::ReplyClose(m@),
            Action::CheckPassword { username, password } => SpecAction::CheckPassword(
                username@,
                password@,
            ),
            Action::Dispatch(c) => SpecAction::Dispatch(c.0@, view_list(c.1@)),
        }
    }
}

/// Which exchange a pending password check belongs to.
#[derive(Debug, PartialEq, Eq)]
pub enum Pending {
    Hello,
    Auth,
}

/// One connection's protocol state.
#[derive(Debug, PartialEq, Eq)]
pub struct Session {
    /// The handshake has completed: ordinary commands are served.
    pub ready: bool,
    /// The client has authenticated (or no password was required).
    pub authenticated: bool,
    /// A password check is in flight for this exchange.
    pub pending: Option<Pending>,
}

impl Session {
    /// The state of a connection just accepted.
    pub fn new() -> (r: Session)
        ensures
            r == spec_session_new(),
    {
        Session { ready: false, authenticated: false, pending: None }
    }
}

/// See `Session::new`.
pub open spec fn spec_session_new() -> Session {
    Session { ready: false, authenticated: false, pending: None }
}

/// The application's fixed capabilities: whether a password is needed,
/// and the user-defined command names (already lower case).
pub struct Policy {
    pub password_required: bool,
    pub commands: Vec<Vec<u8>>,
}

impl View for Policy {
    type V = (bool, Seq<Seq<u8>>);

    open spec fn view(&self) -> (bool, Seq<Seq<u8>>) {
        (self.password_required, self.commands.deep_view())
    }
}

/// True when `name` is one of the declared command names.
pub open spec fn has_command(cmds: Seq<Seq<u8>>, name: Seq<u8>) -> bool {
    exists|i: int| 0 <= i < cmds.len() && cmds[i] == name
}

/// The map sent in reply to a successful handshake.
pub open spec fn spec_hello_reply() -> SpecValue {
    SpecValue::Dict(
        seq![
            (SpecValue::String(encode_utf8("proto"@)), SpecValue::Int(3)),
            (
                SpecValue::String(encode_utf8("server"@)),
                SpecValue::String(encode_utf8("worm"@)),
            ),
            (
                SpecValue::String(encode_utf8("version"@)),
                SpecValue::String(encode_utf8("0.1.0"@)),
            ),
        ],
    )
}

/// The array sent in reply to `COMMANDS`: the user commands first, then
/// the four built-ins in a fixed order.
pub open spec fn spec_commands_reply(cmds: Seq<Seq<u8>>) -> SpecValue {
    SpecValue::Array(
        Seq::new(cmds.len(), |i: int| SpecValue::String(cmds[i])) + seq![
            SpecValue::String(encode_utf8("hello"@)),
            SpecValue::String(encode_utf8("auth"@)),
            SpecValue::String(encode_utf8("ping"@)),
            SpecValue::String(encode_utf8("commands"@)),
        ],
    )
}

/// The handshake step: checks the protocol version, handles an inline
/// `AUTH`, and answers with the server map.
pub open spec fn spec_hello(s: Session, pr: bool, args: Seq<SpecValue>) -> (Session, SpecAction) {
    if args.len() == 0 {
        (s, SpecAction::Reply(SpecValue::Error(spec_invalid_args_msg("hello"@, 0, 1))))
    } else if spec_as_int(args[0]) != Some(3int) {
        (
            s,
            SpecAction::ReplyClose(
                encode_utf8(
                    "NOPROTO sorry this protocol version is not supported, only RESP3 is supported"@,
                ),
            ),
        )
    } else if args.len() >= 3 {
        if args[1] is String && lower_bytes(args[1]->String_0) == encode_utf8("auth"@) {
            if pr {
                if args.len() == 3 {
                    if args[2] is String {
                        (
                            Session { pending: Some(Pending::Hello), ..s },
                            SpecAction::CheckPassword(
                                encode_utf8("default"@),
                                args[2]->String_0,
                            ),
                        )
                    } else {
                        (s, SpecAction::ReplyClose(encode_utf8("ERR invalid password"@)))
                    }
                } else {
                    if args[2] is String && args[3] is String {
                        (
                            Session { pending: Some(Pending::Hello), ..s },
                            SpecAction::CheckPassword(args[2]->String_0, args[3]->String_0),
                        )
                    } else {
                        (s, SpecAction::ReplyClose(encode_utf8("ERR invalid password"@)))
                    }
                }
            } else {
                (
                    Session { ready: true, authenticated: true, pending: None },
                    SpecAction::Reply(spec_hello_reply()),
                )
            }
        } else {
            (
                s,
                SpecAction::ReplyClose(
                    encode_utf8("ERR invalid hello command, expected AUTH argument"@),
                ),
            )
        }
    } else if pr && !s.authenticated {
        (s, SpecAction::ReplyClose(encode_utf8("ERR password required"@)))
    } else {
        (
            Session { ready: true, authenticated: true, pending: None },
            SpecAction::Reply(spec_hello_reply()),
        )
    }
}

/// The `AUTH` step: a single argument is the password for the user
/// `default`; two arguments are a username and a password.
pub open spec fn spec_auth(s: Session, args: Seq<SpecValue>) -> (Session, SpecAction) {
    if args.len() == 0 {
        (s, SpecAction::Reply(SpecValue::Error(spec_invalid_args_msg("auth"@, 0, 1))))
    } else if args.len() == 1 {
        if args[0] is String {
            (
                Session { pending: Some(Pending::Auth), ..s },
                SpecAction::CheckPassword(encode_utf8("default"@), args[0]->String_0),
            )
        } else {
            (s, SpecAction::ReplyClose(encode_utf8("ERR invalid password"@)))
        }
    } else {
        if args[0] is String && args[1] is String {
            (
                Session { pending: Some(Pending::Auth), ..s },
                SpecAction::CheckPassword(args[0]->String_0, args[1]->String_0),
            )
        } else {
            (s, SpecAction::ReplyClose(encode_utf8("ERR invalid password"@)))
        }
    }
}

/// The `PING` step: echoes its argument, or answers `PONG`.
pub open spec fn spec_ping(args: Seq<SpecValue>) -> SpecAction {
    if args.len() > 0 {
        SpecAction::Reply(args[0])
    } else {
        SpecAction::Reply(SpecValue::String(encode_utf8("PONG"@)))
    }
}

/// One full step of the machine on an incoming frame.
pub open spec fn spec_step(s: Session, p: (bool, Seq<Seq<u8>>), v: SpecValue) -> (
    Session,
    SpecAction,
) {
    match v {
        SpecValue::Array(items) => {
            if items.len() == 0 || !(items[0] is String) {
                (s, SpecAction::Ignore)
            } else {
                let name = lower_bytes(items[0]->String_0);
                let args = items.skip(1);
                let s1 = if !s.authenticated && !p.0 {
                    Session { authenticated: true, ..s }
                } else {
                    s
                };
                if name == encode_utf8("hello"@) {
                    spec_hello(s1, p.0, args)
                } else if name == encode_utf8("auth"@) {
                    spec_auth(s1, args)
                } else if !s1.ready {
                    (s1, SpecAction::ReplyClose(encode_utf8("ERR invalid handshake"@)))
                } else if name == encode_utf8("commands"@) {
                    (s1, SpecAction::Reply(spec_commands_reply(p.1)))
                } else if name == encode_utf8("ping"@) {
                    (s1, spec_ping(args))
                } else if !s1.authenticated {
                    (s1, SpecAction::ReplyClose(encode_utf8("ERR unauthorized"@)))
                } else if has_command(p.1, name) {
                    (s1, SpecAction::Dispatch(name, args))
                } else {
                    (
                        s1,
                        SpecAction::Reply(
                            SpecValue::Error(encode_utf8("NOCOMMAND invalid command"@)),
                        ),
                    )
                }
            }
        },
        _ => (s, SpecAction::Ignore),
    }
}

/// The step after a password check came back.
pub open spec fn spec_password_result(s: Session, ok: bool) -> (Session, SpecAction) {
    match s.pending {
        Some(Pending::Hello) => if ok {
            (
                Session { ready: true, authenticated: true, pending: None },
                SpecAction::Reply(spec_hello_reply()),
            )
        } else {
            (
                Session { pending: None, ..s },
                SpecAction::ReplyClose(encode_utf8("ERR invalid password"@)),
            )
        },
        Some(Pending::Auth) => if ok {
            (
                Session { authenticated: true, pending: None, ..s },
                SpecAction::Reply(SpecValue::String(encode_utf8("OK"@))),
            )
        } else {
            (
                Session { pending: None, ..s },
                SpecAction::ReplyClose(encode_utf8("ERR invalid password"@)),
            )
        },
        None => (s, SpecAction::Ignore),
    }
}

/// What the host does with a handler's result.
pub enum ResponseAction {
    /// Encode and send this value, then flush.
    Send(Value),
    /// The handler already wrote its response; send nothing more.
    SendNothing,
    /// Send one error frame with this message, flush, and close.
    SendClose(Vec<u8>),
}

/// The mathematical image of a `ResponseAction`.
pub enum SpecResponseAction {
    Send(SpecValue),
    SendNothing,
    SendClose(Seq<u8>),
}

impl View for ResponseAction {
    type V = SpecResponseAction;

    open spec fn view(&self) -> SpecResponseAction {
        match self {
            ResponseAction::Send(v) => SpecResponseAction::Send(v@),
            ResponseAction::SendNothing => SpecResponseAction::SendNothing,
            ResponseAction::SendClose(m) => SpecResponseAction::SendClose(m@),
        }
    }
}

/// How a handler's result reaches the wire: `Done` means the handler
/// already replied; a `Disconnect` error is sent and closes; any other
/// error is reported as a normal error frame.
pub open spec fn spec_response(r: Result<SpecValue, Error>) -> SpecResponseAction {
    match r {
        Ok(v) => if v is Done {
            SpecResponseAction::SendNothing
        } else {
            SpecResponseAction::Send(v)
        },
        Err(e) => match e {
            Error::Disconnect(m) => SpecResponseAction::SendClose(m@),
            _ => SpecResponseAction::Send(SpecValue::Error(spec_describe(e))),
        },
    }
}

/// Turns a handler's result into the host's next action.
pub fn session_response(r: Result<Value, Error>) -> (out: ResponseAction)
    ensures
        out@ == spec_response(
            match r {
                Ok(v) => Ok(v@),
                Err(e) => Err(e),
            },
        ),
{
    match r {
        Ok(v) => {
            if matches!(v, Value::Done) {
                ResponseAction::SendNothing
            } else {
                ResponseAction::Send(v)
            }
        },
        Err(e) => {
            match e {
                Error::Disconnect(m) => ResponseAction::SendClose(m),
                other => ResponseAction::Send(Value::Error(other.describe())),
            }
        },
    }
}

/// Compares two byte strings for equality.
pub fn bytes_eq(a: &[u8], b: &[u8]) -> (r: bool)
    ensures
        r == (a@ == b@),
{
    if a.len() != b.len() {
        return false;
    }
    let mut i: usize = 0;
    while i < a.len()
        invariant
            i <= a@.len(),
            a@.len() == b@.len(),
            forall|k: int| 0 <= k < i ==> a@[k] == b@[k],
        decreases a@.len() - i,
    {
        if a[i] != b[i] {
            return false;
        }
        i = i + 1;
    }
    proof {
        assert(a@ =~= b@);
    }
    true
}

/// Reports whether `name` is one of the declared command names.
fn find_command(cmds: &Vec<Vec<u8>>, name: &Vec<u8>) -> (r: bool)
    ensures
        r == has_command(cmds.deep_view(), name@),
{
    let ghost cs = cmds.deep_view();
    let mut i: usize = 0;
    while i < cmds.len()
        invariant
            i <= cmds@.len(),
            cs == cmds.deep_view(),
            forall|k: int| 0 <= k < i ==> cs[k] != name@,
        decreases cmds@.len() - i,
    {
        proof {
            assert(cs[i as int] == cmds@[i as int]@);
        }
        if bytes_eq(cmds[i].as_slice(), name.as_slice()) {
            return true;
        }
        i = i + 1;
    }
    false
}

/// Builds the handshake reply map.
fn hello_reply() -> (r: Value)
    ensures
        r@ == spec_hello_reply(),
{
    let mut es: Vec<Entry> = Vec::new();
    es.push(Entry { key: Value::String("proto".as_bytes_vec()), val: Value::Int(3) });
    es.push(
        Entry {
            key: Value::String("server".as_bytes_vec()),
            val: Value::String("worm".as_bytes_vec()),
        },
    );
    es.push(
        Entry {
            key: Value::String("version".as_bytes_vec()),
            val: Value::String("0.1.0".as_bytes_vec()),
        },
    );
    proof {
        lemma_view_entries(es@);
        assert(view_entries(es@) =~= spec_hello_reply()->Dict_0);
    }
    Value::Dict(es)
}

/// Builds the `COMMANDS` reply array.
fn commands_reply(cmds: &Vec<Vec<u8>>) -> (r: Value)
    ensures
        r@ == spec_commands_reply(cmds.deep_view()),
{
    let ghost cs = cmds.deep_view();
    let mut items: Vec<Value> = Vec::new();
    let mut i: usize = 0;
    while i < cmds.len()
        invariant
            i <= cmds@.len(),
            cs == cmds.deep_view(),
            view_list(items@) =~= Seq::new(i as nat, |k: int| SpecValue::String(cs[k])),
        decreases cmds@.len() - i,
    {
        proof {
            lemma_view_list(items@);
            assert(cs[i as int] == cmds@[i as int]@);
        }
        let ghost before = items@;
        items.push(Value::String(crate::error::clone_bytes(&cmds[i])));
        i = i + 1;
        proof {
            assert(items@.drop_last() =~= before);
            lemma_view_list(items@);
            lemma_view_list(before);
            assert forall|k: int| 0 <= k < items@.len() implies #[trigger] view_list(items@)[k]
                == SpecValue::String(cs[k]) by {
                if k < items@.len() - 1 {
                    assert(items@[k] == before[k]);
                    assert(view_list(before)[k] == before[k]@);
                } else {
                    assert(view_list(items@)[k] == items@[k]@);
                }
            }
            assert(view_list(items@) =~= Seq::new(i as nat, |k: int| SpecValue::String(cs[k])));
        }
    }
    let ghost mid = items@;
    items.push(Value::String("hello".as_bytes_vec()));
    items.push(Value::String("auth".as_bytes_vec()));
    items.push(Value::String("ping".as_bytes_vec()));
    items.push(Value::String("commands".as_bytes_vec()));
    proof {
        lemma_view_list(items@);
        lemma_view_list(mid);
        assert forall|k: int| 0 <= k < items@.len() implies view_list(items@)[k]
            == spec_commands_reply(cs)->Array_0[k] by {
            if k < mid.len() {
                assert(items@[k] == mid[k]);
            } else {
                assert(view_list(items@)[k] == items@[k]@);
            }
        }
        assert(view_list(items@) =~= spec_commands_reply(cs)->Array_0);
    }
    Value::Array(items)
}

/// One step of the machine: consumes a decoded frame and yields the
/// host's next action, exactly as `spec_step` gives it.
pub fn session_step(sess: &mut Session, policy: &Policy, incoming: Value) -> (r: Action)
    ensures
        (*final(sess), r@) == spec_step(*old(sess), policy@, incoming@),
{
    let items = match incoming {
        Value::Array(items) => items,
        _ => {
            return Action::Ignore;
        },
    };
    if items.len() == 0 {
        proof {
            lemma_view_list(items@);
        }
        return Action::Ignore;
    }
    proof {
        lemma_view_list(items@);
    }
    let mut items = items;
    let ghost items0 = items@;
    let first = items.remove(0);
    let args = items;
    proof {
        lemma_view_list(items0);
        lemma_view_list(args@);
        assert(args@ =~= items0.skip(1));
        assert forall|k: int| 0 <= k < args@.len() implies #[trigger] view_list(args@)[k]
            == view_list(items0).skip(1)[k] by {
            assert(args@[k] == items0[k + 1]);
        }
        assert(view_list(args@) =~= view_list(items0).skip(1));
        assert(view_list(items0)[0] == items0[0]@);
    }
    let name_bytes = match first {
        Value::String(nb) => nb,
        _ => {
            return Action::Ignore;
        },
    };
    let name = lower_vec(name_bytes.as_slice());
    if !sess.authenticated && !policy.password_required {
        sess.authenticated = true;
    }
    if bytes_eq(name.as_slice(), "hello".as_bytes()) {
        handle_hello(sess, policy.password_required, args)
    } else if bytes_eq(name.as_slice(), "auth".as_bytes()) {
        handle_auth(sess, args)
    } else if !sess.ready {
        Action::ReplyClose("ERR invalid handshake".as_bytes_vec())
    } else if bytes_eq(name.as_slice(), "commands".as_bytes()) {
        Action::Reply(commands_reply(&policy.commands))
    } else if bytes_eq(name.as_slice(), "ping".as_bytes()) {
        handle_ping(args)
    } else if !sess.authenticated {
        Action::ReplyClose("ERR unauthorized".as_bytes_vec())
    } else if find_command(&policy.commands, &name) {
        Action::Dispatch(Command(name, args))
    } else {
        Action::Reply(Value::Error("NOCOMMAND invalid command".as_bytes_vec()))
    }
}

/// The handshake handler; see `spec_hello`.
pub fn handle_hello(sess: &mut Session, password_required: bool, args: Vec<Value>) -> (r: Action)
    ensures
        (*final(sess), r@) == spec_hello(*old(sess), password_required, view_list(args@)),
{
    proof {
        lemma_view_list(args@);
    }
    if args.len() == 0 {
        let reply = Error::invalid_args("hello", 0, 1);
        match reply {
            Ok(v) => Action::Reply(v),
            Err(_) => Action::Ignore,
        }
    } else {
        let three = args[0].as_int();
        let ok3 = match three {
            Some(x) => x == 3,
            None => false,
        };
        if !ok3 {
            Action::ReplyClose(
                "NOPROTO sorry this protocol version is not supported, only RESP3 is supported".as_bytes_vec(),
            )
        } else if args.len() >= 3 {
            let auth_ok = match &args[1] {
                Value::String(a) => bytes_eq(lower_vec(a.as_slice()).as_slice(), "auth".as_bytes()),
                _ => false,
            };
            if auth_ok {
                if password_required {
                    if args.len() == 3 {
                        let mut args = args;
                        let pw = args.remove(2);
                        match pw {
                            Value::String(p) => {
                                sess.pending = Some(Pending::Hello);
                                Action::CheckPassword {
                                    username: "default".as_bytes_vec(),
                                    password: p,
                                }
                            },
                            _ => Action::ReplyClose("ERR invalid password".as_bytes_vec()),
                        }
                    } else {
                        let mut args = args;
                        let pw = args.remove(3);
                        let us = args.remove(2);
                        match (us, pw) {
                            (Value::String(u), Value::String(p)) => {
                                sess.pending = Some(Pending::Hello);
                                Action::CheckPassword { username: u, password: p }
                            },
                            _ => Action::ReplyClose("ERR invalid password".as_bytes_vec()),
                        }
                    }
                } else {
                    sess.ready = true;
                    sess.authenticated = true;
                    sess.pending = None;
                    Action::Reply(hello_reply())
                }
            } else {
                Action::ReplyClose("ERR invalid hello command, expected AUTH argument".as_bytes_vec())
            }
        } else if password_required && !sess.authenticated {
            Action::ReplyClose("ERR password required".as_bytes_vec())
        } else {
            sess.ready = true;
            sess.authenticated = true;
            sess.pending = None;
            Action::Reply(hello_reply())
        }
    }
}

/// The `AUTH` handler; see `spec_auth`.
pub fn handle_auth(sess: &mut Session, args: Vec<Value>) -> (r: Action)
    ensures
        (*final(sess), r@) == spec_auth(*old(sess), view_list(args@)),
{
    proof {
        lemma_view_list(args@);
    }
    if args.len() == 0 {
        let reply = Error::invalid_args("auth", 0, 1);
        match reply {
            Ok(v) => Action::Reply(v),
            Err(_) => Action::Ignore,
        }
    } else if args.len() == 1 {
        let mut args = args;
        let pw = args.remove(0);
        match pw {
            Value::String(p) => {
                sess.pending = Some(Pending::Auth);
                Action::CheckPassword { username: "default".as_bytes_vec(), password: p }
            },
            _ => Action::ReplyClose("ERR invalid password".as_bytes_vec()),
        }
    } else {
        let mut args = args;
        let pw = args.remove(1);
        let us = args.remove(0);
        match (us, pw) {
            (Value::String(u), Value::String(p)) => {
                sess.pending = Some(Pending::Auth);
                Action::CheckPassword { username: u, password: p }
            },
            _ => Action::ReplyClose("ERR invalid password".as_bytes_vec()),
        }
    }
}

/// The `PING` handler; see `spec_ping`.
pub fn handle_ping(args: Vec<Value>) -> (r: Action)
    ensures
        r@ == SpecAction::Reply(
            if view_list(args@).len() > 0 {
                view_list(args@)[0]
            } else {
                SpecValue::String(encode_utf8("PONG"@))
            },
        ),
{
    proof {
        lemma_view_list(args@);
    }
    if args.len() > 0 {
        let mut args = args;
        let v = args.remove(0);
        Action::Reply(v)
    } else {
        Action::Reply(Value::String("PONG".as_bytes_vec()))
    }
}

/// Feeds back the outcome of a password check; see
/// `spec_password_result`.
pub fn session_password_result(sess: &mut Session, ok: bool) -> (r: Action)
    ensures
        (*final(sess), r@) == spec_password_result(*old(sess), ok),
{
    match sess.pending {
        Some(Pending::Hello) => {
            if ok {
                sess.ready = true;
                sess.authenticated = true;
                sess.pending = None;
                Action::Reply(hello_reply())
            } else {
                sess.pending = None;
                Action::ReplyClose("ERR invalid password".as_bytes_vec())
            }
        },
        Some(Pending::Auth) => {
            if ok {
                sess.authenticated = true;
                sess.pending = None;
                Action::Reply(Value::ok())
            } else {
                sess.pending = None;
                Action::ReplyClose("ERR invalid password".as_bytes_vec())
            }
        },
        None => Action::Ignore,
    }
}


/// The four built-in command names, as bytes, are pairwise distinct.
proof fn lemma_builtin_names()
    ensures
        encode_utf8("hello"@) =~= seq![104u8, 101, 108, 108, 111],
        encode_utf8("auth"@) =~= seq![97u8, 117, 116, 104],
        encode_utf8("ping"@) =~= seq![112u8, 105, 110, 103],
        encode_utf8("commands"@) =~= seq![99u8, 111, 109, 109, 97, 110, 100, 115],
{
    reveal_strlit("hello");
    reveal_strlit("auth");
    reveal_strlit("ping");
    reveal_strlit("commands");
    broadcast use vstd::utf8::is_ascii_chars_encode_utf8;

    assert(vstd::utf8::is_ascii_chars("hello"@));
    assert(vstd::utf8::is_ascii_chars("auth"@));
    assert(vstd::utf8::is_ascii_chars("ping"@));
    assert(vstd::utf8::is_ascii_chars("commands"@));
}

/// Law: before the handshake, any command other than `HELLO` or `AUTH`
/// is answered with one `ERR invalid handshake` error frame and the
/// connection closes.
pub proof fn lemma_handshake_required(s: Session, p: (bool, Seq<Seq<u8>>), items: Seq<SpecValue>)
    requires
        !s.ready,
        items.len() > 0,
        items[0] is String,
        lower_bytes(items[0]->String_0) != encode_utf8("hello"@),
        lower_bytes(items[0]->String_0) != encode_utf8("auth"@),
    ensures
        spec_step(s, p, SpecValue::Array(items)).1 == SpecAction::ReplyClose(
            encode_utf8("ERR invalid handshake"@),
        ),
{
}


/// Law: a session that completed the handshake is authenticated, and
/// both steps of the machine preserve that.  The `ERR unauthorized`
/// branch is therefore purely defensive.
pub proof fn lemma_ready_implies_authenticated(
    s: Session,
    p: (bool, Seq<Seq<u8>>),
    v: SpecValue,
    ok: bool,
)
    requires
        s.ready ==> s.authenticated,
    ensures
        spec_step(s, p, v).0.ready ==> spec_step(s, p, v).0.authenticated,
        spec_password_result(s, ok).0.ready ==> spec_password_result(s, ok).0.authenticated,
{
}

/// Law: a `HELLO` whose version argument does not read as 3 is answered
/// with the `NOPROTO` error and the connection closes.
pub proof fn lemma_hello_wrong_version(s: Session, p: (bool, Seq<Seq<u8>>), items: Seq<SpecValue>)
    requires
        items.len() >= 2,
        items[0] is String,
        lower_bytes(items[0]->String_0) == encode_utf8("hello"@),
        spec_as_int(items[1]) != Some(3int),
    ensures
        spec_step(s, p, SpecValue::Array(items)).1 == SpecAction::ReplyClose(
            encode_utf8(
                "NOPROTO sorry this protocol version is not supported, only RESP3 is supported"@,
            ),
        ),
{
}

/// Law: when a password is required, `HELLO 3` without credentials is
/// answered with `ERR password required` and the connection closes.
pub proof fn lemma_password_required(s: Session, p: (bool, Seq<Seq<u8>>), items: Seq<SpecValue>)
    requires
        p.0,
        !s.authenticated,
        2 <= items.len() < 4,
        items[0] is String,
        lower_bytes(items[0]->String_0) == encode_utf8("hello"@),
        spec_as_int(items[1]) == Some(3int),
    ensures
        spec_step(s, p, SpecValue::Array(items)).1 == SpecAction::ReplyClose(
            encode_utf8("ERR password required"@),
        ),
{
    let args = items.skip(1);
    assert(args[0] == items[1]);
}

/// Law: when a password is required, `HELLO 3 AUTH user pass` asks the
/// application to check exactly those credentials; a positive answer
/// completes the handshake with the server map, and a negative one is
/// met with `ERR invalid password` and the connection closes.
pub proof fn lemma_wrong_password(s: Session, p: (bool, Seq<Seq<u8>>), items: Seq<SpecValue>)
    requires
        p.0,
        items.len() == 5,
        items[0] is String,
        lower_bytes(items[0]->String_0) == encode_utf8("hello"@),
        spec_as_int(items[1]) == Some(3int),
        items[2] is String,
        lower_bytes(items[2]->String_0) == encode_utf8("auth"@),
        items[3] is String,
        items[4] is String,
    ensures
        spec_step(s, p, SpecValue::Array(items)).1 == SpecAction::CheckPassword(
            items[3]->String_0,
            items[4]->String_0,
        ),
        spec_password_result(spec_step(s, p, SpecValue::Array(items)).0, false).1
            == SpecAction::ReplyClose(encode_utf8("ERR invalid password"@)),
        spec_password_result(spec_step(s, p, SpecValue::Array(items)).0, true).1
            == SpecAction::Reply(spec_hello_reply()),
        spec_password_result(spec_step(s, p, SpecValue::Array(items)).0, true).0.ready,
{
    let args = items.skip(1);
    assert(args[0] == items[1]);
    assert(args[1] == items[2]);
    assert(args[2] == items[3]);
    assert(args[3] == items[4]);
}

/// Law: in the ready state, `PING` with no argument answers the simple
/// string `PONG`, and `PING x` echoes `x` exactly as it arrived.
pub proof fn lemma_ping_echo(s: Session, p: (bool, Seq<Seq<u8>>), items: Seq<SpecValue>)
    requires
        s.ready,
        items.len() > 0,
        items[0] is String,
        lower_bytes(items[0]->String_0) == encode_utf8("ping"@),
    ensures
        items.len() == 1 ==> spec_step(s, p, SpecValue::Array(items)).1 == SpecAction::Reply(
            SpecValue::String(encode_utf8("PONG"@)),
        ),
        items.len() > 1 ==> spec_step(s, p, SpecValue::Array(items)).1 == SpecAction::Reply(
            items[1],
        ),
{
    lemma_builtin_names();
    let args = items.skip(1);
    if items.len() > 1 {
        assert(args[0] == items[1]);
    }
}

/// Law: in the ready state, `COMMANDS` answers an array holding exactly
/// the declared user commands, in declaration order, followed by the
/// four built-ins `hello`, `auth`, `ping`, `commands` in that order.
pub proof fn lemma_commands_reply(s: Session, p: (bool, Seq<Seq<u8>>), items: Seq<SpecValue>)
    requires
        s.ready,
        items.len() > 0,
        items[0] is String,
        lower_bytes(items[0]->String_0) == encode_utf8("commands"@),
    ensures
        spec_step(s, p, SpecValue::Array(items)).1 == SpecAction::Reply(spec_commands_reply(p.1)),
{
    lemma_builtin_names();
}

/// Law: in the ready state, a name that is neither a built-in nor a
/// declared command is answered with `NOCOMMAND invalid command`, and
/// the connection stays open.
pub proof fn lemma_unknown_command(s: Session, p: (bool, Seq<Seq<u8>>), items: Seq<SpecValue>)
    requires
        s.ready,
        s.authenticated,
        items.len() > 0,
        items[0] is String,
        lower_bytes(items[0]->String_0) != encode_utf8("hello"@),
        lower_bytes(items[0]->String_0) != encode_utf8("auth"@),
        lower_bytes(items[0]->String_0) != encode_utf8("ping"@),
        lower_bytes(items[0]->String_0) != encode_utf8("commands"@),
        !has_command(p.1, lower_bytes(items[0]->String_0)),
    ensures
        spec_step(s, p, SpecValue::Array(items)).1 == SpecAction::Reply(
            SpecValue::Error(encode_utf8("NOCOMMAND invalid command"@)),
        ),
{
}

/// Law: in the ready state, a declared command is dispatched to the
/// user handler under its lower-cased name, with its arguments in
/// arrival order.
pub proof fn lemma_dispatch(s: Session, p: (bool, Seq<Seq<u8>>), items: Seq<SpecValue>)
    requires
        s.ready,
        s.authenticated,
        items.len() > 0,
        items[0] is String,
        lower_bytes(items[0]->String_0) != encode_utf8("hello"@),
        lower_bytes(items[0]->String_0) != encode_utf8("auth"@),
        lower_bytes(items[0]->String_0) != encode_utf8("ping"@),
        lower_bytes(items[0]->String_0) != encode_utf8("commands"@),
        has_command(p.1, lower_bytes(items[0]->String_0)),
    ensures
        spec_step(s, p, SpecValue::Array(items)).1 == SpecAction::Dispatch(
            lower_bytes(items[0]->String_0),
            items.skip(1),
        ),
{
}

} // verus!
