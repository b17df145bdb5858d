//! The connection state machine: handshake, authentication, built-ins
//! and dispatch.

use worm::session::{session_password_result, session_response, session_step};
use worm::value::Entry;
use worm::Action;
use worm::Command;
use worm::Decoder;
use worm::Encoder;
use worm::Error;
use worm::Policy;
use worm::ResponseAction;
use worm::Session;
use worm::Value;

fn enc(v: &Value) -> Vec<u8> {
    let mut e = Encoder::new(Vec::new());
    e.encode(v).expect("value must encode");
    e.into_inner()
}

fn dec(bytes: &[u8]) -> Value {
    let mut d = Decoder::new(bytes.to_vec());
    d.decode().expect("frame must decode")
}

fn open_policy() -> Policy {
    Policy { password_required: false, commands: Vec::new() }
}

fn policy_with(commands: &[&str], password_required: bool) -> Policy {
    Policy {
        password_required,
        commands: commands.iter().map(|c| c.as_bytes().to_vec()).collect(),
    }
}

fn contains(haystack: &[u8], needle: &[u8]) -> bool {
    haystack.windows(needle.len()).any(|w| w == needle)
}

fn ready_session() -> Session {
    Session { ready: true, authenticated: true, pending: None }
}

#[test]
fn handshake_over_the_wire() {
    let mut sess = Session::new();
    let policy = open_policy();
    let frame = dec(b"*2\r\n$5\r\nHELLO\r\n$1\r\n3\r\n");
    let action = session_step(&mut sess, &policy, frame);
    let reply = match action {
        Action::Reply(v) => v,
        _ => panic!("the handshake must be answered"),
    };
    let bytes = enc(&reply);
    assert!(bytes.starts_with(b"%3\r\n"));
    assert!(contains(&bytes, b"server"));
    assert!(contains(&bytes, b"version"));
    assert!(contains(&bytes, b"proto"));
    assert!(contains(&bytes, b":3\r\n"));
    assert!(contains(&bytes, b"worm"));
    assert!(sess.ready && sess.authenticated);
}

#[test]
fn ping_echoes_its_argument() {
    let mut sess = ready_session();
    let policy = open_policy();
    let frame = dec(b"*2\r\n$4\r\nping\r\n$5\r\nhello\r\n");
    let action = session_step(&mut sess, &policy, frame);
    match action {
        Action::Reply(v) => assert_eq!(enc(&v), b"+hello\r\n"),
        _ => panic!("ping must be answered"),
    }
}

#[test]
fn ping_without_argument_answers_pong() {
    let mut sess = ready_session();
    let policy = open_policy();
    let action = session_step(&mut sess, &policy, dec(b"*1\r\n$4\r\nping\r\n"));
    match action {
        Action::Reply(v) => assert_eq!(v, Value::String(b"PONG".to_vec())),
        _ => panic!("ping must be answered"),
    }
}

#[test]
fn unknown_command_is_nocommand() {
    let mut sess = ready_session();
    let policy = open_policy();
    let action = session_step(&mut sess, &policy, dec(b"*1\r\n$5\r\nhallo\r\n"));
    match action {
        Action::Reply(v) => assert_eq!(enc(&v), b"-NOCOMMAND invalid command\r\n"),
        _ => panic!("an unknown name must get a reply"),
    }
}

#[test]
fn command_before_hello_is_rejected() {
    let mut sess = Session::new();
    let policy = open_policy();
    let action = session_step(&mut sess, &policy, dec(b"*1\r\n$4\r\nping\r\n"));
    match action {
        Action::ReplyClose(msg) => assert_eq!(msg, b"ERR invalid handshake".to_vec()),
        _ => panic!("a command before the handshake must close"),
    }
}

#[test]
fn hello_with_wrong_version_is_noproto() {
    let mut sess = Session::new();
    let policy = open_policy();
    let action = session_step(&mut sess, &policy, dec(b"*2\r\n$5\r\nhello\r\n$1\r\n4\r\n"));
    match action {
        Action::ReplyClose(msg) => assert!(msg.starts_with(b"NOPROTO")),
        _ => panic!("a wrong version must close"),
    }
    assert!(!sess.ready);
}

#[test]
fn password_required_without_auth() {
    let mut sess = Session::new();
    let policy = policy_with(&[], true);
    let action = session_step(&mut sess, &policy, dec(b"*2\r\n$5\r\nhello\r\n$1\r\n3\r\n"));
    match action {
        Action::ReplyClose(msg) => assert_eq!(msg, b"ERR password required".to_vec()),
        _ => panic!("hello without credentials must close"),
    }
}

#[test]
fn wrong_password_closes() {
    let mut sess = Session::new();
    let policy = policy_with(&[], true);
    let frame = dec(b"*5\r\n$5\r\nhello\r\n$1\r\n3\r\n$4\r\nAUTH\r\n$3\r\nbad\r\n$4\r\npass\r\n");
    let action = session_step(&mut sess, &policy, frame);
    match action {
        Action::CheckPassword { username, password } => {
            assert_eq!(username, b"bad".to_vec());
            assert_eq!(password, b"pass".to_vec());
        },
        _ => panic!("credentials must be checked"),
    }
    let after = session_password_result(&mut sess, false);
    match after {
        Action::ReplyClose(msg) => assert_eq!(msg, b"ERR invalid password".to_vec()),
        _ => panic!("a failed check must close"),
    }
    assert!(!sess.authenticated);
}

#[test]
fn right_password_completes_the_handshake() {
    let mut sess = Session::new();
    let policy = policy_with(&[], true);
    let frame = dec(b"*5\r\n$5\r\nhello\r\n$1\r\n3\r\n$4\r\nauth\r\n$2\r\nme\r\n$2\r\npw\r\n");
    let action = session_step(&mut sess, &policy, frame);
    assert!(matches!(action, Action::CheckPassword { .. }));
    let after = session_password_result(&mut sess, true);
    assert!(matches!(after, Action::Reply(_)));
    assert!(sess.ready && sess.authenticated);
}

#[test]
fn auth_single_argument_uses_default_user() {
    let mut sess = Session::new();
    let policy = policy_with(&[], true);
    let action = session_step(&mut sess, &policy, dec(b"*2\r\n$4\r\nauth\r\n$6\r\nsecret\r\n"));
    match action {
        Action::CheckPassword { username, password } => {
            assert_eq!(username, b"default".to_vec());
            assert_eq!(password, b"secret".to_vec());
        },
        _ => panic!("auth must check the password"),
    }
    let after = session_password_result(&mut sess, true);
    match after {
        Action::Reply(v) => assert_eq!(v, Value::String(b"OK".to_vec())),
        _ => panic!("a good password must be acknowledged"),
    }
    assert!(sess.authenticated);
}

#[test]
fn commands_lists_user_then_builtins() {
    let mut sess = ready_session();
    let policy = policy_with(&["get", "set", "del"], false);
    let action = session_step(&mut sess, &policy, dec(b"*1\r\n$8\r\ncommands\r\n"));
    match action {
        Action::Reply(Value::Array(items)) => {
            let names: Vec<Vec<u8>> = items
                .into_iter()
                .map(|v| match v {
                    Value::String(s) => s,
                    _ => panic!("command names are strings"),
                })
                .collect();
            let expected: Vec<Vec<u8>> =
                ["get", "set", "del", "hello", "auth", "ping", "commands"]
                    .iter()
                    .map(|s| s.as_bytes().to_vec())
                    .collect();
            assert_eq!(names, expected);
        },
        _ => panic!("commands must be answered with an array"),
    }
}

#[test]
fn declared_commands_are_dispatched() {
    let mut sess = ready_session();
    let policy = policy_with(&["get"], false);
    let frame = dec(b"*2\r\n$3\r\nGET\r\n$1\r\nk\r\n");
    let action = session_step(&mut sess, &policy, frame);
    match action {
        Action::Dispatch(cmd) => {
            assert_eq!(cmd.0, b"get".to_vec());
            assert_eq!(cmd.1, vec![Value::String(b"k".to_vec())]);
        },
        _ => panic!("a declared command must be dispatched"),
    }
}

#[test]
fn non_command_frames_are_ignored() {
    let mut sess = ready_session();
    let policy = open_policy();
    assert!(matches!(session_step(&mut sess, &policy, Value::Int(3)), Action::Ignore));
    assert!(matches!(
        session_step(&mut sess, &policy, Value::Array(Vec::new())),
        Action::Ignore
    ));
    assert!(matches!(
        session_step(&mut sess, &policy, Value::Array(vec![Value::Int(1)])),
        Action::Ignore
    ));
}

#[test]
fn handler_results_reach_the_wire() {
    match session_response(Ok(Value::Int(5))) {
        ResponseAction::Send(v) => assert_eq!(v, Value::Int(5)),
        _ => panic!("a value must be sent"),
    }
    assert!(matches!(session_response(Ok(Value::Done)), ResponseAction::SendNothing));
    match session_response(Err(Error::Disconnect(b"bye".to_vec()))) {
        ResponseAction::SendClose(m) => assert_eq!(m, b"bye".to_vec()),
        _ => panic!("a disconnect must close"),
    }
    match session_response(Err(Error::Internal(b"boom".to_vec()))) {
        ResponseAction::Send(v) => {
            assert_eq!(v, Value::Error(b"ERR internal error: boom".to_vec()))
        },
        _ => panic!("an internal error must be reported"),
    }
}

#[test]
fn invalid_args_reply() {
    let r = Error::invalid_args("get", 0, 1).unwrap();
    assert_eq!(
        r,
        Value::Error(b"ERR wrong number of arguments for get command, got 0 but expected 1".to_vec())
    );
}

#[test]
fn command_name_is_lowercased() {
    let cmd = Command::new("HeLLo");
    assert_eq!(cmd.0, b"hello".to_vec());
    let mut cmd = Command::new("get").arg("k");
    assert_eq!(cmd.pop_front(), Value::String(b"k".to_vec()));
    assert_eq!(cmd.pop_front(), Value::Null);
}

#[test]
fn client_handshake_request() {
    let cmd = worm::client::hello_command(Some(("me", "pw")));
    let parts = cmd.into_vec();
    assert_eq!(
        parts,
        vec![
            Value::String(b"hello".to_vec()),
            Value::String(b"3".to_vec()),
            Value::String(b"AUTH".to_vec()),
            Value::String(b"me".to_vec()),
            Value::String(b"pw".to_vec()),
        ]
    );
    let ok = worm::client::check_hello_reply(Value::Dict(vec![]));
    assert!(ok.is_ok());
    let bad = worm::client::check_hello_reply(Value::Int(1));
    assert!(matches!(bad, Err(Error::InvalidValue(Value::Int(1)))));
}

#[test]
fn value_coercions() {
    assert_eq!(Value::Int(3).as_int(), Some(3));
    assert_eq!(Value::String(b"3".to_vec()).as_int(), Some(3));
    assert_eq!(Value::Float(b"3.7".to_vec()).as_int(), Some(3));
    assert_eq!(Value::Bool(true).as_int(), None);
    assert_eq!(Value::Float(b"junk".to_vec()).as_int(), None);
    assert_eq!(Value::Null.is_null(), true);
    assert_eq!(Value::Bool(false).as_bool(), Some(false));
    let e = Entry { key: Value::Int(1), val: Value::Int(2) };
    let m = Value::Dict(vec![e]);
    assert!(m.as_map().is_some());
    assert!(m.as_set().is_none());
}

#[test]
fn float_atoms_truncate_their_value() {
    let t = |text: &[u8]| Value::Float(text.to_vec()).as_int();
    assert_eq!(t(b"1e2"), Some(100));
    assert_eq!(t(b"0.3e1"), Some(3));
    assert_eq!(t(b".5"), Some(0));
    assert_eq!(t(b"-.5"), Some(0));
    assert_eq!(t(b"-2.9"), Some(-2));
    assert_eq!(t(b"12.34e1"), Some(123));
    assert_eq!(t(b"5e-1"), Some(0));
    assert_eq!(t(b"1234e-2"), Some(12));
    assert_eq!(t(b"9223372036854775807"), Some(i64::MAX));
    assert_eq!(t(b"92233720368547758070"), Some(i64::MAX));
    assert_eq!(t(b"-9223372036854775808"), Some(i64::MIN));
    assert_eq!(t(b"-9223372036854775809"), Some(i64::MIN));
    assert_eq!(t(b"1e300"), Some(i64::MAX));
    assert_eq!(t(b"-1e300"), Some(i64::MIN));
    assert_eq!(t(b"0e99999999999999999999"), Some(0));
    assert_eq!(t(b"0.0e99999999999999999999"), Some(0));
    assert_eq!(t(b"1e99999999999999999999"), Some(i64::MAX));
    assert_eq!(t(b"1e-99999999999999999999"), Some(0));
    assert_eq!(t(b"inf"), Some(i64::MAX));
    assert_eq!(t(b"-Infinity"), Some(i64::MIN));
    assert_eq!(t(b"nan"), Some(0));
    assert_eq!(t(b"-NaN"), Some(0));
}

#[test]
fn hello_accepts_a_float_spelling_of_three() {
    let mut sess = Session::new();
    let policy = open_policy();
    let frame = dec(b"*2\r\n$5\r\nhello\r\n,0.3e1\r\n");
    let action = session_step(&mut sess, &policy, frame);
    assert!(matches!(action, Action::Reply(_)));
    assert!(sess.ready);
}
