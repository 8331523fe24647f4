use miniredis::cmd::CMD;
use miniredis::cmd::CmdError;
use miniredis::resp::Frame;
use miniredis::resp::IntoBytesError;

fn bulk(s: &[u8]) -> Frame {
    Frame::Bulk(s.to_vec())
}

fn request(tokens: &[&[u8]]) -> Frame {
    Frame::Array(tokens.iter().map(|t| bulk(t)).collect())
}

#[test]
fn bare_ping_is_case_insensitive() {
    for s in [&b"ping"[..], b"PING", b"PiNg"] {
        let f = Frame::Simple(s.to_vec());
        assert_eq!(CMD::try_from(&f), Ok(CMD::Ping));
        let f = Frame::Bulk(s.to_vec());
        assert_eq!(CMD::try_from(&f), Ok(CMD::Ping));
        let f = request(&[s]);
        assert_eq!(CMD::try_from(&f), Ok(CMD::Ping));
    }
    let f = Frame::Simple(b"pong".to_vec());
    assert_eq!(CMD::try_from(&f), Err(CmdError::InvalidCommand));
}

#[test]
fn bare_scalars_are_rejected() {
    assert_eq!(
        CMD::try_from(&Frame::Error(b"e".to_vec())),
        Err(CmdError::ErrorFrame)
    );
    assert_eq!(CMD::try_from(&Frame::Integer(3)), Err(CmdError::IntegerFrame));
    assert_eq!(CMD::try_from(&Frame::Null), Err(CmdError::NullFrame));
    assert_eq!(
        CMD::try_from(&Frame::Array(vec![])),
        Err(CmdError::EmptyArray)
    );
}

#[test]
fn get_is_case_insensitive() {
    for s in [&b"GeT"[..], b"get", b"GET"] {
        let f = request(&[s, b"k"]);
        assert_eq!(CMD::try_from(&f), Ok(CMD::Get { key: b"k".to_vec() }));
    }
    let f = request(&[b"get"]);
    assert_eq!(CMD::try_from(&f), Err(CmdError::GetWithoutKey));
}

#[test]
fn echo_takes_an_optional_message() {
    let f = request(&[b"echo", b"hey"]);
    assert_eq!(CMD::try_from(&f), Ok(CMD::Echo(b"hey".to_vec())));
    let f = request(&[b"ECHO"]);
    assert_eq!(CMD::try_from(&f), Ok(CMD::Echo(Vec::new())));
}

#[test]
fn set_arity_and_expiry_shapes() {
    // Too few arguments.
    let f = request(&[b"SET", b"k"]);
    assert_eq!(CMD::try_from(&f), Err(CmdError::SetWithoutKeyOrValue));

    // Plain set.
    let f = request(&[b"SET", b"k", b"v"]);
    assert_eq!(
        CMD::try_from(&f),
        Ok(CMD::SetCmd { key: b"k".to_vec(), value: b"v".to_vec(), expire: None })
    );

    // PX with no millisecond count is rejected.
    let f = request(&[b"SET", b"k", b"v", b"PX"]);
    assert_eq!(CMD::try_from(&f), Err(CmdError::InvalidMillis));

    // A full expiry succeeds.
    let f = request(&[b"SET", b"k", b"v", b"px", b"100"]);
    assert_eq!(
        CMD::try_from(&f),
        Ok(CMD::SetCmd { key: b"k".to_vec(), value: b"v".to_vec(), expire: Some(100) })
    );

    // A millisecond count that is not a number is rejected.
    let f = request(&[b"SET", b"k", b"v", b"PX", b"notanumber"]);
    assert_eq!(CMD::try_from(&f), Err(CmdError::InvalidMillis));

    // An option other than PX is bad time syntax.
    let f = request(&[b"SET", b"k", b"v", b"EX", b"100"]);
    assert_eq!(CMD::try_from(&f), Err(CmdError::InvalidTimeSyntax));
}

#[test]
fn set_value_may_be_any_bytes() {
    let f = Frame::Array(vec![bulk(b"set"), bulk(b"k"), Frame::Bulk(vec![0xff, 0x00])]);
    assert_eq!(
        CMD::try_from(&f),
        Ok(CMD::SetCmd { key: b"k".to_vec(), value: vec![0xff, 0x00], expire: None })
    );
    // But the key must be text.
    let f = Frame::Array(vec![bulk(b"set"), Frame::Bulk(vec![0xff]), bulk(b"v")]);
    assert_eq!(CMD::try_from(&f), Err(CmdError::InvalidUtf8));
}

#[test]
fn tokens_must_carry_bytes() {
    let f = Frame::Array(vec![Frame::Integer(1)]);
    assert_eq!(
        CMD::try_from(&f),
        Err(CmdError::TokenNotBytes(IntoBytesError::Integer))
    );
    // A simple frame works as a token too.
    let f = Frame::Array(vec![Frame::Simple(b"PING".to_vec())]);
    assert_eq!(CMD::try_from(&f), Ok(CMD::Ping));
}

#[test]
fn unknown_verbs_are_unimplemented() {
    let f = request(&[b"FLUSHALL"]);
    assert_eq!(CMD::try_from(&f), Err(CmdError::UnimplementedCommand));
}

#[test]
fn config_get_flags() {
    let f = request(&[b"CONFIG", b"GET", b"dir"]);
    assert_eq!(
        CMD::try_from(&f),
        Ok(CMD::Config { dir: true, file_name: false })
    );

    // Both names, in either order, set both flags.
    let f = request(&[b"config", b"get", b"dbfilename", b"dir"]);
    assert_eq!(
        CMD::try_from(&f),
        Ok(CMD::Config { dir: true, file_name: true })
    );
    let f = request(&[b"config", b"get", b"DIR", b"DBFILENAME"]);
    assert_eq!(
        CMD::try_from(&f),
        Ok(CMD::Config { dir: true, file_name: true })
    );

    // Duplicates are idempotent.
    let f = request(&[b"config", b"get", b"dir", b"dir"]);
    assert_eq!(
        CMD::try_from(&f),
        Ok(CMD::Config { dir: true, file_name: false })
    );

    // Arity and subcommand checks.
    let f = request(&[b"config", b"get"]);
    assert_eq!(CMD::try_from(&f), Err(CmdError::ConfigArity));
    let f = request(&[b"config", b"set", b"dir"]);
    assert_eq!(CMD::try_from(&f), Err(CmdError::ConfigNotGet));
    let f = request(&[b"config", b"get", b"maxmemory"]);
    assert_eq!(CMD::try_from(&f), Err(CmdError::UnimplementedConfig));
}
