use proc_receive::{Error, Phase, Reader, Session};

const OLD: &[u8] = b"0123456789abcdef0123456789abcdef01234567";
const NEW: &[u8] = b"89abcdef0123456789abcdef0123456789abcdef";
const ADVERTISEMENT: &[u8] = b"001bversion=1\0push-options\n0000";

fn frame(text: &[u8]) -> Vec<u8> {
    let mut out = format!("{:04x}", text.len() + 4).into_bytes();
    out.extend_from_slice(text);
    out
}

fn command(name: &[u8]) -> Vec<u8> {
    let mut text = OLD.to_vec();
    text.push(b' ');
    text.extend_from_slice(NEW);
    text.push(b' ');
    text.extend_from_slice(name);
    frame(&text)
}

fn step(session: &mut Session, received: &[u8]) -> (Result<(), Error>, Vec<u8>) {
    let mut sent = Vec::new();
    let result = session.advance(&mut Reader::new(received), &mut sent);
    (result, sent)
}

/// Steps through `input` until the push is received, an error comes up or
/// the input is used up.
fn run(session: &mut Session, input: &[u8]) -> (Result<(), Error>, Vec<u8>, usize) {
    let mut reader = Reader::new(input);
    let mut sent = Vec::new();
    while session.phase() != Phase::Received {
        if let Err(error) = session.advance(&mut reader, &mut sent) {
            return (Err(error), sent, reader.remaining());
        }
    }
    (Ok(()), sent, reader.remaining())
}

#[test]
fn session_goes_through_its_phases() {
    let mut session = Session::new();
    assert_eq!(session.phase(), Phase::Version);
    assert!(session.commands().is_empty());
    assert!(session.options().is_empty());

    assert_eq!(step(&mut session, &frame(b"version=1\0push-options\n")), (Ok(()), Vec::new()));
    assert_eq!(session.phase(), Phase::VersionFlush);

    assert_eq!(step(&mut session, b"0000"), (Ok(()), ADVERTISEMENT.to_vec()));
    assert_eq!(session.phase(), Phase::Commands);

    assert_eq!(step(&mut session, &command(b"refs/heads/main")), (Ok(()), Vec::new()));
    assert_eq!(session.phase(), Phase::Commands);
    assert_eq!(step(&mut session, &command(b"refs/heads/topic")), (Ok(()), Vec::new()));
    assert_eq!(session.phase(), Phase::Commands);
    assert_eq!(session.commands().len(), 2);
    assert_eq!(step(&mut session, b"0000"), (Ok(()), Vec::new()));
    assert_eq!(session.phase(), Phase::Options);

    assert_eq!(step(&mut session, &frame(b"topic=fix")), (Ok(()), Vec::new()));
    assert_eq!(step(&mut session, &frame(b"noequals")), (Ok(()), Vec::new()));
    assert_eq!(step(&mut session, &frame(b"topic=feature")), (Ok(()), Vec::new()));
    assert_eq!(session.phase(), Phase::Options);
    assert_eq!(step(&mut session, b"0000"), (Ok(()), Vec::new()));
    assert_eq!(session.phase(), Phase::Received);

    assert_eq!(session.commands().len(), 2);
    assert_eq!(session.commands()[0].ref_name(), b"refs/heads/main");
    assert_eq!(session.commands()[1].ref_name(), b"refs/heads/topic");
    assert_eq!(session.options().len(), 1);
    assert_eq!(session.options().get(b"topic"), Some(&b"feature"[..]));
}

#[test]
fn session_on_a_whole_conversation() {
    let mut input = frame(b"version=1\0atomic push-options");
    input.extend_from_slice(b"0000");
    input.extend(command(b"refs/heads/main"));
    input.extend_from_slice(b"0000");
    input.extend(frame(b"k=1"));
    input.extend(frame(b"k=2"));
    input.extend_from_slice(b"0000");
    input.extend_from_slice(b"beyond");
    let mut session = Session::new();
    assert_eq!(run(&mut session, &input), (Ok(()), ADVERTISEMENT.to_vec(), 6));
    assert_eq!(session.commands().len(), 1);
    assert_eq!(session.commands()[0].old_oid(), OLD);
    assert_eq!(session.commands()[0].new_oid(), NEW);
    assert_eq!(session.options().get(b"k"), Some(&b"2"[..]));
}

#[test]
fn session_without_commands_and_options() {
    let mut session = Session::new();
    let input = b"001bversion=1\0push-options\n000000000000";
    assert_eq!(run(&mut session, input), (Ok(()), ADVERTISEMENT.to_vec(), 0));
    assert!(session.commands().is_empty());
    assert!(session.options().is_empty());
}

#[test]
fn nothing_is_sent_before_the_negotiation_succeeds() {
    let mut session = Session::new();
    let mut input = frame(b"version=2\0push-options\n");
    input.extend_from_slice(b"0000");
    let (result, sent, _) = run(&mut session, &input);
    assert_eq!(result, Err(Error::UnsupportedProtocolVersion(Some(b"2".to_vec()))));
    assert!(sent.is_empty());
    assert_eq!(session.phase(), Phase::Version);

    let mut session = Session::new();
    let mut input = frame(b"version=1\0push-options\n");
    input.extend(command(b"refs/heads/main"));
    let (result, sent, _) = run(&mut session, &input);
    assert_eq!(result, Err(Error::ExpectedFlushPkt));
    assert!(sent.is_empty());
    assert_eq!(session.phase(), Phase::VersionFlush);
    assert!(session.commands().is_empty());
}

#[test]
fn commands_are_not_read_as_the_version() {
    let mut session = Session::new();
    let (result, sent) = step(&mut session, &command(b"refs/heads/main"));
    assert_eq!(result, Err(Error::PushOptionsRequired));
    assert!(sent.is_empty());
    assert!(session.commands().is_empty());
}

#[test]
fn session_ends_on_the_first_bad_command() {
    let mut input = b"001bversion=1\0push-options\n0000".to_vec();
    input.extend(command(b"refs/heads/good"));
    let mut bad = command(b"refs/heads/bad");
    bad[4] = b'|';
    input.extend(bad);
    input.extend(command(b"refs/heads/later"));
    input.extend_from_slice(b"00000000");
    let mut session = Session::new();
    let (result, sent, left) = run(&mut session, &input);
    assert_eq!(result, Err(Error::InvalidSHA));
    assert_eq!(sent, ADVERTISEMENT.to_vec());
    assert_eq!(left, command(b"refs/heads/later").len() + 8);
    assert_eq!(session.phase(), Phase::Commands);
    assert_eq!(session.commands().len(), 1);
}

#[test]
fn session_on_input_that_ends_early() {
    let mut session = Session::new();
    let input = b"001bversion=1\0push-options\n0000";
    let (result, sent, left) = run(&mut session, input);
    assert_eq!(result, Err(Error::Truncated));
    assert_eq!(sent, ADVERTISEMENT.to_vec());
    assert_eq!(left, 0);
    assert_eq!(session.phase(), Phase::Commands);
}

#[test]
fn received_session_reads_nothing_more() {
    let mut session = Session::new();
    let input = b"001bversion=1\0push-options\n000000000000";
    assert_eq!(run(&mut session, input).0, Ok(()));
    let more = command(b"refs/heads/main");
    let mut reader = Reader::new(&more);
    let mut sent = Vec::new();
    assert_eq!(session.advance(&mut reader, &mut sent), Ok(()));
    assert_eq!(reader.remaining(), more.len());
    assert!(sent.is_empty());
    assert!(session.commands().is_empty());
    assert_eq!(session.phase(), Phase::Received);
}
