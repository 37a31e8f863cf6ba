use proc_receive::response::write_command_status;
use proc_receive::{integration_ref, ref_updates, update_refs, Command, Error, RefUpdate};

const OLD: &[u8] = b"0123456789abcdef0123456789abcdef01234567";
const NEW: &[u8] = b"89abcdef0123456789abcdef0123456789abcdef";

fn command(name: &[u8]) -> Command {
    let mut text = OLD.to_vec();
    text.push(b' ');
    text.extend_from_slice(NEW);
    text.push(b' ');
    text.extend_from_slice(name);
    Command::parse(&text).unwrap()
}

const MAIN_STATUS: &[u8] = b"0016ok refs/heads/main\
002doption refname refs/heads/for/master/pr42\
003boption old-oid 0123456789abcdef0123456789abcdef01234567\
003boption new-oid 89abcdef0123456789abcdef0123456789abcdef";

const TOPIC_STATUS: &[u8] = b"0017ok refs/heads/topic\
002doption refname refs/heads/for/master/pr42\
003boption old-oid 0123456789abcdef0123456789abcdef01234567\
003boption new-oid 89abcdef0123456789abcdef0123456789abcdef";

#[test]
fn integration_ref_embeds_the_pull_id() {
    assert_eq!(integration_ref(1), b"refs/heads/for/master/pr1".to_vec());
    assert_eq!(integration_ref(42), b"refs/heads/for/master/pr42".to_vec());
    assert_eq!(integration_ref(0), b"refs/heads/for/master/pr0".to_vec());
    assert_eq!(integration_ref(10), b"refs/heads/for/master/pr10".to_vec());
    assert_eq!(integration_ref(1_000_000), b"refs/heads/for/master/pr1000000".to_vec());
    assert_eq!(integration_ref(9_876_543_210), b"refs/heads/for/master/pr9876543210".to_vec());
    assert_eq!(
        integration_ref(u64::MAX),
        b"refs/heads/for/master/pr18446744073709551615".to_vec()
    );
}

#[test]
fn integration_ref_is_written_as_format_does() {
    for id in [0u64, 7, 99, 100, 101, 12345, 4294967296, u64::MAX - 1] {
        assert_eq!(integration_ref(id), format!("refs/heads/for/master/pr{}", id).into_bytes());
    }
}

#[test]
fn status_of_one_command() {
    let mut out = Vec::new();
    write_command_status(&mut out, &command(b"refs/heads/main"), b"refs/heads/for/master/pr42");
    assert_eq!(out, MAIN_STATUS.to_vec());
}

#[test]
fn response_to_one_command() {
    let commands = vec![command(b"refs/heads/main")];
    let mut out = Vec::new();
    assert_eq!(update_refs(&mut out, &commands, 42, None), Ok(()));
    let mut expected = MAIN_STATUS.to_vec();
    expected.extend_from_slice(b"0000");
    assert_eq!(out, expected);
}

#[test]
fn response_follows_the_order_of_the_batch() {
    let commands = vec![command(b"refs/heads/main"), command(b"refs/heads/topic")];
    let mut out = b"before".to_vec();
    assert_eq!(update_refs(&mut out, &commands, 42, None), Ok(()));
    let mut expected = b"before".to_vec();
    expected.extend_from_slice(MAIN_STATUS);
    expected.extend_from_slice(TOPIC_STATUS);
    expected.extend_from_slice(b"0000");
    assert_eq!(out, expected);
}

#[test]
fn response_to_an_empty_batch() {
    let mut out = Vec::new();
    assert_eq!(update_refs(&mut out, &Vec::new(), 1, None), Ok(()));
    assert_eq!(out, b"0000".to_vec());
}

#[test]
fn frame_lengths_count_the_text_and_the_header() {
    let name = b"refs/heads/a-rather-long-branch-name/with/parts";
    let commands = vec![command(name)];
    let mut out = Vec::new();
    assert_eq!(update_refs(&mut out, &commands, 18446744073709551615, None), Ok(()));
    let mut expected = Vec::new();
    for text in [
        format!("ok {}", String::from_utf8_lossy(name)),
        "option refname refs/heads/for/master/pr18446744073709551615".to_string(),
        format!("option old-oid {}", String::from_utf8_lossy(OLD)),
        format!("option new-oid {}", String::from_utf8_lossy(NEW)),
    ] {
        expected.extend_from_slice(format!("{:04x}{}", text.len() + 4, text).as_bytes());
    }
    expected.extend_from_slice(b"0000");
    assert_eq!(out, expected);
}

#[test]
fn failed_ref_update_ends_the_response() {
    let commands = vec![command(b"refs/heads/main"), command(b"refs/heads/topic")];
    let mut out = Vec::new();
    assert_eq!(update_refs(&mut out, &commands, 42, Some(1)), Err(Error::RefUpdateFailed));
    assert_eq!(out, MAIN_STATUS.to_vec());

    let mut out = Vec::new();
    assert_eq!(update_refs(&mut out, &commands, 42, Some(0)), Err(Error::RefUpdateFailed));
    assert!(out.is_empty());
}

#[test]
fn failure_index_outside_the_batch_is_no_failure() {
    let commands = vec![command(b"refs/heads/main")];
    let mut out = Vec::new();
    assert_eq!(update_refs(&mut out, &commands, 42, Some(1)), Ok(()));
    let mut expected = MAIN_STATUS.to_vec();
    expected.extend_from_slice(b"0000");
    assert_eq!(out, expected);
}

#[test]
fn response_to_the_longest_ref_name() {
    let name = vec![b'r'; 0xfffb - 82];
    let commands = vec![command(&name)];
    let mut out = Vec::new();
    assert_eq!(update_refs(&mut out, &commands, 5, None), Ok(()));
    assert_eq!(&out[..7], b"ffb0ok ");
    assert_eq!(&out[7..7 + name.len()], &name[..]);
}

#[test]
fn every_command_is_diverted_to_the_one_branch() {
    let other: &[u8] = b"ffffffffffffffffffffffffffffffffffffffff";
    let mut text = OLD.to_vec();
    text.push(b' ');
    text.extend_from_slice(other);
    text.extend_from_slice(b" refs/heads/topic");
    let commands = vec![command(b"refs/heads/main"), Command::parse(&text).unwrap()];
    assert_eq!(
        ref_updates(&commands, 7),
        vec![
            RefUpdate { target: b"refs/heads/for/master/pr7".to_vec(), object: NEW.to_vec() },
            RefUpdate { target: b"refs/heads/for/master/pr7".to_vec(), object: other.to_vec() },
        ]
    );
    assert!(ref_updates(&Vec::new(), 7).is_empty());
}
