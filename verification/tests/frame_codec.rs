use proc_receive::frame::MAX_PAYLOAD;
use proc_receive::{announced_length, read_frame, write_flush, write_frame, Error, Frame, Reader};

fn encoded(payload: &[u8]) -> Vec<u8> {
    let mut out = Vec::new();
    write_frame(&mut out, payload);
    out
}

#[test]
fn write_frame_version_advertisement() {
    let out = encoded(b"version=1\0push-options\n");
    assert_eq!(out, b"001bversion=1\0push-options\n".to_vec());
    assert_eq!(out.len(), 27);
}

#[test]
fn write_frame_appends_to_what_is_there() {
    let mut out = b"xy".to_vec();
    write_frame(&mut out, b"hello");
    assert_eq!(out, b"xy0009hello".to_vec());
}

#[test]
fn write_frame_empty_payload() {
    assert_eq!(encoded(b""), b"0004".to_vec());
}

#[test]
fn write_frame_uses_lowercase_digits() {
    let payload = vec![b'a'; 0xab - 4];
    let out = encoded(&payload);
    assert_eq!(&out[..4], b"00ab");
    let payload = vec![b'a'; 0xcdef - 4];
    let out = encoded(&payload);
    assert_eq!(&out[..4], b"cdef");
    assert_eq!(out.len(), 0xcdef);
}

#[test]
fn write_flush_is_four_zeros() {
    let mut out = Vec::new();
    write_flush(&mut out);
    assert_eq!(out, b"0000".to_vec());
    write_flush(&mut out);
    assert_eq!(out, b"00000000".to_vec());
}

#[test]
fn read_frame_flush() {
    let input = b"0000rest";
    let mut reader = Reader::new(input);
    assert_eq!(read_frame(&mut reader), Ok(Frame::Flush));
    assert_eq!(reader.remaining(), 4);
    assert_eq!(reader.peek(4), Some(&b"rest"[..]));
}

#[test]
fn read_frame_data() {
    let input = b"0009hello0000";
    let mut reader = Reader::new(input);
    assert_eq!(read_frame(&mut reader), Ok(Frame::Data(b"hello".to_vec())));
    assert_eq!(reader.remaining(), 4);
    assert_eq!(read_frame(&mut reader), Ok(Frame::Flush));
    assert_eq!(reader.remaining(), 0);
}

#[test]
fn read_frame_empty_data_is_no_flush() {
    let mut reader = Reader::new(b"0004");
    assert_eq!(read_frame(&mut reader), Ok(Frame::Data(Vec::new())));
    assert_eq!(reader.remaining(), 0);
}

#[test]
fn round_trip_of_text() {
    let payloads: Vec<Vec<u8>> = vec![
        b"".to_vec(),
        b"a".to_vec(),
        b"version=1\0push-options\n".to_vec(),
        "gr\u{fc}\u{df}e \u{2713} \u{1f600}".as_bytes().to_vec(),
        vec![b'x'; 1000],
    ];
    for payload in payloads {
        let mut bytes = encoded(&payload);
        bytes.extend_from_slice(b"tail");
        let mut reader = Reader::new(&bytes);
        assert_eq!(read_frame(&mut reader), Ok(Frame::Data(payload)));
        assert_eq!(reader.peek(4), Some(&b"tail"[..]));
    }
}

#[test]
fn round_trip_of_the_longest_payload() {
    let payload = vec![b'z'; MAX_PAYLOAD];
    let bytes = encoded(&payload);
    assert_eq!(&bytes[..4], b"ffff");
    assert_eq!(bytes.len(), 0xffff);
    let mut reader = Reader::new(&bytes);
    assert_eq!(read_frame(&mut reader), Ok(Frame::Data(payload)));
    assert_eq!(reader.remaining(), 0);

    let payload = vec![b'z'; 0xfffa];
    let bytes = encoded(&payload);
    assert_eq!(&bytes[..4], b"fffe");
    let mut reader = Reader::new(&bytes);
    assert_eq!(read_frame(&mut reader), Ok(Frame::Data(payload)));
}

#[test]
fn round_trip_of_flush() {
    let mut bytes = Vec::new();
    write_flush(&mut bytes);
    let mut reader = Reader::new(&bytes);
    assert_eq!(read_frame(&mut reader), Ok(Frame::Flush));
    assert_eq!(reader.remaining(), 0);
}

#[test]
fn read_frame_truncated_header() {
    for input in [&b""[..], &b"0"[..], &b"000"[..]] {
        let mut reader = Reader::new(input);
        assert_eq!(read_frame(&mut reader), Err(Error::Truncated));
        assert_eq!(reader.remaining(), input.len());
    }
}

#[test]
fn read_frame_truncated_payload() {
    let input = b"0009hell";
    let mut reader = Reader::new(input);
    assert_eq!(read_frame(&mut reader), Err(Error::Truncated));
    assert_eq!(reader.remaining(), input.len());
}

#[test]
fn read_frame_malformed_length() {
    for input in [
        &b"00zzpayload"[..],
        &b"001Bversion=1\0push-options\n"[..],
        &b"+01bversion=1\0push-options\n"[..],
        &b" 009hello"[..],
        &b"0x09hello"[..],
        &b"00\xc3\xa9"[..],
    ] {
        let mut reader = Reader::new(input);
        assert_eq!(read_frame(&mut reader), Err(Error::MalformedLength));
        assert_eq!(reader.remaining(), input.len());
    }
}

#[test]
fn read_frame_length_below_header() {
    for input in [&b"0001"[..], &b"0002ab"[..], &b"0003abc"[..]] {
        let mut reader = Reader::new(input);
        assert_eq!(read_frame(&mut reader), Err(Error::MalformedLength));
        assert_eq!(reader.remaining(), input.len());
    }
}

#[test]
fn read_frame_invalid_encoding() {
    for input in [
        &b"0005\xff"[..],
        &b"0006\xc3\x28"[..],
        &b"0006\xc0\x80"[..],
        &b"0007\xed\xa0\x80"[..],
        &b"0005\xc3"[..],
    ] {
        let mut reader = Reader::new(input);
        assert_eq!(read_frame(&mut reader), Err(Error::InvalidEncoding));
        assert_eq!(reader.remaining(), input.len());
    }
}

#[test]
fn announced_length_of_headers() {
    assert_eq!(announced_length(b"0000"), Ok(0));
    assert_eq!(announced_length(b"0004"), Ok(4));
    assert_eq!(announced_length(b"001b"), Ok(27));
    assert_eq!(announced_length(b"ffff"), Ok(65535));
    assert_eq!(announced_length(b"1234rest"), Ok(0x1234));
    assert_eq!(announced_length(b"0003"), Err(Error::MalformedLength));
    assert_eq!(announced_length(b"00g0"), Err(Error::MalformedLength));
    assert_eq!(announced_length(b"00F0"), Err(Error::MalformedLength));
    assert_eq!(announced_length(b"001"), Err(Error::Truncated));
}

#[test]
fn reader_peek_and_take() {
    let mut reader = Reader::new(b"abcdef");
    assert_eq!(reader.remaining(), 6);
    assert_eq!(reader.peek(2), Some(&b"ab"[..]));
    assert_eq!(reader.remaining(), 6);
    assert_eq!(reader.take(2), Some(&b"ab"[..]));
    assert_eq!(reader.remaining(), 4);
    assert_eq!(reader.take(5), None);
    assert_eq!(reader.remaining(), 4);
    assert_eq!(reader.peek(5), None);
    assert_eq!(reader.take(4), Some(&b"cdef"[..]));
    assert_eq!(reader.take(0), Some(&b""[..]));
    assert_eq!(reader.take(1), None);
}
