use crate::digits::{hex_digit_value, is_lower_hex, lower_hex_digit, lower_hex_value, to_lower_hex};
use crate::error::{Error, ErrorView};
use vstd::prelude::*;
use vstd::slice::slice_to_vec;
use vstd::utf8::valid_utf8;

verus! {

/// The longest payload that fits in a frame: the four digits of the header
/// count the header itself too.
pub const MAX_PAYLOAD: usize = 0xfffb;

/// One unit of the wire format.
#[derive(Debug, PartialEq, Eq)]
pub enum Frame {
    /// The marker that ends a group of frames. It carries no payload.
    Flush,
    /// A frame with a text payload.
    Data(Vec<u8>),
}

/// A [`Frame`] as contracts speak of it.
pub enum FrameView {
    Flush,
    Data(Seq<u8>),
}

impl View for Frame {
    type V = FrameView;

    open spec fn view(&self) -> FrameView {
        match self {
            Frame::Flush => FrameView::Flush,
            Frame::Data(payload) => FrameView::Data(payload@),
        }
    }
}

impl FrameView {
    /// A data frame holds UTF-8 text that is short enough for its header.
    pub open spec fn well_formed(self) -> bool {
        match self {
            FrameView::Flush => true,
            FrameView::Data(payload) => payload.len() <= MAX_PAYLOAD && valid_utf8(payload),
        }
    }
}

/// The header for a frame of `length` bytes in all: four lowercase
/// hexadecimal digits, the highest first.
pub open spec fn length_header(length: nat) -> Seq<u8> {
    seq![
        lower_hex_digit(length / 16 / 16 / 16),
        lower_hex_digit(length / 16 / 16 % 16),
        lower_hex_digit(length / 16 % 16),
        lower_hex_digit(length % 16),
    ]
}

/// The number that a header spells, where it is made of four lowercase
/// hexadecimal digits.
pub open spec fn parse_length(header: Seq<u8>) -> Option<nat> {
    if header.len() == 4 && is_lower_hex(header[0]) && is_lower_hex(header[1]) && is_lower_hex(
        header[2],
    ) && is_lower_hex(header[3]) {
        Some(
            ((hex_digit_value(header[0]).unwrap() * 16 + hex_digit_value(header[1]).unwrap()) * 16
                + hex_digit_value(header[2]).unwrap()) * 16 + hex_digit_value(header[3]).unwrap(),
        )
    } else {
        None
    }
}

/// The length in bytes, header included, of the frame that `input` starts
/// with; 0 for a flush frame.
pub open spec fn frame_length(input: Seq<u8>) -> Result<nat, ErrorView> {
    if input.len() < 4 {
        Err(ErrorView::Truncated)
    } else {
        match parse_length(input.take(4)) {
            None => Err(ErrorView::MalformedLength),
            Some(length) => if 0 < length < 4 {
                Err(ErrorView::MalformedLength)
            } else {
                Ok(length)
            },
        }
    }
}

/// The frame that `input` starts with, and the input that follows it.
pub open spec fn parse_frame(input: Seq<u8>) -> Result<(FrameView, Seq<u8>), ErrorView> {
    match frame_length(input) {
        Err(error) => Err(error),
        Ok(length) => if length == 0 {
            Ok((FrameView::Flush, input.skip(4)))
        } else if input.len() < length {
            Err(ErrorView::Truncated)
        } else if !valid_utf8(input.subrange(4, length as int)) {
            Err(ErrorView::InvalidEncoding)
        } else {
            Ok((FrameView::Data(input.subrange(4, length as int)), input.skip(length as int)))
        },
    }
}

/// The bytes of a flush frame: `0000`.
pub open spec fn flush_bytes() -> Seq<u8> {
    length_header(0)
}

/// The bytes of a data frame that carries `payload`.
pub open spec fn encode_frame(payload: Seq<u8>) -> Seq<u8> {
    length_header(payload.len() + 4) + payload
}

/// The bytes of any frame.
pub open spec fn encode(frame: FrameView) -> Seq<u8> {
    match frame {
        FrameView::Flush => flush_bytes(),
        FrameView::Data(payload) => encode_frame(payload),
    }
}

/// A header spells the length that it was written for.
pub proof fn lemma_length_header(length: nat)
    requires
        length <= 0xffff,
    ensures
        length_header(length).len() == 4,
        parse_length(length_header(length)) == Some(length),
{
    let d0 = length / 16 / 16 / 16;
    let d1 = length / 16 / 16 % 16;
    let d2 = length / 16 % 16;
    let d3 = length % 16;
    assert(d0 < 16);
    assert(hex_digit_value(lower_hex_digit(d0)) == Some(d0));
    assert(hex_digit_value(lower_hex_digit(d1)) == Some(d1));
    assert(hex_digit_value(lower_hex_digit(d2)) == Some(d2));
    assert(hex_digit_value(lower_hex_digit(d3)) == Some(d3));
    assert(((d0 * 16 + d1) * 16 + d2) * 16 + d3 == length);
}

/// A length that a header spells is below 0x10000, and its own header is the
/// one that spelled it: no two headers spell one length.
pub proof fn lemma_parse_length(header: Seq<u8>)
    ensures
        parse_length(header) matches Some(length) ==> length <= 0xffff && length_header(length)
            == header,
{
    if let Some(length) = parse_length(header) {
        let v0 = hex_digit_value(header[0]).unwrap();
        let v1 = hex_digit_value(header[1]).unwrap();
        let v2 = hex_digit_value(header[2]).unwrap();
        let v3 = hex_digit_value(header[3]).unwrap();
        assert(length % 16 == v3);
        assert(length / 16 == (v0 * 16 + v1) * 16 + v2);
        assert(length / 16 % 16 == v2);
        assert(length / 16 / 16 == v0 * 16 + v1);
        assert(length / 16 / 16 % 16 == v1);
        assert(length / 16 / 16 / 16 == v0);
        assert(lower_hex_digit(v0) == header[0]);
        assert(lower_hex_digit(v1) == header[1]);
        assert(lower_hex_digit(v2) == header[2]);
        assert(lower_hex_digit(v3) == header[3]);
        assert(length_header(length) =~= header);
    }
}

/// Decoding undoes encoding: a well-formed frame that is written out, with
/// whatever follows it, is read back as the same frame, and what followed it
/// is what is left.
pub proof fn lemma_frame_round_trip(frame: FrameView, rest: Seq<u8>)
    requires
        frame.well_formed(),
    ensures
        parse_frame(encode(frame) + rest) == Ok::<(FrameView, Seq<u8>), ErrorView>((frame, rest)),
{
    let input = encode(frame) + rest;
    match frame {
        FrameView::Flush => {
            lemma_length_header(0);
            assert(input.take(4) =~= length_header(0));
            assert(input.skip(4) =~= rest);
        },
        FrameView::Data(payload) => {
            let length = payload.len() + 4;
            lemma_length_header(length);
            assert(input.take(4) =~= length_header(length));
            assert(input.subrange(4, length as int) =~= payload);
            assert(input.skip(length as int) =~= rest);
        },
    }
}

/// What is read is well-formed, and shorter input is left behind.
pub proof fn lemma_parse_frame(input: Seq<u8>)
    ensures
        parse_frame(input) matches Ok((frame, rest)) ==> {
            &&& frame.well_formed()
            &&& input == encode(frame) + rest
            &&& rest.len() + 4 <= input.len()
        },
{
    if let Ok((frame, rest)) = parse_frame(input) {
        let length = frame_length(input)->Ok_0;
        let header = input.take(4);
        lemma_parse_length(header);
        match frame {
            FrameView::Flush => {
                assert(input =~= header + input.skip(4));
            },
            FrameView::Data(payload) => {
                assert(input =~= header + payload + input.skip(length as int));
            },
        }
    }
}

/// The input of the engine: bytes that were received and are read from the
/// front, frame by frame.
pub struct Reader<'a> {
    data: &'a [u8],
    pos: usize,
}

impl<'a> Reader<'a> {
    #[verifier::type_invariant]
    spec fn in_bounds(self) -> bool {
        self.pos <= self.data@.len()
    }

    /// The bytes that have not been read yet.
    pub closed spec fn view(&self) -> Seq<u8> {
        self.data@.skip(self.pos as int)
    }

    /// A reader that stands at the start of `data`.
    pub fn new(data: &'a [u8]) -> (reader: Self)
        ensures
            reader@ == data@,
    {
        Reader { data, pos: 0 }
    }

    /// The number of bytes that have not been read yet.
    pub fn remaining(&self) -> (count: usize)
        ensures
            count == self@.len(),
    {
        proof {
            use_type_invariant(self);
        }
        self.data.len() - self.pos
    }

    /// The next `count` bytes, which stay unread; `None` where fewer are left.
    pub fn peek(&self, count: usize) -> (bytes: Option<&'a [u8]>)
        ensures
            match bytes {
                Some(next) => count <= self@.len() && next@ == self@.take(count as int),
                None => count > self@.len(),
            },
    {
        proof {
            use_type_invariant(self);
        }
        if self.data.len() - self.pos < count {
            None
        } else {
            let next = &self.data[self.pos..self.pos + count];
            assert(next@ =~= self@.take(count as int));
            Some(next)
        }
    }

    /// Reads the next `count` bytes; `None`, with nothing read, where fewer
    /// are left.
    pub fn take(&mut self, count: usize) -> (bytes: Option<&'a [u8]>)
        ensures
            match bytes {
                Some(next) => {
                    &&& count <= old(self)@.len()
                    &&& next@ == old(self)@.take(count as int)
                    &&& final(self)@ == old(self)@.skip(count as int)
                },
                None => count > old(self)@.len() && final(self)@ == old(self)@,
            },
    {
        proof {
            use_type_invariant(&*self);
        }
        if self.data.len() - self.pos < count {
            None
        } else {
            let next = &self.data[self.pos..self.pos + count];
            assert(next@ =~= self@.take(count as int));
            self.pos = self.pos + count;
            assert(self@ =~= old(self)@.skip(count as int));
            Some(next)
        }
    }
}

/// Tells from the four bytes of a header how long its frame is.
///
/// Returns the length in bytes of the whole frame, which is 0 for a flush
/// frame and at least 4 for a data frame. Fails with `Truncated` on fewer
/// than four bytes and with `MalformedLength` where they are not four
/// lowercase hexadecimal digits or spell 1, 2 or 3.
pub fn announced_length(header: &[u8]) -> (length: Result<usize, Error>)
    ensures
        match frame_length(header@) {
            Ok(announced) => length == Ok::<usize, Error>(announced as usize) && announced <= 0xffff,
            Err(error) => length matches Err(e) && e@ == error,
        },
{
    if header.len() < 4 {
        return Err(Error::Truncated);
    }
    let d0 = lower_hex_value(header[0]);
    let d1 = lower_hex_value(header[1]);
    let d2 = lower_hex_value(header[2]);
    let d3 = lower_hex_value(header[3]);
    match (d0, d1, d2, d3) {
        (Some(v0), Some(v1), Some(v2), Some(v3)) => {
            let length: usize = (((v0 as usize) * 16 + (v1 as usize)) * 16 + (v2 as usize)) * 16
                + (v3 as usize);
            assert(header@.take(4)[0] == header@[0] && header@.take(4)[3] == header@[3]);
            if 0 < length && length < 4 {
                Err(Error::MalformedLength)
            } else {
                Ok(length)
            }
        },
        _ => Err(Error::MalformedLength),
    }
}

/// Calls `bstr::ByteSlice::as_bytes`. Trusted: the slice that it returns
/// holds the bytes of the buffer, unchanged.
#[verifier::external_body]
fn as_bytes(buffer: &Vec<u8>) -> (bytes: &[u8])
    ensures
        bytes@ == buffer@,
{
    bstr::ByteSlice::as_bytes(buffer.as_slice())
}

/// Calls `core::str::from_utf8` and tells whether it succeeded. Trusted: it
/// succeeds exactly on well-formed UTF-8.
#[verifier::external_body]
fn is_utf8(bytes: &[u8]) -> (valid: bool)
    ensures
        valid == valid_utf8(bytes@),
{
    core::str::from_utf8(bytes).is_ok()
}

/// Reads one frame from the front of `stdin`.
///
/// On success the reader stands behind the frame. On an error it is left
/// where it was: `Truncated` where the input ends before the header or the
/// payload does, `MalformedLength` where the header is not four lowercase
/// hexadecimal digits or spells 1, 2 or 3, `InvalidEncoding` where the
/// payload is not UTF-8.
pub fn read_frame(stdin: &mut Reader) -> (result: Result<Frame, Error>)
    ensures
        match parse_frame(old(stdin)@) {
            Ok((frame, rest)) => result matches Ok(read) && read@ == frame && final(stdin)@ == rest,
            Err(error) => result matches Err(e) && e@ == error && final(stdin)@ == old(stdin)@,
        },
{
    proof {
        use_type_invariant(&*stdin);
    }
    let data = stdin.data;
    let pos = stdin.pos;
    let input = &data[pos..data.len()];
    assert(input@ == old(stdin)@);
    let length = match announced_length(input) {
        Ok(length) => length,
        Err(error) => {
            return Err(error);
        },
    };
    if length == 0 {
        stdin.pos = pos + 4;
        assert(stdin@ =~= input@.skip(4));
        return Ok(Frame::Flush);
    }
    if input.len() < length {
        return Err(Error::Truncated);
    }
    let buffer = slice_to_vec(&input[4..length]);
    if !is_utf8(as_bytes(&buffer)) {
        return Err(Error::InvalidEncoding);
    }
    stdin.pos = pos + length;
    assert(stdin@ =~= input@.skip(length as int));
    Ok(Frame::Data(buffer))
}

/// Appends to `stdout` the frame that carries `payload`: its length, header
/// included, as four lowercase hexadecimal digits, then the payload.
pub fn write_frame(stdout: &mut Vec<u8>, payload: &[u8])
    requires
        payload@.len() <= MAX_PAYLOAD,
    ensures
        final(stdout)@ == old(stdout)@ + encode_frame(payload@),
{
    let length: usize = payload.len() + 4;
    stdout.push(to_lower_hex((length / 16 / 16 / 16) as u8));
    stdout.push(to_lower_hex((length / 16 / 16 % 16) as u8));
    stdout.push(to_lower_hex((length / 16 % 16) as u8));
    stdout.push(to_lower_hex((length % 16) as u8));
    assert(stdout@ =~= old(stdout)@ + length_header(length as nat));
    stdout.extend_from_slice(payload);
    assert(stdout@ =~= old(stdout)@ + encode_frame(payload@));
}

/// Appends a flush frame to `stdout`: the four bytes `0000`.
pub fn write_flush(stdout: &mut Vec<u8>)
    ensures
        final(stdout)@ == old(stdout)@ + flush_bytes(),
{
    stdout.push(0x30);
    stdout.push(0x30);
    stdout.push(0x30);
    stdout.push(0x30);
    assert(stdout@ =~= old(stdout)@ + flush_bytes());
}

} // verus!
