use crate::error::{Error, ErrorView};
use crate::frame::{
    encode_frame, flush_bytes, parse_frame, read_frame, write_flush, write_frame, Frame, FrameView,
    Reader,
};
use crate::text::{
    ascii, ascii_bytes, bytes_eq, has_token, lemma_split_of_joined, split_at_first, split_once,
    tokens,
};
use vstd::prelude::*;
use vstd::slice::slice_to_vec;

verus! {

/// What reading from the input comes to: the input that is left, and the
/// error that ended the reading, if one did.
pub struct Step {
    pub rest: Seq<u8>,
    pub error: Option<ErrorView>,
}

/// Whether the text of the peer's first frame opens a session that this side
/// can serve: protocol version 1 with the `push-options` capability.
///
/// The text is cut at its first `=` into a key and the rest, and the rest at
/// its first NUL byte into the version and the capabilities, which are
/// split on ASCII whitespace. A text without `=` names no capability at all.
pub open spec fn negotiated(text: Seq<u8>) -> Result<(), ErrorView> {
    match split_at_first(text, 0x3d) {
        None => Err(ErrorView::PushOptionsRequired),
        Some((key, rest)) => if key != ascii("version"@) {
            Err(ErrorView::ProtocolError)
        } else {
            match split_at_first(rest, 0) {
                None => Err(ErrorView::UnsupportedProtocolVersion(None)),
                Some((version, capabilities)) => if version != ascii("1"@) {
                    Err(ErrorView::UnsupportedProtocolVersion(Some(version)))
                } else if !tokens(capabilities).contains(ascii("push-options"@)) {
                    Err(ErrorView::PushOptionsRequired)
                } else {
                    Ok(())
                },
            }
        },
    }
}

/// The text in which a peer names `version` and `capabilities`.
pub open spec fn version_text(version: Seq<u8>, capabilities: Seq<u8>) -> Seq<u8> {
    ascii("version="@) + version + seq![0u8] + capabilities
}

/// A peer that names its version and its capabilities is served exactly
/// where the version is `1` and `push-options` is one of the capabilities.
/// Any other version is turned down by its name, whatever the capabilities.
pub proof fn lemma_negotiated(version: Seq<u8>, capabilities: Seq<u8>)
    requires
        !version.contains(0u8),
    ensures
        negotiated(version_text(version, capabilities)) == if version != ascii("1"@) {
            Err::<(), ErrorView>(ErrorView::UnsupportedProtocolVersion(Some(version)))
        } else if !tokens(capabilities).contains(ascii("push-options"@)) {
            Err::<(), ErrorView>(ErrorView::PushOptionsRequired)
        } else {
            Ok::<(), ErrorView>(())
        },
{
    reveal_strlit("version=");
    reveal_strlit("version");
    let key = ascii("version"@);
    let rest = version + seq![0u8] + capabilities;
    assert(version_text(version, capabilities) =~= key + seq![0x3du8] + rest);
    assert(!key.contains(0x3du8));
    lemma_split_of_joined(key, 0x3d, rest);
    lemma_split_of_joined(version, 0, capabilities);
}

/// Checks the text of the peer's first frame.
///
/// Fails with `PushOptionsRequired` where the text holds no `=`, with
/// `ProtocolError` where its key is not `version`, with
/// `UnsupportedProtocolVersion` where no NUL byte ends the version (then
/// without a version) or the version is not `1` (then with it), and with
/// `PushOptionsRequired` where `push-options` is not among the capabilities.
pub fn check_version(text: &[u8]) -> (result: Result<(), Error>)
    ensures
        match negotiated(text@) {
            Ok(_) => result is Ok,
            Err(error) => result matches Err(e) && e@ == error,
        },
{
    proof {
        reveal_strlit("version");
        reveal_strlit("1");
        reveal_strlit("push-options");
    }
    let (key, rest) = match split_once(text, 0x3d) {
        Some(parts) => parts,
        None => {
            return Err(Error::PushOptionsRequired);
        },
    };
    if !bytes_eq(key, ascii_bytes("version")) {
        return Err(Error::ProtocolError);
    }
    let (version, capabilities) = match split_once(rest, 0) {
        Some(parts) => parts,
        None => {
            return Err(Error::UnsupportedProtocolVersion(None));
        },
    };
    if !bytes_eq(version, ascii_bytes("1")) {
        return Err(Error::UnsupportedProtocolVersion(Some(slice_to_vec(version))));
    }
    if has_token(capabilities, ascii_bytes("push-options")) {
        Ok(())
    } else {
        Err(Error::PushOptionsRequired)
    }
}

/// Reads the frame that opens the negotiation from `input`.
///
/// A frame that cannot be read stays in the input. A frame that was read is
/// used up, whatever it holds; a flush frame in its place breaks the
/// protocol.
pub open spec fn version_step(input: Seq<u8>) -> Step {
    match parse_frame(input) {
        Err(error) => Step { rest: input, error: Some(error) },
        Ok((FrameView::Flush, rest)) => Step { rest, error: Some(ErrorView::ProtocolError) },
        Ok((FrameView::Data(text), rest)) => Step {
            rest,
            error: match negotiated(text) {
                Ok(_) => None,
                Err(error) => Some(error),
            },
        },
    }
}

/// Reads the frame in which the peer names its protocol version and its
/// capabilities, and accepts version 1 with `push-options` only.
///
/// See [`read_frame`] for the errors of the frame and [`check_version`] for
/// those of its text. A flush frame in its place fails with `ProtocolError`.
pub fn read_version_push_options(stdin: &mut Reader) -> (result: Result<(), Error>)
    ensures
        final(stdin)@ == version_step(old(stdin)@).rest,
        match version_step(old(stdin)@).error {
            None => result is Ok,
            Some(error) => result matches Err(e) && e@ == error,
        },
{
    match read_frame(stdin) {
        Err(error) => Err(error),
        Ok(Frame::Flush) => Err(Error::ProtocolError),
        Ok(Frame::Data(text)) => check_version(text.as_slice()),
    }
}

/// Takes the flush frame `0000` from the front of `input`. Input that starts
/// with anything else is left as it is.
pub open spec fn flush_step(input: Seq<u8>) -> Step {
    if input.len() < 4 {
        Step { rest: input, error: Some(ErrorView::Truncated) }
    } else if input.take(4) == flush_bytes() {
        Step { rest: input.skip(4), error: None }
    } else {
        Step { rest: input, error: Some(ErrorView::ExpectedFlushPkt) }
    }
}

/// Reads the flush frame that ends the peer's part of the negotiation.
///
/// Fails with `Truncated` where fewer than four bytes are left, and with
/// `ExpectedFlushPkt` where the next four bytes are not `0000`.
pub fn read_flush_pkt(stdin: &mut Reader) -> (result: Result<(), Error>)
    ensures
        final(stdin)@ == flush_step(old(stdin)@).rest,
        match flush_step(old(stdin)@).error {
            None => result is Ok,
            Some(error) => result matches Err(e) && e@ == error,
        },
{
    proof {
        reveal_strlit("0000");
    }
    match stdin.peek(4) {
        None => Err(Error::Truncated),
        Some(header) => {
            assert(ascii("0000"@) =~= flush_bytes());
            if bytes_eq(header, ascii_bytes("0000")) {
                let _ = stdin.take(4);
                Ok(())
            } else {
                Err(Error::ExpectedFlushPkt)
            }
        },
    }
}

/// The text in which this side names what it supports: version 1 and
/// `push-options`, whatever else the peer offered.
pub open spec fn advertisement() -> Seq<u8> {
    ascii("version=1\0push-options\n"@)
}

/// Appends this side's part of the negotiation to `stdout`: the frame that
/// carries the advertisement, then a flush frame.
pub fn write_version_push_options(stdout: &mut Vec<u8>)
    ensures
        final(stdout)@ == old(stdout)@ + encode_frame(advertisement()) + flush_bytes(),
{
    proof {
        reveal_strlit("version=1\0push-options\n");
    }
    write_frame(stdout, ascii_bytes("version=1\0push-options\n"));
    write_flush(stdout);
}

} // verus!
