use crate::digits::{decode_hex, hex_decoded, hex_digit_value, is_lower_hex};
use crate::error::{Error, ErrorView};
use crate::frame::{lemma_parse_frame, parse_frame, read_frame, Frame, FrameView, Reader, MAX_PAYLOAD};
use crate::text::{
    is_token, joined_len, lemma_token_scan, lemma_tokens_from, lemma_tokens_of_line,
    lemma_tokens_of_text, next_token, tokens, tokens_from,
};
use vstd::utf8::valid_utf8;
use vstd::prelude::*;
use vstd::slice::slice_to_vec;

verus! {

/// The longest ref name that a command can carry: what a frame has left
/// beside two object ids and the whitespace that sets the three apart.
pub const MAX_REF_NAME: usize = 0xffa9;

/// An object id is written as forty lowercase hexadecimal digits.
pub open spec fn is_object_id(text: Seq<u8>) -> bool {
    text.len() == 40 && forall|i: int| 0 <= i < text.len() ==> is_lower_hex(#[trigger] text[i])
}

/// An object id stands for twenty bytes: it decodes as hexadecimal.
pub proof fn lemma_object_id_decodes(text: Seq<u8>)
    requires
        is_object_id(text),
    ensures
        hex_decoded(text) matches Some(bytes) && bytes.len() == 20,
{
    assert forall|i: int| 0 <= i < text.len() implies (#[trigger] hex_digit_value(text[i]))
        is Some by {
        assert(is_lower_hex(text[i]));
    }
}

/// A ref name as a command carries it: one token, short enough for a frame.
pub open spec fn is_ref_name(text: Seq<u8>) -> bool {
    is_token(text) && text.len() <= MAX_REF_NAME
}

/// A [`Command`] as contracts speak of it.
pub struct CommandView {
    pub old_oid: Seq<u8>,
    pub new_oid: Seq<u8>,
    pub ref_name: Seq<u8>,
}

impl CommandView {
    /// What holds of every command: two object ids and a ref name.
    pub open spec fn well_formed(self) -> bool {
        &&& is_object_id(self.old_oid)
        &&& is_object_id(self.new_oid)
        &&& is_ref_name(self.ref_name)
    }
}

/// One request to move a ref from an old object to a new one.
#[derive(Debug, PartialEq, Eq)]
pub struct Command {
    old_oid: Vec<u8>,
    new_oid: Vec<u8>,
    ref_name: Vec<u8>,
}

impl View for Command {
    type V = CommandView;

    closed spec fn view(&self) -> CommandView {
        CommandView { old_oid: self.old_oid@, new_oid: self.new_oid@, ref_name: self.ref_name@ }
    }
}

impl DeepView for Command {
    type V = CommandView;

    open spec fn deep_view(&self) -> CommandView {
        self@
    }
}

/// The command that a frame's text asks for.
///
/// The text is split on ASCII whitespace. Its first three tokens are the old
/// object id, the new object id and the ref name; what follows them is not
/// looked at. A text with fewer than two tokens lacks an object id, one with
/// two lacks the ref name, and only then are the two ids held to their form.
pub open spec fn parse_command(text: Seq<u8>) -> Result<CommandView, ErrorView> {
    let found = tokens(text);
    if found.len() < 2 {
        Err(ErrorView::ExpectedOID)
    } else if found.len() < 3 {
        Err(ErrorView::ExpectedRef)
    } else if !is_object_id(found[0]) || !is_object_id(found[1]) {
        Err(ErrorView::InvalidSHA)
    } else {
        Ok(CommandView { old_oid: found[0], new_oid: found[1], ref_name: found[2] })
    }
}

/// What is read as a command is one: two object ids and a ref name that a
/// frame has room for.
pub proof fn lemma_parse_command(text: Seq<u8>)
    requires
        text.len() <= MAX_PAYLOAD,
    ensures
        parse_command(text) matches Ok(command) ==> command.well_formed(),
{
    if let Ok(command) = parse_command(text) {
        let found = tokens(text);
        lemma_tokens_from(text, 0);
        assert(is_token(found[2]));
        let behind_first = found.drop_first();
        let behind_second = behind_first.drop_first();
        assert(joined_len(found) == found[0].len() + 1 + joined_len(behind_first));
        assert(joined_len(behind_first) == found[1].len() + 1 + joined_len(behind_second));
        assert(joined_len(behind_second) == found[2].len() + 1 + joined_len(
            behind_second.drop_first(),
        ));
    }
}

/// A command that is read from UTF-8 text holds UTF-8 text.
pub proof fn lemma_command_of_text(text: Seq<u8>)
    requires
        valid_utf8(text),
    ensures
        parse_command(text) matches Ok(command) ==> {
            &&& valid_utf8(command.old_oid)
            &&& valid_utf8(command.new_oid)
            &&& valid_utf8(command.ref_name)
        },
{
    assert(text.subrange(0, text.len() as int) =~= text);
    lemma_tokens_of_text(text, 0);
}

/// A command as it is written in a frame: the two object ids and the ref
/// name, with a space between each two of them.
pub open spec fn command_line(command: CommandView) -> Seq<u8> {
    command.old_oid + seq![0x20u8] + command.new_oid + seq![0x20u8] + command.ref_name
}

/// Every command can be sent: its line is read as the command itself. And no
/// line gets through with a token in the place of an object id that is none:
/// one that is too short or too long, or holds any byte that is no lowercase
/// hexadecimal digit, is turned down as `InvalidSHA`.
pub proof fn lemma_command_line(command: CommandView)
    requires
        is_token(command.old_oid),
        is_token(command.new_oid),
        is_token(command.ref_name),
    ensures
        parse_command(command_line(command)) == if is_object_id(command.old_oid) && is_object_id(
            command.new_oid,
        ) {
            Ok::<CommandView, ErrorView>(command)
        } else {
            Err::<CommandView, ErrorView>(ErrorView::InvalidSHA)
        },
{
    lemma_tokens_of_line(command.old_oid, command.new_oid, command.ref_name);
}

/// Whether `text` is an object id.
///
/// The text has to be forty bytes long and decode as hexadecimal, without
/// capital letters among its digits.
pub fn is_valid_object_id(text: &[u8]) -> (valid: bool)
    ensures
        valid == is_object_id(text@),
{
    if text.len() != 40 {
        return false;
    }
    if decode_hex(text).is_none() {
        let ghost bad = choose|i: int|
            0 <= i < text@.len() && !((#[trigger] hex_digit_value(text@[i])) is Some);
        assert(!is_lower_hex(text@[bad]));
        return false;
    }
    assert(forall|i: int| 0 <= i < text@.len() ==> (#[trigger] hex_digit_value(text@[i])) is Some);
    let mut at: usize = 0;
    while at < 40
        invariant
            at <= 40,
            text@.len() == 40,
            forall|i: int| 0 <= i < text@.len() ==> (#[trigger] hex_digit_value(text@[i])) is Some,
            forall|i: int| 0 <= i < at ==> is_lower_hex(#[trigger] text@[i]),
        decreases 40 - at,
    {
        let b = text[at];
        if 0x41 <= b && b <= 0x46 {
            return false;
        }
        assert(hex_digit_value(text@[at as int]) is Some);
        at += 1;
    }
    true
}

impl Command {
    #[verifier::type_invariant]
    spec fn valid(self) -> bool {
        self@.well_formed()
    }

    /// Parses the text of one frame as a command.
    ///
    /// Fails with `ExpectedOID` where the text has fewer than two tokens, with
    /// `ExpectedRef` where it has two, and with `InvalidSHA` where one of the
    /// first two is not an object id.
    pub fn parse(text: &[u8]) -> (result: Result<Command, Error>)
        requires
            text@.len() <= MAX_PAYLOAD,
        ensures
            match parse_command(text@) {
                Ok(command) => result matches Ok(parsed) && parsed@ == command
                    && command.well_formed(),
                Err(error) => result matches Err(e) && e@ == error,
            },
    {
        let ghost s = text@;
        let (old_start, old_end) = match next_token(text, 0) {
            Some(bounds) => bounds,
            None => {
                return Err(Error::ExpectedOID);
            },
        };
        assert(tokens(s) == seq![s.subrange(old_start as int, old_end as int)] + tokens_from(
            s,
            old_end as int,
        ));
        let (new_start, new_end) = match next_token(text, old_end) {
            Some(bounds) => bounds,
            None => {
                return Err(Error::ExpectedOID);
            },
        };
        assert(tokens_from(s, old_end as int) == seq![s.subrange(new_start as int, new_end as int)]
            + tokens_from(s, new_end as int));
        let (ref_start, ref_end) = match next_token(text, new_end) {
            Some(bounds) => bounds,
            None => {
                return Err(Error::ExpectedRef);
            },
        };
        assert(tokens_from(s, new_end as int) == seq![s.subrange(ref_start as int, ref_end as int)]
            + tokens_from(s, ref_end as int));
        proof {
            lemma_parse_command(s);
        }
        let old_oid = &text[old_start..old_end];
        let new_oid = &text[new_start..new_end];
        let ref_name = &text[ref_start..ref_end];
        assert(tokens(s)[0] == old_oid@);
        assert(tokens(s)[1] == new_oid@);
        assert(tokens(s)[2] == ref_name@);
        if !is_valid_object_id(old_oid) || !is_valid_object_id(new_oid) {
            return Err(Error::InvalidSHA);
        }
        Ok(
            Command {
                old_oid: slice_to_vec(old_oid),
                new_oid: slice_to_vec(new_oid),
                ref_name: slice_to_vec(ref_name),
            },
        )
    }

    /// The id of the object that the ref points to before the push.
    pub fn old_oid(&self) -> (id: &[u8])
        ensures
            id@ == self@.old_oid,
            is_object_id(id@),
    {
        proof {
            use_type_invariant(self);
        }
        self.old_oid.as_slice()
    }

    /// The id of the object that the push wants the ref to point to.
    pub fn new_oid(&self) -> (id: &[u8])
        ensures
            id@ == self@.new_oid,
            is_object_id(id@),
    {
        proof {
            use_type_invariant(self);
        }
        self.new_oid.as_slice()
    }

    /// The name of the ref that the push asks to move.
    pub fn ref_name(&self) -> (name: &[u8])
        ensures
            name@ == self@.ref_name,
            is_ref_name(name@),
    {
        proof {
            use_type_invariant(self);
        }
        self.ref_name.as_slice()
    }
}

/// What reading a batch comes to: the commands that were read, the input
/// that is left, and the error that ended the reading, if one did.
pub struct CommandBatch {
    pub commands: Seq<CommandView>,
    pub rest: Seq<u8>,
    pub error: Option<ErrorView>,
}

/// Reads commands from `input`, frame by frame, behind those in `commands`.
///
/// A flush frame ends the batch. A frame that cannot be read ends it with
/// that error and stays in the input; a frame whose text is no command ends
/// it with that error and is used up. The commands read before an error stay.
pub open spec fn parse_commands(input: Seq<u8>, commands: Seq<CommandView>) -> CommandBatch
    decreases input.len(),
    via parse_commands_decreases
{
    match parse_frame(input) {
        Err(error) => CommandBatch { commands, rest: input, error: Some(error) },
        Ok((FrameView::Flush, rest)) => CommandBatch { commands, rest, error: None },
        Ok((FrameView::Data(text), rest)) => match parse_command(text) {
            Err(error) => CommandBatch { commands, rest, error: Some(error) },
            Ok(command) => parse_commands(rest, commands.push(command)),
        },
    }
}

#[via_fn]
proof fn parse_commands_decreases(input: Seq<u8>, commands: Seq<CommandView>) {
    lemma_parse_frame(input);
}

/// Reading a batch only adds commands: those that were there stay in front,
/// in their order, and each one that is added behind them is well-formed and
/// holds UTF-8 text.
pub proof fn lemma_parse_commands(input: Seq<u8>, commands: Seq<CommandView>)
    ensures
        ({
            let batch = parse_commands(input, commands);
            &&& commands.len() <= batch.commands.len()
            &&& batch.commands.take(commands.len() as int) == commands
            &&& batch.rest.len() <= input.len()
            &&& forall|i: int|
                commands.len() <= i < batch.commands.len() ==> {
                    &&& (#[trigger] batch.commands[i]).well_formed()
                    &&& valid_utf8(batch.commands[i].ref_name)
                }
        }),
    decreases input.len(),
{
    lemma_parse_frame(input);
    let batch = parse_commands(input, commands);
    match parse_frame(input) {
        Ok((FrameView::Data(text), rest)) => {
            match parse_command(text) {
                Ok(command) => {
                    lemma_parse_command(text);
                    lemma_command_of_text(text);
                    let longer = commands.push(command);
                    lemma_parse_commands(rest, longer);
                    assert(batch.commands.take(commands.len() as int) =~= batch.commands.take(
                        longer.len() as int,
                    ).take(commands.len() as int));
                    assert(longer.take(commands.len() as int) =~= commands);
                    assert(batch.commands[commands.len() as int] == longer[commands.len() as int]);
                },
                Err(_) => {
                    assert(batch.commands.take(commands.len() as int) =~= commands);
                },
            }
        },
        _ => {
            assert(batch.commands.take(commands.len() as int) =~= commands);
        },
    }
}

/// Reads one frame of a batch of commands from `stdin`.
///
/// A data frame holds one command, which is appended to `commands`; the
/// result is `true`, for more may follow. A flush frame ends the batch, and
/// the result is `false`. See [`Command::parse`] for the form of a command
/// and its errors, and [`read_frame`] for the errors of the frame. After an
/// error `commands` is as it was.
pub fn read_command(stdin: &mut Reader, commands: &mut Vec<Command>) -> (result: Result<
    bool,
    Error,
>)
    ensures
        match parse_frame(old(stdin)@) {
            Err(error) => {
                &&& result matches Err(e) && e@ == error
                &&& final(stdin)@ == old(stdin)@
                &&& final(commands)@ == old(commands)@
            },
            Ok((FrameView::Flush, rest)) => {
                &&& result == Ok::<bool, Error>(false)
                &&& final(stdin)@ == rest
                &&& final(commands)@ == old(commands)@
            },
            Ok((FrameView::Data(text), rest)) => {
                &&& final(stdin)@ == rest
                &&& match parse_command(text) {
                    Err(error) => {
                        &&& result matches Err(e) && e@ == error
                        &&& final(commands)@ == old(commands)@
                    },
                    Ok(command) => {
                        &&& result == Ok::<bool, Error>(true)
                        &&& final(commands).deep_view() == old(commands).deep_view().push(command)
                    },
                }
            },
        },
{
    proof {
        lemma_parse_frame(stdin@);
    }
    let text = match read_frame(stdin) {
        Err(error) => {
            return Err(error);
        },
        Ok(Frame::Flush) => {
            return Ok(false);
        },
        Ok(Frame::Data(text)) => text,
    };
    let command = match Command::parse(text.as_slice()) {
        Err(error) => {
            return Err(error);
        },
        Ok(command) => command,
    };
    commands.push(command);
    assert(commands.deep_view() =~= old(commands).deep_view().push(command@));
    Ok(true)
}

/// Reads a batch of commands from `stdin`, up to the flush frame that ends
/// it, and appends them to `commands` in the order of their arrival.
///
/// A batch may hold no command at all, but it has to end with its flush
/// frame. The frames are read as [`read_command`] reads them, and the first
/// error ends the reading.
pub fn read_commands(stdin: &mut Reader, commands: &mut Vec<Command>) -> (result: Result<
    (),
    Error,
>)
    ensures
        ({
            let batch = parse_commands(old(stdin)@, old(commands).deep_view());
            &&& final(commands).deep_view() == batch.commands
            &&& final(stdin)@ == batch.rest
            &&& match batch.error {
                None => result is Ok,
                Some(error) => result matches Err(e) && e@ == error,
            }
        }),
{
    loop
        invariant
            parse_commands(stdin@, commands.deep_view()) == parse_commands(
                old(stdin)@,
                old(commands).deep_view(),
            ),
        decreases stdin@.len(),
    {
        proof {
            lemma_parse_frame(stdin@);
        }
        match read_command(stdin, commands) {
            Err(error) => {
                return Err(error);
            },
            Ok(false) => {
                return Ok(());
            },
            Ok(true) => {},
        }
    }
}

} // verus!
