use crate::command::{parse_command, parse_commands, read_command, Command, CommandView};
use crate::error::{Error, ErrorView};
use crate::frame::{encode_frame, flush_bytes, lemma_parse_frame, parse_frame, FrameView, Reader};
use crate::negotiate::{
    advertisement, flush_step, read_flush_pkt, read_version_push_options, version_step,
    write_version_push_options,
};
use crate::options::{parse_options, read_push_option, with_option, PushOptions};
use vstd::prelude::*;

verus! {

/// The part of a session that comes next. A session goes through them in
/// this order and never back.
#[derive(Debug, Clone, Copy, PartialEq, Eq)]
pub enum Phase {
    /// The peer names its protocol version and its capabilities in one frame.
    Version,
    /// The peer ends its part of the negotiation with a flush frame. This
    /// side then sends its own part.
    VersionFlush,
    /// The peer sends its commands, one to a frame, and a flush frame behind
    /// the last.
    Commands,
    /// The peer sends its push options, one to a frame, and a flush frame
    /// behind the last.
    Options,
    /// The push was received in full: its refs can be set, and the response
    /// written.
    Received,
}

/// A [`Session`] as contracts speak of it.
pub struct SessionView {
    pub phase: Phase,
    pub commands: Seq<CommandView>,
    pub options: Map<Seq<u8>, Seq<u8>>,
}

/// What one step of a session comes to: the session behind it, the input
/// that is left, what is sent to the peer, and the error that ended the
/// session, if one did.
pub struct Advance {
    pub session: SessionView,
    pub rest: Seq<u8>,
    pub sent: Seq<u8>,
    pub error: Option<ErrorView>,
}

/// One step of a session on the input that was received.
///
/// Nothing is read before the negotiation has succeeded: first the frame
/// with the peer's version, then its flush frame, upon which this side sends
/// its advertisement. Then come the commands, each of which is appended,
/// and the options, each of which is set; a flush frame ends either group.
/// An error leaves the session as it was. A session that has received its
/// push reads nothing more.
pub open spec fn advance(session: SessionView, input: Seq<u8>) -> Advance {
    let nothing = Seq::<u8>::empty();
    match session.phase {
        Phase::Version => {
            let step = version_step(input);
            Advance {
                session: if step.error is None {
                    SessionView { phase: Phase::VersionFlush, ..session }
                } else {
                    session
                },
                rest: step.rest,
                sent: nothing,
                error: step.error,
            }
        },
        Phase::VersionFlush => {
            let step = flush_step(input);
            if step.error is None {
                Advance {
                    session: SessionView { phase: Phase::Commands, ..session },
                    rest: step.rest,
                    sent: encode_frame(advertisement()) + flush_bytes(),
                    error: None,
                }
            } else {
                Advance { session, rest: step.rest, sent: nothing, error: step.error }
            }
        },
        Phase::Commands => match parse_frame(input) {
            Err(error) => Advance { session, rest: input, sent: nothing, error: Some(error) },
            Ok((FrameView::Flush, rest)) => Advance {
                session: SessionView { phase: Phase::Options, ..session },
                rest,
                sent: nothing,
                error: None,
            },
            Ok((FrameView::Data(text), rest)) => match parse_command(text) {
                Err(error) => Advance { session, rest, sent: nothing, error: Some(error) },
                Ok(command) => Advance {
                    session: SessionView { commands: session.commands.push(command), ..session },
                    rest,
                    sent: nothing,
                    error: None,
                },
            },
        },
        Phase::Options => match parse_frame(input) {
            Err(error) => Advance { session, rest: input, sent: nothing, error: Some(error) },
            Ok((FrameView::Flush, rest)) => Advance {
                session: SessionView { phase: Phase::Received, ..session },
                rest,
                sent: nothing,
                error: None,
            },
            Ok((FrameView::Data(text), rest)) => Advance {
                session: SessionView { options: with_option(session.options, text), ..session },
                rest,
                sent: nothing,
                error: None,
            },
        },
        Phase::Received => Advance { session, rest: input, sent: nothing, error: None },
    }
}

/// How many phases a session has before it.
pub open spec fn phases_left(phase: Phase) -> nat {
    match phase {
        Phase::Version => 4,
        Phase::VersionFlush => 3,
        Phase::Commands => 2,
        Phase::Options => 1,
        Phase::Received => 0,
    }
}

/// The steps of a session on `input`, one after the other, until the push
/// is received or an error ends the session.
pub open spec fn run(session: SessionView, input: Seq<u8>) -> Advance
    decreases phases_left(session.phase), input.len(),
    via run_decreases
{
    if session.phase == Phase::Received {
        Advance { session, rest: input, sent: Seq::empty(), error: None }
    } else {
        let step = advance(session, input);
        if step.error is Some {
            step
        } else {
            let later = run(step.session, step.rest);
            Advance { sent: step.sent + later.sent, ..later }
        }
    }
}

#[via_fn]
proof fn run_decreases(session: SessionView, input: Seq<u8>) {
    lemma_parse_frame(input);
}

/// What receiving a push comes to, told by what each part of the input is
/// read as: the negotiation, upon which the advertisement is sent, then the
/// batch of commands, then the options. The first error ends the session in
/// the phase that met it.
pub open spec fn receive(input: Seq<u8>) -> Advance {
    let start = SessionView { phase: Phase::Version, commands: Seq::empty(), options: Map::empty() };
    let nothing = Seq::<u8>::empty();
    let version = version_step(input);
    if version.error is Some {
        Advance { session: start, rest: version.rest, sent: nothing, error: version.error }
    } else {
        let flush = flush_step(version.rest);
        if flush.error is Some {
            Advance {
                session: SessionView { phase: Phase::VersionFlush, ..start },
                rest: flush.rest,
                sent: nothing,
                error: flush.error,
            }
        } else {
            let sent = encode_frame(advertisement()) + flush_bytes();
            let batch = parse_commands(flush.rest, Seq::empty());
            if batch.error is Some {
                Advance {
                    session: SessionView {
                        phase: Phase::Commands,
                        commands: batch.commands,
                        ..start
                    },
                    rest: batch.rest,
                    sent,
                    error: batch.error,
                }
            } else {
                let options = parse_options(batch.rest, Map::empty());
                Advance {
                    session: SessionView {
                        phase: if options.error is Some {
                            Phase::Options
                        } else {
                            Phase::Received
                        },
                        commands: batch.commands,
                        options: options.options,
                    },
                    rest: options.rest,
                    sent,
                    error: options.error,
                }
            }
        }
    }
}

/// From the phase of the options on, the steps of a session read what the
/// options are read as.
pub proof fn lemma_run_options(session: SessionView, input: Seq<u8>)
    requires
        session.phase == Phase::Options,
    ensures
        ({
            let batch = parse_options(input, session.options);
            run(session, input) == (Advance {
                session: SessionView {
                    phase: if batch.error is Some {
                        Phase::Options
                    } else {
                        Phase::Received
                    },
                    options: batch.options,
                    ..session
                },
                rest: batch.rest,
                sent: Seq::empty(),
                error: batch.error,
            })
        }),
    decreases input.len(),
{
    lemma_parse_frame(input);
    let step = advance(session, input);
    if step.error is None {
        let later = run(step.session, step.rest);
        assert(step.sent + later.sent =~= later.sent);
        if step.session.phase == Phase::Options {
            lemma_run_options(step.session, step.rest);
        }
    }
}

/// From the phase of the commands on, the steps of a session read what the
/// batch of commands and then the options are read as.
pub proof fn lemma_run_commands(session: SessionView, input: Seq<u8>)
    requires
        session.phase == Phase::Commands,
    ensures
        ({
            let batch = parse_commands(input, session.commands);
            run(session, input) == if batch.error is Some {
                Advance {
                    session: SessionView { commands: batch.commands, ..session },
                    rest: batch.rest,
                    sent: Seq::empty(),
                    error: batch.error,
                }
            } else {
                run(
                    SessionView { phase: Phase::Options, commands: batch.commands, ..session },
                    batch.rest,
                )
            }
        }),
    decreases input.len(),
{
    lemma_parse_frame(input);
    let step = advance(session, input);
    if step.error is None {
        let later = run(step.session, step.rest);
        assert(step.sent + later.sent =~= later.sent);
        if step.session.phase == Phase::Commands {
            lemma_run_commands(step.session, step.rest);
        }
    }
}

/// The steps of a session, taken one after the other from its start, come
/// to what receiving the push as a whole comes to.
pub proof fn lemma_run(input: Seq<u8>)
    ensures
        run(
            SessionView { phase: Phase::Version, commands: Seq::empty(), options: Map::empty() },
            input,
        ) == receive(input),
{
    let start = SessionView { phase: Phase::Version, commands: Seq::empty(), options: Map::empty() };
    let nothing = Seq::<u8>::empty();
    let version = advance(start, input);
    if version.error is None {
        let negotiating = run(version.session, version.rest);
        let flush = advance(version.session, version.rest);
        assert(version.sent + negotiating.sent =~= negotiating.sent);
        if flush.error is None {
            let sent = encode_frame(advertisement()) + flush_bytes();
            let reading = run(flush.session, flush.rest);
            lemma_run_commands(flush.session, flush.rest);
            let batch = parse_commands(flush.rest, Seq::empty());
            if batch.error is None {
                lemma_run_options(
                    SessionView { phase: Phase::Options, commands: batch.commands, ..start },
                    batch.rest,
                );
            }
            assert(reading.sent == nothing);
            assert(flush.sent + reading.sent =~= sent);
            assert(negotiating == (Advance { sent, ..reading }));
        } else {
            assert(negotiating == flush);
        }
    }
}

/// The receiving side of one push: what was negotiated and received so far.
///
/// The caller receives the peer's bytes and hands them in, step by step, and
/// sends what a step asks to send.
#[derive(Debug)]
pub struct Session {
    phase: Phase,
    commands: Vec<Command>,
    options: PushOptions,
}

impl View for Session {
    type V = SessionView;

    closed spec fn view(&self) -> SessionView {
        SessionView {
            phase: self.phase,
            commands: self.commands.deep_view(),
            options: self.options@,
        }
    }
}

impl Session {
    /// A session before anything was received.
    pub fn new() -> (session: Self)
        ensures
            session@ == (SessionView {
                phase: Phase::Version,
                commands: Seq::empty(),
                options: Map::empty(),
            }),
    {
        let session = Session {
            phase: Phase::Version,
            commands: Vec::new(),
            options: PushOptions::new(),
        };
        assert(session.commands.deep_view() =~= Seq::<CommandView>::empty());
        session
    }

    /// The part of the session that comes next.
    pub fn phase(&self) -> (phase: Phase)
        ensures
            phase == self@.phase,
    {
        self.phase
    }

    /// The commands that were received so far, in the order of their arrival.
    pub fn commands(&self) -> (commands: &Vec<Command>)
        ensures
            commands.deep_view() == self@.commands,
    {
        &self.commands
    }

    /// The push options that were received so far.
    pub fn options(&self) -> (options: &PushOptions)
        ensures
            options@ == self@.options,
    {
        &self.options
    }

    /// Takes one step on what was received: reads from `stdin` what the
    /// phase expects, and appends to `stdout` what is to be sent.
    ///
    /// See [`read_version_push_options`], [`read_flush_pkt`],
    /// [`read_command`] and [`read_push_option`] for what each phase reads
    /// and for its errors. After an error the session is as it was.
    pub fn advance(&mut self, stdin: &mut Reader, stdout: &mut Vec<u8>) -> (result: Result<
        (),
        Error,
    >)
        ensures
            ({
                let step = advance(old(self)@, old(stdin)@);
                &&& final(self)@ == step.session
                &&& final(stdin)@ == step.rest
                &&& final(stdout)@ == old(stdout)@ + step.sent
                &&& match step.error {
                    None => result is Ok,
                    Some(error) => result matches Err(e) && e@ == error,
                }
            }),
    {
        assert(stdout@ =~= old(stdout)@ + Seq::<u8>::empty());
        match self.phase {
            Phase::Version => {
                read_version_push_options(stdin)?;
                self.phase = Phase::VersionFlush;
            },
            Phase::VersionFlush => {
                read_flush_pkt(stdin)?;
                write_version_push_options(stdout);
                self.phase = Phase::Commands;
            },
            Phase::Commands => {
                if !read_command(stdin, &mut self.commands)? {
                    self.phase = Phase::Options;
                }
            },
            Phase::Options => {
                if !read_push_option(stdin, &mut self.options)? {
                    self.phase = Phase::Received;
                }
            },
            Phase::Received => {},
        }
        Ok(())
    }
}

} // verus!
