use crate::command::{Command, CommandView};
use crate::digits::{decimal, push_decimal};
use crate::error::{Error, ErrorView};
use crate::frame::{encode_frame, flush_bytes, write_flush, write_frame, MAX_PAYLOAD};
use crate::text::{ascii, ascii_bytes};
use vstd::prelude::*;
use vstd::slice::slice_to_vec;

verus! {

/// The name of the integration branch of a pull id: the id in decimal digits
/// behind a fixed path under the heads.
pub open spec fn integration_ref_name(pull_id: u64) -> Seq<u8> {
    ascii("refs/heads/for/master/pr"@) + decimal(pull_id as nat)
}

/// The decimal digits of a 64-bit number are twenty at most.
pub proof fn lemma_decimal_len(n: nat)
    ensures
        0 < decimal(n).len(),
        n < 10 ==> decimal(n).len() == 1,
        n <= u64::MAX ==> decimal(n).len() <= 20,
    decreases n,
{
    if n >= 10 {
        lemma_decimal_len(n / 10);
        if n <= u64::MAX {
            assert(pow10(20) == 100_000_000_000_000_000_000) by {
                reveal_with_fuel(pow10, 21);
            }
            lemma_decimal_digits(n, 20);
        }
    }
}

/// A number below the `digits`-th power of ten has `digits` digits at most.
proof fn lemma_decimal_digits(n: nat, digits: nat)
    requires
        0 < digits,
        n < pow10(digits),
    ensures
        decimal(n).len() <= digits,
    decreases n,
{
    if n >= 10 {
        assert(digits > 1) by {
            reveal_with_fuel(pow10, 2);
        }
        lemma_decimal_digits(n / 10, (digits - 1) as nat);
    }
}

/// The powers of ten.
spec fn pow10(exponent: nat) -> nat
    decreases exponent,
{
    if exponent == 0 {
        1
    } else {
        10 * pow10((exponent - 1) as nat)
    }
}

/// Builds the name of the integration branch that the push of `pull_id` is
/// diverted to.
pub fn integration_ref(pull_id: u64) -> (name: Vec<u8>)
    ensures
        name@ == integration_ref_name(pull_id),
        name@.len() <= 44,
{
    proof {
        reveal_strlit("refs/heads/for/master/pr");
        lemma_decimal_len(pull_id as nat);
    }
    let mut name: Vec<u8> = Vec::new();
    name.extend_from_slice(ascii_bytes("refs/heads/for/master/pr"));
    push_decimal(&mut name, pull_id);
    name
}

/// One ref that is to be set: the caller's part in diverting a command.
#[derive(Debug, PartialEq, Eq)]
pub struct RefUpdate {
    /// The path of the ref.
    pub target: Vec<u8>,
    /// The id of the object that the ref is to point to.
    pub object: Vec<u8>,
}

/// Tells which refs are to be set for a batch whose pull id is `pull_id`.
///
/// There is one update for each command, in the order of the batch. All of
/// them set the integration branch of the pull id, each to the new object of
/// its command: a push is diverted as one unit, whatever refs it names.
pub fn ref_updates(commands: &Vec<Command>, pull_id: u64) -> (updates: Vec<RefUpdate>)
    ensures
        updates@.len() == commands@.len(),
        forall|i: int|
            0 <= i < updates@.len() ==> {
                &&& (#[trigger] updates@[i]).target@ == integration_ref_name(pull_id)
                &&& updates@[i].object@ == commands@[i]@.new_oid
            },
{
    let new_ref = integration_ref(pull_id);
    let mut updates: Vec<RefUpdate> = Vec::new();
    let mut done: usize = 0;
    while done < commands.len()
        invariant
            done <= commands@.len(),
            updates@.len() == done,
            new_ref@ == integration_ref_name(pull_id),
            forall|i: int|
                0 <= i < done ==> {
                    &&& (#[trigger] updates@[i]).target@ == integration_ref_name(pull_id)
                    &&& updates@[i].object@ == commands@[i]@.new_oid
                },
        decreases commands@.len() - done,
    {
        updates.push(
            RefUpdate {
                target: slice_to_vec(new_ref.as_slice()),
                object: slice_to_vec(commands[done].new_oid()),
            },
        );
        done += 1;
    }
    updates
}

/// The frames that answer one command: its status, then the branch that it
/// was diverted to and the two object ids as options.
pub open spec fn command_status(command: CommandView, new_ref: Seq<u8>) -> Seq<u8> {
    encode_frame(ascii("ok "@) + command.ref_name) + encode_frame(
        ascii("option refname "@) + new_ref,
    ) + encode_frame(ascii("option old-oid "@) + command.old_oid) + encode_frame(
        ascii("option new-oid "@) + command.new_oid,
    )
}

/// The frames that answer a run of commands, in their order.
pub open spec fn batch_status(commands: Seq<CommandView>, new_ref: Seq<u8>) -> Seq<u8>
    decreases commands.len(),
{
    if commands.len() == 0 {
        Seq::empty()
    } else {
        batch_status(commands.drop_last(), new_ref) + command_status(commands.last(), new_ref)
    }
}

/// Appends the frame whose text is `label` followed by `value`.
fn write_labelled(stdout: &mut Vec<u8>, label: &str, value: &[u8])
    requires
        vstd::string::is_ascii(label),
        label@.len() + value@.len() <= MAX_PAYLOAD,
    ensures
        final(stdout)@ == old(stdout)@ + encode_frame(ascii(label@) + value@),
{
    let mut text: Vec<u8> = Vec::new();
    text.extend_from_slice(ascii_bytes(label));
    text.extend_from_slice(value);
    write_frame(stdout, text.as_slice());
}

/// Appends to `stdout` the four frames that answer `command`, which was
/// diverted to the branch `new_ref`. The name of the branch has to fit in a
/// frame behind its label of fifteen bytes.
pub fn write_command_status(stdout: &mut Vec<u8>, command: &Command, new_ref: &[u8])
    requires
        new_ref@.len() + 15 <= MAX_PAYLOAD,
    ensures
        final(stdout)@ == old(stdout)@ + command_status(command@, new_ref@),
{
    proof {
        reveal_strlit("ok ");
        reveal_strlit("option refname ");
        reveal_strlit("option old-oid ");
        reveal_strlit("option new-oid ");
    }
    let ref_name = command.ref_name();
    let old_oid = command.old_oid();
    let new_oid = command.new_oid();
    write_labelled(stdout, "ok ", ref_name);
    write_labelled(stdout, "option refname ", new_ref);
    write_labelled(stdout, "option old-oid ", old_oid);
    write_labelled(stdout, "option new-oid ", new_oid);
}

/// What is sent in answer to a batch whose pull id is `pull_id`.
///
/// Every command is answered by its four frames, in the order of the batch,
/// and a flush frame ends the response. Where a ref update failed, at the
/// index `first_failure` of the batch, the response holds the frames of the
/// commands before that one and stops there.
pub open spec fn response(
    commands: Seq<CommandView>,
    pull_id: u64,
    first_failure: Option<usize>,
) -> Seq<u8> {
    let new_ref = integration_ref_name(pull_id);
    match first_failure {
        Some(failed) if failed < commands.len() => batch_status(
            commands.take(failed as int),
            new_ref,
        ),
        _ => batch_status(commands, new_ref) + flush_bytes(),
    }
}

/// Writes the response to a batch of commands that were diverted to the
/// integration branch of `pull_id`.
///
/// The refs are set by the caller, one command after the other, up to the
/// first failure. `first_failure` is the index of the command whose ref
/// could not be set, or `None` where every ref was set; an index that is not
/// in the batch says the same as `None`. After a failure the frames of the
/// commands before it are written, no flush frame follows them, and the
/// result is `RefUpdateFailed`.
pub fn update_refs(
    stdout: &mut Vec<u8>,
    commands: &Vec<Command>,
    pull_id: u64,
    first_failure: Option<usize>,
) -> (result: Result<(), Error>)
    ensures
        final(stdout)@ == old(stdout)@ + response(commands.deep_view(), pull_id, first_failure),
        match first_failure {
            Some(failed) if failed < commands.len() => result matches Err(e) && e@
                == ErrorView::RefUpdateFailed,
            _ => result is Ok,
        },
{
    let new_ref = integration_ref(pull_id);
    let stop = match first_failure {
        Some(failed) => if failed < commands.len() {
            failed
        } else {
            commands.len()
        },
        None => commands.len(),
    };
    let ghost views = commands.deep_view();
    let mut done: usize = 0;
    assert(stdout@ =~= old(stdout)@ + batch_status(views.take(0), new_ref@));
    while done < stop
        invariant
            done <= stop <= commands.len(),
            views == commands.deep_view(),
            new_ref@ == integration_ref_name(pull_id),
            new_ref@.len() <= 44,
            stdout@ == old(stdout)@ + batch_status(views.take(done as int), new_ref@),
        decreases stop - done,
    {
        let command = &commands[done];
        write_command_status(stdout, command, new_ref.as_slice());
        proof {
            let next = views.take(done + 1);
            assert(next.drop_last() =~= views.take(done as int));
            assert(next.last() == command@);
            assert(stdout@ =~= old(stdout)@ + batch_status(next, new_ref@));
        }
        done += 1;
    }
    if stop < commands.len() {
        Err(Error::RefUpdateFailed)
    } else {
        assert(views.take(done as int) =~= views);
        write_flush(stdout);
        assert(stdout@ =~= old(stdout)@ + (batch_status(views, new_ref@) + flush_bytes()));
        Ok(())
    }
}

} // verus!
