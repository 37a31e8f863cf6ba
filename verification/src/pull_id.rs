use crate::error::{Error, ErrorView};
use vstd::prelude::*;

verus! {

/// The number that eight bytes spell, the most significant byte first.
pub open spec fn counter_value(bytes: Seq<u8>) -> nat {
    (((((((bytes[0] as nat * 256 + bytes[1] as nat) * 256 + bytes[2] as nat) * 256
        + bytes[3] as nat) * 256 + bytes[4] as nat) * 256 + bytes[5] as nat) * 256
        + bytes[6] as nat) * 256 + bytes[7] as nat) as nat
}

/// The eight bytes that spell `value`, the most significant byte first. The
/// order is the same on every machine.
pub open spec fn counter_bytes(value: u64) -> Seq<u8> {
    let v1 = value as nat / 256;
    let v2 = v1 / 256;
    let v3 = v2 / 256;
    let v4 = v3 / 256;
    let v5 = v4 / 256;
    let v6 = v5 / 256;
    let v7 = v6 / 256;
    seq![
        (v7 % 256) as u8,
        (v6 % 256) as u8,
        (v5 % 256) as u8,
        (v4 % 256) as u8,
        (v3 % 256) as u8,
        (v2 % 256) as u8,
        (v1 % 256) as u8,
        (value as nat % 256) as u8,
    ]
}

/// The last pull id that the counter file records: the number in its first
/// eight bytes, and 0 for a file that holds fewer, as a new one does.
pub open spec fn stored_counter(file: Seq<u8>) -> nat {
    if file.len() < 8 {
        0
    } else {
        counter_value(file.take(8))
    }
}

/// The counter file after `value` was written at its start: eight bytes for
/// the value, then what the file held behind its first eight bytes.
pub open spec fn store_counter(file: Seq<u8>, value: u64) -> Seq<u8> {
    if file.len() <= 8 {
        counter_bytes(value)
    } else {
        counter_bytes(value) + file.skip(8)
    }
}

/// The pull id that the next allocation on `file` returns, and the file that
/// it leaves. `None` where the counter cannot go up any more.
pub open spec fn allocation(file: Seq<u8>) -> Option<(u64, Seq<u8>)> {
    let current = stored_counter(file);
    if current >= u64::MAX {
        None
    } else {
        let id = (current + 1) as u64;
        Some((id, store_counter(file, id)))
    }
}

/// The counter file after `count` allocations, one after the other. An
/// allocation that fails leaves the file as it is.
pub open spec fn after_allocations(file: Seq<u8>, count: nat) -> Seq<u8>
    decreases count,
{
    if count == 0 {
        file
    } else {
        let before = after_allocations(file, (count - 1) as nat);
        match allocation(before) {
            Some((_, stored)) => stored,
            None => before,
        }
    }
}

/// Eight bytes spell a number that fits in 64 bits.
pub proof fn lemma_counter_value_bound(bytes: Seq<u8>)
    ensures
        counter_value(bytes) <= u64::MAX,
{
}

/// The bytes that are stored for a value spell that value again.
pub proof fn lemma_counter_round_trip(value: u64)
    ensures
        counter_bytes(value).len() == 8,
        counter_value(counter_bytes(value)) == value,
{
    let v0 = value as nat;
    let v1 = v0 / 256;
    let v2 = v1 / 256;
    let v3 = v2 / 256;
    let v4 = v3 / 256;
    let v5 = v4 / 256;
    let v6 = v5 / 256;
    let v7 = v6 / 256;
    assert(v7 < 256);
    let bytes = counter_bytes(value);
    assert(bytes[0] as nat == v7);
    assert(bytes[0] as nat * 256 + bytes[1] as nat == v6);
    assert(v6 * 256 + bytes[2] as nat == v5);
    assert(v5 * 256 + bytes[3] as nat == v4);
    assert(v4 * 256 + bytes[4] as nat == v3);
    assert(v3 * 256 + bytes[5] as nat == v2);
    assert(v2 * 256 + bytes[6] as nat == v1);
    assert(v1 * 256 + bytes[7] as nat == v0);
}

/// What is stored can be read back, whatever the file held before.
pub proof fn lemma_stored_counter(file: Seq<u8>, value: u64)
    ensures
        stored_counter(store_counter(file, value)) == value,
{
    lemma_counter_round_trip(value);
    assert(store_counter(file, value).take(8) =~= counter_bytes(value));
}

/// An allocation returns the id that follows the one on record, and puts
/// it on record: the next allocation returns the id after it. On a file
/// that holds no counter yet, the first id is 1. An allocation fails only
/// where the largest 64-bit value is on record.
pub proof fn lemma_allocation(file: Seq<u8>)
    ensures
        match allocation(file) {
            Some((id, stored)) => id == stored_counter(file) + 1 && stored_counter(stored) == id,
            None => stored_counter(file) == u64::MAX,
        },
        file.len() < 8 ==> (allocation(file) matches Some((id, _)) && id == 1),
{
    if file.len() >= 8 {
        lemma_counter_value_bound(file.take(8));
    }
    if let Some((id, stored)) = allocation(file) {
        lemma_stored_counter(file, id);
    }
}

/// Allocations that follow one another on one file return consecutive ids,
/// each greater by one than the one before: as long as the counter does not
/// run over, `count` of them raise the id on record by `count`, and the one
/// after them returns the id that follows.
pub proof fn lemma_sequential_allocations(file: Seq<u8>, count: nat)
    requires
        stored_counter(file) + count < u64::MAX,
    ensures
        stored_counter(after_allocations(file, count)) == stored_counter(file) + count,
        allocation(after_allocations(file, count)) matches Some((id, _)) && id == stored_counter(
            file,
        ) + count + 1,
    decreases count,
{
    if count > 0 {
        lemma_sequential_allocations(file, (count - 1) as nat);
        lemma_allocation(after_allocations(file, (count - 1) as nat));
    }
    lemma_allocation(after_allocations(file, count));
}

/// Reads the number that the first eight bytes of `file` spell, and 0 where
/// it holds fewer.
pub fn read_counter(file: &[u8]) -> (value: u64)
    ensures
        value == stored_counter(file@),
{
    if file.len() < 8 {
        return 0;
    }
    let b0 = file[0] as u64;
    let b1 = file[1] as u64;
    let b2 = file[2] as u64;
    let b3 = file[3] as u64;
    let b4 = file[4] as u64;
    let b5 = file[5] as u64;
    let b6 = file[6] as u64;
    let b7 = file[7] as u64;
    let high = ((b0 * 256 + b1) * 256 + b2) * 256 + b3;
    let low = ((b4 * 256 + b5) * 256 + b6) * 256 + b7;
    assert(high <= 0xffff_ffff);
    assert(low <= 0xffff_ffff);
    high * 0x1_0000_0000 + low
}

/// The eight bytes that are stored for `value`.
pub fn counter_to_bytes(value: u64) -> (bytes: Vec<u8>)
    ensures
        bytes@ == counter_bytes(value),
{
    let v1 = value / 256;
    let v2 = v1 / 256;
    let v3 = v2 / 256;
    let v4 = v3 / 256;
    let v5 = v4 / 256;
    let v6 = v5 / 256;
    let v7 = v6 / 256;
    let mut bytes: Vec<u8> = Vec::new();
    bytes.push((v7 % 256) as u8);
    bytes.push((v6 % 256) as u8);
    bytes.push((v5 % 256) as u8);
    bytes.push((v4 % 256) as u8);
    bytes.push((v3 % 256) as u8);
    bytes.push((v2 % 256) as u8);
    bytes.push((v1 % 256) as u8);
    bytes.push((value % 256) as u8);
    assert(bytes@ =~= counter_bytes(value));
    bytes
}

/// Allocates the next pull id on the counter file whose content is `file`.
///
/// The caller holds the file's lock, hands in what the file holds and, on
/// success, writes back its first eight bytes before the lock is released.
/// The id on record is raised by one and returned. Where it cannot be
/// raised, the result is `OverflowPullID` and `file` is left as it is.
pub fn incr_pull_id(file: &mut Vec<u8>) -> (result: Result<u64, Error>)
    ensures
        match allocation(old(file)@) {
            Some((id, stored)) => result == Ok::<u64, Error>(id) && final(file)@ == stored,
            None => {
                &&& result matches Err(e) && e@ == ErrorView::OverflowPullID
                &&& final(file)@ == old(file)@
            },
        },
{
    let current = read_counter(file.as_slice());
    match current.checked_add(1) {
        None => Err(Error::OverflowPullID),
        Some(id) => {
            let mut stored = counter_to_bytes(id);
            if file.len() > 8 {
                let length = file.len();
                stored.extend_from_slice(&file.as_slice()[8..length]);
            }
            *file = stored;
            Ok(id)
        },
    }
}

} // verus!
