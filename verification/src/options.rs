use crate::error::{Error, ErrorView};
use crate::frame::{lemma_parse_frame, parse_frame, read_frame, Frame, FrameView, Reader};
use crate::text::{
    bytes_eq, lemma_split_at_first, lemma_split_of_joined, split_at_first, split_once,
};
use vstd::prelude::*;
use vstd::slice::slice_to_vec;

verus! {

/// Whether one of `entries` has the key `key`.
spec fn has_key(entries: Seq<(Vec<u8>, Vec<u8>)>, key: Seq<u8>) -> bool {
    exists|i: int| 0 <= i < entries.len() && (#[trigger] entries[i]).0@ == key
}

/// The index of an entry with the key `key`.
spec fn slot(entries: Seq<(Vec<u8>, Vec<u8>)>, key: Seq<u8>) -> int {
    choose|i: int| 0 <= i < entries.len() && (#[trigger] entries[i]).0@ == key
}

/// No two of `entries` have the same key.
spec fn keys_differ(entries: Seq<(Vec<u8>, Vec<u8>)>) -> bool {
    forall|i: int, j: int|
        0 <= i < j < entries.len() ==> (#[trigger] entries[i]).0@ != (#[trigger] entries[j]).0@
}

/// The mapping that `entries` stand for.
spec fn entries_map(entries: Seq<(Vec<u8>, Vec<u8>)>) -> Map<Seq<u8>, Seq<u8>> {
    Map::new(|key: Seq<u8>| has_key(entries, key), |key: Seq<u8>| entries[slot(entries, key)].1@)
}

/// Among entries with different keys, the entry at `at` is the one that
/// stands for its key.
proof fn lemma_slot(entries: Seq<(Vec<u8>, Vec<u8>)>, at: int)
    requires
        keys_differ(entries),
        0 <= at < entries.len(),
    ensures
        has_key(entries, entries[at].0@),
        slot(entries, entries[at].0@) == at,
        entries_map(entries).contains_key(entries[at].0@),
        entries_map(entries)[entries[at].0@] == entries[at].1@,
{
    let key = entries[at].0@;
    assert(has_key(entries, key));
    let found = slot(entries, key);
    assert(0 <= found < entries.len() && entries[found].0@ == key);
    if found < at {
        assert(entries[found].0@ != entries[at].0@);
    } else if at < found {
        assert(entries[at].0@ != entries[found].0@);
    }
}

/// Entries with different keys stand for as many options as they are.
proof fn lemma_entries_len(entries: Seq<(Vec<u8>, Vec<u8>)>)
    requires
        keys_differ(entries),
    ensures
        entries_map(entries).dom().finite(),
        entries_map(entries).dom().len() == entries.len(),
    decreases entries.len(),
{
    if entries.len() == 0 {
        assert(entries_map(entries).dom() =~= Set::<Seq<u8>>::empty());
    } else {
        let front = entries.drop_last();
        let key = entries.last().0@;
        assert(keys_differ(front)) by {
            assert forall|i: int, j: int| 0 <= i < j < front.len() implies (#[trigger] front[i]).0@
                != (#[trigger] front[j]).0@ by {
                assert(entries[i].0@ != entries[j].0@);
            }
        }
        lemma_entries_len(front);
        assert(!has_key(front, key)) by {
            if has_key(front, key) {
                let at = slot(front, key);
                assert(entries[at].0@ != entries[entries.len() - 1].0@);
            }
        }
        assert(entries_map(entries).dom() =~= entries_map(front).dom().insert(key)) by {
            assert forall|k: Seq<u8>| has_key(entries, k) == (has_key(front, k) || k == key) by {
                if has_key(front, k) {
                    assert(entries[slot(front, k)].0@ == k);
                }
                if k == key {
                    assert(entries[entries.len() - 1].0@ == k);
                }
                if has_key(entries, k) && k != key {
                    assert(front[slot(entries, k)].0@ == k);
                }
            }
        }
    }
}

/// The options that came with a push: a value for each key, the keys in no
/// order. A key that is set again keeps its last value.
#[derive(Debug)]
pub struct PushOptions {
    entries: Vec<(Vec<u8>, Vec<u8>)>,
}

impl View for PushOptions {
    type V = Map<Seq<u8>, Seq<u8>>;

    closed spec fn view(&self) -> Map<Seq<u8>, Seq<u8>> {
        entries_map(self.entries@)
    }
}

impl PushOptions {
    #[verifier::type_invariant]
    spec fn valid(self) -> bool {
        keys_differ(self.entries@)
    }

    /// No options.
    pub fn new() -> (options: Self)
        ensures
            options@ == Map::<Seq<u8>, Seq<u8>>::empty(),
    {
        let options = PushOptions { entries: Vec::new() };
        assert(options@ =~= Map::<Seq<u8>, Seq<u8>>::empty());
        options
    }

    /// The number of options that are set.
    pub fn len(&self) -> (count: usize)
        ensures
            self@.dom().finite(),
            count == self@.len(),
    {
        proof {
            use_type_invariant(self);
            lemma_entries_len(self.entries@);
        }
        self.entries.len()
    }

    /// Whether no option is set.
    pub fn is_empty(&self) -> (empty: bool)
        ensures
            empty == (self@ == Map::<Seq<u8>, Seq<u8>>::empty()),
    {
        proof {
            use_type_invariant(self);
            if self.entries@.len() > 0 {
                lemma_slot(self.entries@, 0);
            } else {
                assert(self@ =~= Map::<Seq<u8>, Seq<u8>>::empty());
            }
        }
        self.entries.len() == 0
    }

    /// The index of the entry for `key`, if there is one.
    fn find(&self, key: &[u8]) -> (at: Option<usize>)
        ensures
            match at {
                Some(at) => at < self.entries@.len() && self.entries@[at as int].0@ == key@,
                None => !has_key(self.entries@, key@),
            },
    {
        let mut at: usize = 0;
        while at < self.entries.len()
            invariant
                at <= self.entries@.len(),
                forall|i: int| 0 <= i < at ==> (#[trigger] self.entries@[i]).0@ != key@,
            decreases self.entries@.len() - at,
        {
            if bytes_eq(self.entries[at].0.as_slice(), key) {
                return Some(at);
            }
            at += 1;
        }
        None
    }

    /// Sets the option `key` to `value`. A value that the key had before is
    /// replaced.
    pub fn insert(&mut self, key: Vec<u8>, value: Vec<u8>)
        ensures
            final(self)@ == old(self)@.insert(key@, value@),
    {
        proof {
            use_type_invariant(&*self);
        }
        let ghost before = self.entries@;
        match self.find(key.as_slice()) {
            Some(at) => {
                let mut entries: Vec<(Vec<u8>, Vec<u8>)> = Vec::new();
                core::mem::swap(&mut entries, &mut self.entries);
                entries[at] = (key, value);
                let ghost after = entries@;
                proof {
                    assert(forall|i: int|
                        0 <= i < after.len() ==> (#[trigger] after[i]).0@ == before[i].0@);
                    assert(keys_differ(after));
                    assert forall|k: Seq<u8>| has_key(after, k) == has_key(before, k) by {
                        if has_key(before, k) {
                            assert(after[slot(before, k)].0@ == k);
                        }
                        if has_key(after, k) {
                            assert(before[slot(after, k)].0@ == k);
                        }
                    }
                    lemma_slot(before, at as int);
                    assert forall|k: Seq<u8>| has_key(after, k) implies #[trigger] entries_map(
                        after,
                    )[k] == entries_map(before).insert(key@, value@)[k] by {
                        let found = slot(after, k);
                        lemma_slot(after, found);
                        lemma_slot(before, found);
                    }
                    assert(entries_map(after) =~= entries_map(before).insert(key@, value@));
                }
                self.entries = entries;
            },
            None => {
                let mut entries: Vec<(Vec<u8>, Vec<u8>)> = Vec::new();
                core::mem::swap(&mut entries, &mut self.entries);
                entries.push((key, value));
                let ghost after = entries@;
                proof {
                    let last = before.len() as int;
                    assert(forall|i: int| 0 <= i < before.len() ==> after[i] == before[i]);
                    assert(keys_differ(after)) by {
                        assert forall|i: int, j: int| 0 <= i < j < after.len() implies (
                        #[trigger] after[i]).0@ != (#[trigger] after[j]).0@ by {
                            if j == last {
                                assert(before[i].0@ != key@);
                            } else {
                                assert(before[i].0@ != before[j].0@);
                            }
                        }
                    }
                    assert forall|k: Seq<u8>| has_key(after, k) == (has_key(before, k) || k
                        == key@) by {
                        if has_key(before, k) {
                            assert(after[slot(before, k)].0@ == k);
                        }
                        if k == key@ {
                            assert(after[last].0@ == k);
                        }
                        if has_key(after, k) && k != key@ {
                            assert(before[slot(after, k)].0@ == k);
                        }
                    }
                    assert forall|k: Seq<u8>| has_key(after, k) implies #[trigger] entries_map(
                        after,
                    )[k] == entries_map(before).insert(key@, value@)[k] by {
                        let found = slot(after, k);
                        lemma_slot(after, found);
                        if found < last {
                            lemma_slot(before, found);
                        }
                    }
                    assert(entries_map(after) =~= entries_map(before).insert(key@, value@));
                }
                self.entries = entries;
            },
        }
    }

    /// The value of the option `key`, if it was set.
    pub fn get(&self, key: &[u8]) -> (value: Option<&[u8]>)
        ensures
            match value {
                Some(value) => self@.contains_key(key@) && value@ == self@[key@],
                None => !self@.contains_key(key@),
            },
    {
        proof {
            use_type_invariant(self);
        }
        match self.find(key) {
            Some(at) => {
                proof {
                    lemma_slot(self.entries@, at as int);
                }
                Some(self.entries[at].1.as_slice())
            },
            None => None,
        }
    }
}

/// What reading the options of a push comes to: the options as they stand,
/// the input that is left, and the error that ended the reading, if one did.
pub struct OptionBatch {
    pub options: Map<Seq<u8>, Seq<u8>>,
    pub rest: Seq<u8>,
    pub error: Option<ErrorView>,
}

/// The options after the text of one frame was taken in.
///
/// The text is cut at its first `=` into the key and its value, which
/// replaces any value that the key had. A text without `=` sets nothing and
/// is no error.
pub open spec fn with_option(options: Map<Seq<u8>, Seq<u8>>, text: Seq<u8>) -> Map<
    Seq<u8>,
    Seq<u8>,
> {
    match split_at_first(text, 0x3d) {
        Some((key, value)) => options.insert(key, value),
        None => options,
    }
}

/// A frame that holds `key=value` sets the key to the value, whatever the
/// key was set to before: the last value wins. A frame without `=` leaves
/// the options as they are.
pub proof fn lemma_with_option(options: Map<Seq<u8>, Seq<u8>>, key: Seq<u8>, value: Seq<u8>)
    requires
        !key.contains(0x3du8),
    ensures
        with_option(options, key + seq![0x3du8] + value) == options.insert(key, value),
        with_option(options, key + seq![0x3du8] + value)[key] == value,
        with_option(options, key) == options,
{
    lemma_split_of_joined(key, 0x3d, value);
    lemma_split_at_first(key, 0x3d);
}

/// Reads option frames from `input` into `options`, up to the flush frame
/// that ends them. A frame that cannot be read ends the reading with its
/// error and stays in the input; the options set before it stay.
pub open spec fn parse_options(input: Seq<u8>, options: Map<Seq<u8>, Seq<u8>>) -> OptionBatch
    decreases input.len(),
    via parse_options_decreases
{
    match parse_frame(input) {
        Err(error) => OptionBatch { options, rest: input, error: Some(error) },
        Ok((FrameView::Flush, rest)) => OptionBatch { options, rest, error: None },
        Ok((FrameView::Data(text), rest)) => parse_options(rest, with_option(options, text)),
    }
}

#[via_fn]
proof fn parse_options_decreases(input: Seq<u8>, options: Map<Seq<u8>, Seq<u8>>) {
    lemma_parse_frame(input);
}

/// Reads one frame of the options of a push from `stdin`.
///
/// A data frame holds `key=value`, which is set in `options`; a frame
/// without `=` is passed over. The result is `true`, for more may follow. A
/// flush frame ends the options, and the result is `false`. The only errors
/// are those of the frame: see [`read_frame`].
pub fn read_push_option(stdin: &mut Reader, options: &mut PushOptions) -> (result: Result<
    bool,
    Error,
>)
    ensures
        match parse_frame(old(stdin)@) {
            Err(error) => {
                &&& result matches Err(e) && e@ == error
                &&& final(stdin)@ == old(stdin)@
                &&& final(options)@ == old(options)@
            },
            Ok((FrameView::Flush, rest)) => {
                &&& result == Ok::<bool, Error>(false)
                &&& final(stdin)@ == rest
                &&& final(options)@ == old(options)@
            },
            Ok((FrameView::Data(text), rest)) => {
                &&& result == Ok::<bool, Error>(true)
                &&& final(stdin)@ == rest
                &&& final(options)@ == with_option(old(options)@, text)
            },
        },
{
    let text = match read_frame(stdin) {
        Err(error) => {
            return Err(error);
        },
        Ok(Frame::Flush) => {
            return Ok(false);
        },
        Ok(Frame::Data(text)) => text,
    };
    if let Some((key, value)) = split_once(text.as_slice(), 0x3d) {
        options.insert(slice_to_vec(key), slice_to_vec(value));
    }
    Ok(true)
}

/// Reads the options of a push from `stdin`, up to the flush frame that ends
/// them, and sets them in `options`.
///
/// The frames are read as [`read_push_option`] reads them, and the first
/// error ends the reading.
pub fn read_command_push_options(stdin: &mut Reader, options: &mut PushOptions) -> (result:
    Result<(), Error>)
    ensures
        ({
            let batch = parse_options(old(stdin)@, old(options)@);
            &&& final(options)@ == batch.options
            &&& final(stdin)@ == batch.rest
            &&& match batch.error {
                None => result is Ok,
                Some(error) => result matches Err(e) && e@ == error,
            }
        }),
{
    loop
        invariant
            parse_options(stdin@, options@) == parse_options(old(stdin)@, old(options)@),
        decreases stdin@.len(),
    {
        proof {
            lemma_parse_frame(stdin@);
        }
        match read_push_option(stdin, options) {
            Err(error) => {
                return Err(error);
            },
            Ok(false) => {
                return Ok(());
            },
            Ok(true) => {},
        }
    }
}

} // verus!
