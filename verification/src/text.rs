use vstd::prelude::*;
use vstd::string::is_ascii_spec_bytes;
use vstd::string::StringSliceAdditionalSpecFns;
use vstd::utf8::{
    is_char_boundary_iff_not_is_continuation_byte, is_leading_byte_width_1, pop_first_scalar,
    valid_utf8, valid_utf8_concat, valid_utf8_split,
};

verus! {

/// The bytes of a text that holds ASCII characters only: one byte for each
/// character.
pub open spec fn ascii(text: Seq<char>) -> Seq<u8> {
    Seq::new(text.len(), |i: int| text[i] as u8)
}

/// The bytes of an ASCII string.
pub(crate) fn ascii_bytes(text: &str) -> (bytes: &[u8])
    requires
        vstd::string::is_ascii(text),
    ensures
        bytes@ == ascii(text@),
{
    proof {
        is_ascii_spec_bytes(text);
    }
    text.as_bytes()
}

/// Whether two byte strings hold the same bytes.
pub fn bytes_eq(a: &[u8], b: &[u8]) -> (same: bool)
    ensures
        same == (a@ == b@),
{
    if a.len() != b.len() {
        return false;
    }
    let mut i: usize = 0;
    while i < a.len()
        invariant
            a@.len() == b@.len(),
            i <= a@.len(),
            forall|k: int| 0 <= k < i ==> a@[k] == b@[k],
        decreases a@.len() - i,
    {
        if a[i] != b[i] {
            return false;
        }
        i += 1;
    }
    assert(a@ =~= b@);
    true
}

/// Index of the first `delim` in `s` at or after `from`; `s.len()` where
/// there is none.
pub open spec fn find_from(s: Seq<u8>, delim: u8, from: int) -> int
    decreases s.len() - from,
{
    if from >= s.len() {
        s.len() as int
    } else if s[from] == delim {
        from
    } else {
        find_from(s, delim, from + 1)
    }
}

/// `s` cut at its first `delim`: what stands before it and what stands after
/// it, the delimiter itself left out. `None` where `s` holds no `delim`.
pub open spec fn split_at_first(s: Seq<u8>, delim: u8) -> Option<(Seq<u8>, Seq<u8>)> {
    let at = find_from(s, delim, 0);
    if at < s.len() {
        Some((s.take(at), s.skip(at + 1)))
    } else {
        None
    }
}

/// `find_from` gives the first occurrence: nothing before it is `delim`.
pub proof fn lemma_find_from(s: Seq<u8>, delim: u8, from: int)
    requires
        0 <= from <= s.len(),
    ensures
        from <= find_from(s, delim, from) <= s.len(),
        find_from(s, delim, from) < s.len() ==> s[find_from(s, delim, from)] == delim,
        forall|k: int| from <= k < find_from(s, delim, from) ==> s[k] != delim,
    decreases s.len() - from,
{
    if from < s.len() && s[from] != delim {
        lemma_find_from(s, delim, from + 1);
    }
}

/// A cut at the first `delim` is the one cut whose head holds no `delim`:
/// the two parts and the delimiter between them make up `s` again, and `s`
/// has no such cut exactly when it holds no `delim` at all.
pub proof fn lemma_split_at_first(s: Seq<u8>, delim: u8)
    ensures
        split_at_first(s, delim) is Some <==> s.contains(delim),
        split_at_first(s, delim) matches Some((head, tail)) ==> {
            &&& s == head + seq![delim] + tail
            &&& !head.contains(delim)
        },
{
    lemma_find_from(s, delim, 0);
    let at = find_from(s, delim, 0);
    if at < s.len() {
        assert(s =~= s.take(at) + seq![delim] + s.skip(at + 1));
        assert(s[at] == delim);
    }
}

/// What was joined with a delimiter is split at it again, where the head
/// holds no delimiter of its own.
pub proof fn lemma_split_of_joined(head: Seq<u8>, delim: u8, tail: Seq<u8>)
    requires
        !head.contains(delim),
    ensures
        split_at_first(head + seq![delim] + tail, delim) == Some((head, tail)),
{
    let joined = head + seq![delim] + tail;
    let at = head.len() as int;
    lemma_find_from(joined, delim, 0);
    let found = find_from(joined, delim, 0);
    assert(joined[at] == delim);
    if found < at {
        assert(head[found] == delim);
    }
    assert(found == at);
    assert(joined.take(at) =~= head);
    assert(joined.skip(at + 1) =~= tail);
}

/// Splits `s` at its first `delim`.
pub fn split_once<'a>(s: &'a [u8], delim: u8) -> (parts: Option<(&'a [u8], &'a [u8])>)
    ensures
        match parts {
            Some((head, tail)) => split_at_first(s@, delim) == Some((head@, tail@)),
            None => split_at_first(s@, delim) is None,
        },
{
    let mut at: usize = 0;
    while at < s.len() && s[at] != delim
        invariant
            at <= s@.len(),
            find_from(s@, delim, 0) == find_from(s@, delim, at as int),
        decreases s@.len() - at,
    {
        at += 1;
    }
    if at < s.len() {
        let head = &s[0..at];
        let tail = &s[at + 1..s.len()];
        Some((head, tail))
    } else {
        None
    }
}

/// The bytes that count as ASCII whitespace: space, tab, line feed, form feed
/// and carriage return.
pub open spec fn is_space(b: u8) -> bool {
    b == 0x20 || b == 0x09 || b == 0x0a || b == 0x0c || b == 0x0d
}

/// Whether `b` is ASCII whitespace.
pub fn is_ascii_whitespace(b: u8) -> (space: bool)
    ensures
        space == is_space(b),
{
    b == 0x20 || b == 0x09 || b == 0x0a || b == 0x0c || b == 0x0d
}

/// Index of the first byte at or after `from` that is no whitespace;
/// `s.len()` where only whitespace is left.
pub open spec fn token_start(s: Seq<u8>, from: int) -> int
    decreases s.len() - from,
{
    if from >= s.len() {
        s.len() as int
    } else if !is_space(s[from]) {
        from
    } else {
        token_start(s, from + 1)
    }
}

/// Index of the first whitespace at or after `from`; `s.len()` where none is
/// left.
pub open spec fn token_end(s: Seq<u8>, from: int) -> int
    decreases s.len() - from,
{
    if from >= s.len() {
        s.len() as int
    } else if is_space(s[from]) {
        from
    } else {
        token_end(s, from + 1)
    }
}

/// Where the two scans stop: within `s`, not before `from`, and only
/// whitespace (or none) is passed over.
pub proof fn lemma_token_scan(s: Seq<u8>, from: int)
    requires
        0 <= from <= s.len(),
    ensures
        from <= token_start(s, from) <= s.len(),
        token_start(s, from) < s.len() ==> !is_space(s[token_start(s, from)]),
        forall|k: int| from <= k < token_start(s, from) ==> is_space(s[k]),
        from <= token_end(s, from) <= s.len(),
        token_end(s, from) < s.len() ==> is_space(s[token_end(s, from)]),
        forall|k: int| from <= k < token_end(s, from) ==> !is_space(s[k]),
    decreases s.len() - from,
{
    if from < s.len() {
        lemma_token_scan(s, from + 1);
    }
}

/// A scan for the start of a token stops at `start` where only whitespace
/// stands before it and none stands at it.
pub proof fn lemma_token_start_at(s: Seq<u8>, from: int, start: int)
    requires
        0 <= from <= start <= s.len(),
        forall|k: int| from <= k < start ==> is_space(s[k]),
        start < s.len() ==> !is_space(s[start]),
    ensures
        token_start(s, from) == start,
    decreases start - from,
{
    if from < start {
        lemma_token_start_at(s, from + 1, start);
    }
}

/// A scan for the end of a token stops at `end` where no whitespace stands
/// before it and the token is over at it.
pub proof fn lemma_token_end_at(s: Seq<u8>, from: int, end: int)
    requires
        0 <= from <= end <= s.len(),
        forall|k: int| from <= k < end ==> !is_space(s[k]),
        end < s.len() ==> is_space(s[end]),
    ensures
        token_end(s, from) == end,
    decreases end - from,
{
    if from < end {
        lemma_token_end_at(s, from + 1, end);
    }
}

/// A token is a text that is not empty and holds no whitespace.
pub open spec fn is_token(text: Seq<u8>) -> bool {
    &&& 0 < text.len()
    &&& forall|i: int| 0 <= i < text.len() ==> !is_space(#[trigger] text[i])
}

/// The tokens of `s` from index `from` on: its maximal runs of bytes that are
/// no whitespace, in order.
pub open spec fn tokens_from(s: Seq<u8>, from: int) -> Seq<Seq<u8>>
    decreases s.len() - from,
    via tokens_from_decreases
{
    let start = token_start(s, from);
    if 0 <= from && start < s.len() {
        let end = token_end(s, start);
        seq![s.subrange(start, end)] + tokens_from(s, end)
    } else {
        Seq::empty()
    }
}

#[via_fn]
proof fn tokens_from_decreases(s: Seq<u8>, from: int) {
    let start = token_start(s, from);
    if 0 <= from && start < s.len() {
        lemma_token_scan(s, from);
        lemma_token_scan(s, start + 1);
    }
}

/// The tokens of `s`: what is left of it when it is split on ASCII whitespace.
pub open spec fn tokens(s: Seq<u8>) -> Seq<Seq<u8>> {
    tokens_from(s, 0)
}

/// The room that tokens take up in a text: their bytes, and one byte of
/// whitespace behind each of them.
pub open spec fn joined_len(tokens: Seq<Seq<u8>>) -> nat
    decreases tokens.len(),
{
    if tokens.len() == 0 {
        0
    } else {
        tokens[0].len() + 1 + joined_len(tokens.drop_first())
    }
}

/// What splitting gives are tokens, and they are not longer than what they
/// were split from: all but the last of them were followed by whitespace.
pub proof fn lemma_tokens_from(s: Seq<u8>, from: int)
    requires
        0 <= from <= s.len(),
    ensures
        forall|i: int|
            0 <= i < tokens_from(s, from).len() ==> is_token(#[trigger] tokens_from(s, from)[i]),
        joined_len(tokens_from(s, from)) <= s.len() - from + 1,
    decreases s.len() - from,
{
    let start = token_start(s, from);
    lemma_token_scan(s, from);
    if start < s.len() {
        let end = token_end(s, start);
        lemma_token_scan(s, start);
        lemma_token_scan(s, start + 1);
        let token = s.subrange(start, end);
        let later = tokens_from(s, end);
        assert(tokens_from(s, from) == seq![token] + later);
        assert((seq![token] + later).drop_first() =~= later);
        assert(is_token(token));
        if end < s.len() {
            assert(tokens_from(s, end) == tokens_from(s, end + 1));
            lemma_tokens_from(s, end + 1);
        } else {
            lemma_tokens_from(s, end);
        }
        assert forall|i: int| 0 <= i < tokens_from(s, from).len() implies is_token(
            #[trigger] tokens_from(s, from)[i],
        ) by {
            if i > 0 {
                assert(tokens_from(s, from)[i] == later[i - 1]);
            }
        }
    }
}

/// Splitting finds the tokens that a text was made of: three tokens with a
/// space between each two of them come out as they went in.
pub proof fn lemma_tokens_of_line(first: Seq<u8>, second: Seq<u8>, third: Seq<u8>)
    requires
        is_token(first),
        is_token(second),
        is_token(third),
    ensures
        tokens(first + seq![0x20u8] + second + seq![0x20u8] + third) == seq![first, second, third],
{
    let line = first + seq![0x20u8] + second + seq![0x20u8] + third;
    let a = first.len() as int;
    let b = a + 1 + second.len();
    let c = b + 1;
    let end = line.len() as int;
    assert(forall|k: int| 0 <= k < a ==> line[k] == first[k]);
    assert(line[a] == 0x20u8);
    assert(forall|k: int| a + 1 <= k < b ==> line[k] == second[k - a - 1]);
    assert(line[b] == 0x20u8);
    assert(forall|k: int| c <= k < end ==> line[k] == third[k - c]);
    lemma_token_start_at(line, 0, 0);
    lemma_token_end_at(line, 0, a);
    lemma_token_start_at(line, a, a + 1);
    lemma_token_end_at(line, a + 1, b);
    lemma_token_start_at(line, b, c);
    lemma_token_end_at(line, c, end);
    assert(line.subrange(0, a) =~= first);
    assert(line.subrange(a + 1, b) =~= second);
    assert(line.subrange(c, end) =~= third);
    assert(tokens_from(line, end) =~= Seq::<Seq<u8>>::empty());
    assert(tokens_from(line, b) =~= seq![third]);
    assert(tokens_from(line, a) =~= seq![second, third]);
    assert(tokens_from(line, 0) =~= seq![first, second, third]);
}

/// The bounds of the first token of `s` at or after `from`, if one is left.
pub fn next_token(s: &[u8], from: usize) -> (bounds: Option<(usize, usize)>)
    ensures
        match bounds {
            Some((start, end)) => {
                &&& from <= start < end <= s@.len()
                &&& start == token_start(s@, from as int)
                &&& end == token_end(s@, start as int)
            },
            None => token_start(s@, from as int) >= s@.len(),
        },
{
    if from >= s.len() {
        return None;
    }
    let mut start: usize = from;
    while start < s.len() && is_ascii_whitespace(s[start])
        invariant
            from <= start <= s@.len(),
            token_start(s@, from as int) == token_start(s@, start as int),
        decreases s@.len() - start,
    {
        start += 1;
    }
    if start >= s.len() {
        return None;
    }
    let mut end: usize = start + 1;
    while end < s.len() && !is_ascii_whitespace(s[end])
        invariant
            start < end <= s@.len(),
            token_end(s@, start as int) == token_end(s@, end as int),
        decreases s@.len() - end,
    {
        end += 1;
    }
    Some((start, end))
}

/// Whether `wanted` is one of the tokens of `s`.
pub fn has_token(s: &[u8], wanted: &[u8]) -> (found: bool)
    ensures
        found == tokens(s@).contains(wanted@),
{
    let mut from: usize = 0;
    loop
        invariant
            from <= s@.len(),
            tokens(s@).contains(wanted@) == tokens_from(s@, from as int).contains(wanted@),
        decreases s@.len() - from,
    {
        let (start, end) = match next_token(s, from) {
            Some(bounds) => bounds,
            None => {
                return false;
            },
        };
        let token = &s[start..end];
        let ghost later = tokens_from(s@, end as int);
        assert(tokens_from(s@, from as int) == seq![token@] + later);
        if bytes_eq(token, wanted) {
            assert((seq![token@] + later)[0] == wanted@);
            return true;
        }
        assert((seq![token@] + later).contains(wanted@) == later.contains(wanted@)) by {
            if later.contains(wanted@) {
                let at = choose|i: int| 0 <= i < later.len() && later[i] == wanted@;
                assert((seq![token@] + later)[at + 1] == wanted@);
            }
        }
        from = end;
    }
}

/// UTF-8 text that is cut in front of an ASCII byte, or at its end, is UTF-8
/// text on both sides of the cut.
pub proof fn lemma_cut_before_ascii(text: Seq<u8>, at: int)
    requires
        valid_utf8(text),
        0 <= at <= text.len(),
        at < text.len() ==> text[at] < 0x80,
    ensures
        valid_utf8(text.subrange(0, at)),
        valid_utf8(text.subrange(at, text.len() as int)),
{
    if at < text.len() {
        is_char_boundary_iff_not_is_continuation_byte(text, at);
        valid_utf8_split(text, at);
    } else {
        assert(text.subrange(0, at) =~= text);
    }
}

/// UTF-8 text that is cut behind an ASCII byte is UTF-8 text on both sides
/// of the cut.
pub proof fn lemma_cut_behind_ascii(text: Seq<u8>, at: int)
    requires
        valid_utf8(text),
        0 < at <= text.len(),
        text[at - 1] < 0x80,
    ensures
        valid_utf8(text.subrange(0, at)),
        valid_utf8(text.subrange(at, text.len() as int)),
{
    lemma_cut_before_ascii(text, at - 1);
    let tail = text.subrange(at - 1, text.len() as int);
    assert(is_leading_byte_width_1(tail[0]));
    assert(pop_first_scalar(tail) =~= text.subrange(at, text.len() as int));
    let single = seq![text[at - 1]];
    assert(valid_utf8(single)) by {
        assert(is_leading_byte_width_1(single[0]));
        assert(pop_first_scalar(single) =~= Seq::<u8>::empty());
        reveal_with_fuel(valid_utf8, 2);
    }
    valid_utf8_concat(text.subrange(0, at - 1), single);
    assert(text.subrange(0, at) =~= text.subrange(0, at - 1) + single);
}

/// The two parts of UTF-8 text that was cut at an ASCII delimiter are UTF-8
/// text.
pub proof fn lemma_split_of_text(text: Seq<u8>, delim: u8)
    requires
        valid_utf8(text),
        delim < 0x80,
    ensures
        split_at_first(text, delim) matches Some((head, tail)) ==> valid_utf8(head) && valid_utf8(
            tail,
        ),
{
    lemma_find_from(text, delim, 0);
    let at = find_from(text, delim, 0);
    if at < text.len() {
        lemma_cut_before_ascii(text, at);
        lemma_cut_behind_ascii(text, at + 1);
    }
}

/// The tokens of UTF-8 text are UTF-8 text: taken from the start, or from
/// any index at which the text can be cut.
pub proof fn lemma_tokens_of_text(text: Seq<u8>, from: int)
    requires
        valid_utf8(text),
        0 <= from <= text.len(),
        valid_utf8(text.subrange(from, text.len() as int)),
    ensures
        forall|i: int|
            0 <= i < tokens_from(text, from).len() ==> valid_utf8(
                #[trigger] tokens_from(text, from)[i],
            ),
    decreases text.len() - from,
{
    let len = text.len() as int;
    let start = token_start(text, from);
    lemma_token_scan(text, from);
    if start < len {
        let end = token_end(text, start);
        lemma_token_scan(text, start);
        lemma_token_scan(text, start + 1);
        if from < start {
            assert(is_space(text[start - 1]));
            lemma_cut_behind_ascii(text, start);
        }
        let tail = text.subrange(start, len);
        lemma_cut_before_ascii(tail, end - start);
        assert(tail.subrange(0, end - start) =~= text.subrange(start, end));
        assert(tail.subrange(end - start, tail.len() as int) =~= text.subrange(end, len));
        lemma_tokens_of_text(text, end);
        let later = tokens_from(text, end);
        assert(tokens_from(text, from) == seq![text.subrange(start, end)] + later);
        assert forall|i: int| 0 <= i < tokens_from(text, from).len() implies valid_utf8(
            #[trigger] tokens_from(text, from)[i],
        ) by {
            if i > 0 {
                assert(tokens_from(text, from)[i] == later[i - 1]);
            }
        }
    }
}

} // verus!
