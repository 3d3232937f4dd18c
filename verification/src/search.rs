//! Every place where a query stands in one revision of the source.
//!
//! Matching is literal and tells upper case from lower case. Which match is the
//! current one is not kept: the selection says so.
use crate::edit::TextBuffer;
use crate::offset::{ByteOffset, Revision, TextRange};
use crate::text::{
    byte_len, chars_of, lemma_encode_concat, lemma_span_middle, sliceable, span, text_len,
};
use vstd::prelude::*;
use vstd::utf8::{encode_scalar, encode_utf8};

verus! {

/// The matches of a query in one revision, in document order.
#[derive(Debug)]
pub struct SearchState {
    pub revision: Revision,
    pub query: String,
    pub matches: Vec<TextRange>,
}

/// Whether `query` stands at character `at` of `text`.
pub open spec fn occurs_at(text: Seq<char>, query: Seq<char>, at: int) -> bool {
    0 <= at && at + query.len() <= text.len() && text.subrange(at, at + query.len()) == query
}

/// The byte range of the `count` characters from `at` on.
pub open spec fn char_range(text: Seq<char>, at: int, count: int) -> TextRange {
    TextRange {
        start: ByteOffset { value: byte_len(text.take(at)) as u64 },
        end: ByteOffset { value: byte_len(text.take(at + count)) as u64 },
    }
}

/// The places of `query` from character `from` on. The search goes on behind each
/// match, so that matches do not overlap; an empty query has none.
pub open spec fn found_from(text: Seq<char>, query: Seq<char>, from: int) -> Seq<TextRange>
    decreases text.len() - from,
{
    if query.len() == 0 || from < 0 || from + query.len() > text.len() {
        Seq::empty()
    } else if occurs_at(text, query, from) {
        seq![char_range(text, from, query.len() as int)] + found_from(
            text,
            query,
            from + query.len(),
        )
    } else {
        found_from(text, query, from + 1)
    }
}

/// All places of `query` in `text`.
pub open spec fn found(text: Seq<char>, query: Seq<char>) -> Seq<TextRange> {
    found_from(text, query, 0)
}

/// The bytes before a character are those before the one ahead of it, and its own.
proof fn lemma_byte_len_step(text: Seq<char>, at: int)
    requires
        0 <= at < text.len(),
    ensures
        byte_len(text.take(at + 1)) == byte_len(text.take(at)) + encode_scalar(
            text[at] as u32,
        ).len(),
        byte_len(text.take(at + 1)) <= byte_len(text),
        byte_len(text.take(at)) < byte_len(text.take(at + 1)),
{
    let one = seq![text[at]];
    assert(text.take(at + 1) =~= text.take(at) + one);
    lemma_encode_concat(text.take(at), one);
    assert(one.drop_first() =~= Seq::empty());
    assert(encode_utf8(Seq::<char>::empty()) =~= Seq::empty());
    assert(encode_utf8(one) =~= encode_scalar(text[at] as u32));
    assert(text.take(at + 1) + text.skip(at + 1) =~= text);
    lemma_encode_concat(text.take(at + 1), text.skip(at + 1));
}

/// More characters take more bytes.
proof fn lemma_byte_len_grows(text: Seq<char>, a: int, b: int)
    requires
        0 <= a <= b <= text.len(),
    ensures
        byte_len(text.take(a)) <= byte_len(text.take(b)) <= byte_len(text),
        a < b ==> byte_len(text.take(a)) < byte_len(text.take(b)),
    decreases b - a,
{
    if a < b {
        lemma_byte_len_grows(text, a, b - 1);
        lemma_byte_len_step(text, b - 1);
    } else {
        assert(text.take(a) + text.skip(a) =~= text);
        lemma_encode_concat(text.take(a), text.skip(a));
    }
}

/// The range of some characters holds just those characters.
proof fn lemma_char_range(text: Seq<char>, at: int, count: int)
    requires
        0 <= at,
        0 <= count,
        at + count <= text.len(),
    ensures
        sliceable(text, byte_len(text.take(at)), byte_len(text.take(at + count))),
        span(text, byte_len(text.take(at)), byte_len(text.take(at + count))) == text.subrange(
            at,
            at + count,
        ),
{
    let head = text.take(at);
    let middle = text.subrange(at, at + count);
    assert(text.take(at + count) =~= head + middle);
    assert(text =~= head + middle + text.skip(at + count));
    lemma_span_middle(head, middle, text.skip(at + count));
}

/// Whether the hits come in order without overlap, from byte `low` on, and the source
/// of each is the query.
pub open spec fn sound_hits(
    hits: Seq<TextRange>,
    text: Seq<char>,
    query: Seq<char>,
    low: int,
) -> bool {
    &&& forall|i: int|
        0 <= i < hits.len() ==> ({
            let hit = #[trigger] hits[i];
            &&& low <= hit.start.value < hit.end.value
            &&& sliceable(text, hit.start.value as int, hit.end.value as int)
            &&& span(text, hit.start.value as int, hit.end.value as int) == query
        })
    &&& forall|i: int, j: int|
        0 <= i < j < hits.len() ==> (#[trigger] hits[i]).end.value <= (
        #[trigger] hits[j]).start.value
}

/// Matches come in document order without overlap, and the source of each is the
/// query.
pub proof fn law_matches(text: Seq<char>, query: Seq<char>)
    requires
        byte_len(text) <= u64::MAX,
    ensures
        sound_hits(found(text, query), text, query, 0),
{
    lemma_found_from(text, query, 0);
    assert(text.take(0) =~= Seq::empty());
}

/// Every occurrence of the query starts inside a match.
pub proof fn law_every_occurrence_is_found(text: Seq<char>, query: Seq<char>, at: int)
    requires
        byte_len(text) <= u64::MAX,
        query.len() > 0,
        0 <= at,
        at + query.len() <= text.len(),
        occurs_at(text, query, at),
    ensures
        exists|i: int| #[trigger] starts_inside(found(text, query), i, byte_len(text.take(at))),
{
    lemma_found_after(text, query, 0, at);
    let place = byte_len(text.take(at));
    let i = choose|i: int| #[trigger] starts_inside(found_from(text, query, 0), i, place);
    assert(starts_inside(found(text, query), i, place));
}

/// Whether byte `at` lies in hit number `i`.
pub open spec fn starts_inside(hits: Seq<TextRange>, i: int, at: int) -> bool {
    0 <= i < hits.len() && hits[i].start.value <= at < hits[i].end.value
}

proof fn lemma_found_after(text: Seq<char>, query: Seq<char>, from: int, at: int)
    requires
        byte_len(text) <= u64::MAX,
        query.len() > 0,
        0 <= from <= at,
        at + query.len() <= text.len(),
        occurs_at(text, query, at),
    ensures
        exists|i: int| #[trigger]
            starts_inside(found_from(text, query, from), i, byte_len(text.take(at))),
    decreases at - from,
{
    let n = query.len() as int;
    let all = found_from(text, query, from);
    let place = byte_len(text.take(at));
    if occurs_at(text, query, from) {
        let first = char_range(text, from, n);
        let rest = found_from(text, query, from + n);
        assert(all == seq![first] + rest);
        lemma_byte_len_grows(text, from, at);
        lemma_byte_len_grows(text, from, from + n);
        if at < from + n {
            lemma_byte_len_grows(text, at, from + n);
            assert(all[0] == first);
            assert(starts_inside(all, 0, place));
        } else {
            lemma_found_after(text, query, from + n, at);
            let i = choose|i: int| #[trigger] starts_inside(rest, i, place);
            assert(all[i + 1] == rest[i]);
            assert(starts_inside(all, i + 1, place));
        }
    } else {
        lemma_found_after(text, query, from + 1, at);
    }
}

proof fn lemma_found_from(text: Seq<char>, query: Seq<char>, from: int)
    requires
        byte_len(text) <= u64::MAX,
        0 <= from <= text.len(),
    ensures
        sound_hits(found_from(text, query, from), text, query, byte_len(text.take(from))),
    decreases text.len() - from,
{
    let all = found_from(text, query, from);
    let n = query.len() as int;
    if n == 0 || from + n > text.len() {
        assert(all.len() == 0);
    } else if occurs_at(text, query, from) {
        lemma_found_from(text, query, from + n);
        lemma_byte_len_grows(text, from, from + n);
        lemma_char_range(text, from, n);
        let rest = found_from(text, query, from + n);
        let first = char_range(text, from, n);
        assert(all == seq![first] + rest);
        assert(first.end.value == byte_len(text.take(from + n)));
        assert forall|i: int| 0 <= i < all.len() implies ({
            let hit = #[trigger] all[i];
            &&& byte_len(text.take(from)) <= hit.start.value < hit.end.value
            &&& sliceable(text, hit.start.value as int, hit.end.value as int)
            &&& span(text, hit.start.value as int, hit.end.value as int) == query
        }) by {
            if i > 0 {
                assert(all[i] == rest[i - 1]);
            }
        }
        assert forall|i: int, j: int| 0 <= i < j < all.len() implies (
        #[trigger] all[i]).end.value <= (#[trigger] all[j]).start.value by {
            assert(all[j] == rest[j - 1]);
            if i > 0 {
                assert(all[i] == rest[i - 1]);
            }
        }
    } else {
        lemma_found_from(text, query, from + 1);
        lemma_byte_len_grows(text, from, from + 1);
        assert(all == found_from(text, query, from + 1));
    }
}

/// The number of bytes that encode a character.
fn char_len(c: char) -> (r: u64)
    ensures
        r == encode_scalar(c as u32).len(),
{
    let scalar = c as u32;
    if scalar <= 0x7F {
        1
    } else if scalar <= 0x7FF {
        2
    } else if scalar <= 0xFFFF {
        3
    } else {
        4
    }
}

/// Whether the query stands at `at`.
fn stands_at(text: &[char], query: &[char], at: usize) -> (r: bool)
    requires
        at + query@.len() <= text@.len(),
    ensures
        r == occurs_at(text@, query@, at as int),
{
    let mut i: usize = 0;
    let rest = text.len() - at;
    while i < query.len()
        invariant
            i <= query@.len() <= rest,
            at + rest == text@.len(),
            at + rest <= usize::MAX,
            forall|k: int| 0 <= k < i ==> text@[at + k] == query@[k],
        decreases query@.len() - i,
    {
        if text[at + i] != query[i] {
            assert(text@.subrange(at as int, at + query@.len())[i as int] != query@[i as int]);
            return false;
        }
        i += 1;
    }
    assert(text@.subrange(at as int, at + query@.len()) =~= query@);
    true
}

/// Finds all matches.
fn find_all(source: &str, query: &str) -> (r: Vec<TextRange>)
    ensures
        r@ == found(source@, query@),
{
    let mut out: Vec<TextRange> = Vec::new();
    let text = chars_of(source);
    let wanted = chars_of(query);
    let total: usize = text_len(source);
    let width: u64 = text_len(query) as u64;
    if wanted.len() == 0 {
        return out;
    }
    let count = text.len();
    let mut at: usize = 0;
    let mut bytes: u64 = 0;
    assert(text@.take(0) =~= Seq::empty());
    while at < text.len() && wanted.len() <= text.len() - at
        invariant
            text@ == source@,
            wanted@ == query@,
            wanted@.len() > 0,
            at <= text@.len(),
            total == byte_len(source@),
            width == byte_len(query@),
            bytes == byte_len(text@.take(at as int)),
            out@ + found_from(source@, query@, at as int) == found(source@, query@),
        decreases text@.len() - at,
    {
        if stands_at(&text, &wanted, at) {
            proof {
                let n = wanted@.len() as int;
                lemma_byte_len_grows(text@, at as int, at + n);
                lemma_char_range(text@, at as int, n);
                crate::text::lemma_span_bytes(
                    text@,
                    byte_len(text@.take(at as int)),
                    byte_len(text@.take(at + n)),
                );
            }
            let hit = TextRange {
                start: ByteOffset { value: bytes },
                end: ByteOffset { value: bytes + width },
            };
            let ghost before = out@;
            out.push(hit);
            proof {
                let n = wanted@.len() as int;
                assert(hit == char_range(source@, at as int, n));
                assert(before.push(hit) + found_from(source@, query@, at + n) =~= before
                    + found_from(source@, query@, at as int));
            }
            at += wanted.len();
            bytes += width;
        } else {
            proof {
                lemma_byte_len_step(text@, at as int);
            }
            bytes += char_len(text[at]);
            at += 1;
        }
    }
    assert(found_from(source@, query@, at as int) =~= Seq::empty());
    assert(out@ =~= found(source@, query@));
    out
}

impl SearchState {
    /// Whether the matches are those of the query in `text`.
    pub open spec fn of(self, text: Seq<char>) -> bool {
        self.matches@ == found(text, self.query@)
    }

    /// Whether the matches are in document order, without overlap.
    pub open spec fn wf(self) -> bool {
        &&& forall|i: int|
            0 <= i < self.matches@.len() ==> (#[trigger] self.matches@[i]).start.value
                < self.matches@[i].end.value
        &&& forall|i: int, j: int|
            0 <= i < j < self.matches@.len() ==> (#[trigger] self.matches@[i]).end.value <= (
            #[trigger] self.matches@[j]).start.value
    }

    /// Searches the source. An empty query has no match.
    pub fn new(snapshot: &TextBuffer, query: String) -> (r: SearchState)
        ensures
            r.revision == snapshot.revision,
            r.query == query,
            r.of(snapshot.text@),
            r.wf(),
    {
        let matches = find_all(snapshot.as_str(), query.as_str());
        let total: usize = text_len(snapshot.as_str());
        proof {
            law_matches(snapshot.text@, query@);
        }
        SearchState { revision: snapshot.revision(), query, matches }
    }

    /// The revision that was searched.
    pub fn revision(&self) -> (r: Revision)
        ensures
            r == self.revision,
    {
        self.revision
    }

    /// What was searched for.
    pub fn query(&self) -> (r: &str)
        ensures
            r@ == self.query@,
    {
        self.query.as_str()
    }

    /// All matches, in document order and without overlap.
    pub fn matches(&self) -> (r: &[TextRange])
        ensures
            r@ == self.matches@,
    {
        self.matches.as_slice()
    }

    /// Whether nothing was found.
    pub fn is_empty(&self) -> (r: bool)
        ensures
            r == (self.matches@.len() == 0),
    {
        self.matches.len() == 0
    }

    /// The match on which the selection sits exactly. A selection that only meets
    /// matches, or a caret, is on none.
    pub fn current(&self, selection: TextRange) -> (r: Option<usize>)
        requires
            self.wf(),
        ensures
            r matches Some(i) ==> i < self.matches@.len() && self.matches@[i as int] == selection,
            r is None ==> !self.matches@.contains(selection),
    {
        if selection.is_empty() {
            return None;
        }
        let mut low: usize = 0;
        let mut high: usize = self.matches.len();
        while low < high
            invariant
                self.wf(),
                low <= high <= self.matches@.len(),
                forall|k: int|
                    0 <= k < low ==> (#[trigger] self.matches@[k]).start.value
                        < selection.start.value,
                forall|k: int|
                    high <= k < self.matches@.len() ==> (#[trigger] self.matches@[k]).start.value
                        > selection.start.value,
            decreases high - low,
        {
            let middle = low + (high - low) / 2;
            let candidate = self.matches[middle];
            if candidate.start.value < selection.start.value {
                assert forall|k: int| 0 <= k < middle + 1 implies (
                #[trigger] self.matches@[k]).start.value < selection.start.value by {
                    if k < middle {
                        assert(self.matches@[k].end.value <= self.matches@[middle as int].start.value);
                    }
                }
                low = middle + 1;
            } else if candidate.start.value > selection.start.value {
                assert forall|k: int| middle <= k < self.matches@.len() implies (
                #[trigger] self.matches@[k]).start.value > selection.start.value by {
                    if k > middle {
                        assert(self.matches@[middle as int].end.value <= self.matches@[k].start.value);
                    }
                }
                high = middle;
            } else {
                if candidate == selection {
                    return Some(middle);
                }
                assert forall|k: int| 0 <= k < self.matches@.len() implies #[trigger] self.matches@[k]
                    != selection by {
                    if k < middle {
                        assert(self.matches@[k].end.value <= self.matches@[middle as int].start.value);
                    } else if k > middle {
                        assert(self.matches@[middle as int].end.value <= self.matches@[k].start.value);
                    }
                }
                return None;
            }
        }
        None
    }
}

} // verus!
