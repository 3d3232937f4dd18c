//! Hidden byte ranges, and the mapping between the source and what stays visible.
use crate::offset::TextRange;
use crate::selection::{is_boundary, Bias};
use crate::text::{boundary, byte_len, lemma_boundary_bounds, lemma_encode_concat, lemma_span_bytes, lemma_span_join, slice, sliceable, span, text_len};
use vstd::prelude::*;
use vstd::utf8::*;

verus! {

/// How many of the hidden bytes of `hidden` lie before `at`.
pub open spec fn hidden_in(hidden: TextRange, at: int) -> int {
    if at <= hidden.start.value {
        0
    } else if at >= hidden.end.value {
        hidden.end.value - hidden.start.value
    } else {
        at - hidden.start.value
    }
}

/// How many hidden bytes lie before `at`.
pub open spec fn hidden_before(hidden: Seq<TextRange>, at: int) -> int
    decreases hidden.len(),
{
    if hidden.len() == 0 {
        0
    } else {
        hidden_in(hidden[0], at) + hidden_before(hidden.drop_first(), at)
    }
}

/// How many visible bytes lie before `at`. A hidden range has no width.
pub open spec fn visible_before(hidden: Seq<TextRange>, at: int) -> int {
    at - hidden_before(hidden, at)
}

/// The visible characters between `start` and `end`.
pub open spec fn visible(text: Seq<char>, start: int, end: int, hidden: Seq<TextRange>) -> Seq<char>
    decreases hidden.len(),
{
    if start >= end {
        Seq::empty()
    } else if hidden.len() == 0 {
        span(text, start, end)
    } else {
        let from = hidden[0].start.value as int;
        let to = hidden[0].end.value as int;
        if to <= start {
            visible(text, start, end, hidden.drop_first())
        } else if from >= end {
            span(text, start, end)
        } else {
            let head = if from > start {
                span(text, start, from)
            } else {
                Seq::empty()
            };
            head + visible(
                text,
                if start < to {
                    to
                } else {
                    start
                },
                end,
                hidden.drop_first(),
            )
        }
    }
}

/// Whether hidden ranges hide something each and follow each other without
/// overlap.
pub open spec fn hidden_ordered(hidden: Seq<TextRange>) -> bool {
    &&& forall|i: int|
        0 <= i < hidden.len() ==> (#[trigger] hidden[i]).start.value < hidden[i].end.value
    &&& forall|i: int, j: int|
        #![trigger hidden[i], hidden[j]]
        0 <= i < j < hidden.len() ==> hidden[i].end.value <= hidden[j].start.value
}

/// Whether hidden ranges are ordered and address boundaries of `text`.
pub open spec fn hidden_wf(text: Seq<char>, hidden: Seq<TextRange>) -> bool {
    &&& hidden_ordered(hidden)
    &&& forall|i: int|
        0 <= i < hidden.len() ==> sliceable(
            text,
            (#[trigger] hidden[i]).start.value as int,
            hidden[i].end.value as int,
        )
}

proof fn lemma_hidden_tail(text: Seq<char>, hidden: Seq<TextRange>)
    requires
        hidden_wf(text, hidden),
        hidden.len() > 0,
    ensures
        hidden_wf(text, hidden.drop_first()),
        forall|i: int|
            0 <= i < hidden.drop_first().len() ==> hidden[0].end.value <= (
            #[trigger] hidden.drop_first()[i]).start.value,
{
}

proof fn lemma_hidden_none(hidden: Seq<TextRange>, at: int)
    requires
        forall|i: int| 0 <= i < hidden.len() ==> at <= (#[trigger] hidden[i]).start.value,
    ensures
        hidden_before(hidden, at) == 0,
    decreases hidden.len(),
{
    if hidden.len() > 0 {
        assert(hidden[0].start.value >= at);
        assert forall|i: int| 0 <= i < hidden.drop_first().len() implies at <= (
        #[trigger] hidden.drop_first()[i]).start.value by {
            assert(hidden.drop_first()[i] == hidden[i + 1]);
        }
        lemma_hidden_none(hidden.drop_first(), at);
    }
}

/// The mapping to the visible text never runs backwards, and moves by at most
/// the distance in the source.
pub proof fn law_visible_before_is_monotone(hidden: Seq<TextRange>, a: int, b: int)
    requires
        a <= b,
        hidden_ordered(hidden),
    ensures
        visible_before(hidden, a) <= visible_before(hidden, b) <= visible_before(hidden, a) + (b
            - a),
    decreases hidden.len(),
{
    lemma_hidden_growth(hidden, a, b);
}

proof fn lemma_hidden_growth(hidden: Seq<TextRange>, a: int, b: int)
    requires
        a <= b,
        hidden_ordered(hidden),
    ensures
        hidden_before(hidden, a) <= hidden_before(hidden, b) <= hidden_before(hidden, a) + (b - a),
    decreases hidden.len(),
{
    if hidden.len() > 0 {
        let tail = hidden.drop_first();
        assert(hidden[0].start.value < hidden[0].end.value);
        assert forall|i: int| 0 <= i < tail.len() implies (#[trigger] tail[i]).start.value
            < tail[i].end.value && hidden[0].end.value <= tail[i].start.value by {
            assert(tail[i] == hidden[i + 1]);
        }
        let cut = hidden[0].end.value as int;
        lemma_hidden_growth(tail, a, b);
        if b <= cut {
            lemma_hidden_none(tail, b);
            lemma_hidden_none(tail, a);
        } else if a < cut {
            lemma_hidden_none(tail, cut);
            lemma_hidden_none(tail, a);
            lemma_hidden_growth(tail, cut, b);
        }
    }
}

/// Splitting a range at a boundary splits its visible text.
pub proof fn lemma_visible_split(text: Seq<char>, a: int, b: int, c: int, hidden: Seq<TextRange>)
    requires
        hidden_wf(text, hidden),
        sliceable(text, a, b),
        sliceable(text, b, c),
    ensures
        visible(text, a, c, hidden) == visible(text, a, b, hidden) + visible(text, b, c, hidden),
    decreases hidden.len(),
{
    let empty = Seq::<char>::empty();
    if a == b {
        assert(empty + visible(text, b, c, hidden) =~= visible(text, b, c, hidden));
    } else if b == c {
        assert(visible(text, a, b, hidden) + empty =~= visible(text, a, b, hidden));
    } else if hidden.len() == 0 {
        lemma_span_join(text, a, b, c);
    } else {
        let from = hidden[0].start.value as int;
        let to = hidden[0].end.value as int;
        let tail = hidden.drop_first();
        lemma_hidden_tail(text, hidden);
        assert(sliceable(text, from, to));
        if to <= a {
            lemma_visible_split(text, a, b, c, tail);
        } else if from >= c {
            lemma_span_join(text, a, b, c);
        } else {
            let start = if a < to {
                to
            } else {
                a
            };
            if to <= b {
                lemma_visible_split(text, start, b, c, tail);
                assert(visible(text, a, c, hidden) =~= visible(text, a, b, hidden) + visible(
                    text,
                    b,
                    c,
                    hidden,
                ));
            } else if from >= b {
                if from > b {
                    lemma_span_join(text, a, b, from);
                }
                assert(visible(text, a, c, hidden) =~= visible(text, a, b, hidden) + visible(
                    text,
                    b,
                    c,
                    hidden,
                ));
            } else {
                assert(visible(text, to, b, tail) =~= empty);
                assert(visible(text, a, c, hidden) =~= visible(text, a, b, hidden) + visible(
                    text,
                    b,
                    c,
                    hidden,
                ));
            }
        }
    }
}

/// The visible text between two boundaries is as long as the mapping says.
pub proof fn law_visible_length(text: Seq<char>, a: int, b: int, hidden: Seq<TextRange>)
    requires
        hidden_wf(text, hidden),
        sliceable(text, a, b),
    ensures
        byte_len(visible(text, a, b, hidden)) == visible_before(hidden, b) - visible_before(
            hidden,
            a,
        ),
    decreases hidden.len(),
{
    if a == b {
        assert(encode_utf8(Seq::<char>::empty()) =~= Seq::<u8>::empty());
    } else if hidden.len() == 0 {
        lemma_span_bytes(text, a, b);
    } else {
        let from = hidden[0].start.value as int;
        let to = hidden[0].end.value as int;
        let tail = hidden.drop_first();
        lemma_hidden_tail(text, hidden);
        assert(sliceable(text, from, to));
        if to <= a {
            law_visible_length(text, a, b, tail);
        } else if from >= b {
            lemma_span_bytes(text, a, b);
            lemma_hidden_none(tail, a);
            lemma_hidden_none(tail, b);
        } else {
            let head = if from > a {
                span(text, a, from)
            } else {
                Seq::empty()
            };
            let rest = visible(text, to, b, tail);
            lemma_encode_concat(head, rest);
            if from > a {
                lemma_span_bytes(text, a, from);
            } else {
                assert(encode_utf8(head) =~= Seq::<u8>::empty());
            }
            lemma_hidden_none(tail, a);
            if to < b {
                law_visible_length(text, to, b, tail);
                lemma_hidden_none(tail, to);
            } else {
                assert(encode_utf8(rest) =~= Seq::<u8>::empty());
                lemma_hidden_none(tail, b);
            }
        }
    }
}

/// The hidden ranges of a document.
#[derive(Debug)]
pub struct HiddenRanges {
    pub ranges: Vec<TextRange>,
}

impl HiddenRanges {
    /// The given hidden ranges, or `None` where one splits a character, hides
    /// nothing, or overlaps its neighbour.
    pub fn new(text: &str, ranges: Vec<TextRange>) -> (r: Option<HiddenRanges>)
        ensures
            r is Some <==> hidden_wf(text@, ranges@),
            r matches Some(made) ==> made.ranges == ranges,
    {
        let mut i: usize = 0;
        while i < ranges.len()
            invariant
                i <= ranges@.len(),
                forall|k: int|
                    0 <= k < i ==> sliceable(
                        text@,
                        (#[trigger] ranges@[k]).start.value as int,
                        ranges@[k].end.value as int,
                    ) && ranges@[k].start.value < ranges@[k].end.value,
                forall|j: int, k: int|
                    #![trigger ranges@[j], ranges@[k]]
                    0 <= j < k < i ==> ranges@[j].end.value <= ranges@[k].start.value,
            decreases ranges@.len() - i,
        {
            let range = ranges[i];
            if range.start.value >= range.end.value || !is_boundary(text, range.start)
                || !is_boundary(text, range.end) {
                assert(!(sliceable(
                    text@,
                    ranges@[i as int].start.value as int,
                    ranges@[i as int].end.value as int,
                ) && ranges@[i as int].start.value < ranges@[i as int].end.value));
                return None;
            }
            if i > 0 && ranges[i - 1].end.value > range.start.value {
                assert(!(ranges@[i - 1].end.value <= ranges@[i as int].start.value));
                return None;
            }
            assert forall|j: int| 0 <= j < i implies (#[trigger] ranges@[j]).end.value
                <= ranges@[i as int].start.value by {
                if j < i - 1 {
                    assert(ranges@[j].end.value <= ranges@[i - 1].start.value);
                }
            }
            i += 1;
        }
        Some(HiddenRanges { ranges })
    }

    /// How many visible bytes lie before `at`.
    pub fn source_to_visual(&self, at: u64) -> (r: u64)
        requires
            hidden_ordered(self.ranges@),
        ensures
            r == visible_before(self.ranges@, at as int),
    {
        let mut before: u64 = 0;
        let mut i: usize = 0;
        assert(self.ranges@.skip(0) =~= self.ranges@);
        proof {
            lemma_hidden_bound(self.ranges@, at as int);
        }
        while i < self.ranges.len()
            invariant
                hidden_ordered(self.ranges@),
                i <= self.ranges@.len(),
                hidden_before(self.ranges@, at as int) <= at,
                before + hidden_before(self.ranges@.skip(i as int), at as int) == hidden_before(
                    self.ranges@,
                    at as int,
                ),
                hidden_before(self.ranges@.skip(i as int), at as int) >= 0,
            decreases self.ranges@.len() - i,
        {
            let range = self.ranges[i];
            assert(self.ranges@.skip(i as int).drop_first() =~= self.ranges@.skip(i + 1));
            proof {
                lemma_skip_ordered(self.ranges@, i + 1);
                lemma_hidden_bound(self.ranges@.skip(i + 1), at as int);
            }
            if at <= range.start.value {
            } else if at >= range.end.value {
                before = before + (range.end.value - range.start.value);
            } else {
                before = before + (at - range.start.value);
            }
            i += 1;
        }
        assert(self.ranges@.skip(i as int) =~= Seq::empty());
        at - before
    }
}

proof fn lemma_skip_ordered(hidden: Seq<TextRange>, k: int)
    requires
        hidden_ordered(hidden),
        0 <= k <= hidden.len(),
    ensures
        hidden_ordered(hidden.skip(k)),
{
    let tail = hidden.skip(k);
    assert forall|i: int| 0 <= i < tail.len() implies tail[i] == hidden[i + k] by {}
}

/// No more bytes are hidden before an offset than there are.
pub proof fn lemma_hidden_bound(hidden: Seq<TextRange>, at: int)
    requires
        hidden_ordered(hidden),
        0 <= at,
    ensures
        0 <= hidden_before(hidden, at) <= at,
{
    lemma_hidden_none(hidden, 0);
    lemma_hidden_growth(hidden, 0, at);
}

/// Whether `x` is the first source offset with `at` visible bytes before it
/// (`Before`), or the last one (`After`).
pub open spec fn maps_back(hidden: Seq<TextRange>, at: int, bias: Bias, x: int) -> bool {
    &&& visible_before(hidden, x) == at
    &&& forall|y: int|
        (#[trigger] visible_before(hidden, y)) == at ==> match bias {
            Bias::Before => x <= y,
            Bias::After => y <= x,
        }
}

/// Whether all of `hidden` lies before `len`.
pub open spec fn hidden_within(hidden: Seq<TextRange>, len: int) -> bool {
    forall|i: int| 0 <= i < hidden.len() ==> (#[trigger] hidden[i]).end.value <= len
}

/// Where the first `k` ranges end.
spec fn cut(hidden: Seq<TextRange>, k: int) -> int {
    if k > 0 {
        hidden[k - 1].end.value as int
    } else {
        0
    }
}

/// Behind the first `k` ranges, all of their bytes and no others up to the next
/// range are hidden.
proof fn lemma_gap(hidden: Seq<TextRange>, k: int, skipped: int, y: int)
    requires
        hidden_ordered(hidden),
        0 <= k <= hidden.len(),
        skipped == hidden_before(hidden, cut(hidden, k)),
        k > 0 ==> cut(hidden, k) <= y,
        k < hidden.len() ==> y <= hidden[k].start.value,
    ensures
        hidden_before(hidden, y) == skipped,
    decreases hidden.len(),
{
    if hidden.len() > 0 {
        let tail = hidden.drop_first();
        assert forall|i: int| 0 <= i < tail.len() implies tail[i] == hidden[i + 1] by {}
        assert forall|i: int| 0 <= i < hidden.len() implies hidden[0].start.value <= (
        #[trigger] hidden[i]).start.value by {
            if i > 0 {
                assert(hidden[0].end.value <= hidden[i].start.value);
            }
        }
        if k == 0 {
            lemma_hidden_none(hidden, y);
            lemma_hidden_none(hidden, 0);
        } else {
            assert(hidden[0].end.value <= cut(hidden, k)) by {
                if k > 1 {
                    assert(hidden[0].end.value <= hidden[k - 1].start.value);
                }
            }
            if k == 1 {
                assert forall|i: int| 0 <= i < tail.len() implies y <= (
                #[trigger] tail[i]).start.value by {
                    if i > 0 {
                        assert(hidden[1].end.value <= hidden[i + 1].start.value);
                    }
                }
                lemma_hidden_none(tail, y);
                lemma_hidden_none(tail, cut(hidden, 1));
            } else {
                assert(cut(tail, k - 1) == cut(hidden, k));
                lemma_gap(tail, k - 1, hidden_before(tail, cut(tail, k - 1)), y);
            }
        }
    }
}

proof fn lemma_maps_back(hidden: Seq<TextRange>, k: int, skipped: int, at: int, bias: Bias)
    requires
        hidden_ordered(hidden),
        0 <= k <= hidden.len(),
        skipped == hidden_before(hidden, cut(hidden, k)),
        k > 0 ==> match bias {
            Bias::Before => at + skipped > cut(hidden, k),
            Bias::After => at + skipped >= cut(hidden, k),
        },
        k < hidden.len() ==> match bias {
            Bias::Before => at + skipped <= hidden[k].start.value,
            Bias::After => at + skipped < hidden[k].start.value,
        },
    ensures
        maps_back(hidden, at, bias, at + skipped),
{
    let x = at + skipped;
    lemma_gap(hidden, k, skipped, x);
    assert forall|y: int| (#[trigger] visible_before(hidden, y)) == at implies match bias {
        Bias::Before => x <= y,
        Bias::After => y <= x,
    } by {
        if bias == Bias::Before && y < x {
            if k > 0 && y < cut(hidden, k) {
                lemma_hidden_growth(hidden, y, cut(hidden, k));
            } else {
                lemma_gap(hidden, k, skipped, y);
            }
        }
        if bias == Bias::After && y > x {
            if k < hidden.len() && y > hidden[k].start.value {
                lemma_gap(hidden, k, skipped, hidden[k].start.value as int);
                lemma_hidden_growth(hidden, hidden[k].start.value as int, y);
            } else {
                lemma_gap(hidden, k, skipped, y);
            }
        }
    }
}

impl HiddenRanges {
    /// The first source offset with `at` visible bytes before it where `bias` is
    /// `Before`, the last one where it is `After`. `len` is the source's length.
    pub fn visual_to_source(&self, len: u64, at: u64, bias: Bias) -> (r: u64)
        requires
            hidden_ordered(self.ranges@),
            hidden_within(self.ranges@, len as int),
            at <= visible_before(self.ranges@, len as int),
        ensures
            r <= len,
            maps_back(self.ranges@, at as int, bias, r as int),
    {
        let ghost hidden = self.ranges@;
        let mut skipped: u64 = 0;
        let mut i: usize = 0;
        proof {
            lemma_hidden_none(hidden, 0);
            lemma_hidden_bound(hidden, len as int);
        }
        while i < self.ranges.len()
            invariant
                hidden == self.ranges@,
                hidden_ordered(hidden),
                hidden_within(hidden, len as int),
                at <= visible_before(hidden, len as int),
                i <= hidden.len(),
                skipped == hidden_before(hidden, cut(hidden, i as int)),
                i > 0 ==> match bias {
                    Bias::Before => at + skipped > cut(hidden, i as int),
                    Bias::After => at + skipped >= cut(hidden, i as int),
                },
            decreases hidden.len() - i,
        {
            let range = self.ranges[i];
            proof {
                if i > 0 {
                    assert(hidden[i - 1].end.value <= hidden[i as int].start.value);
                    lemma_hidden_bound(hidden, cut(hidden, i as int));
                }
                lemma_gap(hidden, i as int, skipped as int, range.start.value as int);
                assert(hidden_before(hidden, range.end.value as int) == skipped + (range.end.value
                    - range.start.value)) by {
                    lemma_gap_over(hidden, i as int);
                }
                lemma_hidden_bound(hidden, range.end.value as int);
            }
            let start = range.start.value - skipped;
            let reached = match bias {
                Bias::Before => at <= start,
                Bias::After => at < start,
            };
            if reached {
                proof {
                    lemma_maps_back(hidden, i as int, skipped as int, at as int, bias);
                    assert(hidden[i as int].end.value <= len);
                }
                return at + skipped;
            }
            skipped = skipped + (range.end.value - range.start.value);
            i += 1;
        }
        proof {
            if i > 0 {
                assert(cut(hidden, i as int) <= len);
            }
            lemma_gap(hidden, i as int, skipped as int, len as int);
            lemma_maps_back(hidden, i as int, skipped as int, at as int, bias);
        }
        at + skipped
    }
}

/// From the start of a hidden range to its end, just its own bytes are hidden.
proof fn lemma_gap_over(hidden: Seq<TextRange>, k: int)
    requires
        hidden_ordered(hidden),
        0 <= k < hidden.len(),
    ensures
        hidden_before(hidden, hidden[k].end.value as int) == hidden_before(
            hidden,
            hidden[k].start.value as int,
        ) + (hidden[k].end.value - hidden[k].start.value),
    decreases hidden.len(),
{
    let tail = hidden.drop_first();
    assert forall|i: int| 0 <= i < tail.len() implies tail[i] == hidden[i + 1] by {}
    if k == 0 {
        assert forall|i: int| 0 <= i < tail.len() implies hidden[0].end.value <= (
        #[trigger] tail[i]).start.value by {}
        lemma_hidden_none(tail, hidden[0].end.value as int);
        lemma_hidden_none(tail, hidden[0].start.value as int);
    } else {
        assert(hidden[0].end.value <= hidden[k].start.value);
        lemma_gap_over(tail, k - 1);
    }
}

/// Mapping a source offset to the visible text and back gives an offset on the
/// side that the bias asks for, with nothing visible in between.
pub proof fn law_source_round_trip(hidden: Seq<TextRange>, x: int, before: int, after: int)
    requires
        hidden_ordered(hidden),
        maps_back(hidden, visible_before(hidden, x), Bias::Before, before),
        maps_back(hidden, visible_before(hidden, x), Bias::After, after),
    ensures
        before <= x <= after,
        visible_before(hidden, before) == visible_before(hidden, after),
{
}

/// Reads the visible characters between `start` and `end`.
pub fn read_visible(text: &str, start: usize, end: usize, hidden: &HiddenRanges) -> (r: String)
    requires
        hidden_wf(text@, hidden.ranges@),
        sliceable(text@, start as int, end as int),
    ensures
        r@ == visible(text@, start as int, end as int, hidden.ranges@),
{
    let ghost ranges = hidden.ranges@;
    let mut out = String::new();
    let mut cursor: usize = start;
    let mut i: usize = 0;
    proof {
        assert(ranges.skip(0) =~= ranges);
        assert(out@ + visible(text@, start as int, end as int, ranges) =~= visible(
            text@,
            start as int,
            end as int,
            ranges,
        ));
    }
    while i < hidden.ranges.len()
        invariant
            ranges == hidden.ranges@,
            hidden_wf(text@, ranges),
            sliceable(text@, cursor as int, end as int),
            i <= ranges.len(),
            out@ + visible(text@, cursor as int, end as int, ranges.skip(i as int)) == visible(
                text@,
                start as int,
                end as int,
                ranges,
            ),
        decreases ranges.len() - i,
    {
        let range = hidden.ranges[i];
        let ghost before = out@;
        assert(ranges.skip(i as int)[0] == range);
        assert(ranges.skip(i as int).drop_first() =~= ranges.skip(i + 1));
        assert(sliceable(text@, range.start.value as int, range.end.value as int));
        if cursor >= end {
            assert(out@ + Seq::<char>::empty() =~= out@);
            return out;
        }
        if range.end.value <= cursor as u64 {
            i += 1;
            continue;
        }
        if range.start.value >= end as u64 {
            out.push_str(slice(text, cursor, end));
            return out;
        }
        if range.start.value > cursor as u64 {
            out.push_str(slice(text, cursor, range.start.value as usize));
        }
        if range.end.value >= end as u64 {
            proof {
                assert(visible(text@, range.end.value as int, end as int, ranges.skip(i + 1))
                    =~= Seq::empty());
                assert(out@ =~= before + visible(
                    text@,
                    cursor as int,
                    end as int,
                    ranges.skip(i as int),
                ));
            }
            return out;
        }
        proof {
            assert(out@ + visible(text@, range.end.value as int, end as int, ranges.skip(i + 1))
                =~= before + visible(text@, cursor as int, end as int, ranges.skip(i as int)));
        }
        cursor = range.end.value as usize;
        i += 1;
    }
    proof {
        assert(ranges.skip(i as int) =~= Seq::empty());
        if cursor >= end {
            crate::text::lemma_span_empty(text@, cursor as int);
            assert(out@ + Seq::<char>::empty() =~= out@);
        }
    }
    out.push_str(slice(text, cursor, end));
    out
}

/// Whether hidden range `k` covers an offset, its ends not included.
pub open spec fn covers_at(hidden: Seq<TextRange>, k: int, at: int) -> bool {
    0 <= k < hidden.len() && hidden[k].start.value < at < hidden[k].end.value
}

/// Whether a hidden range covers an offset, its ends not included.
pub open spec fn covered(hidden: Seq<TextRange>, at: int) -> bool {
    exists|k: int| #[trigger] covers_at(hidden, k, at)
}

/// What begins inside of a hidden range is visible from its end on.
proof fn lemma_start_covered(
    text: Seq<char>,
    start: int,
    end: int,
    hidden: Seq<TextRange>,
    k: int,
)
    requires
        hidden_wf(text, hidden),
        covers_at(hidden, k, start),
    ensures
        visible(text, start, end, hidden) == visible(
            text,
            hidden[k].end.value as int,
            end,
            hidden,
        ),
    decreases hidden.len(),
{
    let rest = hidden.drop_first();
    assert(hidden_wf(text, rest)) by {
        lemma_hidden_tail(text, hidden);
    }
    let to = hidden[k].end.value as int;
    if k > 0 {
        assert(rest[k - 1] == hidden[k]);
        lemma_start_covered(text, start, end, rest, k - 1);
        assert(hidden[0].end.value <= hidden[k].start.value);
    } else if start < end {
        let tail = visible(text, to, end, rest);
        assert(Seq::<char>::empty() + tail =~= tail);
    }
}

/// What ends inside of a hidden range is visible up to its start.
proof fn lemma_end_covered(text: Seq<char>, start: int, end: int, hidden: Seq<TextRange>, k: int)
    requires
        hidden_wf(text, hidden),
        covers_at(hidden, k, end),
    ensures
        visible(text, start, end, hidden) == visible(
            text,
            start,
            hidden[k].start.value as int,
            hidden,
        ),
    decreases hidden.len(),
{
    let rest = hidden.drop_first();
    assert(hidden_wf(text, rest)) by {
        lemma_hidden_tail(text, hidden);
    }
    let from = hidden[k].start.value as int;
    if k > 0 {
        assert(rest[k - 1] == hidden[k]);
        assert(hidden[0].start.value <= hidden[0].end.value <= hidden[k].start.value);
        let next = hidden[0].end.value as int;
        lemma_end_covered(text, start, end, rest, k - 1);
        lemma_end_covered(text, next, end, rest, k - 1);
        if start >= from {
            assert(visible(text, start, from, rest) == Seq::<char>::empty());
        } else if next > start {
            assert(hidden[0].start.value < from);
        }
    } else if start < end {
        let head = span(text, start, from);
        assert(head + Seq::<char>::empty() =~= head);
        assert(Seq::<char>::empty() + Seq::<char>::empty() =~= Seq::<char>::empty());
        let behind = hidden[0].end.value as int;
        assert(visible(text, behind, end, rest) == Seq::<char>::empty());
        if start < from {
            assert(visible(text, start, from, hidden) == head);
        }
    }
}

impl HiddenRanges {
    /// The hidden range that covers an offset, its ends not included.
    fn cover_of(&self, at: u64) -> (r: Option<usize>)
        ensures
            match r {
                Some(k) => covers_at(self.ranges@, k as int, at as int),
                None => !covered(self.ranges@, at as int),
            },
    {
        let mut i: usize = 0;
        while i < self.ranges.len()
            invariant
                i <= self.ranges@.len(),
                forall|k: int| 0 <= k < i ==> !#[trigger] covers_at(self.ranges@, k, at as int),
            decreases self.ranges@.len() - i,
        {
            if self.ranges[i].start.value < at && at < self.ranges[i].end.value {
                return Some(i);
            }
            i += 1;
        }
        None
    }

    /// Whether a hidden range covers an offset, its ends not included.
    pub fn covers(&self, at: u64) -> (r: bool)
        ensures
            r == covered(self.ranges@, at as int),
    {
        self.cover_of(at).is_some()
    }
}

/// Reads the visible characters between two offsets that lie between characters or are
/// hidden.
pub fn read_visible_between(text: &str, start: usize, end: usize, hidden: &HiddenRanges) -> (r:
    String)
    requires
        hidden_wf(text@, hidden.ranges@),
        boundary(text@, start as int) || covered(hidden.ranges@, start as int),
        boundary(text@, end as int) || covered(hidden.ranges@, end as int),
    ensures
        r@ == visible(text@, start as int, end as int, hidden.ranges@),
{
    let length = text_len(text);
    let mut from: usize = start;
    let mut to: usize = end;
    if let Some(k) = hidden.cover_of(start as u64) {
        proof {
            assert(sliceable(
                text@,
                hidden.ranges@[k as int].start.value as int,
                hidden.ranges@[k as int].end.value as int,
            ));
            lemma_boundary_bounds(
                text@,
                hidden.ranges@[k as int].end.value as int,
            );
            lemma_start_covered(text@, start as int, end as int, hidden.ranges@, k as int);
        }
        from = hidden.ranges[k].end.value as usize;
    }
    if let Some(k) = hidden.cover_of(end as u64) {
        proof {
            assert(sliceable(
                text@,
                hidden.ranges@[k as int].start.value as int,
                hidden.ranges@[k as int].end.value as int,
            ));
            lemma_boundary_bounds(
                text@,
                hidden.ranges@[k as int].start.value as int,
            );
            lemma_end_covered(text@, from as int, end as int, hidden.ranges@, k as int);
        }
        to = hidden.ranges[k].start.value as usize;
    }
    if from >= to {
        return String::new();
    }
    read_visible(text, from, to, hidden)
}

} // verus!
