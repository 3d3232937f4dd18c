//! List commands on several selections at once.
use crate::document::html_list::{blank, is_blank, ListPlan, ListPlanView};
use crate::grid::SourceSpan;
use crate::html::{span_wf, HtmlNode, HtmlNodeKind};
use crate::text::{
    boundary, byte_len, chars_of, common_prefix, common_prefix_len, common_suffix,
    common_suffix_len, contains_char, get, lemma_boundary_bounds, lemma_boundary_ends,
    lemma_boundary_left, lemma_boundary_right, lemma_chars_fit, lemma_common_prefix,
    lemma_common_suffix,
    lemma_encode_concat, lemma_span_bytes, lemma_span_join, lemma_span_whole, slice, sliceable,
    span, string_of, text_len,
};
use vstd::prelude::*;
use vstd::string::*;
use vstd::utf8::*;

verus! {

/// How many bytes of a replacement's start can be left out: what it has in
/// common with the original, up to `floor`.
pub open spec fn trim_prefix(original: Seq<char>, text: Seq<char>, floor: int) -> int {
    let common = byte_len(original.take(common_prefix(original, text) as int));
    if common < floor {
        common
    } else {
        floor
    }
}

/// How many bytes of a replacement's end can be left out once its start is:
/// what it has in common with the original, down to `ceiling`.
pub open spec fn trim_suffix(original: Seq<char>, text: Seq<char>, floor: int, ceiling: int) -> int {
    let prefix = trim_prefix(original, text, floor);
    let rest = span(original, prefix, byte_len(original));
    let made = span(text, prefix, byte_len(text));
    let common = byte_len(rest.skip(rest.len() - common_suffix(rest, made)));
    if common < byte_len(text) - ceiling {
        common
    } else {
        byte_len(text) - ceiling
    }
}

/// Whether `prefix` and `suffix` bytes can be cut off both texts, which agree on
/// them.
pub open spec fn trims(original: Seq<char>, text: Seq<char>, prefix: int, suffix: int) -> bool {
    &&& sliceable(original, prefix, byte_len(original) - suffix)
    &&& sliceable(text, prefix, byte_len(text) - suffix)
    &&& 0 <= prefix
    &&& 0 <= suffix
    &&& span(original, 0, prefix) == span(text, 0, prefix)
    &&& span(original, byte_len(original) - suffix, byte_len(original)) == span(
        text,
        byte_len(text) - suffix,
        byte_len(text),
    )
}

proof fn lemma_trim_prefix(original: Seq<char>, text: Seq<char>, floor: int)
    requires
        boundary(text, floor),
    ensures
        ({
            let prefix = trim_prefix(original, text, floor);
            &&& 0 <= prefix <= floor
            &&& boundary(original, prefix)
            &&& boundary(text, prefix)
            &&& span(original, 0, prefix) == span(text, 0, prefix)
        }),
{
    let n = common_prefix(original, text) as int;
    let head = original.take(n);
    let prefix = trim_prefix(original, text, floor);
    lemma_common_prefix(original, text);
    lemma_boundary_bounds(text, floor);
    assert(original =~= head + original.skip(n));
    assert(text =~= head + text.skip(n));
    lemma_boundary_left(head, text.skip(n), prefix);
    lemma_boundary_left(head, original.skip(n), prefix);
    lemma_boundary_ends(head);
    lemma_encode_concat(head, original.skip(n));
    lemma_encode_concat(head, text.skip(n));
    assert(encode_utf8(original).subrange(0, prefix) =~= encode_utf8(text).subrange(0, prefix));
}

proof fn lemma_trim_bounds(original: Seq<char>, text: Seq<char>, floor: int, ceiling: int)
    requires
        boundary(text, floor),
        boundary(text, ceiling),
        floor <= ceiling,
    ensures
        ({
            let prefix = trim_prefix(original, text, floor);
            let suffix = trim_suffix(original, text, floor, ceiling);
            &&& prefix <= floor
            &&& ceiling <= byte_len(text) - suffix
            &&& trims(original, text, prefix, suffix)
        }),
{
    let prefix = trim_prefix(original, text, floor);
    let suffix = trim_suffix(original, text, floor, ceiling);
    let olen = byte_len(original);
    let tlen = byte_len(text);
    lemma_trim_prefix(original, text, floor);
    lemma_boundary_bounds(text, ceiling);
    lemma_boundary_bounds(original, prefix);
    lemma_boundary_ends(original);
    lemma_boundary_ends(text);
    let rest = span(original, prefix, olen);
    let made = span(text, prefix, tlen);
    let ohead = span(original, 0, prefix);
    let thead = span(text, 0, prefix);
    lemma_span_join(original, 0, prefix, olen);
    lemma_span_join(text, 0, prefix, tlen);
    lemma_span_whole(original);
    lemma_span_whole(text);
    lemma_span_bytes(original, 0, prefix);
    lemma_span_bytes(text, 0, prefix);
    lemma_span_bytes(original, prefix, olen);
    lemma_span_bytes(text, prefix, tlen);
    let n = common_suffix(rest, made) as int;
    lemma_common_suffix(rest, made);
    let tail = rest.skip(rest.len() - n);
    let ofront = ohead + rest.take(rest.len() - n);
    let tfront = thead + made.take(made.len() - n);
    assert(original =~= ofront + tail);
    assert(text =~= tfront + tail);
    lemma_encode_concat(ofront, tail);
    lemma_encode_concat(tfront, tail);
    lemma_encode_concat(ohead, rest.take(rest.len() - n));
    lemma_encode_concat(thead, made.take(made.len() - n));
    let cut = byte_len(tail) - suffix;
    lemma_boundary_ends(tail);
    lemma_boundary_right(tfront, tail, cut);
    lemma_boundary_right(ofront, tail, cut);
    assert(encode_utf8(original).subrange(olen - suffix, olen) =~= encode_utf8(text).subrange(
        tlen - suffix,
        tlen,
    ));
}

/// Finds how much of a replacement's start and end can be left out, without
/// touching what lies between `floor` and `ceiling`.
pub(crate) fn trim_bounds(original: &str, text: &str, floor: usize, ceiling: usize) -> (r: (usize, usize))
    requires
        boundary(text@, floor as int),
        boundary(text@, ceiling as int),
        floor <= ceiling,
    ensures
        r.0 == trim_prefix(original@, text@, floor as int),
        r.1 == trim_suffix(original@, text@, floor as int, ceiling as int),
        r.0 <= floor,
        ceiling <= byte_len(text@) - r.1,
        trims(original@, text@, r.0 as int, r.1 as int),
{
    let common = common_prefix_len(original, text);
    let prefix: usize = if common < floor {
        common
    } else {
        floor
    };
    let olen = text_len(original);
    let tlen = text_len(text);
    proof {
        lemma_trim_prefix(original@, text@, floor as int);
        lemma_trim_bounds(original@, text@, floor as int, ceiling as int);
        lemma_boundary_ends(original@);
        lemma_boundary_ends(text@);
        lemma_boundary_bounds(original@, prefix as int);
        lemma_boundary_bounds(text@, prefix as int);
        lemma_boundary_bounds(text@, ceiling as int);
    }
    let shared = common_suffix_len(slice(original, prefix, olen), slice(text, prefix, tlen));
    let suffix: usize = if shared < tlen - ceiling {
        shared
    } else {
        tlen - ceiling
    };
    (prefix, suffix)
}

/// The plan without the bytes that it leaves as they are around the caret.
pub open spec fn trimmed_plan(text: Seq<char>, plan: ListPlanView) -> ListPlanView {
    let original = span(text, plan.range.start as int, plan.range.end as int);
    let prefix = trim_prefix(original, plan.text, plan.caret);
    let suffix = trim_suffix(original, plan.text, plan.caret, plan.caret);
    ListPlanView {
        range: SourceSpan {
            start: (plan.range.start + prefix) as usize,
            end: (plan.range.end - suffix) as usize,
        },
        text: span(plan.text, prefix, byte_len(plan.text) - suffix),
        caret: plan.caret - prefix,
    }
}

/// Leaves out what a plan would replace by itself, so that carets in unchanged
/// items keep their places.
pub fn trim_list_plan(source: &str, plan: ListPlan) -> (r: ListPlan)
    requires
        span_wf(source@, plan.range),
        boundary(plan.text@, plan.caret as int),
    ensures
        r@ == trimmed_plan(source@, plan@),
        span_wf(source@, r.range),
        boundary(r.text@, r.caret as int),
{
    let original = slice(source, plan.range.start, plan.range.end);
    let (prefix, suffix) = trim_bounds(original, plan.text.as_str(), plan.caret, plan.caret);
    let length = text_len(plan.text.as_str());
    proof {
        lemma_span_bytes(source@, plan.range.start as int, plan.range.end as int);
        lemma_boundary_bounds(original@, byte_len(original@) - suffix);
        lemma_boundary_bounds(plan.text@, length - suffix);
    }
    let text = slice(plan.text.as_str(), prefix, length - suffix).to_owned();
    let range = SourceSpan {
        start: plan.range.start + prefix,
        end: plan.range.end - suffix,
    };
    proof {
        lemma_inner_range(
            source@,
            plan.range.start as int,
            plan.range.end as int,
            prefix as int,
        );
        lemma_inner_range(
            source@,
            plan.range.start as int,
            plan.range.end as int,
            byte_len(original@) - suffix,
        );
        lemma_inner_boundary(plan.text@, prefix as int, length - suffix, plan.caret as int);
    }
    ListPlan { range, text, caret: plan.caret - prefix }
}

/// A boundary of a slice is one of the whole text.
pub proof fn lemma_inner_range(text: Seq<char>, start: int, end: int, at: int)
    requires
        sliceable(text, start, end),
        boundary(span(text, start, end), at),
    ensures
        boundary(text, start + at),
        0 <= at <= end - start,
{
    let part = span(text, start, end);
    lemma_boundary_bounds(part, at);
    lemma_boundary_bounds(text, start);
    lemma_boundary_bounds(text, end);
    lemma_span_bytes(text, start, end);
    lemma_boundary_ends(text);
    let head = span(text, 0, start);
    let tail = span(text, end, byte_len(text));
    lemma_span_bytes(text, 0, start);
    lemma_span_join(text, 0, start, end);
    lemma_span_join(text, 0, end, byte_len(text));
    lemma_span_whole(text);
    assert(text =~= head + (part + tail));
    lemma_boundary_left(part, tail, at);
    lemma_encode_concat(part, tail);
    lemma_boundary_right(head, part + tail, at);
}

/// A boundary of the whole text inside a slice is one of the slice.
pub proof fn lemma_inner_boundary(text: Seq<char>, start: int, end: int, at: int)
    requires
        sliceable(text, start, end),
        start <= at <= end,
        boundary(text, at),
    ensures
        boundary(span(text, start, end), at - start),
{
    let part = span(text, start, end);
    lemma_boundary_bounds(text, start);
    lemma_boundary_bounds(text, end);
    lemma_span_bytes(text, start, end);
    lemma_boundary_ends(text);
    let head = span(text, 0, start);
    let tail = span(text, end, byte_len(text));
    lemma_span_bytes(text, 0, start);
    lemma_span_join(text, 0, start, end);
    lemma_span_join(text, 0, end, byte_len(text));
    lemma_span_whole(text);
    assert(text =~= head + (part + tail));
    lemma_boundary_left(part, tail, at - start);
    lemma_encode_concat(part, tail);
    lemma_boundary_right(head, part + tail, at - start);
}

/// A trimmed plan makes the same document as the whole plan, and its caret stands
/// at the same place of it.
pub proof fn law_trimmed_plan_is_equivalent(text: Seq<char>, plan: ListPlanView)
    requires
        span_wf(text, plan.range),
        boundary(plan.text, plan.caret),
    ensures
        ({
            let short = trimmed_plan(text, plan);
            let len = byte_len(text);
            &&& span(text, 0, short.range.start as int) + short.text + span(
                text,
                short.range.end as int,
                len,
            ) == span(text, 0, plan.range.start as int) + plan.text + span(
                text,
                plan.range.end as int,
                len,
            )
            &&& short.range.start + short.caret == plan.range.start + plan.caret
        }),
{
    let start = plan.range.start as int;
    let end = plan.range.end as int;
    let len = byte_len(text);
    let original = span(text, start, end);
    let tlen = byte_len(plan.text);
    let prefix = trim_prefix(original, plan.text, plan.caret);
    let suffix = trim_suffix(original, plan.text, plan.caret, plan.caret);
    lemma_trim_bounds(original, plan.text, plan.caret, plan.caret);
    lemma_span_bytes(text, start, end);
    lemma_boundary_bounds(text, start);
    lemma_boundary_bounds(text, end);
    lemma_inner_range(text, start, end, prefix);
    lemma_inner_range(text, start, end, end - start - suffix);
    lemma_boundary_ends(text);
    lemma_boundary_ends(plan.text);
    lemma_span_join(text, 0, start, start + prefix);
    lemma_span_join(text, end - suffix, end, len);
    // The cut-off parts of the original are slices of the document.
    lemma_slice_of_slice(text, start, end, 0, prefix);
    lemma_slice_of_slice(text, start, end, end - start - suffix, end - start);
    lemma_span_join(plan.text, 0, prefix, tlen - suffix);
    lemma_span_join(plan.text, 0, tlen - suffix, tlen);
    lemma_span_whole(plan.text);
    let short = trimmed_plan(text, plan);
    assert(short.range.start == start + prefix);
    assert(short.range.end == end - suffix);
    let a = span(text, 0, start);
    let p = span(plan.text, 0, prefix);
    let m = short.text;
    let q = span(plan.text, tlen - suffix, tlen);
    let z = span(text, end, len);
    assert(span(text, 0, start + prefix) == a + p);
    assert(span(text, end - suffix, len) == q + z);
    assert((a + p) + m + (q + z) =~= a + ((p + m) + q) + z);
}

/// A slice of a slice is a slice of the text.
proof fn lemma_slice_of_slice(text: Seq<char>, start: int, end: int, a: int, b: int)
    requires
        sliceable(text, start, end),
        0 <= a <= b <= end - start,
    ensures
        span(span(text, start, end), a, b) == span(text, start + a, start + b),
{
    lemma_span_bytes(text, start, end);
    lemma_boundary_bounds(text, start);
    lemma_boundary_bounds(text, end);
    assert(encode_utf8(text).subrange(start, end).subrange(a, b) =~= encode_utf8(text).subrange(
        start + a,
        start + b,
    ));
}

/// Where `wanted` last occurs in `text`.
pub open spec fn last_place(text: Seq<char>, wanted: char) -> Option<int>
    decreases text.len(),
{
    if text.len() == 0 {
        None
    } else if text.last() == wanted {
        Some(text.len() - 1)
    } else {
        last_place(text.drop_last(), wanted)
    }
}

/// The name of the list that an unfinished opening tag opens.
pub open spec fn opened_list(opening: Seq<char>) -> Option<Seq<char>> {
    if opening == "<ul"@ || "<ul "@.is_prefix_of(opening) {
        Some("ul"@)
    } else if opening == "<ol"@ || "<ol "@.is_prefix_of(opening) {
        Some("ol"@)
    } else {
        None
    }
}

/// A stretch of the source between the tags of two lists, and the nodes that were found
/// in it, addressed from its start.
#[derive(Debug)]
pub struct ParsedGap {
    pub source: SourceSpan,
    pub nodes: Vec<HtmlNode>,
}

/// Whether a node of `inner` is a comment or white space.
pub open spec fn trivial_node(inner: Seq<char>, node: HtmlNode) -> bool {
    match node.kind {
        HtmlNodeKind::Comment => true,
        HtmlNodeKind::Text => sliceable(
            inner,
            node.source.start as int,
            node.source.end as int,
        ) && blank(span(inner, node.source.start as int, node.source.end as int)),
        HtmlNodeKind::Element { .. } => false,
    }
}

/// Whether the nodes of `inner` are white space and comments alone.
pub open spec fn all_trivia(inner: Seq<char>, nodes: Seq<HtmlNode>) -> bool {
    forall|i: int| 0 <= i < nodes.len() ==> trivial_node(inner, #[trigger] nodes[i])
}

/// Whether the nodes of `inner` are white space and comments alone.
pub fn only_trivia(inner: &str, nodes: &Vec<HtmlNode>) -> (r: bool)
    ensures
        r == all_trivia(inner@, nodes@),
{
    let mut i: usize = 0;
    while i < nodes.len()
        invariant
            i <= nodes@.len(),
            forall|k: int| 0 <= k < i ==> trivial_node(inner@, #[trigger] nodes@[k]),
        decreases nodes@.len() - i,
    {
        let node = &nodes[i];
        let trivial = match &node.kind {
            HtmlNodeKind::Comment => true,
            HtmlNodeKind::Text => match get(inner, node.source.start, node.source.end) {
                Some(text) => is_blank(text),
                None => false,
            },
            HtmlNodeKind::Element { .. } => false,
        };
        assert(trivial == trivial_node(inner@, nodes@[i as int]));
        if !trivial {
            return false;
        }
        i += 1;
    }
    true
}

/// Whether `inner`, which stands at `source`, was read and is white space and comments
/// alone.
pub open spec fn trivial_gap(gaps: Seq<ParsedGap>, source: SourceSpan, inner: Seq<char>) -> bool {
    exists|k: int|
        0 <= k < gaps.len() && (#[trigger] gaps[k]).source == source && all_trivia(
            inner,
            gaps[k].nodes@,
        )
}

fn has_trivial_gap(gaps: &Vec<ParsedGap>, source: SourceSpan, inner: &str) -> (r: bool)
    ensures
        r == trivial_gap(gaps@, source, inner@),
{
    let mut i: usize = 0;
    while i < gaps.len()
        invariant
            i <= gaps@.len(),
            forall|k: int|
                0 <= k < i ==> !((#[trigger] gaps@[k]).source == source && all_trivia(
                    inner@,
                    gaps@[k].nodes@,
                )),
        decreases gaps@.len() - i,
    {
        if gaps[i].source == source && only_trivia(inner, &gaps[i].nodes) {
            assert(gaps@[i as int].source == source);
            return true;
        }
        i += 1;
    }
    false
}

/// What joins two neighbouring exits. The first reopens a list at its end, the
/// second closes it at its start, and only trivia stands in between: then the
/// empty list goes away and the trivia stays.
pub open spec fn joined_exits(
    text: Seq<char>,
    previous: ListPlanView,
    next: ListPlanView,
    gaps: Seq<ParsedGap>,
) -> Option<(ListPlanView, ListPlanView)> {
    let gap = span(text, previous.range.end as int, next.range.start as int);
    let inner = gap.subrange(1, gap.len() - 1);
    let source = SourceSpan {
        start: (previous.range.end + 1) as usize,
        end: (next.range.start - 1) as usize,
    };
    if previous.range.end > next.range.start || gap.len() < 2 || gap[0] != '>' || gap.last() != '<'
        || !trivial_gap(gaps, source, inner) {
        None
    } else {
        match last_place(previous.text, '<') {
            None => None,
            Some(at) => {
                let opening = previous.text.skip(at);
                match opened_list(opening) {
                    None => None,
                    Some(name) => {
                        let closing = "/"@ + name + ">"@;
                        if opening.contains('>') || !closing.is_prefix_of(next.text)
                            || previous.caret > byte_len(previous.text.take(at)) || next.caret
                            < byte_len(closing) {
                            None
                        } else {
                            Some(
                                (
                                    ListPlanView {
                                        range: SourceSpan {
                                            start: previous.range.start,
                                            end: next.range.start,
                                        },
                                        text: previous.text.take(at) + inner,
                                        caret: previous.caret,
                                    },
                                    ListPlanView {
                                        range: next.range,
                                        text: next.text.skip(closing.len() as int),
                                        caret: next.caret - byte_len(closing),
                                    },
                                ),
                            )
                        }
                    },
                }
            },
        }
    }
}

/// The plans with the first `count` of them joined where they can be.
pub open spec fn compacted(
    text: Seq<char>,
    plans: Seq<ListPlanView>,
    exits: Seq<bool>,
    gaps: Seq<ParsedGap>,
    count: int,
) -> Seq<ListPlanView>
    decreases count,
{
    if count <= 1 {
        plans
    } else {
        let before = compacted(text, plans, exits, gaps, count - 1);
        let i = count - 1;
        if !exits[i - 1] || !exits[i] {
            before
        } else {
            match joined_exits(text, before[i - 1], before[i], gaps) {
                Some((previous, next)) => before.update(i - 1, previous).update(i, next),
                None => before,
            }
        }
    }
}

/// Whether the caret of every plan lies between characters of its text.
pub open spec fn carets_inside(plans: Seq<ListPlanView>) -> bool {
    forall|i: int| 0 <= i < plans.len() ==> boundary((#[trigger] plans[i]).text, plans[i].caret)
}

/// The caret of a trimmed plan stays between characters.
pub proof fn lemma_trimmed_caret(text: Seq<char>, plan: ListPlanView)
    requires
        span_wf(text, plan.range),
        boundary(plan.text, plan.caret),
    ensures
        boundary(trimmed_plan(text, plan).text, trimmed_plan(text, plan).caret),
{
    let original = span(text, plan.range.start as int, plan.range.end as int);
    let prefix = trim_prefix(original, plan.text, plan.caret);
    let suffix = trim_suffix(original, plan.text, plan.caret, plan.caret);
    lemma_trim_bounds(original, plan.text, plan.caret, plan.caret);
    lemma_inner_boundary(plan.text, prefix, byte_len(plan.text) - suffix, plan.caret);
}

proof fn lemma_joined_carets(
    text: Seq<char>,
    previous: ListPlanView,
    next: ListPlanView,
    gaps: Seq<ParsedGap>,
)
    requires
        boundary(previous.text, previous.caret),
        boundary(next.text, next.caret),
        joined_exits(text, previous, next, gaps) is Some,
    ensures
        ({
            let (first, second) = joined_exits(text, previous, next, gaps)->Some_0;
            boundary(first.text, first.caret) && boundary(second.text, second.caret)
        }),
{
    let gap = span(text, previous.range.end as int, next.range.start as int);
    let inner = gap.subrange(1, gap.len() - 1);
    let at = last_place(previous.text, '<')->Some_0;
    lemma_last_place(previous.text, '<');
    let head = previous.text.take(at);
    let tail = previous.text.skip(at);
    assert(previous.text =~= head + tail);
    lemma_boundary_bounds(previous.text, previous.caret);
    lemma_boundary_left(head, tail, previous.caret);
    lemma_boundary_left(head, inner, previous.caret);
    let closing = "/"@ + opened_list(tail)->Some_0 + ">"@;
    let rest = next.text.skip(closing.len() as int);
    assert(next.text =~= closing + rest);
    lemma_boundary_bounds(next.text, next.caret);
    lemma_encode_concat(closing, rest);
    lemma_boundary_right(closing, rest, next.caret - byte_len(closing));
}

/// Where a character last stands is in the text.
pub proof fn lemma_last_place(text: Seq<char>, wanted: char)
    ensures
        last_place(text, wanted) matches Some(at) ==> 0 <= at < text.len(),
    decreases text.len(),
{
    if text.len() > 0 && text.last() != wanted {
        lemma_last_place(text.drop_last(), wanted);
    }
}

/// Joining plans keeps their number, and every caret stays between characters.
pub proof fn lemma_compacted_carets(
    text: Seq<char>,
    plans: Seq<ListPlanView>,
    exits: Seq<bool>,
    gaps: Seq<ParsedGap>,
    count: int,
)
    requires
        count <= plans.len(),
        carets_inside(plans),
    ensures
        compacted(text, plans, exits, gaps, count).len() == plans.len(),
        carets_inside(compacted(text, plans, exits, gaps, count)),
    decreases count,
{
    if count > 1 {
        lemma_compacted_carets(text, plans, exits, gaps, count - 1);
        let before = compacted(text, plans, exits, gaps, count - 1);
        let i = count - 1;
        if exits[i - 1] && exits[i] && joined_exits(text, before[i - 1], before[i], gaps) is Some {
            lemma_joined_carets(text, before[i - 1], before[i], gaps);
        }
    }
}

/// The models of a list of plans.
pub open spec fn plan_views(plans: Seq<ListPlan>) -> Seq<ListPlanView> {
    plans.map_values(|plan: ListPlan| plan@)
}

fn find_last(chars: &Vec<char>, wanted: char) -> (r: Option<usize>)
    ensures
        match r {
            Some(at) => last_place(chars@, wanted) == Some(at as int) && at < chars@.len(),
            None => last_place(chars@, wanted) is None,
        },
{
    let mut i: usize = chars.len();
    assert(chars@.take(i as int) =~= chars@);
    while i > 0
        invariant
            i <= chars@.len(),
            last_place(chars@.take(i as int), wanted) == last_place(chars@, wanted),
        decreases i,
    {
        assert(chars@.take(i as int).last() == chars@[i - 1]);
        assert(chars@.take(i as int).drop_last() =~= chars@.take(i - 1));
        if chars[i - 1] == wanted {
            return Some(i - 1);
        }
        i -= 1;
    }
    None
}

/// Whether `chars` from `at` on start with `prefix`.
fn starts_at(chars: &Vec<char>, at: usize, prefix: &str) -> (r: bool)
    requires
        at <= chars@.len(),
    ensures
        r == prefix@.is_prefix_of(chars@.skip(at as int)),
{
    let wanted = chars_of(prefix);
    let ghost rest = chars@.skip(at as int);
    if chars.len() - at < wanted.len() {
        return false;
    }
    let mut i: usize = 0;
    while i < wanted.len()
        invariant
            wanted@ == prefix@,
            rest == chars@.skip(at as int),
            at + wanted@.len() <= chars@.len(),
            i <= wanted@.len(),
            forall|k: int| 0 <= k < i ==> wanted@[k] == rest[k],
        decreases wanted@.len() - i,
    {
        let count = chars.len();
        if chars[at + i] != wanted[i] {
            assert(rest[i as int] != prefix@[i as int]);
            assert(!prefix@.is_prefix_of(rest)) by {
                if prefix@.is_prefix_of(rest) {
                    assert(prefix@[i as int] == rest.subrange(0, prefix@.len() as int)[i as int]);
                }
            }
            return false;
        }
        i += 1;
    }
    assert(prefix@ =~= rest.subrange(0, prefix@.len() as int));
    true
}

/// The name of the list that the unfinished tag from `at` on opens.
fn find_opened_list(chars: &Vec<char>, at: usize) -> (r: Option<&'static str>)
    requires
        at <= chars@.len(),
    ensures
        match r {
            Some(name) => opened_list(chars@.skip(at as int)) == Some(name@),
            None => opened_list(chars@.skip(at as int)) is None,
        },
{
    let ghost opening = chars@.skip(at as int);
    proof {
        reveal_strlit("<ul");
        reveal_strlit("<ol");
        if "<ul"@.is_prefix_of(opening) && opening.len() == 3 {
            assert(opening =~= "<ul"@);
        }
        if "<ol"@.is_prefix_of(opening) && opening.len() == 3 {
            assert(opening =~= "<ol"@);
        }
        if opening == "<ul"@ {
            assert("<ul"@ =~= opening.subrange(0, 3));
        }
        if opening == "<ol"@ {
            assert("<ol"@ =~= opening.subrange(0, 3));
        }
    }
    if (chars.len() - at == 3 && starts_at(chars, at, "<ul")) || starts_at(chars, at, "<ul ") {
        Some("ul")
    } else if (chars.len() - at == 3 && starts_at(chars, at, "<ol")) || starts_at(
        chars,
        at,
        "<ol ",
    ) {
        Some("ol")
    } else {
        None
    }
}

/// Joins two neighbouring exits, if they can be joined.
fn join_exits(source: &str, previous: &ListPlan, next: &ListPlan, gaps: &Vec<ParsedGap>) -> (r:
    Option<(ListPlan, ListPlan)>)
    requires
        span_wf(source@, previous.range),
        span_wf(source@, next.range),
    ensures
        match r {
            Some((a, b)) => joined_exits(source@, previous@, next@, gaps@) == Some((a@, b@)),
            None => joined_exits(source@, previous@, next@, gaps@) is None,
        },
{
    if previous.range.end > next.range.start {
        return None;
    }
    let gap = chars_of(slice(source, previous.range.end, next.range.start));
    if gap.len() < 2 || gap[0] != '>' || gap[gap.len() - 1] != '<' {
        return None;
    }
    let inner = string_of(gap.as_slice(), 1, gap.len() - 1);
    proof {
        lemma_span_bytes(source@, previous.range.end as int, next.range.start as int);
        lemma_chars_fit(gap@);
    }
    let between = SourceSpan::new(previous.range.end + 1, next.range.start - 1);
    if !has_trivial_gap(gaps, between, inner.as_str()) {
        return None;
    }
    let chars = chars_of(previous.text.as_str());
    let at = find_last(&chars, '<')?;
    let ghost opening = chars@.skip(at as int);
    let name = find_opened_list(&chars, at)?;
    let mut closing = String::new();
    closing.push_str("/");
    closing.push_str(name);
    closing.push_str(">");
    assert(closing@ =~= "/"@ + name@ + ">"@);
    let rest = string_of(chars.as_slice(), at, chars.len());
    assert(rest@ =~= opening);
    let head = string_of(chars.as_slice(), 0, at);
    assert(head@ =~= previous.text@.take(at as int));
    let following = chars_of(next.text.as_str());
    assert(following@.skip(0) =~= following@);
    let closing_len = text_len(closing.as_str());
    if contains_char(rest.as_str(), '>') || !starts_at(&following, 0, closing.as_str())
        || previous.caret > text_len(head.as_str()) || next.caret < closing_len {
        return None;
    }
    let closing_chars = chars_of(closing.as_str());
    let mut joined = head;
    joined.push_str(inner.as_str());
    let left = string_of(following.as_slice(), closing_chars.len(), following.len());
    assert(left@ =~= next.text@.skip(closing@.len() as int));
    Some(
        (
            ListPlan {
                range: SourceSpan { start: previous.range.start, end: next.range.start },
                text: joined,
                caret: previous.caret,
            },
            ListPlan { range: next.range, text: left, caret: next.caret - closing_len },
        ),
    )
}

/// Joins neighbouring exits from a list, so that no empty list stays between
/// them. `exits` says which plans leave a list, and `gaps` holds what was read of the
/// stretches between the tags around two plans: only where nothing but white space and
/// comments stands there are two exits joined.
pub fn compact_list_exits(
    source: &str,
    plans: &mut Vec<ListPlan>,
    exits: &Vec<bool>,
    gaps: &Vec<ParsedGap>,
)
    requires
        old(plans)@.len() == exits@.len(),
        forall|i: int|
            0 <= i < old(plans)@.len() ==> span_wf(source@, (#[trigger] old(plans)@[i]).range),
    ensures
        plan_views(final(plans)@) == compacted(
            source@,
            plan_views(old(plans)@),
            exits@,
            gaps@,
            old(plans)@.len() as int,
        ),
        forall|i: int|
            0 <= i < final(plans)@.len() ==> span_wf(source@, (#[trigger] final(plans)@[i]).range),
{
    let ghost initial = plan_views(plans@);
    let mut i: usize = 1;
    while i < plans.len()
        invariant
            plans@.len() == exits@.len(),
            plans@.len() == old(plans)@.len(),
            1 <= i,
            i <= plans@.len() || plans@.len() == 0,
            forall|k: int| 0 <= k < plans@.len() ==> span_wf(source@, (#[trigger] plans@[k]).range),
            plan_views(plans@) == compacted(source@, initial, exits@, gaps@, i as int),
        decreases plans@.len() - i,
    {
        let ghost before = plans@;
        if exits[i - 1] && exits[i] {
            assert(span_wf(source@, plans@[i - 1].range));
            assert(span_wf(source@, plans@[i as int].range));
            assert(plan_views(before)[i - 1] == before[i - 1]@);
            assert(plan_views(before)[i as int] == before[i as int]@);
            if let Some((previous, next)) = join_exits(source, &plans[i - 1], &plans[i], gaps) {
                plans.set(i - 1, previous);
                plans.set(i, next);
                assert(plan_views(plans@) =~= plan_views(before).update(i - 1, previous@).update(
                    i as int,
                    next@,
                ));
            }
        }
        i += 1;
    }
}

} // verus!
