//! From overlapping marks to a run of styled segments.
//!
//! Where marks overlap, the box and size of the winning mark are kept, while font
//! traits are taken from every mark of the winning priority, and the role and the
//! script from the most specific of those marks that has one.
use crate::offset::{ByteOffset, TextRange};
use vstd::prelude::*;

verus! {

/// An entry of a style table.
#[derive(Clone, Copy, Debug, PartialEq, Eq, Structural)]
pub struct StyleId {
    pub value: u32,
}

/// The weight and slant of a font.
#[derive(Clone, Copy, Debug, PartialEq, Eq, Structural)]
pub enum TextStyle {
    Plain,
    Strong,
    Emphasis,
    StrongEmphasis,
}

/// What a piece of text stands for.
#[derive(Clone, Copy, Debug, PartialEq, Eq, Structural)]
pub enum TextRole {
    Plain,
    Link,
    Custom(u32),
}

/// Where a piece of text stands relative to its line.
#[derive(Clone, Copy, Debug, PartialEq, Eq, Structural)]
pub enum TextScript {
    Normal,
    Subscript,
    Superscript,
}

/// The attributes of a styled piece of text.
#[derive(Clone, Copy, Debug, PartialEq, Eq, Structural)]
pub struct TextAttrs {
    pub style: TextStyle,
    pub role: TextRole,
    pub script: TextScript,
    pub highlighted: bool,
    pub underlined: bool,
    pub struck: bool,
    /// The box and the size that the text is set in, by number.
    pub frame: u32,
}

/// A style over a range of text. Of two marks the one of higher priority wins.
#[derive(Clone, Copy, Debug, PartialEq, Eq, Structural)]
pub struct Mark {
    pub range: TextRange,
    pub style: StyleId,
    pub priority: i32,
}

/// A piece of text and the style it has, if any mark covers it.
#[derive(Clone, Copy, Debug, PartialEq, Eq, Structural)]
pub struct StyleSegment {
    pub range: TextRange,
    pub style: Option<StyleId>,
}

/// A trait that a text either has or has not.
#[derive(Clone, Copy, Debug, PartialEq, Eq, Structural)]
pub enum TextTrait {
    Strong,
    Emphasis,
    Highlighted,
    Underlined,
    Struck,
}

/// Which of the marks over a piece are looked at.
#[derive(Clone, Copy, Debug, PartialEq, Eq, Structural)]
pub enum MarkFilter {
    /// All of them.
    Any,
    /// Those of a priority whose table entry has a role.
    WithRole(i32),
    /// Those of a priority whose table entry has a script.
    WithScript(i32),
    /// Those of a priority whose table entry has a trait.
    WithTrait(i32, TextTrait),
}

/// Whether `style` is bold.
pub open spec fn strong(style: TextStyle) -> bool {
    style == TextStyle::Strong || style == TextStyle::StrongEmphasis
}

/// Whether `style` is slanted.
pub open spec fn emphasis(style: TextStyle) -> bool {
    style == TextStyle::Emphasis || style == TextStyle::StrongEmphasis
}

/// The style with these two traits.
pub open spec fn style_of(strong: bool, emphasis: bool) -> TextStyle {
    if strong && emphasis {
        TextStyle::StrongEmphasis
    } else if strong {
        TextStyle::Strong
    } else if emphasis {
        TextStyle::Emphasis
    } else {
        TextStyle::Plain
    }
}

/// Whether `attrs` has the trait.
pub open spec fn has_trait(attrs: TextAttrs, wanted: TextTrait) -> bool {
    match wanted {
        TextTrait::Strong => strong(attrs.style),
        TextTrait::Emphasis => emphasis(attrs.style),
        TextTrait::Highlighted => attrs.highlighted,
        TextTrait::Underlined => attrs.underlined,
        TextTrait::Struck => attrs.struck,
    }
}

/// Whether all of `from..to` lies under `mark`.
pub open spec fn covers(mark: Mark, from: u64, to: u64) -> bool {
    mark.range.start.value <= from && to <= mark.range.end.value
}

/// The number of bytes under a mark.
pub open spec fn width(mark: Mark) -> int {
    mark.range.end.value - mark.range.start.value
}

/// Whether `a` wins over `b`: by priority, then by being narrower, then by the
/// smaller style number.
pub open spec fn beats(a: Mark, b: Mark) -> bool {
    ||| a.priority > b.priority
    ||| a.priority == b.priority && width(a) < width(b)
    ||| a.priority == b.priority && width(a) == width(b) && a.style.value < b.style.value
}

/// Whether `mark` covers `from..to` and passes `filter`.
pub open spec fn qualifies(
    mark: Mark,
    from: u64,
    to: u64,
    filter: MarkFilter,
    table: Seq<TextAttrs>,
) -> bool {
    let known = mark.style.value < table.len();
    let attrs = table[mark.style.value as int];
    covers(mark, from, to) && match filter {
        MarkFilter::Any => true,
        MarkFilter::WithRole(priority) => mark.priority == priority && known && attrs.role
            != TextRole::Plain,
        MarkFilter::WithScript(priority) => mark.priority == priority && known && attrs.script
            != TextScript::Normal,
        MarkFilter::WithTrait(priority, wanted) => mark.priority == priority && known && has_trait(
            attrs,
            wanted,
        ),
    }
}

/// Of the marks that qualify, the one that no other beats.
pub open spec fn best(
    marks: Seq<Mark>,
    from: u64,
    to: u64,
    filter: MarkFilter,
    table: Seq<TextAttrs>,
) -> Option<Mark>
    decreases marks.len(),
{
    if marks.len() == 0 {
        None
    } else {
        let before = best(marks.drop_last(), from, to, filter, table);
        let last = marks.last();
        if qualifies(last, from, to, filter, table) && (before is None || beats(
            last,
            before->Some_0,
        )) {
            Some(last)
        } else {
            before
        }
    }
}

/// The style that wins on `from..to`.
pub open spec fn winner(marks: Seq<Mark>, from: u64, to: u64) -> Option<StyleId> {
    match best(marks, from, to, MarkFilter::Any, Seq::empty()) {
        Some(mark) => Some(mark.style),
        None => None,
    }
}

/// Inserts `at` into strictly increasing offsets, unless it is there.
pub open spec fn with_cut(cuts: Seq<u64>, at: u64) -> Seq<u64>
    decreases cuts.len(),
{
    if cuts.len() == 0 || at > cuts.last() {
        cuts.push(at)
    } else if at == cuts.last() {
        cuts
    } else {
        with_cut(cuts.drop_last(), at).push(cuts.last())
    }
}

/// Inserts an edge of a mark that lies strictly inside `bounds`.
pub open spec fn with_edge(cuts: Seq<u64>, bounds: TextRange, edge: u64) -> Seq<u64> {
    if bounds.start.value < edge < bounds.end.value {
        with_cut(cuts, edge)
    } else {
        cuts
    }
}

/// Where the style can change: the ends of `bounds` and the edges of marks inside.
pub open spec fn cut_points(bounds: TextRange, marks: Seq<Mark>) -> Seq<u64>
    decreases marks.len(),
{
    if marks.len() == 0 {
        with_cut(seq![bounds.start.value], bounds.end.value)
    } else {
        with_edge(
            with_edge(
                cut_points(bounds, marks.drop_last()),
                bounds,
                marks.last().range.start.value,
            ),
            bounds,
            marks.last().range.end.value,
        )
    }
}

/// Whether offsets strictly increase.
pub open spec fn increasing(cuts: Seq<u64>) -> bool {
    forall|i: int, j: int| 0 <= i < j < cuts.len() ==> cuts[i] < cuts[j]
}

/// Whether `at` is where `mark` begins or ends.
pub open spec fn is_edge(mark: Mark, at: u64) -> bool {
    mark.range.start.value == at || mark.range.end.value == at
}

/// Whether `at` is an end of `bounds`, or an edge of a mark strictly inside.
pub open spec fn is_cut(bounds: TextRange, marks: Seq<Mark>, at: u64) -> bool {
    ||| at == bounds.start.value
    ||| at == bounds.end.value
    ||| bounds.start.value < at < bounds.end.value && exists|k: int|
        0 <= k < marks.len() && is_edge(#[trigger] marks[k], at)
}

/// Whether the segments cover `bounds` from end to end, without gap or overlap.
pub open spec fn tiles(segments: Seq<StyleSegment>, bounds: TextRange) -> bool {
    &&& forall|i: int|
        0 <= i < segments.len() ==> (#[trigger] segments[i]).range.start.value
            < segments[i].range.end.value
    &&& forall|i: int, j: int|
        0 <= i && j == i + 1 && j < segments.len() ==> (#[trigger] segments[i]).range.end
            == (#[trigger] segments[j]).range.start
    &&& if segments.len() == 0 {
        bounds.start == bounds.end
    } else {
        segments[0].range.start == bounds.start && segments.last().range.end == bounds.end
    }
}

/// The attributes on `from..to`, where the winning entry is `base` and `priority` is
/// the winning priority.
pub open spec fn composed(
    marks: Seq<Mark>,
    table: Seq<TextAttrs>,
    from: u64,
    to: u64,
    base: TextAttrs,
    priority: i32,
) -> TextAttrs {
    let has = |wanted: TextTrait|
        best(marks, from, to, MarkFilter::WithTrait(priority, wanted), table) is Some;
    TextAttrs {
        style: style_of(
            strong(base.style) || has(TextTrait::Strong),
            emphasis(base.style) || has(TextTrait::Emphasis),
        ),
        role: match best(marks, from, to, MarkFilter::WithRole(priority), table) {
            Some(mark) => table[mark.style.value as int].role,
            None => TextRole::Plain,
        },
        script: match best(marks, from, to, MarkFilter::WithScript(priority), table) {
            Some(mark) => table[mark.style.value as int].script,
            None => TextScript::Normal,
        },
        highlighted: has(TextTrait::Highlighted),
        underlined: has(TextTrait::Underlined),
        struck: has(TextTrait::Struck),
        frame: base.frame,
    }
}

/// The first entry from `at` on that equals `attrs`, or the table's length.
pub open spec fn entry_from(table: Seq<TextAttrs>, attrs: TextAttrs, at: int) -> int
    decreases table.len() - at,
{
    if 0 <= at < table.len() && table[at] != attrs {
        entry_from(table, attrs, at + 1)
    } else {
        at
    }
}

/// The table with `attrs` in it: as it is where it has the entry, else one longer.
pub open spec fn with_entry(table: Seq<TextAttrs>, attrs: TextAttrs) -> Seq<TextAttrs> {
    if entry_from(table, attrs, 0) < table.len() {
        table
    } else {
        table.push(attrs)
    }
}

/// Segments together with the style table that they refer to.
pub struct Composition {
    pub segments: Seq<StyleSegment>,
    pub table: Seq<TextAttrs>,
}

/// The attributes that `from..to` gets, or `None` where no known style wins on it.
pub open spec fn piece_attrs(
    marks: Seq<Mark>,
    table: Seq<TextAttrs>,
    from: u64,
    to: u64,
) -> Option<TextAttrs> {
    match best(marks, from, to, MarkFilter::Any, Seq::empty()) {
        Some(mark) if mark.style.value < table.len() => Some(
            composed(marks, table, from, to, table[mark.style.value as int], mark.priority),
        ),
        _ => None,
    }
}

/// The first `count` pieces between the cuts, each with its composed style.
pub open spec fn composition(
    marks: Seq<Mark>,
    cuts: Seq<u64>,
    table: Seq<TextAttrs>,
    count: int,
) -> Composition
    decreases count,
{
    if count <= 0 {
        Composition { segments: Seq::empty(), table }
    } else {
        let before = composition(marks, cuts, table, count - 1);
        let from = cuts[count - 1];
        let to = cuts[count];
        let range = TextRange { start: ByteOffset { value: from }, end: ByteOffset { value: to } };
        match piece_attrs(marks, before.table, from, to) {
            None => Composition {
                segments: before.segments.push(StyleSegment { range, style: None }),
                table: before.table,
            },
            Some(attrs) => Composition {
                segments: before.segments.push(
                    StyleSegment {
                        range,
                        style: Some(
                            StyleId { value: entry_from(before.table, attrs, 0) as u32 },
                        ),
                    },
                ),
                table: with_entry(before.table, attrs),
            },
        }
    }
}

/// Whether a style number reaches the entry that piece `k` gets.
pub open spec fn entry_fits(
    marks: Seq<Mark>,
    cuts: Seq<u64>,
    table: Seq<TextAttrs>,
    k: int,
) -> bool {
    let before = composition(marks, cuts, table, k).table;
    match piece_attrs(marks, before, cuts[k], cuts[k + 1]) {
        Some(attrs) => entry_from(before, attrs, 0) <= u32::MAX,
        None => true,
    }
}

/// Whether style numbers reach all entries that the first `count` pieces get.
pub open spec fn entries_fit(
    marks: Seq<Mark>,
    cuts: Seq<u64>,
    table: Seq<TextAttrs>,
    count: int,
) -> bool {
    forall|k: int| 0 <= k < count ==> #[trigger] entry_fits(marks, cuts, table, k)
}

/// Whether style numbers reach all entries that come of composing marks in `bounds`. A
/// table that is short enough for all its possible new entries is one such.
pub open spec fn styles_fit(bounds: TextRange, marks: Seq<Mark>, table: Seq<TextAttrs>) -> bool {
    ||| table.len() + 2 * marks.len() <= u32::MAX
    ||| entries_fit(
        marks,
        cut_points(bounds, marks),
        table,
        cut_points(bounds, marks).len() - 1,
    )
}

/// The best mark qualifies, is one of the marks, and no mark that qualifies beats it.
proof fn lemma_best(
    marks: Seq<Mark>,
    from: u64,
    to: u64,
    filter: MarkFilter,
    table: Seq<TextAttrs>,
)
    ensures
        match best(marks, from, to, filter, table) {
            Some(mark) => marks.contains(mark) && qualifies(mark, from, to, filter, table),
            None => true,
        },
        forall|k: int|
            0 <= k < marks.len() && qualifies(#[trigger] marks[k], from, to, filter, table)
                ==> best(marks, from, to, filter, table) is Some && !beats(
                marks[k],
                best(marks, from, to, filter, table)->Some_0,
            ),
    decreases marks.len(),
{
    if marks.len() > 0 {
        let front = marks.drop_last();
        lemma_best(front, from, to, filter, table);
        if let Some(mark) = best(front, from, to, filter, table) {
            let k = front.index_of(mark);
            assert(marks[k] == mark);
        }
        assert(marks[marks.len() - 1] == marks.last());
        assert forall|k: int|
            0 <= k < marks.len() && qualifies(
                #[trigger] marks[k],
                from,
                to,
                filter,
                table,
            ) implies best(marks, from, to, filter, table) is Some && !beats(
            marks[k],
            best(marks, from, to, filter, table)->Some_0,
        ) by {
            if k < front.len() {
                assert(front[k] == marks[k]);
            }
        }
    }
}

/// Which mark is best depends on the marks alone, not on their order: another list
/// of the same marks has a best mark of the same priority, width and style.
pub proof fn law_winner_ignores_order(
    a: Seq<Mark>,
    b: Seq<Mark>,
    from: u64,
    to: u64,
    filter: MarkFilter,
    table: Seq<TextAttrs>,
)
    requires
        forall|mark: Mark| a.contains(mark) <==> b.contains(mark),
    ensures
        winner(a, from, to) == winner(b, from, to),
        match best(a, from, to, filter, table) {
            Some(mark) => best(b, from, to, filter, table) is Some && ({
                let other = best(b, from, to, filter, table)->Some_0;
                other.priority == mark.priority && other.style == mark.style && width(other)
                    == width(mark)
            }),
            None => best(b, from, to, filter, table) is None,
        },
{
    lemma_same_best(a, b, from, to, filter, table);
    lemma_same_best(a, b, from, to, MarkFilter::Any, Seq::empty());
}

proof fn lemma_same_best(
    a: Seq<Mark>,
    b: Seq<Mark>,
    from: u64,
    to: u64,
    filter: MarkFilter,
    table: Seq<TextAttrs>,
)
    requires
        forall|mark: Mark| a.contains(mark) <==> b.contains(mark),
    ensures
        match best(a, from, to, filter, table) {
            Some(mark) => best(b, from, to, filter, table) is Some && ({
                let other = best(b, from, to, filter, table)->Some_0;
                other.priority == mark.priority && other.style == mark.style && width(other)
                    == width(mark)
            }),
            None => best(b, from, to, filter, table) is None,
        },
{
    lemma_best(a, from, to, filter, table);
    lemma_best(b, from, to, filter, table);
    if let Some(mark) = best(a, from, to, filter, table) {
        assert(b.contains(mark));
        let k = b.index_of(mark);
        assert(qualifies(b[k], from, to, filter, table));
    }
    if let Some(mark) = best(b, from, to, filter, table) {
        assert(a.contains(mark));
        let k = a.index_of(mark);
        assert(qualifies(a[k], from, to, filter, table));
    }
}

/// Inserting a cut keeps the order and adds nothing else.
proof fn lemma_with_cut(cuts: Seq<u64>, at: u64)
    requires
        increasing(cuts),
    ensures
        increasing(with_cut(cuts, at)),
        forall|x: u64| #[trigger]
            with_cut(cuts, at).contains(x) <==> cuts.contains(x) || x == at,
        cuts.len() <= with_cut(cuts, at).len() <= cuts.len() + 1,
    decreases cuts.len(),
{
    let out = with_cut(cuts, at);
    if cuts.len() == 0 || at > cuts.last() {
        assert(out.last() == at);
        assert forall|x: u64| out.contains(x) <==> cuts.contains(x) || x == at by {
            if cuts.contains(x) {
                let k = cuts.index_of(x);
                assert(out[k] == x);
            }
            assert(out[cuts.len() as int] == at);
        }
    } else if at == cuts.last() {
        assert(cuts[cuts.len() - 1] == at);
    } else {
        let front = cuts.drop_last();
        let inner = with_cut(front, at);
        lemma_with_cut(front, at);
        assert forall|i: int, j: int| 0 <= i < j < out.len() implies out[i] < out[j] by {
            if j == inner.len() {
                assert(inner.contains(inner[i]));
                if front.contains(inner[i]) {
                    let k = front.index_of(inner[i]);
                    assert(cuts[k] < cuts[cuts.len() - 1]);
                }
            }
        }
        assert forall|x: u64| out.contains(x) <==> cuts.contains(x) || x == at by {
            if out.contains(x) {
                let k = out.index_of(x);
                if k < inner.len() {
                    assert(inner[k] == x);
                    assert(inner.contains(x));
                    if front.contains(x) {
                        let m = front.index_of(x);
                        assert(cuts[m] == x);
                    }
                } else {
                    assert(cuts[cuts.len() - 1] == x);
                }
            }
            if cuts.contains(x) {
                let k = cuts.index_of(x);
                if k < front.len() {
                    assert(front[k] == x);
                    assert(inner.contains(x));
                    let m = inner.index_of(x);
                    assert(out[m] == x);
                } else {
                    assert(out[inner.len() as int] == x);
                }
            }
            if x == at {
                assert(inner.contains(x));
                let m = inner.index_of(x);
                assert(out[m] == x);
            }
        }
    }
}

/// The cut points strictly increase, and they are the ends of the bounds and the
/// edges of marks inside.
pub proof fn law_cut_points(bounds: TextRange, marks: Seq<Mark>)
    requires
        bounds.wf(),
    ensures
        increasing(cut_points(bounds, marks)),
        forall|x: u64|
            #![trigger cut_points(bounds, marks).contains(x)]
            #![trigger is_cut(bounds, marks, x)]
            cut_points(bounds, marks).contains(x) <==> is_cut(bounds, marks, x),
        cut_points(bounds, marks).len() <= 2 * marks.len() + 2,
    decreases marks.len(),
{
    let cuts = cut_points(bounds, marks);
    if marks.len() == 0 {
        let first = seq![bounds.start.value];
        lemma_with_cut(first, bounds.end.value);
        assert(first[0] == bounds.start.value);
        assert(first.contains(bounds.start.value));
        assert forall|x: u64| cuts.contains(x) <==> is_cut(bounds, marks, x) by {
            assert(first.contains(x) <==> x == bounds.start.value);
        }
    } else {
        let front = marks.drop_last();
        let last = marks.last();
        law_cut_points(bounds, front);
        let base = cut_points(bounds, front);
        lemma_with_cut(base, last.range.start.value);
        let middle = with_edge(base, bounds, last.range.start.value);
        lemma_with_cut(middle, last.range.end.value);
        assert forall|x: u64| cuts.contains(x) <==> is_cut(bounds, marks, x) by {
            if is_cut(bounds, front, x) && bounds.start.value < x < bounds.end.value {
                let k = choose|k: int|
                    0 <= k < front.len() && is_edge(#[trigger] front[k], x);
                assert(marks[k] == front[k]);
                assert(is_cut(bounds, marks, x));
            }
            if is_cut(bounds, marks, x) && bounds.start.value < x < bounds.end.value {
                let k = choose|k: int|
                    0 <= k < marks.len() && is_edge(#[trigger] marks[k], x);
                if k < front.len() {
                    assert(front[k] == marks[k]);
                    assert(is_cut(bounds, front, x));
                }
            }
            assert(marks[marks.len() - 1] == last);
        }
    }
}

/// The first and the last cut are the ends of the bounds.
proof fn lemma_cut_ends(bounds: TextRange, marks: Seq<Mark>)
    requires
        bounds.wf(),
    ensures
        cut_points(bounds, marks).len() >= 1,
        cut_points(bounds, marks)[0] == bounds.start.value,
        cut_points(bounds, marks).last() == bounds.end.value,
{
    law_cut_points(bounds, marks);
    let cuts = cut_points(bounds, marks);
    assert(cuts.contains(bounds.start.value));
    assert(cuts.contains(bounds.end.value));
    let s = cuts.index_of(bounds.start.value);
    let e = cuts.index_of(bounds.end.value);
    assert(cuts.contains(cuts[0]));
    assert(is_cut(bounds, marks, cuts[0]));
    assert(cuts.contains(cuts.last()));
    assert(is_cut(bounds, marks, cuts.last()));
    if s > 0 {
        assert(cuts[0] < cuts[s]);
    }
    if e < cuts.len() - 1 {
        assert(cuts[e] < cuts[cuts.len() - 1]);
    }
}

/// Two strictly increasing sequences with the same elements are equal.
proof fn lemma_increasing_unique(a: Seq<u64>, b: Seq<u64>)
    requires
        increasing(a),
        increasing(b),
        forall|x: u64| a.contains(x) <==> b.contains(x),
    ensures
        a == b,
    decreases a.len(),
{
    if a.len() == 0 {
        if b.len() > 0 {
            assert(b.contains(b[0]));
        }
        assert(a =~= b);
    } else {
        assert(a.contains(a[0]));
        assert(b.len() > 0);
        assert(b.contains(b.last()));
        assert(a.contains(a.last()));
        let i = a.index_of(b.last());
        let j = b.index_of(a.last());
        assert(a.last() == b.last()) by {
            if i < a.len() - 1 {
                assert(a[i] < a[a.len() - 1]);
            }
            if j < b.len() - 1 {
                assert(b[j] < b[b.len() - 1]);
            }
        }
        let fa = a.drop_last();
        let fb = b.drop_last();
        assert forall|x: u64| fa.contains(x) <==> fb.contains(x) by {
            if fa.contains(x) {
                let k = fa.index_of(x);
                assert(a[k] == x && a[k] < a[a.len() - 1]);
                assert(b.contains(x));
                let m = b.index_of(x);
                assert(fb[m] == x);
            }
            if fb.contains(x) {
                let k = fb.index_of(x);
                assert(b[k] == x && b[k] < b[b.len() - 1]);
                assert(a.contains(x));
                let m = a.index_of(x);
                assert(fa[m] == x);
            }
        }
        lemma_increasing_unique(fa, fb);
        assert(a =~= fa.push(a.last()));
        assert(b =~= fb.push(b.last()));
    }
}

/// The cut points depend on the marks alone, not on their order.
proof fn lemma_same_cuts(bounds: TextRange, a: Seq<Mark>, b: Seq<Mark>)
    requires
        bounds.wf(),
        forall|mark: Mark| a.contains(mark) <==> b.contains(mark),
    ensures
        cut_points(bounds, a) == cut_points(bounds, b),
{
    law_cut_points(bounds, a);
    law_cut_points(bounds, b);
    let ca = cut_points(bounds, a);
    let cb = cut_points(bounds, b);
    assert forall|x: u64| ca.contains(x) <==> cb.contains(x) by {
        if is_cut(bounds, a, x) {
            lemma_cut_carries(bounds, a, b, x);
        }
        if is_cut(bounds, b, x) {
            lemma_cut_carries(bounds, b, a, x);
        }
    }
    lemma_increasing_unique(ca, cb);
}

proof fn lemma_cut_carries(bounds: TextRange, a: Seq<Mark>, b: Seq<Mark>, x: u64)
    requires
        forall|mark: Mark| a.contains(mark) <==> b.contains(mark),
        is_cut(bounds, a, x),
    ensures
        is_cut(bounds, b, x),
{
    if bounds.start.value < x < bounds.end.value {
        let k = choose|k: int|
            0 <= k < a.len() && is_edge(#[trigger] a[k], x);
        assert(a.contains(a[k]));
        let m = b.index_of(a[k]);
        assert(is_edge(b[m], x));
    }
}

/// What a piece gets depends on the marks alone, not on their order.
proof fn lemma_same_piece(
    a: Seq<Mark>,
    b: Seq<Mark>,
    table: Seq<TextAttrs>,
    from: u64,
    to: u64,
)
    requires
        forall|mark: Mark| a.contains(mark) <==> b.contains(mark),
    ensures
        piece_attrs(a, table, from, to) == piece_attrs(b, table, from, to),
{
    lemma_same_best(a, b, from, to, MarkFilter::Any, Seq::empty());
    if let Some(mark) = best(a, from, to, MarkFilter::Any, Seq::empty()) {
        let p = mark.priority;
        lemma_same_best(a, b, from, to, MarkFilter::WithRole(p), table);
        lemma_same_best(a, b, from, to, MarkFilter::WithScript(p), table);
        lemma_same_best(a, b, from, to, MarkFilter::WithTrait(p, TextTrait::Strong), table);
        lemma_same_best(a, b, from, to, MarkFilter::WithTrait(p, TextTrait::Emphasis), table);
        lemma_same_best(a, b, from, to, MarkFilter::WithTrait(p, TextTrait::Highlighted), table);
        lemma_same_best(a, b, from, to, MarkFilter::WithTrait(p, TextTrait::Underlined), table);
        lemma_same_best(a, b, from, to, MarkFilter::WithTrait(p, TextTrait::Struck), table);
    }
}

/// The segments and the table that come of composing marks depend on the marks
/// alone, not on their order.
pub proof fn law_composition_ignores_order(
    bounds: TextRange,
    a: Seq<Mark>,
    b: Seq<Mark>,
    table: Seq<TextAttrs>,
)
    requires
        bounds.wf(),
        forall|mark: Mark| a.contains(mark) <==> b.contains(mark),
    ensures
        cut_points(bounds, a) == cut_points(bounds, b),
        composition(a, cut_points(bounds, a), table, cut_points(bounds, a).len() - 1)
            == composition(b, cut_points(bounds, b), table, cut_points(bounds, b).len() - 1),
{
    lemma_same_cuts(bounds, a, b);
    lemma_same_composition(
        a,
        b,
        cut_points(bounds, a),
        table,
        cut_points(bounds, a).len() - 1,
    );
}

proof fn lemma_same_composition(
    a: Seq<Mark>,
    b: Seq<Mark>,
    cuts: Seq<u64>,
    table: Seq<TextAttrs>,
    count: int,
)
    requires
        forall|mark: Mark| a.contains(mark) <==> b.contains(mark),
    ensures
        composition(a, cuts, table, count) == composition(b, cuts, table, count),
    decreases count,
{
    if count > 0 {
        lemma_same_composition(a, b, cuts, table, count - 1);
        let before = composition(a, cuts, table, count - 1);
        lemma_same_piece(a, b, before.table, cuts[count - 1], cuts[count]);
    }
}

/// Between two neighbouring cuts, every byte is under the same marks.
proof fn lemma_same_cover(bounds: TextRange, marks: Seq<Mark>, i: int, x: u64)
    requires
        bounds.wf(),
        0 <= i,
        i + 1 < cut_points(bounds, marks).len(),
        cut_points(bounds, marks)[i] <= x < cut_points(bounds, marks)[i + 1],
    ensures
        winner(marks, x, (x + 1) as u64) == winner(
            marks,
            cut_points(bounds, marks)[i],
            cut_points(bounds, marks)[i + 1],
        ),
{
    let cuts = cut_points(bounds, marks);
    let from = cuts[i];
    let to = cuts[i + 1];
    law_cut_points(bounds, marks);
    lemma_cut_ends(bounds, marks);
    assert forall|k: int| 0 <= k < marks.len() implies covers(
        #[trigger] marks[k],
        x,
        (x + 1) as u64,
    ) == covers(marks[k], from, to) by {
        lemma_no_cut_between(bounds, marks, i, marks[k].range.start.value, k);
        lemma_no_cut_between(bounds, marks, i, marks[k].range.end.value, k);
    }
    lemma_best_by_cover(marks, x, (x + 1) as u64, from, to);
}

/// No mark begins or ends between two neighbouring cuts.
proof fn lemma_no_cut_between(bounds: TextRange, marks: Seq<Mark>, i: int, edge: u64, k: int)
    requires
        bounds.wf(),
        0 <= i,
        i + 1 < cut_points(bounds, marks).len(),
        0 <= k < marks.len(),
        is_edge(marks[k], edge),
    ensures
        !(cut_points(bounds, marks)[i] < edge < cut_points(bounds, marks)[i + 1]),
{
    let cuts = cut_points(bounds, marks);
    law_cut_points(bounds, marks);
    lemma_cut_ends(bounds, marks);
    if cuts[i] < edge < cuts[i + 1] {
        assert(cuts[0] <= cuts[i]);
        assert(cuts[i + 1] <= cuts[cuts.len() - 1]);
        assert(is_cut(bounds, marks, edge));
        assert(cuts.contains(edge));
        let m = cuts.index_of(edge);
        assert(cuts[m] == edge);
        if m <= i {
            assert(cuts[m] <= cuts[i]);
        } else if m > i + 1 {
            assert(cuts[i + 1] < cuts[m]);
        }
    }
}

/// Which mark is best depends on the piece only through which marks cover it.
proof fn lemma_best_by_cover(marks: Seq<Mark>, a: u64, b: u64, c: u64, d: u64)
    requires
        forall|k: int|
            0 <= k < marks.len() ==> covers(#[trigger] marks[k], a, b) == covers(marks[k], c, d),
    ensures
        best(marks, a, b, MarkFilter::Any, Seq::empty()) == best(
            marks,
            c,
            d,
            MarkFilter::Any,
            Seq::empty(),
        ),
    decreases marks.len(),
{
    if marks.len() > 0 {
        let front = marks.drop_last();
        assert forall|k: int| 0 <= k < front.len() implies covers(#[trigger] front[k], a, b)
            == covers(front[k], c, d) by {
            assert(front[k] == marks[k]);
        }
        lemma_best_by_cover(front, a, b, c, d);
        assert(marks.last() == marks[marks.len() - 1]);
    }
}

fn is_strong(style: TextStyle) -> (r: bool)
    ensures
        r == strong(style),
{
    match style {
        TextStyle::Strong | TextStyle::StrongEmphasis => true,
        _ => false,
    }
}

fn is_emphasis(style: TextStyle) -> (r: bool)
    ensures
        r == emphasis(style),
{
    match style {
        TextStyle::Emphasis | TextStyle::StrongEmphasis => true,
        _ => false,
    }
}

fn style_with(strong: bool, emphasis: bool) -> (r: TextStyle)
    ensures
        r == style_of(strong, emphasis),
{
    if strong && emphasis {
        TextStyle::StrongEmphasis
    } else if strong {
        TextStyle::Strong
    } else if emphasis {
        TextStyle::Emphasis
    } else {
        TextStyle::Plain
    }
}

impl TextStyle {
    /// The style that has the traits of both.
    pub fn union(self, other: TextStyle) -> (r: TextStyle)
        ensures
            r == style_of(
                strong(self) || strong(other),
                emphasis(self) || emphasis(other),
            ),
    {
        style_with(
            is_strong(self) || is_strong(other),
            is_emphasis(self) || is_emphasis(other),
        )
    }
}

impl TextAttrs {
    /// Text in `style` and nothing else.
    pub fn new(style: TextStyle) -> (r: TextAttrs)
        ensures
            r == (TextAttrs {
                style,
                role: TextRole::Plain,
                script: TextScript::Normal,
                highlighted: false,
                underlined: false,
                struck: false,
                frame: 0,
            }),
    {
        TextAttrs {
            style,
            role: TextRole::Plain,
            script: TextScript::Normal,
            highlighted: false,
            underlined: false,
            struck: false,
            frame: 0,
        }
    }

    /// The same text with another role.
    pub fn with_role(self, role: TextRole) -> (r: TextAttrs)
        ensures
            r == (TextAttrs { role, ..self }),
    {
        TextAttrs { role, ..self }
    }

    fn shows(self, wanted: TextTrait) -> (r: bool)
        ensures
            r == has_trait(self, wanted),
    {
        match wanted {
            TextTrait::Strong => is_strong(self.style),
            TextTrait::Emphasis => is_emphasis(self.style),
            TextTrait::Highlighted => self.highlighted,
            TextTrait::Underlined => self.underlined,
            TextTrait::Struck => self.struck,
        }
    }
}

impl Mark {
    fn covers(&self, from: u64, to: u64) -> (r: bool)
        ensures
            r == covers(*self, from, to),
    {
        self.range.start.value <= from && to <= self.range.end.value
    }

    fn beats(&self, other: &Mark) -> (r: bool)
        requires
            self.range.wf(),
            other.range.wf(),
        ensures
            r == beats(*self, *other),
    {
        if self.priority != other.priority {
            return self.priority > other.priority;
        }
        let here = self.range.len();
        let there = other.range.len();
        if here != there {
            return here < there;
        }
        self.style.value < other.style.value
    }

    fn qualifies(&self, from: u64, to: u64, filter: MarkFilter, table: &[TextAttrs]) -> (r: bool)
        ensures
            r == qualifies(*self, from, to, filter, table@),
    {
        if !self.covers(from, to) {
            return false;
        }
        let at = self.style.value as usize;
        let known = at < table.len();
        match filter {
            MarkFilter::Any => true,
            MarkFilter::WithRole(priority) => self.priority == priority && known && table[at].role
                != TextRole::Plain,
            MarkFilter::WithScript(priority) => self.priority == priority && known
                && table[at].script != TextScript::Normal,
            MarkFilter::WithTrait(priority, wanted) => self.priority == priority && known
                && table[at].shows(wanted),
        }
    }
}

/// Whether every mark's range is in order, and its priority is not the least number, which
/// has no opposite.
pub open spec fn marks_wf(marks: Seq<Mark>) -> bool {
    forall|k: int|
        0 <= k < marks.len() ==> (#[trigger] marks[k]).range.wf() && marks[k].priority > i32::MIN
}

/// Finds the mark that no other beats.
fn best_of(
    marks: &[Mark],
    from: u64,
    to: u64,
    filter: MarkFilter,
    table: &[TextAttrs],
) -> (r: Option<Mark>)
    requires
        marks_wf(marks@),
    ensures
        r == best(marks@, from, to, filter, table@),
        r matches Some(mark) ==> mark.range.wf(),
{
    let mut found: Option<Mark> = None;
    let mut i: usize = 0;
    while i < marks.len()
        invariant
            i <= marks@.len(),
            marks_wf(marks@),
            found == best(marks@.take(i as int), from, to, filter, table@),
            found matches Some(mark) ==> mark.range.wf(),
        decreases marks@.len() - i,
    {
        let mark = marks[i];
        proof {
            let now = marks@.take(i + 1);
            assert(now.drop_last() =~= marks@.take(i as int));
            assert(now.last() == mark);
            assert(marks@[i as int].range.wf());
        }
        if mark.qualifies(from, to, filter, table) {
            let wins = match &found {
                None => true,
                Some(other) => mark.beats(other),
            };
            if wins {
                found = Some(mark);
            }
        }
        i += 1;
    }
    assert(marks@.take(marks@.len() as int) =~= marks@);
    found
}

/// Inserts a cut into strictly increasing cuts.
fn insert_cut(cuts: &mut Vec<u64>, at: u64)
    ensures
        final(cuts)@ == with_cut(old(cuts)@, at),
{
    let mut place: usize = cuts.len();
    assert(cuts@.take(place as int) =~= cuts@);
    assert(with_cut(cuts@, at) + cuts@.skip(place as int) =~= with_cut(cuts@, at));
    while place > 0 && cuts[place - 1] > at
        invariant
            place <= cuts@.len(),
            cuts@ == old(cuts)@,
            with_cut(cuts@, at) == with_cut(cuts@.take(place as int), at) + cuts@.skip(
                place as int,
            ),
        decreases place,
    {
        proof {
            let here = cuts@.take(place as int);
            let last = cuts@[place - 1];
            assert(here.drop_last() =~= cuts@.take(place - 1));
            assert(here.last() == last);
            assert(with_cut(here, at) == with_cut(here.drop_last(), at).push(last));
            assert(with_cut(here.drop_last(), at).push(last) + cuts@.skip(place as int)
                =~= with_cut(here.drop_last(), at) + cuts@.skip(place - 1));
        }
        place -= 1;
    }
    let ghost here = cuts@.take(place as int);
    if place > 0 && cuts[place - 1] == at {
        assert(here.last() == at);
        assert(here + cuts@.skip(place as int) =~= cuts@);
    } else {
        cuts.insert(place, at);
        assert(place == 0 || here.last() < at);
        assert(cuts@ =~= here.push(at) + old(cuts)@.skip(place as int));
    }
}

fn insert_edge(cuts: &mut Vec<u64>, bounds: TextRange, edge: u64)
    ensures
        final(cuts)@ == with_edge(old(cuts)@, bounds, edge),
{
    if bounds.start.value < edge && edge < bounds.end.value {
        insert_cut(cuts, edge);
    }
}

/// Collects the offsets at which the style can change.
fn cuts_of(bounds: TextRange, marks: &[Mark]) -> (r: Vec<u64>)
    ensures
        r@ == cut_points(bounds, marks@),
{
    let mut cuts: Vec<u64> = Vec::new();
    cuts.push(bounds.start.value);
    assert(cuts@ =~= seq![bounds.start.value]);
    insert_cut(&mut cuts, bounds.end.value);
    let mut i: usize = 0;
    assert(marks@.take(0) =~= Seq::empty());
    while i < marks.len()
        invariant
            i <= marks@.len(),
            cuts@ == cut_points(bounds, marks@.take(i as int)),
        decreases marks@.len() - i,
    {
        proof {
            let now = marks@.take(i + 1);
            assert(now.drop_last() =~= marks@.take(i as int));
            assert(now.last() == marks@[i as int]);
        }
        insert_edge(&mut cuts, bounds, marks[i].range.start.value);
        insert_edge(&mut cuts, bounds, marks[i].range.end.value);
        i += 1;
    }
    assert(marks@.take(marks@.len() as int) =~= marks@);
    cuts
}

/// The style that wins on `from..to`.
fn winner_over(marks: &[Mark], from: u64, to: u64) -> (r: Option<StyleId>)
    requires
        marks_wf(marks@),
    ensures
        r == winner(marks@, from, to),
{
    let empty: [TextAttrs; 0] = [];
    assert(empty@ =~= Seq::empty());
    match best_of(marks, from, to, MarkFilter::Any, &empty) {
        Some(mark) => Some(mark.style),
        None => None,
    }
}

/// Whether every byte of every segment has the style that wins there.
pub open spec fn styled(segments: Seq<StyleSegment>, marks: Seq<Mark>) -> bool {
    forall|i: int, x: u64|
        #![trigger segments[i], winner(marks, x, (x + 1) as u64)]
        0 <= i < segments.len() && segments[i].range.start.value <= x
            < segments[i].range.end.value ==> segments[i].style == winner(
            marks,
            x,
            (x + 1) as u64,
        )
}

/// Whether neighbouring segments differ in style.
pub open spec fn maximal(segments: Seq<StyleSegment>) -> bool {
    forall|i: int, j: int|
        0 <= i && j == i + 1 && j < segments.len() ==> (#[trigger] segments[i]).style != (
        #[trigger] segments[j]).style
}

/// Turns marks into segments that cover `bounds`, each as long as its style goes on.
/// Where no mark lies, a segment without a style stands.
pub fn flatten(bounds: TextRange, marks: &[Mark]) -> (r: Vec<StyleSegment>)
    requires
        bounds.wf(),
        marks_wf(marks@),
    ensures
        tiles(r@, bounds),
        styled(r@, marks@),
        maximal(r@),
{
    let cuts = cuts_of(bounds, marks);
    proof {
        law_cut_points(bounds, marks@);
        lemma_cut_ends(bounds, marks@);
    }
    let mut segments: Vec<StyleSegment> = Vec::new();
    let mut i: usize = 1;
    while i < cuts.len()
        invariant
            1 <= i <= cuts@.len(),
            bounds.wf(),
            marks_wf(marks@),
            cuts@ == cut_points(bounds, marks@),
            increasing(cuts@),
            cuts@[0] == bounds.start.value,
            tiles(
                segments@,
                TextRange { start: bounds.start, end: ByteOffset { value: cuts@[i - 1] } },
            ),
            styled(segments@, marks@),
            maximal(segments@),
        decreases cuts@.len() - i,
    {
        let from = cuts[i - 1];
        let to = cuts[i];
        let style = winner_over(marks, from, to);
        let ghost before = segments@;
        proof {
            assert(cuts@[i - 1] < cuts@[i as int]);
            assert forall|x: u64| from <= x < to implies #[trigger] winner(
                marks@,
                x,
                (x + 1) as u64,
            ) == style by {
                lemma_same_cover(bounds, marks@, i - 1, x);
            }
        }
        let count = segments.len();
        if count > 0 && segments[count - 1].style == style {
            let grown = StyleSegment {
                range: TextRange {
                    start: segments[count - 1].range.start,
                    end: ByteOffset { value: to },
                },
                style,
            };
            segments.set(count - 1, grown);
            assert(segments@ =~= before.drop_last().push(grown));
        } else {
            segments.push(
                StyleSegment {
                    range: TextRange {
                        start: ByteOffset { value: from },
                        end: ByteOffset { value: to },
                    },
                    style,
                },
            );
        }
        i += 1;
    }
    segments
}

/// The attributes of a piece on which `base` wins at `priority`.
fn compose(
    marks: &[Mark],
    table: &[TextAttrs],
    from: u64,
    to: u64,
    base: TextAttrs,
    priority: i32,
) -> (r: TextAttrs)
    requires
        marks_wf(marks@),
    ensures
        r == composed(marks@, table@, from, to, base, priority),
{
    proof {
        lemma_best(marks@, from, to, MarkFilter::WithRole(priority), table@);
        lemma_best(marks@, from, to, MarkFilter::WithScript(priority), table@);
    }
    let role = match best_of(marks, from, to, MarkFilter::WithRole(priority), table) {
        Some(mark) => table[mark.style.value as usize].role,
        None => TextRole::Plain,
    };
    let script = match best_of(marks, from, to, MarkFilter::WithScript(priority), table) {
        Some(mark) => table[mark.style.value as usize].script,
        None => TextScript::Normal,
    };
    TextAttrs {
        style: style_with(
            is_strong(base.style) || any_has(marks, table, from, to, priority, TextTrait::Strong),
            is_emphasis(base.style) || any_has(
                marks,
                table,
                from,
                to,
                priority,
                TextTrait::Emphasis,
            ),
        ),
        role,
        script,
        highlighted: any_has(marks, table, from, to, priority, TextTrait::Highlighted),
        underlined: any_has(marks, table, from, to, priority, TextTrait::Underlined),
        struck: any_has(marks, table, from, to, priority, TextTrait::Struck),
        frame: base.frame,
    }
}

/// Whether some mark of `priority` over the piece has the trait.
fn any_has(
    marks: &[Mark],
    table: &[TextAttrs],
    from: u64,
    to: u64,
    priority: i32,
    wanted: TextTrait,
) -> (r: bool)
    requires
        marks_wf(marks@),
    ensures
        r == (best(marks@, from, to, MarkFilter::WithTrait(priority, wanted), table@) is Some),
{
    best_of(marks, from, to, MarkFilter::WithTrait(priority, wanted), table).is_some()
}

/// Finds the entry `attrs`, adding it behind the others where it is missing.
fn entry_of(table: &mut Vec<TextAttrs>, attrs: TextAttrs) -> (r: usize)
    ensures
        r == entry_from(old(table)@, attrs, 0),
        r <= old(table)@.len(),
        final(table)@ == with_entry(old(table)@, attrs),
{
    let mut i: usize = 0;
    while i < table.len() && table[i] != attrs
        invariant
            i <= table@.len(),
            table@ == old(table)@,
            entry_from(table@, attrs, i as int) == entry_from(table@, attrs, 0),
        decreases table@.len() - i,
    {
        i += 1;
    }
    if i == table.len() {
        table.push(attrs);
    }
    i
}

/// The style of one piece, and the table that holds it.
fn piece_style(marks: &[Mark], table: &mut Vec<TextAttrs>, from: u64, to: u64) -> (r: Option<
    StyleId,
>)
    requires
        marks_wf(marks@),
        piece_attrs(marks@, old(table)@, from, to) matches Some(attrs) ==> entry_from(
            old(table)@,
            attrs,
            0,
        ) <= u32::MAX,
    ensures
        match piece_attrs(marks@, old(table)@, from, to) {
            None => r is None && final(table)@ == old(table)@,
            Some(attrs) => r == Some(
                StyleId { value: entry_from(old(table)@, attrs, 0) as u32 },
            ) && final(table)@ == with_entry(old(table)@, attrs),
        },
        final(table)@.len() <= old(table)@.len() + 1,
{
    let empty: [TextAttrs; 0] = [];
    assert(empty@ =~= Seq::empty());
    match best_of(marks, from, to, MarkFilter::Any, &empty) {
        Some(mark) => {
            let at = mark.style.value as usize;
            if at >= table.len() {
                return None;
            }
            let attrs = compose(marks, table, from, to, table[at], mark.priority);
            let entry = entry_of(table, attrs);
            Some(StyleId { value: entry as u32 })
        },
        None => None,
    }
}

/// Turns marks into one segment for each piece between neighbouring cuts, with the
/// composed attributes of the piece. Attributes that the table lacks are added to it.
/// A style number of 32 bits must reach every entry that a piece gets.
pub fn flatten_composed(
    bounds: TextRange,
    marks: &[Mark],
    styles: &mut Vec<TextAttrs>,
) -> (r: Vec<StyleSegment>)
    requires
        bounds.wf(),
        marks_wf(marks@),
        styles_fit(bounds, marks@, old(styles)@),
    ensures
        ({
            let cuts = cut_points(bounds, marks@);
            let made = composition(marks@, cuts, old(styles)@, cuts.len() - 1);
            r@ == made.segments && final(styles)@ == made.table
        }),
        tiles(r@, bounds),
{
    let cuts = cuts_of(bounds, marks);
    proof {
        law_cut_points(bounds, marks@);
        lemma_cut_ends(bounds, marks@);
        lemma_entries_fit(bounds, marks@, styles@);
    }
    let mut segments: Vec<StyleSegment> = Vec::new();
    let mut i: usize = 1;
    while i < cuts.len()
        invariant
            1 <= i <= cuts@.len(),
            bounds.wf(),
            marks_wf(marks@),
            cuts@ == cut_points(bounds, marks@),
            increasing(cuts@),
            cuts@[0] == bounds.start.value,
            entries_fit(marks@, cuts@, old(styles)@, cuts@.len() - 1),
            segments@ == composition(marks@, cuts@, old(styles)@, i - 1).segments,
            styles@ == composition(marks@, cuts@, old(styles)@, i - 1).table,
            tiles(
                segments@,
                TextRange { start: bounds.start, end: ByteOffset { value: cuts@[i - 1] } },
            ),
        decreases cuts@.len() - i,
    {
        let from = cuts[i - 1];
        let to = cuts[i];
        proof {
            assert(cuts@[i - 1] < cuts@[i as int]);
            assert(entry_fits(marks@, cuts@, old(styles)@, i - 1));
        }
        let style = piece_style(marks, styles, from, to);
        segments.push(
            StyleSegment {
                range: TextRange {
                    start: ByteOffset { value: from },
                    end: ByteOffset { value: to },
                },
                style,
            },
        );
        i += 1;
    }
    segments
}

/// No segment reaches beyond the bounds.
proof fn lemma_tile_inside(segments: Seq<StyleSegment>, bounds: TextRange, i: int)
    requires
        tiles(segments, bounds),
        0 <= i < segments.len(),
    ensures
        segments[i].range.end.value <= bounds.end.value,
    decreases segments.len() - i,
{
    if i + 1 < segments.len() {
        lemma_tile_inside(segments, bounds, i + 1);
        assert(segments[i].range.end == segments[i + 1].range.start);
    }
}

/// Whether segments are what marks come to in `bounds`.
pub open spec fn flattened(
    segments: Seq<StyleSegment>,
    bounds: TextRange,
    marks: Seq<Mark>,
) -> bool {
    tiles(segments, bounds) && styled(segments, marks) && maximal(segments)
}

proof fn lemma_same_segment(
    bounds: TextRange,
    a: Seq<Mark>,
    b: Seq<Mark>,
    left: Seq<StyleSegment>,
    right: Seq<StyleSegment>,
    i: int,
)
    requires
        flattened(left, bounds, a),
        flattened(right, bounds, b),
        forall|mark: Mark| a.contains(mark) <==> b.contains(mark),
        0 <= i < left.len(),
        i < right.len(),
        left[i].range.start == right[i].range.start,
    ensures
        left[i].style == right[i].style,
        left[i].range.end.value >= right[i].range.end.value,
{
    let at = left[i].range.start.value;
    law_winner_ignores_order(a, b, at, (at + 1) as u64, MarkFilter::Any, Seq::empty());
    assert(left[i].style == winner(a, at, (at + 1) as u64));
    assert(right[i].style == winner(b, at, (at + 1) as u64));
    if left[i].range.end.value < right[i].range.end.value {
        lemma_tile_inside(right, bounds, i);
        let next = left[i].range.end.value;
        assert(i + 1 < left.len());
        assert(left[i].range.end == left[i + 1].range.start);
        law_winner_ignores_order(a, b, next, (next + 1) as u64, MarkFilter::Any, Seq::empty());
        assert(left[i + 1].style == winner(a, next, (next + 1) as u64));
        assert(right[i].style == winner(b, next, (next + 1) as u64));
        assert(left[i].style != left[i + 1].style);
    }
}

proof fn lemma_same_prefix(
    bounds: TextRange,
    a: Seq<Mark>,
    b: Seq<Mark>,
    left: Seq<StyleSegment>,
    right: Seq<StyleSegment>,
    count: int,
)
    requires
        flattened(left, bounds, a),
        flattened(right, bounds, b),
        forall|mark: Mark| a.contains(mark) <==> b.contains(mark),
        0 <= count <= left.len(),
        count <= right.len(),
    ensures
        forall|k: int| 0 <= k < count ==> (#[trigger] left[k]) == right[k],
    decreases count,
{
    if count > 0 {
        lemma_same_prefix(bounds, a, b, left, right, count - 1);
        let i = count - 1;
        if i > 0 {
            assert(left[i - 1] == right[i - 1]);
            assert(left[i - 1].range.end == left[i].range.start);
            assert(right[i - 1].range.end == right[i].range.start);
        }
        lemma_same_segment(bounds, a, b, left, right, i);
        lemma_same_segment(bounds, b, a, right, left, i);
    }
}

/// What marks come to depends on the marks alone, not on their order.
pub proof fn law_flattening_ignores_order(
    bounds: TextRange,
    a: Seq<Mark>,
    b: Seq<Mark>,
    left: Seq<StyleSegment>,
    right: Seq<StyleSegment>,
)
    requires
        flattened(left, bounds, a),
        flattened(right, bounds, b),
        forall|mark: Mark| a.contains(mark) <==> b.contains(mark),
    ensures
        left == right,
{
    let shorter = if left.len() <= right.len() {
        left.len() as int
    } else {
        right.len() as int
    };
    lemma_same_prefix(bounds, a, b, left, right, shorter);
    if left.len() < right.len() {
        lemma_no_more(bounds, a, b, left, right);
    } else if right.len() < left.len() {
        assert forall|k: int| 0 <= k < right.len() implies (#[trigger] right[k]) == left[k] by {
            assert(left[k] == right[k]);
        }
        lemma_no_more(bounds, b, a, right, left);
    }
    assert(left =~= right);
}

/// Segments that cover the bounds leave no room for another.
proof fn lemma_no_more(
    bounds: TextRange,
    a: Seq<Mark>,
    b: Seq<Mark>,
    fewer: Seq<StyleSegment>,
    more: Seq<StyleSegment>,
)
    requires
        flattened(fewer, bounds, a),
        flattened(more, bounds, b),
        fewer.len() <= more.len(),
        forall|k: int| 0 <= k < fewer.len() ==> (#[trigger] fewer[k]) == more[k],
    ensures
        fewer.len() == more.len(),
{
    let n = fewer.len() as int;
    if n < more.len() {
        lemma_tile_inside(more, bounds, n);
        if n > 0 {
            assert(fewer[n - 1] == more[n - 1]);
            assert(more[n - 1].range.end == more[n].range.start);
        }
        assert(more[n].range.start.value < more[n].range.end.value);
    }
}

/// Whether a mark lies over a piece.
pub open spec fn is_covered(marks: Seq<Mark>, from: u64, to: u64) -> bool {
    exists|k: int| 0 <= k < marks.len() && covers(#[trigger] marks[k], from, to)
}

/// Whether mark `k` lies over a piece and none over it has a greater priority.
pub open spec fn leads(marks: Seq<Mark>, from: u64, to: u64, k: int) -> bool {
    &&& 0 <= k < marks.len()
    &&& covers(marks[k], from, to)
    &&& forall|j: int|
        0 <= j < marks.len() && covers(#[trigger] marks[j], from, to) ==> marks[j].priority
            <= marks[k].priority
}

/// Whether every trait of `attrs` comes from a mark over the piece that none outranks, and
/// its role and script too.
pub open spec fn inherits(
    marks: Seq<Mark>,
    table: Seq<TextAttrs>,
    from: u64,
    to: u64,
    attrs: TextAttrs,
) -> bool {
    &&& forall|wanted: TextTrait| #[trigger]
        has_trait(attrs, wanted) ==> exists|k: int| #[trigger]
            leads(marks, from, to, k) && has_trait(table[marks[k].style.value as int], wanted)
    &&& attrs.role != TextRole::Plain ==> exists|k: int| #[trigger]
        leads(marks, from, to, k) && table[marks[k].style.value as int].role == attrs.role
    &&& attrs.script != TextScript::Normal ==> exists|k: int| #[trigger]
        leads(marks, from, to, k) && table[marks[k].style.value as int].script == attrs.script
    &&& exists|k: int| #[trigger]
        leads(marks, from, to, k) && table[marks[k].style.value as int].frame == attrs.frame
}

/// Whether every mark's style is in the table.
pub open spec fn styles_known(marks: Seq<Mark>, table: Seq<TextAttrs>) -> bool {
    forall|k: int| 0 <= k < marks.len() ==> (#[trigger] marks[k]).style.value < table.len()
}

/// Entries behind the known styles make no difference to which mark is best.
proof fn lemma_best_prefix(
    marks: Seq<Mark>,
    from: u64,
    to: u64,
    filter: MarkFilter,
    table: Seq<TextAttrs>,
    longer: Seq<TextAttrs>,
)
    requires
        styles_known(marks, table),
        table.is_prefix_of(longer),
    ensures
        best(marks, from, to, filter, table) == best(marks, from, to, filter, longer),
    decreases marks.len(),
{
    if marks.len() > 0 {
        let front = marks.drop_last();
        assert forall|k: int| 0 <= k < front.len() implies (#[trigger] front[k]).style.value
            < table.len() by {
            assert(front[k] == marks[k]);
        }
        lemma_best_prefix(front, from, to, filter, table, longer);
        let last = marks[marks.len() - 1];
        assert(last.style.value < table.len());
        assert(longer[last.style.value as int] == table[last.style.value as int]);
    }
}

proof fn lemma_piece_prefix(
    marks: Seq<Mark>,
    from: u64,
    to: u64,
    table: Seq<TextAttrs>,
    longer: Seq<TextAttrs>,
)
    requires
        styles_known(marks, table),
        table.is_prefix_of(longer),
    ensures
        piece_attrs(marks, table, from, to) == piece_attrs(marks, longer, from, to),
{
    lemma_best(marks, from, to, MarkFilter::Any, Seq::empty());
    if let Some(mark) = best(marks, from, to, MarkFilter::Any, Seq::empty()) {
        let p = mark.priority;
        let k = marks.index_of(mark);
        assert(marks[k].style.value < table.len());
        assert(longer[mark.style.value as int] == table[mark.style.value as int]);
        let role = MarkFilter::WithRole(p);
        let script = MarkFilter::WithScript(p);
        lemma_best_prefix(marks, from, to, role, table, longer);
        lemma_best_prefix(marks, from, to, script, table, longer);
        lemma_best(marks, from, to, role, table);
        lemma_best(marks, from, to, script, table);
        if let Some(other) = best(marks, from, to, role, table) {
            assert(longer[other.style.value as int] == table[other.style.value as int]);
        }
        if let Some(other) = best(marks, from, to, script, table) {
            assert(longer[other.style.value as int] == table[other.style.value as int]);
        }
        let traits = |wanted: TextTrait| MarkFilter::WithTrait(p, wanted);
        lemma_best_prefix(marks, from, to, traits(TextTrait::Strong), table, longer);
        lemma_best_prefix(marks, from, to, traits(TextTrait::Emphasis), table, longer);
        lemma_best_prefix(marks, from, to, traits(TextTrait::Highlighted), table, longer);
        lemma_best_prefix(marks, from, to, traits(TextTrait::Underlined), table, longer);
        lemma_best_prefix(marks, from, to, traits(TextTrait::Struck), table, longer);
    }
}

/// A mark of the winning priority over the piece leads.
proof fn lemma_leads(marks: Seq<Mark>, from: u64, to: u64, mark: Mark)
    requires
        marks.contains(mark),
        covers(mark, from, to),
        best(marks, from, to, MarkFilter::Any, Seq::empty()) matches Some(best_mark)
            && best_mark.priority == mark.priority,
    ensures
        leads(marks, from, to, marks.index_of(mark)),
{
    lemma_best(marks, from, to, MarkFilter::Any, Seq::empty());
    let k = marks.index_of(mark);
    assert forall|j: int| 0 <= j < marks.len() && covers(#[trigger] marks[j], from, to) implies
        marks[j].priority <= marks[k].priority by {
        assert(qualifies(marks[j], from, to, MarkFilter::Any, Seq::empty()));
    }
}

/// What a piece gets comes from the marks over it that none outranks.
proof fn lemma_piece_inherits(marks: Seq<Mark>, table: Seq<TextAttrs>, from: u64, to: u64)
    requires
        styles_known(marks, table),
    ensures
        match piece_attrs(marks, table, from, to) {
            Some(attrs) => is_covered(marks, from, to) && inherits(marks, table, from, to, attrs),
            None => !is_covered(marks, from, to),
        },
{
    let any = MarkFilter::Any;
    lemma_best(marks, from, to, any, Seq::empty());
    match best(marks, from, to, any, Seq::empty()) {
        None => {
            if is_covered(marks, from, to) {
                let k = choose|k: int|
                    0 <= k < marks.len() && covers(#[trigger] marks[k], from, to);
                assert(qualifies(marks[k], from, to, any, Seq::empty()));
            }
        },
        Some(mark) => {
            let at = marks.index_of(mark);
            assert(covers(marks[at], from, to));
            assert(marks[at].style.value < table.len());
            lemma_leads(marks, from, to, mark);
            let p = mark.priority;
            let base = table[mark.style.value as int];
            let attrs = composed(marks, table, from, to, base, p);
            assert(piece_attrs(marks, table, from, to) == Some(attrs));
            assert forall|wanted: TextTrait| #[trigger] has_trait(attrs, wanted) implies exists|
                k: int,
            | #[trigger]
                leads(marks, from, to, k) && has_trait(
                    table[marks[k].style.value as int],
                    wanted,
                ) by {
                let filter = MarkFilter::WithTrait(p, wanted);
                lemma_best(marks, from, to, filter, table);
                match best(marks, from, to, filter, table) {
                    Some(other) => {
                        lemma_leads(marks, from, to, other);
                        let k = marks.index_of(other);
                        assert(leads(marks, from, to, k));
                    },
                    None => {
                        assert(has_trait(base, wanted));
                        assert(leads(marks, from, to, at));
                    },
                }
            }
            let role = MarkFilter::WithRole(p);
            lemma_best(marks, from, to, role, table);
            if let Some(other) = best(marks, from, to, role, table) {
                lemma_leads(marks, from, to, other);
                let k = marks.index_of(other);
                assert(leads(marks, from, to, k));
            }
            let script = MarkFilter::WithScript(p);
            lemma_best(marks, from, to, script, table);
            if let Some(other) = best(marks, from, to, script, table) {
                lemma_leads(marks, from, to, other);
                let k = marks.index_of(other);
                assert(leads(marks, from, to, k));
            }
        },
    }
}

proof fn lemma_entry(table: Seq<TextAttrs>, attrs: TextAttrs, at: int)
    requires
        0 <= at <= table.len(),
    ensures
        at <= entry_from(table, attrs, at) <= table.len(),
        entry_from(table, attrs, at) < table.len() ==> table[entry_from(table, attrs, at)] == attrs,
        forall|i: int| at <= i < entry_from(table, attrs, at) ==> (#[trigger] table[i]) != attrs,
    decreases table.len() - at,
{
    if at < table.len() && table[at] != attrs {
        lemma_entry(table, attrs, at + 1);
    }
}

/// A piece adds at most one entry.
proof fn lemma_table_len(marks: Seq<Mark>, cuts: Seq<u64>, table: Seq<TextAttrs>, count: int)
    requires
        0 <= count,
    ensures
        composition(marks, cuts, table, count).table.len() <= table.len() + count,
    decreases count,
{
    if count > 0 {
        lemma_table_len(marks, cuts, table, count - 1);
    }
}

proof fn lemma_entries_fit(bounds: TextRange, marks: Seq<Mark>, table: Seq<TextAttrs>)
    requires
        bounds.wf(),
        styles_fit(bounds, marks, table),
    ensures
        entries_fit(
            marks,
            cut_points(bounds, marks),
            table,
            cut_points(bounds, marks).len() - 1,
        ),
{
    let cuts = cut_points(bounds, marks);
    law_cut_points(bounds, marks);
    if table.len() + 2 * marks.len() <= u32::MAX {
        assert forall|k: int| 0 <= k < cuts.len() - 1 implies #[trigger] entry_fits(
            marks,
            cuts,
            table,
            k,
        ) by {
            lemma_table_len(marks, cuts, table, k);
            let before = composition(marks, cuts, table, k).table;
            if let Some(attrs) = piece_attrs(marks, before, cuts[k], cuts[k + 1]) {
                lemma_entry(before, attrs, 0);
            }
        }
    }
}

/// Whether entries from `from` on are all new.
pub open spec fn new_entries(table: Seq<TextAttrs>, from: int) -> bool {
    forall|i: int, j: int|
        #![trigger table[i], table[j]]
        0 <= i < j && from <= j < table.len() ==> table[i] != table[j]
}

/// Whether a segment shows what its piece gets.
pub open spec fn segment_shows(
    segment: StyleSegment,
    marks: Seq<Mark>,
    before: Seq<TextAttrs>,
    after: Seq<TextAttrs>,
) -> bool {
    let from = segment.range.start.value;
    let to = segment.range.end.value;
    match segment.style {
        None => !is_covered(marks, from, to),
        Some(style) => {
            &&& is_covered(marks, from, to)
            &&& style.value < after.len()
            &&& inherits(marks, before, from, to, after[style.value as int])
        },
    }
}

proof fn lemma_composition(
    marks: Seq<Mark>,
    cuts: Seq<u64>,
    table: Seq<TextAttrs>,
    count: int,
)
    requires
        styles_known(marks, table),
        0 <= count < cuts.len(),
        entries_fit(marks, cuts, table, count),
    ensures
        ({
            let made = composition(marks, cuts, table, count);
            &&& made.segments.len() == count
            &&& forall|k: int|
                0 <= k < count ==> (#[trigger] made.segments[k]).range == (TextRange {
                    start: ByteOffset { value: cuts[k] },
                    end: ByteOffset { value: cuts[k + 1] },
                })
            &&& table.is_prefix_of(made.table)
            &&& new_entries(made.table, table.len() as int)
            &&& forall|k: int|
                0 <= k < count ==> segment_shows(
                    #[trigger] made.segments[k],
                    marks,
                    table,
                    made.table,
                )
        }),
    decreases count,
{
    if count > 0 {
        lemma_composition(marks, cuts, table, count - 1);
        let before = composition(marks, cuts, table, count - 1);
        let made = composition(marks, cuts, table, count);
        let from = cuts[count - 1];
        let to = cuts[count];
        lemma_piece_prefix(marks, from, to, table, before.table);
        lemma_piece_inherits(marks, table, from, to);
        assert(entry_fits(marks, cuts, table, count - 1));
        if let Some(attrs) = piece_attrs(marks, before.table, from, to) {
            lemma_entry(before.table, attrs, 0);
            assert(made.table[entry_from(before.table, attrs, 0)] == attrs);
        }
        assert(before.table.is_prefix_of(made.table));
        assert forall|i: int, j: int|
            #![trigger made.table[i], made.table[j]]
            0 <= i < j && table.len() <= j < made.table.len() implies made.table[i]
            != made.table[j] by {
            assert(before.table[i] == made.table[i]);
            if j < before.table.len() {
                assert(before.table[j] == made.table[j]);
            }
        }
        assert forall|k: int| 0 <= k < count implies segment_shows(
            #[trigger] made.segments[k],
            marks,
            table,
            made.table,
        ) by {
            if k < count - 1 {
                assert(made.segments[k] == before.segments[k]);
                assert(segment_shows(before.segments[k], marks, table, before.table));
                if let Some(style) = before.segments[k].style {
                    assert(made.table[style.value as int] == before.table[style.value as int]);
                }
            }
        }
    }
}

/// What composing gives: the segments cover the bounds without gap or overlap; a segment
/// has no style exactly where no mark lies; a composed style takes its traits, role and
/// script from marks over the segment that none outranks; the table keeps its entries, and
/// none that is added was there.
pub proof fn law_composed_styles(bounds: TextRange, marks: Seq<Mark>, table: Seq<TextAttrs>)
    requires
        bounds.wf(),
        styles_known(marks, table),
        styles_fit(bounds, marks, table),
    ensures
        ({
            let cuts = cut_points(bounds, marks);
            let made = composition(marks, cuts, table, cuts.len() - 1);
            &&& tiles(made.segments, bounds)
            &&& table.is_prefix_of(made.table)
            &&& new_entries(made.table, table.len() as int)
            &&& forall|k: int|
                0 <= k < made.segments.len() ==> segment_shows(
                    #[trigger] made.segments[k],
                    marks,
                    table,
                    made.table,
                )
        }),
{
    law_cut_points(bounds, marks);
    lemma_cut_ends(bounds, marks);
    lemma_entries_fit(bounds, marks, table);
    let cuts = cut_points(bounds, marks);
    lemma_composition(marks, cuts, table, cuts.len() - 1);
}

/// The style of a piece is that of the mark over it with the greatest priority; of several,
/// of the narrowest; of several still, the smallest number. `k` is the number of a mark.
pub proof fn law_winning_mark_outranks_the_others(marks: Seq<Mark>, from: u64, to: u64, k: int)
    requires
        0 <= k < marks.len(),
        marks[k].range.start.value <= from,
        to <= marks[k].range.end.value,
    ensures
        winner(marks, from, to) is Some,
        exists|m: int|
            0 <= m < marks.len() && #[trigger] outranks(marks[m], marks[k], from, to)
                && winner(marks, from, to) == Some(marks[m].style),
{
    lemma_best(marks, from, to, MarkFilter::Any, Seq::empty());
    assert(qualifies(marks[k], from, to, MarkFilter::Any, Seq::empty()));
    let mark = best(marks, from, to, MarkFilter::Any, Seq::empty())->Some_0;
    let m = marks.index_of(mark);
    assert(marks[m] == mark);
    assert(outranks(marks[m], marks[k], from, to));
}

/// Whether `a` lies over a piece and comes before `b` there, or ranks the same.
pub open spec fn outranks(a: Mark, b: Mark, from: u64, to: u64) -> bool {
    let wide = a.range.end.value - a.range.start.value;
    let other = b.range.end.value - b.range.start.value;
    &&& a.range.start.value <= from && to <= a.range.end.value
    &&& a.priority >= b.priority
    &&& a.priority == b.priority ==> wide <= other
    &&& a.priority == b.priority && wide == other ==> a.style.value <= b.style.value
}

/// What a mark of the winning priority says of a piece shows there: bold, slanted,
/// highlighted, underlined or struck, if any such mark is, with a role or a script if any
/// such mark has one. `k` is the number of such a mark.
pub proof fn law_leading_marks_show(
    marks: Seq<Mark>,
    table: Seq<TextAttrs>,
    from: u64,
    to: u64,
    k: int,
)
    requires
        styles_known(marks, table),
        leads(marks, from, to, k),
    ensures
        ({
            let own = table[marks[k].style.value as int];
            let shown = piece_attrs(marks, table, from, to);
            &&& shown is Some
            &&& own.style == TextStyle::Strong || own.style == TextStyle::StrongEmphasis ==> (
            shown->Some_0.style == TextStyle::Strong || shown->Some_0.style
                == TextStyle::StrongEmphasis)
            &&& own.style == TextStyle::Emphasis || own.style == TextStyle::StrongEmphasis ==> (
            shown->Some_0.style == TextStyle::Emphasis || shown->Some_0.style
                == TextStyle::StrongEmphasis)
            &&& own.highlighted ==> shown->Some_0.highlighted
            &&& own.underlined ==> shown->Some_0.underlined
            &&& own.struck ==> shown->Some_0.struck
            &&& own.role != TextRole::Plain ==> shown->Some_0.role != TextRole::Plain
            &&& own.script != TextScript::Normal ==> shown->Some_0.script != TextScript::Normal
        }),
{
    let own = table[marks[k].style.value as int];
    lemma_best(marks, from, to, MarkFilter::Any, Seq::empty());
    assert(qualifies(marks[k], from, to, MarkFilter::Any, Seq::empty()));
    let mark = best(marks, from, to, MarkFilter::Any, Seq::empty())->Some_0;
    let n = marks.index_of(mark);
    assert(marks[n] == mark && covers(marks[n], from, to));
    assert(marks[n].style.value < table.len());
    assert(marks[k].style.value < table.len());
    let p = mark.priority;
    assert(p == marks[k].priority);
    lemma_leading_trait(marks, table, from, to, k, p, TextTrait::Strong);
    lemma_leading_trait(marks, table, from, to, k, p, TextTrait::Emphasis);
    lemma_leading_trait(marks, table, from, to, k, p, TextTrait::Highlighted);
    lemma_leading_trait(marks, table, from, to, k, p, TextTrait::Underlined);
    lemma_leading_trait(marks, table, from, to, k, p, TextTrait::Struck);
    lemma_best(marks, from, to, MarkFilter::WithRole(p), table);
    lemma_best(marks, from, to, MarkFilter::WithScript(p), table);
    if own.role != TextRole::Plain {
        assert(qualifies(marks[k], from, to, MarkFilter::WithRole(p), table));
    }
    if own.script != TextScript::Normal {
        assert(qualifies(marks[k], from, to, MarkFilter::WithScript(p), table));
    }
}

proof fn lemma_leading_trait(
    marks: Seq<Mark>,
    table: Seq<TextAttrs>,
    from: u64,
    to: u64,
    k: int,
    priority: i32,
    wanted: TextTrait,
)
    requires
        styles_known(marks, table),
        0 <= k < marks.len(),
        covers(marks[k], from, to),
        marks[k].priority == priority,
    ensures
        has_trait(table[marks[k].style.value as int], wanted) ==> best(
            marks,
            from,
            to,
            MarkFilter::WithTrait(priority, wanted),
            table,
        ) is Some,
{
    lemma_best(marks, from, to, MarkFilter::WithTrait(priority, wanted), table);
    assert(marks[k].style.value < table.len());
    if has_trait(table[marks[k].style.value as int], wanted) {
        assert(qualifies(marks[k], from, to, MarkFilter::WithTrait(priority, wanted), table));
    }
}

} // verus!
