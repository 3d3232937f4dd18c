//! The prefix of a list item's line, and the prefix of the line that continues it.
use crate::text::{
    boundary, byte_len, chars_of, decimal, get, is_white_space, lemma_chars_fit,
    lemma_decimal_digits, lemma_span_seam, push_decimal, span, string_of, text_len, white_space,
};
use vstd::prelude::*;
use vstd::utf8::{is_ascii_chars, is_ascii_chars_encode_utf8};

verus! {

/// A run of bytes in a line.
#[derive(Clone, Copy, Debug, PartialEq, Eq, Structural)]
pub struct LineSpan {
    pub start: usize,
    pub end: usize,
}

/// What stands before the content of a list item. Offsets are bytes of the line,
/// which has no line ending.
#[derive(Clone, Copy, Debug, PartialEq, Eq, Structural)]
pub struct ListLinePrefix {
    /// Just behind the bullet, or the delimiter after the number.
    pub list_marker_end: usize,
    /// Where the item's own text begins.
    pub content_start: usize,
    /// The brackets of a task item.
    pub task_marker: Option<LineSpan>,
    /// The digits of an ordered item.
    pub ordered_digits: Option<LineSpan>,
}

/// A class of characters that a prefix is read by.
#[derive(Clone, Copy, Debug, PartialEq, Eq, Structural)]
pub enum LineClass {
    Space,
    Digit,
    Blank,
}

/// Whether `c` is in `class`.
pub open spec fn in_class(c: char, class: LineClass) -> bool {
    match class {
        LineClass::Space => c == ' ',
        LineClass::Digit => '0' <= c <= '9',
        LineClass::Blank => c == ' ' || c == '\t',
    }
}

/// Where the run of `class` that begins at `from` ends.
pub open spec fn run_end(line: Seq<char>, from: int, class: LineClass) -> int
    decreases line.len() - from,
{
    if 0 <= from < line.len() && in_class(line[from], class) {
        run_end(line, from + 1, class)
    } else {
        from
    }
}

/// Whether the character at `at` is a space or a tab.
pub open spec fn blank_at(line: Seq<char>, at: int) -> bool {
    0 <= at < line.len() && in_class(line[at], LineClass::Blank)
}

/// Whether the brackets of a task stand at `at`, with a blank or nothing behind.
pub open spec fn task_at(line: Seq<char>, at: int) -> bool {
    &&& at + 2 < line.len()
    &&& line[at] == '['
    &&& line[at + 1] == ' ' || line[at + 1] == 'x' || line[at + 1] == 'X'
    &&& line[at + 2] == ']'
    &&& at + 3 == line.len() || blank_at(line, at + 3)
}

/// Whether a bullet, or the delimiter of a number, stands at `at`.
pub open spec fn delimiter_at(line: Seq<char>, at: int, ordered: bool) -> bool {
    0 <= at < line.len() && if ordered {
        line[at] == '.' || line[at] == ')'
    } else {
        line[at] == '-' || line[at] == '+' || line[at] == '*'
    }
}

/// The prefix of `line`: spaces, then a bullet or a number with its delimiter, then
/// at least one blank, then perhaps the brackets of a task and more blanks. `None`
/// where the line is no list item.
pub open spec fn list_prefix(line: Seq<char>) -> Option<ListLinePrefix> {
    let indent = run_end(line, 0, LineClass::Space);
    let digits = run_end(line, indent, LineClass::Digit);
    let item = run_end(line, digits + 1, LineClass::Blank);
    if delimiter_at(line, digits, digits > indent) && blank_at(line, digits + 1) {
        Some(
            ListLinePrefix {
                list_marker_end: (digits + 1) as usize,
                content_start: if task_at(line, item) {
                    run_end(line, item + 3, LineClass::Blank) as usize
                } else {
                    item as usize
                },
                task_marker: if task_at(line, item) {
                    Some(LineSpan { start: item as usize, end: (item + 3) as usize })
                } else {
                    None
                },
                ordered_digits: if digits > indent {
                    Some(LineSpan { start: indent as usize, end: digits as usize })
                } else {
                    None
                },
            },
        )
    } else {
        None
    }
}

/// The value of a digit.
pub open spec fn digit_value(c: char) -> nat {
    if '0' <= c <= '9' {
        (c as u32 - '0' as u32) as nat
    } else {
        0
    }
}

/// The number that `digits` writes in base ten.
pub open spec fn number_of(digits: Seq<char>) -> nat
    decreases digits.len(),
{
    if digits.len() == 0 {
        0
    } else {
        number_of(digits.drop_last()) * 10 + digit_value(digits.last())
    }
}

/// The number after the one that `digits` writes, or `digits` where that number
/// takes more than 64 bits.
pub open spec fn next_number(digits: Seq<char>) -> Seq<char> {
    if number_of(digits) + 1 <= u64::MAX {
        decimal(number_of(digits) + 1)
    } else {
        digits
    }
}

/// The prefix of the line after `line`, whose own prefix is `prefix`: the number is
/// one higher and a task is not done; all else stays.
pub open spec fn continued(line: Seq<char>, prefix: ListLinePrefix) -> Seq<char> {
    let marker_end = prefix.list_marker_end as int;
    let marker = match prefix.ordered_digits {
        Some(digits) => line.subrange(0, digits.start as int) + next_number(
            line.subrange(digits.start as int, digits.end as int),
        ) + line.subrange(digits.end as int, marker_end),
        None => line.subrange(0, marker_end),
    };
    let rest = match prefix.task_marker {
        Some(task) => line.subrange(marker_end, task.start as int) + "[ ]"@ + line.subrange(
            task.end as int,
            prefix.content_start as int,
        ),
        None => line.subrange(marker_end, prefix.content_start as int),
    };
    marker + rest
}

/// Whether nothing but white space stands behind the prefix.
pub open spec fn empty_item(line: Seq<char>, prefix: ListLinePrefix) -> bool {
    boundary(line, prefix.content_start as int) && ({
        let rest = span(line, prefix.content_start as int, byte_len(line));
        forall|k: int| 0 <= k < rest.len() ==> white_space(#[trigger] rest[k])
    })
}

/// A run ends inside the line, and all of it is in its class.
proof fn lemma_run_end(line: Seq<char>, from: int, class: LineClass)
    requires
        0 <= from <= line.len(),
    ensures
        from <= run_end(line, from, class) <= line.len(),
        forall|k: int| from <= k < run_end(line, from, class) ==> in_class(line[k], class),
    decreases line.len() - from,
{
    if from < line.len() && in_class(line[from], class) {
        lemma_run_end(line, from + 1, class);
    }
}

/// The offsets of a prefix are in order, and what it covers is ASCII.
proof fn lemma_prefix_layout(line: Seq<char>)
    requires
        list_prefix(line) is Some,
        line.len() <= usize::MAX,
    ensures
        ({
            let p = list_prefix(line)->Some_0;
            &&& p.list_marker_end < p.content_start <= line.len()
            &&& p.ordered_digits matches Some(d) ==> d.start < d.end < p.list_marker_end
            &&& p.task_marker matches Some(t) ==> p.list_marker_end < t.start && t.start + 3 == t.end
                && t.end <= p.content_start
            &&& forall|k: int|
                0 <= k < p.content_start ==> '\0' <= #[trigger] line[k] <= '\u{7f}'
        }),
{
    let indent = run_end(line, 0, LineClass::Space);
    lemma_run_end(line, 0, LineClass::Space);
    let digits = run_end(line, indent, LineClass::Digit);
    lemma_run_end(line, indent, LineClass::Digit);
    let item = run_end(line, digits + 1, LineClass::Blank);
    lemma_run_end(line, digits + 1, LineClass::Blank);
    lemma_run_end(line, digits + 2, LineClass::Blank);
    if task_at(line, item) {
        lemma_run_end(line, item + 3, LineClass::Blank);
    }
}

/// The offsets of a prefix count bytes: up to the content each character of the line
/// is one byte, so that an offset is a boundary and the bytes before it are as many
/// characters.
pub proof fn law_prefix_offsets_are_bytes(line: Seq<char>, at: int)
    requires
        list_prefix(line) is Some,
        byte_len(line) <= usize::MAX,
        0 <= at <= list_prefix(line)->Some_0.content_start,
    ensures
        boundary(line, at),
        span(line, 0, at) == line.take(at),
        span(line, at, byte_len(line)) == line.skip(at),
{
    lemma_chars_fit(line);
    lemma_prefix_layout(line);
    let head = line.take(at);
    assert(is_ascii_chars(head));
    is_ascii_chars_encode_utf8(head);
    lemma_span_seam(head, line.skip(at));
    assert(head + line.skip(at) =~= line);
}

/// A number only grows with its digits.
proof fn lemma_number_grows(digits: Seq<char>, n: int)
    requires
        0 <= n <= digits.len(),
    ensures
        number_of(digits.take(n)) <= number_of(digits),
    decreases digits.len() - n,
{
    if n < digits.len() {
        lemma_number_grows(digits, n + 1);
        assert(digits.take(n + 1).drop_last() =~= digits.take(n));
    } else {
        assert(digits.take(n) =~= digits);
    }
}

fn is_in_class(c: char, class: LineClass) -> (r: bool)
    ensures
        r == in_class(c, class),
{
    match class {
        LineClass::Space => c == ' ',
        LineClass::Digit => '0' <= c && c <= '9',
        LineClass::Blank => c == ' ' || c == '\t',
    }
}

/// Finds where the run of `class` at `from` ends.
fn find_run_end(line: &[char], from: usize, class: LineClass) -> (r: usize)
    requires
        from <= line@.len(),
    ensures
        r == run_end(line@, from as int, class),
        from <= r <= line@.len(),
{
    let mut at: usize = from;
    while at < line.len() && is_in_class(line[at], class)
        invariant
            from <= at <= line@.len(),
            run_end(line@, at as int, class) == run_end(line@, from as int, class),
        decreases line@.len() - at,
    {
        at += 1;
    }
    at
}

fn is_blank_at(line: &[char], at: usize) -> (r: bool)
    ensures
        r == blank_at(line@, at as int),
{
    at < line.len() && is_in_class(line[at], LineClass::Blank)
}

fn is_task_at(line: &[char], at: usize) -> (r: bool)
    requires
        at <= line@.len(),
    ensures
        r == task_at(line@, at as int),
{
    line.len() - at > 2 && line[at] == '[' && (line[at + 1] == ' ' || line[at + 1] == 'x' || line[at
        + 1] == 'X') && line[at + 2] == ']' && (line.len() - at == 3 || is_blank_at(line, at + 3))
}

fn is_delimiter_at(line: &[char], at: usize, ordered: bool) -> (r: bool)
    ensures
        r == delimiter_at(line@, at as int, ordered),
{
    if at >= line.len() {
        return false;
    }
    let c = line[at];
    if ordered {
        c == '.' || c == ')'
    } else {
        c == '-' || c == '+' || c == '*'
    }
}

/// The value of a digit character.
fn digit_of(c: char) -> (r: u64)
    ensures
        r == digit_value(c),
        r <= 9,
{
    if '0' <= c && c <= '9' {
        c as u64 - 48
    } else {
        0
    }
}

/// Appends the number after the one that the characters from `start` to `end` write.
fn push_next_number(out: &mut String, line: &[char], start: usize, end: usize)
    requires
        start <= end <= line@.len(),
    ensures
        final(out)@ == old(out)@ + next_number(line@.subrange(start as int, end as int)),
{
    let ghost digits = line@.subrange(start as int, end as int);
    let mut number: u64 = 0;
    let mut i: usize = start;
    let mut fits = true;
    while fits && i < end
        invariant
            start <= i <= end <= line@.len(),
            digits == line@.subrange(start as int, end as int),
            fits ==> number == number_of(digits.take(i - start)),
            !fits ==> number_of(digits) > u64::MAX,
        decreases end - i + if fits { 1int } else { 0 },
    {
        proof {
            let n = i - start;
            assert(digits.take(n + 1).drop_last() =~= digits.take(n));
            assert(digits.take(n + 1).last() == line@[i as int]);
            lemma_number_grows(digits, n + 1);
        }
        let next = digit_of(line[i]);
        if number > (u64::MAX - next) / 10 {
            fits = false;
        } else {
            number = number * 10 + next;
            i += 1;
        }
    }
    assert(fits ==> digits.take(end - start) =~= digits);
    if fits && number < u64::MAX {
        push_decimal(out, number + 1);
    } else {
        let same = string_of(line, start, end);
        out.push_str(same.as_str());
    }
}

impl ListLinePrefix {
    /// Reads the prefix of a line. Only spaces may stand before the marker.
    pub fn parse(content: &str) -> (r: Option<ListLinePrefix>)
        ensures
            r == list_prefix(content@),
    {
        let line = chars_of(content);
        let indent = find_run_end(&line, 0, LineClass::Space);
        let digits = find_run_end(&line, indent, LineClass::Digit);
        if !is_delimiter_at(&line, digits, digits > indent) {
            return None;
        }
        let marker_end: usize = digits + 1;
        if !is_blank_at(&line, marker_end) {
            return None;
        }
        let item = find_run_end(&line, marker_end, LineClass::Blank);
        let ordered_digits = if digits > indent {
            Some(LineSpan { start: indent, end: digits })
        } else {
            None
        };
        if is_task_at(&line, item) {
            let content_start = find_run_end(&line, item + 3, LineClass::Blank);
            Some(
                ListLinePrefix {
                    list_marker_end: marker_end,
                    content_start,
                    task_marker: Some(LineSpan { start: item, end: item + 3 }),
                    ordered_digits,
                },
            )
        } else {
            Some(
                ListLinePrefix {
                    list_marker_end: marker_end,
                    content_start: item,
                    task_marker: None,
                    ordered_digits,
                },
            )
        }
    }

    /// Whether nothing but white space stands behind the prefix.
    pub fn is_empty_item(&self, content: &str) -> (r: bool)
        ensures
            r == empty_item(content@, *self),
    {
        proof {
            crate::text::lemma_boundary_ends(content@);
            if boundary(content@, self.content_start as int) {
                crate::text::lemma_boundary_bounds(content@, self.content_start as int);
            }
        }
        let rest = match get(content, self.content_start, text_len(content)) {
            Some(rest) => chars_of(rest),
            None => return false,
        };
        let mut i: usize = 0;
        while i < rest.len()
            invariant
                i <= rest@.len(),
                boundary(content@, self.content_start as int),
                rest@ == span(content@, self.content_start as int, byte_len(content@)),
                forall|k: int| 0 <= k < i ==> white_space(#[trigger] rest@[k]),
            decreases rest@.len() - i,
        {
            if !is_white_space(rest[i]) {
                assert(!white_space(rest@[i as int]));
                return false;
            }
            i += 1;
        }
        true
    }

    /// The prefix of the next line. The number goes up where it fits, and a task
    /// starts as not done.
    pub fn continuation(&self, content: &str) -> (r: String)
        requires
            list_prefix(content@) == Some(*self),
        ensures
            r@ == continued(content@, *self),
    {
        let line = chars_of(content);
        let count = line.len();
        proof {
            lemma_prefix_layout(line@);
        }
        let mut out = String::new();
        match self.ordered_digits {
            Some(digits) => {
                let indent = string_of(&line, 0, digits.start);
                out.push_str(indent.as_str());
                push_next_number(&mut out, &line, digits.start, digits.end);
                let delimiter = string_of(&line, digits.end, self.list_marker_end);
                out.push_str(delimiter.as_str());
            },
            None => {
                let marker = string_of(&line, 0, self.list_marker_end);
                out.push_str(marker.as_str());
            },
        }
        let ghost marker = out@;
        match self.task_marker {
            Some(task) => {
                let gap = string_of(&line, self.list_marker_end, task.start);
                out.push_str(gap.as_str());
                out.push_str("[ ]");
                let behind = string_of(&line, task.end, self.content_start);
                out.push_str(behind.as_str());
            },
            None => {
                let gap = string_of(&line, self.list_marker_end, self.content_start);
                out.push_str(gap.as_str());
            },
        }
        assert(out@ =~= continued(content@, *self));
        out
    }
}

/// A run ends at the first character that is not of its class.
proof fn lemma_run_is(line: Seq<char>, from: int, to: int, class: LineClass)
    requires
        0 <= from <= to <= line.len(),
        forall|k: int| from <= k < to ==> in_class(#[trigger] line[k], class),
        to < line.len() ==> !in_class(line[to], class),
    ensures
        run_end(line, from, class) == to,
    decreases to - from,
{
    if from < to {
        assert(in_class(line[from], class));
        lemma_run_is(line, from + 1, to, class);
    }
}

/// The number behind another is written in digits.
proof fn lemma_next_number(digits: Seq<char>)
    requires
        digits.len() > 0,
        forall|k: int| 0 <= k < digits.len() ==> in_class(#[trigger] digits[k], LineClass::Digit),
    ensures
        next_number(digits).len() > 0,
        forall|k: int|
            0 <= k < next_number(digits).len() ==> in_class(
                #[trigger] next_number(digits)[k],
                LineClass::Digit,
            ),
{
    if number_of(digits) + 1 <= u64::MAX {
        let value = number_of(digits) + 1;
        assert forall|k: int| 0 <= k < decimal(value).len() implies in_class(
            #[trigger] decimal(value)[k],
            LineClass::Digit,
        ) by {
            lemma_decimal_digits(value, k);
        }
    }
}

/// The prefix of a line that is nothing but a prefix: `indent` spaces, `digits` digits, a
/// delimiter, `gap` blanks, and for a task its brackets and blanks.
proof fn lemma_bare_prefix(line: Seq<char>, indent: int, digits: int, item: int, task: bool)
    requires
        line.len() <= usize::MAX,
        0 <= indent <= digits,
        digits + 1 < item <= line.len(),
        forall|k: int| 0 <= k < indent ==> line[k] == ' ',
        forall|k: int| indent <= k < digits ==> in_class(#[trigger] line[k], LineClass::Digit),
        delimiter_at(line, digits, digits > indent),
        forall|k: int| digits < k < item ==> in_class(#[trigger] line[k], LineClass::Blank),
        if task {
            &&& item + 3 <= line.len()
            &&& line[item] == '[' && line[item + 1] == ' ' && line[item + 2] == ']'
            &&& forall|k: int|
                item + 3 <= k < line.len() ==> in_class(#[trigger] line[k], LineClass::Blank)
        } else {
            item == line.len()
        },
    ensures
        list_prefix(line) == Some(
            ListLinePrefix {
                list_marker_end: (digits + 1) as usize,
                content_start: line.len() as usize,
                task_marker: if task {
                    Some(LineSpan { start: item as usize, end: (item + 3) as usize })
                } else {
                    None
                },
                ordered_digits: if digits > indent {
                    Some(LineSpan { start: indent as usize, end: digits as usize })
                } else {
                    None
                },
            },
        ),
        run_end(line, 0, LineClass::Space) == indent,
{
    assert(line[indent] != ' ') by {
        if indent < digits {
            assert(in_class(line[indent], LineClass::Digit));
        }
    }
    lemma_run_is(line, 0, indent, LineClass::Space);
    lemma_run_is(line, indent, digits, LineClass::Digit);
    lemma_run_is(line, digits + 1, item, LineClass::Blank);
    assert(in_class(line[digits + 1], LineClass::Blank));
    if task {
        lemma_run_is(line, item + 3, line.len() as int, LineClass::Blank);
        if item + 3 < line.len() {
            assert(in_class(line[item + 3], LineClass::Blank));
        }
    }
}

/// A line made of the parts of a prefix alone.
spec fn bare_line(
    head: Seq<char>,
    number: Seq<char>,
    mark: char,
    gap: Seq<char>,
    task: bool,
    behind: Seq<char>,
) -> Seq<char> {
    head + number + seq![mark] + gap + (if task {
        "[ ]"@ + behind
    } else {
        Seq::empty()
    })
}

/// A line made of the parts of a prefix alone reads as an empty item.
proof fn lemma_bare_line(
    head: Seq<char>,
    number: Seq<char>,
    mark: char,
    gap: Seq<char>,
    task: bool,
    behind: Seq<char>,
)
    requires
        bare_line(head, number, mark, gap, task, behind).len() <= usize::MAX,
        forall|k: int| 0 <= k < head.len() ==> head[k] == ' ',
        forall|k: int| 0 <= k < number.len() ==> in_class(#[trigger] number[k], LineClass::Digit),
        if number.len() > 0 {
            mark == '.' || mark == ')'
        } else {
            mark == '-' || mark == '+' || mark == '*'
        },
        gap.len() > 0,
        forall|k: int| 0 <= k < gap.len() ==> in_class(#[trigger] gap[k], LineClass::Blank),
        forall|k: int| 0 <= k < behind.len() ==> in_class(#[trigger] behind[k], LineClass::Blank),
    ensures
        ({
            let line = bare_line(head, number, mark, gap, task, behind);
            &&& list_prefix(line) matches Some(q) && {
                &&& q.content_start == line.len()
                &&& q.content_start == byte_len(line)
                &&& empty_item(line, q)
                &&& q.task_marker is Some <==> task
                &&& q.task_marker matches Some(span_) ==> line.subrange(
                    span_.start as int,
                    span_.end as int,
                ) == "[ ]"@
                &&& q.ordered_digits is Some <==> number.len() > 0
                &&& q.ordered_digits matches Some(digits) ==> digits.start == head.len()
                    && digits.end == head.len() + number.len()
                &&& q.list_marker_end == head.len() + number.len() + 1
                &&& q.task_marker matches Some(span_) ==> span_.start == q.list_marker_end
                    + gap.len() && span_.end == span_.start + 3
                &&& q.content_start == q.list_marker_end + gap.len() + (if task {
                    3 + behind.len()
                } else {
                    0
                })
            }
            &&& run_end(line, 0, LineClass::Space) == head.len()
        }),
{
    reveal_strlit("[ ]");
    let line = bare_line(head, number, mark, gap, task, behind);
    let indent = head.len() as int;
    let d = (indent + number.len()) as int;
    let i = (d + 1 + gap.len()) as int;
    assert forall|k: int| 0 <= k < indent implies line[k] == ' ' by {
        assert(line[k] == head[k]);
    }
    assert forall|k: int| indent <= k < d implies in_class(#[trigger] line[k], LineClass::Digit) by {
        assert(line[k] == number[k - indent]);
    }
    assert(line[d] == mark);
    assert forall|k: int| d < k < i implies in_class(#[trigger] line[k], LineClass::Blank) by {
        assert(line[k] == gap[k - d - 1]);
    }
    if task {
        assert(line[i] == '[' && line[i + 1] == ' ' && line[i + 2] == ']');
        assert forall|k: int| i + 3 <= k < line.len() implies in_class(
            #[trigger] line[k],
            LineClass::Blank,
        ) by {
            assert(line[k] == behind[k - i - 3]);
        }
        assert(line.subrange(i, i + 3) =~= "[ ]"@);
    }
    lemma_bare_prefix(line, indent, d, i, task);
    lemma_prefix_layout(line);
    assert(is_ascii_chars(line));
    is_ascii_chars_encode_utf8(line);
    crate::text::lemma_boundary_ends(line);
    crate::text::lemma_span_empty(line, byte_len(line));
}

/// The parts of the line that continues an item.
spec fn bare_parts(line: Seq<char>) -> (Seq<char>, Seq<char>, char, Seq<char>, bool, Seq<char>) {
    let p = list_prefix(line)->Some_0;
    let indent = run_end(line, 0, LineClass::Space);
    let digits = run_end(line, indent, LineClass::Digit);
    let item = run_end(line, digits + 1, LineClass::Blank);
    let task = p.task_marker is Some;
    (
        line.take(indent),
        if digits > indent {
            next_number(line.subrange(indent, digits))
        } else {
            Seq::empty()
        },
        line[digits],
        line.subrange(digits + 1, item),
        task,
        if task {
            line.subrange(item + 3, p.content_start as int)
        } else {
            Seq::empty()
        },
    )
}

proof fn lemma_bare_parts(line: Seq<char>)
    requires
        list_prefix(line) is Some,
        line.len() <= usize::MAX,
    ensures
        ({
            let (head, number, mark, gap, task, behind) = bare_parts(line);
            let p = list_prefix(line)->Some_0;
            &&& head.len() == run_end(line, 0, LineClass::Space)
            &&& forall|k: int| 0 <= k < head.len() ==> head[k] == ' '
            &&& forall|k: int|
                0 <= k < number.len() ==> in_class(#[trigger] number[k], LineClass::Digit)
            &&& number.len() > 0 <==> p.ordered_digits is Some
            &&& if number.len() > 0 {
                mark == '.' || mark == ')'
            } else {
                mark == '-' || mark == '+' || mark == '*'
            }
            &&& gap.len() > 0
            &&& forall|k: int| 0 <= k < gap.len() ==> in_class(#[trigger] gap[k], LineClass::Blank)
            &&& forall|k: int|
                0 <= k < behind.len() ==> in_class(#[trigger] behind[k], LineClass::Blank)
        }),
{
    let (head, number, mark, gap, task, behind) = bare_parts(line);
    let p = list_prefix(line)->Some_0;
    lemma_prefix_layout(line);
    let indent = run_end(line, 0, LineClass::Space);
    lemma_run_end(line, 0, LineClass::Space);
    let digits = run_end(line, indent, LineClass::Digit);
    lemma_run_end(line, indent, LineClass::Digit);
    let item = run_end(line, digits + 1, LineClass::Blank);
    lemma_run_end(line, digits + 1, LineClass::Blank);
    lemma_run_end(line, digits + 2, LineClass::Blank);
    if digits > indent {
        let old = line.subrange(indent, digits);
        assert forall|k: int| 0 <= k < old.len() implies in_class(
            #[trigger] old[k],
            LineClass::Digit,
        ) by {
            assert(old[k] == line[indent + k]);
        }
        lemma_next_number(old);
    }
    assert forall|k: int| 0 <= k < gap.len() implies in_class(
        #[trigger] gap[k],
        LineClass::Blank,
    ) by {
        assert(gap[k] == line[digits + 1 + k]);
    }
    if task {
        lemma_run_end(line, item + 3, LineClass::Blank);
        assert forall|k: int| 0 <= k < behind.len() implies in_class(
            #[trigger] behind[k],
            LineClass::Blank,
        ) by {
            assert(behind[k] == line[item + 3 + k]);
        }
    }
    assert forall|k: int| 0 <= k < head.len() implies head[k] == ' ' by {
        assert(in_class(line[k], LineClass::Space));
    }
}

proof fn lemma_continued_parts(line: Seq<char>)
    requires
        list_prefix(line) is Some,
        line.len() <= usize::MAX,
    ensures
        ({
            let (head, number, mark, gap, task, behind) = bare_parts(line);
            continued(line, list_prefix(line)->Some_0) == bare_line(
                head,
                number,
                mark,
                gap,
                task,
                behind,
            )
        }),
{
    let (head, number, mark, gap, task, behind) = bare_parts(line);
    let p = list_prefix(line)->Some_0;
    lemma_prefix_layout(line);
    let indent = run_end(line, 0, LineClass::Space);
    lemma_run_end(line, 0, LineClass::Space);
    let digits = run_end(line, indent, LineClass::Digit);
    lemma_run_end(line, indent, LineClass::Digit);
    let item = run_end(line, digits + 1, LineClass::Blank);
    lemma_run_end(line, digits + 1, LineClass::Blank);
    let front = head + number + seq![mark];
    let tail = if task {
        "[ ]"@ + behind
    } else {
        Seq::empty()
    };
    if digits > indent {
        assert(line.subrange(0, indent) =~= head);
        assert(line.subrange(digits, digits + 1) =~= seq![mark]);
    } else {
        assert(line.subrange(0, digits + 1) =~= front);
    }
    if task {
        assert(gap + "[ ]"@ + behind =~= gap + tail);
    } else {
        assert(line.subrange(digits + 1, p.content_start as int) =~= gap + tail);
    }
    assert(front + (gap + tail) =~= front + gap + tail);
}

/// The line that continues an item reads as an empty item: its content starts at its end, a
/// task stays a task and is not done, and the indent is kept. The line has to fit into
/// memory, which a number that gets another digit may not.
pub proof fn law_continuation_is_an_empty_item(line: Seq<char>)
    requires
        list_prefix(line) is Some,
        line.len() <= usize::MAX,
        continued(line, list_prefix(line)->Some_0).len() <= usize::MAX,
    ensures
        ({
            let p = list_prefix(line)->Some_0;
            let next = continued(line, p);
            let indent = run_end(line, 0, LineClass::Space);
            &&& list_prefix(next) matches Some(q) && {
                &&& q.content_start == next.len()
                &&& q.content_start == byte_len(next)
                &&& empty_item(next, q)
                &&& q.task_marker is Some <==> p.task_marker is Some
                &&& q.task_marker matches Some(task) ==> next.subrange(
                    task.start as int,
                    task.end as int,
                ) == "[ ]"@
                &&& q.ordered_digits is Some <==> p.ordered_digits is Some
            }
            &&& run_end(next, 0, LineClass::Space) == indent
            &&& next.take(indent) == line.take(indent)
        }),
{
    let (head, number, mark, gap, task, behind) = bare_parts(line);
    lemma_bare_parts(line);
    lemma_continued_parts(line);
    lemma_bare_line(head, number, mark, gap, task, behind);
    let next = bare_line(head, number, mark, gap, task, behind);
    assert(next.take(head.len() as int) =~= head);
}

/// The blanks between the marker of an item and its task or its content.
pub open spec fn marker_gap(line: Seq<char>, prefix: ListLinePrefix) -> Seq<char> {
    line.subrange(
        prefix.list_marker_end as int,
        match prefix.task_marker {
            Some(task) => task.start as int,
            None => prefix.content_start as int,
        },
    )
}

/// Writing a number and reading it back gives the number, and only zero starts with a zero.
pub proof fn lemma_number_reads_back(value: nat)
    ensures
        number_of(decimal(value)) == value,
        decimal(value).len() > 0,
        value > 0 ==> decimal(value)[0] != '0',
    decreases value,
{
    let digits = decimal(value);
    let last = value % 10;
    assert(digit_value(crate::text::digit(last)) == last) by {
        assert(last == 0 || last == 1 || last == 2 || last == 3 || last == 4 || last == 5 || last
            == 6 || last == 7 || last == 8 || last == 9);
    }
    if value >= 10 {
        lemma_number_reads_back(value / 10);
        assert(digits.drop_last() =~= decimal(value / 10));
        assert(digits[0] == decimal(value / 10)[0]);
    } else {
        assert(digits.drop_last() =~= Seq::<char>::empty());
        assert(number_of(Seq::<char>::empty()) == 0);
        assert(digits.last() == crate::text::digit(value));
        assert(last == value);
        if value > 0 {
            assert(digits[0] == crate::text::digit(value));
        }
    }
}

/// Where the parts of a bare line stand in it.
proof fn lemma_bare_slices(
    head: Seq<char>,
    number: Seq<char>,
    mark: char,
    gap: Seq<char>,
    task: bool,
    behind: Seq<char>,
)
    ensures
        ({
            let line = bare_line(head, number, mark, gap, task, behind);
            let end = (head.len() + number.len()) as int;
            &&& line.take(head.len() as int) == head
            &&& line.subrange(head.len() as int, end) == number
            &&& line[end] == mark
            &&& line.take(end + 1) == head + number + seq![mark]
            &&& line.subrange(end + 1, end + 1 + gap.len()) == gap
            &&& task ==> line.subrange(end + 1 + gap.len() + 3, line.len() as int) == behind
        }),
{
    reveal_strlit("[ ]");
    let line = bare_line(head, number, mark, gap, task, behind);
    let end = (head.len() + number.len()) as int;
    assert(line.take(head.len() as int) =~= head);
    assert(line.subrange(head.len() as int, end) =~= number);
    assert(line.take(end + 1) =~= head + number + seq![mark]);
    assert(line.subrange(end + 1, end + 1 + gap.len()) =~= gap);
    if task {
        assert(line.subrange(end + 1 + gap.len() + 3, line.len() as int) =~= behind);
    }
}

/// Where the parts of a prefix stand in its line.
proof fn lemma_prefix_slices(line: Seq<char>)
    requires
        list_prefix(line) is Some,
        line.len() <= usize::MAX,
    ensures
        ({
            let (head, number, mark, gap, task, behind) = bare_parts(line);
            let p = list_prefix(line)->Some_0;
            &&& line[p.list_marker_end - 1] == mark
            &&& marker_gap(line, p) == gap
            &&& task <==> p.task_marker is Some
            &&& p.task_marker matches Some(old) ==> line.subrange(
                old.end as int,
                p.content_start as int,
            ) == behind
            &&& p.ordered_digits is None ==> line.take(p.list_marker_end as int) == head + number
                + seq![mark]
            &&& p.ordered_digits matches Some(old) ==> {
                &&& old.end + 1 == p.list_marker_end
                &&& line.take(old.start as int) == head
                &&& number == next_number(line.subrange(old.start as int, old.end as int))
            }
        }),
{
    let (head, number, mark, gap, task, behind) = bare_parts(line);
    let p = list_prefix(line)->Some_0;
    lemma_prefix_layout(line);
    let indent = run_end(line, 0, LineClass::Space);
    lemma_run_end(line, 0, LineClass::Space);
    let digits = run_end(line, indent, LineClass::Digit);
    lemma_run_end(line, indent, LineClass::Digit);
    lemma_run_end(line, digits + 1, LineClass::Blank);
    if p.ordered_digits is None {
        assert(line.take(digits + 1) =~= head + number + seq![mark]);
    }
}

/// The line that continues an item belongs to the same list. Its bullet, or the delimiter
/// behind its number, is the same character; a bullet item has the same text up to there, and
/// the number of an ordered item is one more, written without a leading zero, where that
/// fits, and else the same digits. The blanks behind the marker and behind a task are kept.
pub proof fn law_continuation_keeps_the_marker(line: Seq<char>)
    requires
        list_prefix(line) is Some,
        line.len() <= usize::MAX,
        continued(line, list_prefix(line)->Some_0).len() <= usize::MAX,
    ensures
        ({
            let p = list_prefix(line)->Some_0;
            let next = continued(line, p);
            &&& list_prefix(next) matches Some(q) && {
                &&& next[q.list_marker_end - 1] == line[p.list_marker_end - 1]
                &&& p.ordered_digits is None ==> next.take(q.list_marker_end as int) == line.take(
                    p.list_marker_end as int,
                )
                &&& p.ordered_digits matches Some(old) ==> q.ordered_digits matches Some(new) && {
                    let before = line.subrange(old.start as int, old.end as int);
                    let after = next.subrange(new.start as int, new.end as int);
                    &&& next.take(new.start as int) == line.take(old.start as int)
                    &&& old.end + 1 == p.list_marker_end && new.end + 1 == q.list_marker_end
                    &&& if number_of(before) < u64::MAX {
                        number_of(after) == number_of(before) + 1 && after[0] != '0'
                    } else {
                        after == before
                    }
                }
                &&& marker_gap(next, q) == marker_gap(line, p)
                &&& p.task_marker matches Some(old) ==> q.task_marker matches Some(new)
                    && next.subrange(new.end as int, q.content_start as int) == line.subrange(
                    old.end as int,
                    p.content_start as int,
                )
            }
        }),
{
    let (head, number, mark, gap, task, behind) = bare_parts(line);
    let p = list_prefix(line)->Some_0;
    lemma_bare_parts(line);
    lemma_continued_parts(line);
    lemma_bare_line(head, number, mark, gap, task, behind);
    lemma_bare_slices(head, number, mark, gap, task, behind);
    lemma_prefix_slices(line);
    if let Some(old) = p.ordered_digits {
        let before = line.subrange(old.start as int, old.end as int);
        if number_of(before) < u64::MAX {
            lemma_number_reads_back(number_of(before) + 1);
        }
    }
}

/// Whether `c` is a space or a tab.
pub open spec fn space_or_tab(c: char) -> bool {
    c == ' ' || c == '\t'
}

/// What the offsets of a prefix say of its line: spaces, then a bullet or digits with a
/// point or bracket behind them, then spaces and tabs, and for a task its brackets with more
/// spaces and tabs. The content starts where those end.
pub proof fn law_prefix_parts(line: Seq<char>)
    requires
        list_prefix(line) is Some,
        line.len() <= usize::MAX,
    ensures
        ({
            let p = list_prefix(line)->Some_0;
            let mark = p.list_marker_end - 1;
            let start = match p.ordered_digits {
                Some(digits) => digits.start as int,
                None => mark,
            };
            let gap_end = match p.task_marker {
                Some(task) => task.start as int,
                None => p.content_start as int,
            };
            &&& 0 <= start <= mark < gap_end - 1
            &&& gap_end <= p.content_start <= line.len()
            &&& forall|k: int| 0 <= k < start ==> line[k] == ' '
            &&& match p.ordered_digits {
                Some(digits) => {
                    &&& digits.end == mark
                    &&& start < mark
                    &&& forall|k: int| start <= k < mark ==> '0' <= #[trigger] line[k] <= '9'
                    &&& line[mark] == '.' || line[mark] == ')'
                },
                None => line[mark] == '-' || line[mark] == '+' || line[mark] == '*',
            }
            &&& forall|k: int| mark < k < gap_end ==> space_or_tab(#[trigger] line[k])
            &&& p.task_marker matches Some(task) ==> {
                &&& task.end == task.start + 3
                &&& line[gap_end] == '[' && line[gap_end + 2] == ']'
                &&& line[gap_end + 1] == ' ' || line[gap_end + 1] == 'x' || line[gap_end + 1]
                    == 'X'
                &&& task.end <= p.content_start
                &&& task.end < line.len() ==> space_or_tab(line[task.end as int])
                &&& forall|k: int|
                    task.end <= k < p.content_start ==> space_or_tab(#[trigger] line[k])
            }
            &&& p.content_start < line.len() ==> !space_or_tab(line[p.content_start as int])
        }),
{
    let indent = run_end(line, 0, LineClass::Space);
    lemma_run_end(line, 0, LineClass::Space);
    let digits = run_end(line, indent, LineClass::Digit);
    lemma_run_end(line, indent, LineClass::Digit);
    let item = run_end(line, digits + 1, LineClass::Blank);
    lemma_run_end(line, digits + 1, LineClass::Blank);
    lemma_run_end(line, digits + 2, LineClass::Blank);
    lemma_run_stops(line, digits + 1, LineClass::Blank);
    assert forall|k: int| 0 <= k < indent implies line[k] == ' ' by {
        assert(in_class(line[k], LineClass::Space));
    }
    assert forall|k: int| indent <= k < digits implies '0' <= #[trigger] line[k] <= '9' by {
        assert(in_class(line[k], LineClass::Digit));
    }
    assert forall|k: int| digits < k < item implies space_or_tab(#[trigger] line[k]) by {
        assert(in_class(line[k], LineClass::Blank));
    }
    if task_at(line, item) {
        lemma_run_end(line, item + 3, LineClass::Blank);
        lemma_run_stops(line, item + 3, LineClass::Blank);
        assert forall|k: int|
            item + 3 <= k < run_end(line, item + 3, LineClass::Blank) implies space_or_tab(
            #[trigger] line[k],
        ) by {
            assert(in_class(line[k], LineClass::Blank));
        }
    }
}

/// The character behind a run is not of its class.
proof fn lemma_run_stops(line: Seq<char>, from: int, class: LineClass)
    requires
        0 <= from <= line.len(),
    ensures
        run_end(line, from, class) < line.len() ==> !in_class(
            line[run_end(line, from, class)],
            class,
        ),
    decreases line.len() - from,
{
    if from < line.len() && in_class(line[from], class) {
        lemma_run_stops(line, from + 1, class);
    }
}

/// Every line of that form is read as an item: `indent` spaces, then digits up to `mark`
/// with a point or bracket behind them, or no digits and a bullet, then a space or a tab.
/// It is a task where, behind all spaces and tabs, brackets around a space or an x follow
/// that end the line or have a space or a tab behind them.
pub proof fn law_item_lines_are_read(line: Seq<char>, indent: int, mark: int, item: int)
    requires
        line.len() <= usize::MAX,
        0 <= indent <= mark,
        mark + 1 < item <= line.len(),
        forall|k: int| 0 <= k < indent ==> line[k] == ' ',
        forall|k: int| indent <= k < mark ==> '0' <= #[trigger] line[k] <= '9',
        if indent < mark {
            line[mark] == '.' || line[mark] == ')'
        } else {
            line[mark] == '-' || line[mark] == '+' || line[mark] == '*'
        },
        forall|k: int| mark < k < item ==> space_or_tab(#[trigger] line[k]),
        item < line.len() ==> !space_or_tab(line[item]),
    ensures
        list_prefix(line) matches Some(p) && {
            &&& p.list_marker_end == mark + 1
            &&& p.ordered_digits is Some <==> indent < mark
            &&& p.ordered_digits matches Some(digits) ==> digits.start == indent
            &&& p.task_marker is Some <==> item + 2 < line.len() && line[item] == '[' && (line[item
                + 1] == ' ' || line[item + 1] == 'x' || line[item + 1] == 'X') && line[item + 2]
                == ']' && (item + 3 == line.len() || space_or_tab(line[item + 3]))
            &&& p.task_marker is None ==> p.content_start == item
        },
{
    if indent < mark {
        assert('0' <= line[indent] <= '9');
    }
    lemma_run_is(line, 0, indent, LineClass::Space);
    assert forall|k: int| indent <= k < mark implies in_class(
        #[trigger] line[k],
        LineClass::Digit,
    ) by {}
    lemma_run_is(line, indent, mark, LineClass::Digit);
    assert forall|k: int| mark < k < item implies in_class(
        #[trigger] line[k],
        LineClass::Blank,
    ) by {
        assert(space_or_tab(line[k]));
    }
    lemma_run_is(line, mark + 1, item, LineClass::Blank);
    assert(space_or_tab(line[mark + 1]));
}

} // verus!
