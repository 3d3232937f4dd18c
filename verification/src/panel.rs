//! The lines of two panels: the outline's tree and the search results.
use crate::document::error::EditorDocumentError;
use crate::edit::TextBuffer;
use crate::hidden::{
    covered, covers_at, hidden_wf, read_visible_between, visible, HiddenRanges,
};
use crate::offset::{ByteOffset, Revision, TextRange};
use crate::outline::{linked, nearest, OutlineItem, OutlineSnapshot};
use crate::search::SearchState;
use crate::selection::is_boundary;
use crate::text::{
    boundary, byte_len, chars_of, decimal, digit, lemma_boundary_bounds, lemma_boundary_ends,
    lemma_decimal_digits, lemma_tidy, push_decimal, same_text, sliceable, string_of, text_len, tidy,
    trim_end, trim_start, trim_text, trimmed, white_space,
};
use crate::visual::{SourceError, VisualTextError};
use vstd::prelude::*;
use vstd::utf8::encode_utf8;

verus! {

/// Why an offset is no position in a text.
#[derive(Clone, Copy, Debug, PartialEq, Eq, Structural)]
pub enum TextPositionError {
    /// The offset lies behind the text.
    OutOfBounds { offset: ByteOffset },
    /// The offset splits a character.
    NotCharBoundary { offset: ByteOffset },
}

/// Why a panel cannot be filled. Nothing is wrong with what it showed before.
#[derive(Clone, Copy, Debug, PartialEq, Eq, Structural)]
pub enum PanelError {
    /// The document does not have the block.
    Document(EditorDocumentError),
    /// A hit does not fit the source.
    Position(TextPositionError),
    /// The source of a range cannot be read.
    Visual(VisualTextError),
    /// A hit belongs to no block.
    OrphanMatch(TextRange),
}

/// Whether a character ends a line in Unicode.
pub open spec fn line_break(c: char) -> bool {
    ||| c == '\n'
    ||| c == '\r'
    ||| c == '\u{0B}'
    ||| c == '\u{0C}'
    ||| c == '\u{85}'
    ||| c == '\u{2028}'
    ||| c == '\u{2029}'
}

/// Whether a character ends a line.
pub fn is_line_break(character: char) -> (r: bool)
    ensures
        r == line_break(character),
{
    character == '\n' || character == '\r' || character == '\u{0B}' || character == '\u{0C}'
        || character == '\u{85}' || character == '\u{2028}' || character == '\u{2029}'
}

/// Where the first line ends, from `at` on.
pub open spec fn break_from(text: Seq<char>, at: int) -> int
    decreases text.len() - at,
{
    if 0 <= at < text.len() && !line_break(text[at]) {
        break_from(text, at + 1)
    } else {
        at
    }
}

/// The lines of a text from `at` on, without their breaks.
pub open spec fn lines_from(text: Seq<char>, at: int) -> Seq<Seq<char>>
    decreases text.len() - at,
{
    let end = break_from(text, at);
    if 0 <= at && at <= end < text.len() {
        seq![text.subrange(at, end)] + lines_from(text, end + 1)
    } else {
        seq![text.subrange(at, text.len() as int)]
    }
}

/// The lines without the white space at their ends, those left empty dropped, with
/// one space between.
pub open spec fn joined(lines: Seq<Seq<char>>) -> Seq<char>
    decreases lines.len(),
{
    if lines.len() == 0 {
        Seq::empty()
    } else {
        let before = joined(lines.drop_last());
        let line = trimmed(lines.last());
        if line.len() == 0 {
            before
        } else if before.len() == 0 {
            line
        } else {
            before.push(' ') + line
        }
    }
}

/// A text as one line. A text of one line stays as it is, white space and all.
pub open spec fn folded(text: Seq<char>) -> Seq<char> {
    if break_from(text, 0) < text.len() {
        joined(lines_from(text, 0))
    } else {
        text
    }
}

/// Finds where the line at `at` ends.
fn find_break(text: &[char], at: usize) -> (r: usize)
    requires
        at <= text@.len(),
    ensures
        r == break_from(text@, at as int),
        at <= r <= text@.len(),
{
    let mut i: usize = at;
    while i < text.len() && !is_line_break(text[i])
        invariant
            at <= i <= text@.len(),
            break_from(text@, i as int) == break_from(text@, at as int),
        decreases text@.len() - i,
    {
        i += 1;
    }
    i
}

/// Joins one more line to `out`.
fn push_line(out: &mut String, text: &[char], start: usize, end: usize, lines: Ghost<
    Seq<Seq<char>>,
>)
    requires
        start <= end <= text@.len(),
        old(out)@ == joined(lines@),
    ensures
        final(out)@ == joined(lines@.push(text@.subrange(start as int, end as int))),
{
    let raw = string_of(text, start, end);
    let line = trim_text(raw.as_str());
    proof {
        let after = lines@.push(raw@);
        assert(after.drop_last() =~= lines@);
        assert(after.last() == raw@);
    }
    if text_len(line.as_str()) == 0 {
        proof {
            lemma_empty(line@);
        }
        return ;
    }
    proof {
        lemma_empty(line@);
        lemma_empty(out@);
    }
    if text_len(out.as_str()) > 0 {
        out.push(' ');
    } else {
        assert(out@ + line@ =~= line@);
    }
    out.push_str(line.as_str());
}

/// Only the empty text takes no byte.
proof fn lemma_empty(text: Seq<char>)
    ensures
        byte_len(text) == 0 <==> text.len() == 0,
{
    if text.len() > 0 {
        assert(encode_utf8(text).len() > 0);
    }
}

/// Folds a text into one line: a line of a panel is one line.
pub fn fold_lines(raw: &str) -> (r: String)
    ensures
        r@ == folded(raw@),
{
    let text = chars_of(raw);
    let first = find_break(&text, 0);
    if first == text.len() {
        let all = string_of(&text, 0, text.len());
        assert(text@.subrange(0, text@.len() as int) =~= text@);
        return all;
    }
    let mut out = String::new();
    let mut at: usize = 0;
    let mut end: usize = first;
    let ghost mut done: Seq<Seq<char>> = Seq::empty();
    assert(done + lines_from(text@, 0) =~= lines_from(text@, 0));
    while end < text.len()
        invariant
            at <= end <= text@.len(),
            end == break_from(text@, at as int),
            out@ == joined(done),
            done + lines_from(text@, at as int) == lines_from(text@, 0),
        decreases text@.len() - at,
    {
        push_line(&mut out, &text, at, end, Ghost(done));
        proof {
            let line = text@.subrange(at as int, end as int);
            assert(done.push(line) + lines_from(text@, end + 1) =~= done + lines_from(
                text@,
                at as int,
            ));
            done = done.push(line);
        }
        at = end + 1;
        end = find_break(&text, at);
    }
    push_line(&mut out, &text, at, end, Ghost(done));
    assert(done.push(text@.subrange(at as int, end as int)) =~= lines_from(text@, 0));
    out
}

/// The characters of a text that are no white space.
pub open spec fn inked(text: Seq<char>) -> Seq<char>
    decreases text.len(),
{
    if text.len() == 0 {
        text
    } else if white_space(text.last()) {
        inked(text.drop_last())
    } else {
        inked(text.drop_last()).push(text.last())
    }
}

/// Whether a text has no line break.
pub open spec fn unbroken(text: Seq<char>) -> bool {
    forall|k: int| 0 <= k < text.len() ==> !line_break(#[trigger] text[k])
}

/// The characters of several lines that are no white space.
spec fn inked_lines(lines: Seq<Seq<char>>) -> Seq<char>
    decreases lines.len(),
{
    if lines.len() == 0 {
        Seq::empty()
    } else {
        inked_lines(lines.drop_last()) + inked(lines.last())
    }
}

proof fn lemma_inked_concat(a: Seq<char>, b: Seq<char>)
    ensures
        inked(a + b) == inked(a) + inked(b),
    decreases b.len(),
{
    if b.len() == 0 {
        assert(a + b =~= a);
        assert(inked(a) + inked(b) =~= inked(a));
    } else {
        lemma_inked_concat(a, b.drop_last());
        assert((a + b).drop_last() =~= a + b.drop_last());
        assert((a + b).last() == b.last());
        assert(inked(a + b) =~= inked(a) + inked(b));
    }
}

proof fn lemma_trim_start(text: Seq<char>)
    ensures
        inked(trim_start(text)) == inked(text),
        unbroken(text) ==> unbroken(trim_start(text)),
        trim_start(text).len() > 0 ==> !white_space(trim_start(text)[0]),
    decreases text.len(),
{
    if text.len() > 0 && white_space(text[0]) {
        let rest = text.drop_first();
        lemma_trim_start(rest);
        let first = seq![text[0]];
        assert(text =~= first + rest);
        lemma_inked_concat(first, rest);
        assert(first.drop_last() =~= Seq::<char>::empty());
        assert(inked(first.drop_last()) =~= Seq::<char>::empty());
        assert(inked(first) == inked(first.drop_last()));
        assert(inked(first) + inked(rest) =~= inked(rest));
        if unbroken(text) {
            assert forall|k: int| 0 <= k < rest.len() implies !line_break(#[trigger] rest[k]) by {
                assert(rest[k] == text[k + 1]);
            }
        }
    }
}

proof fn lemma_trim_end(text: Seq<char>)
    ensures
        inked(trim_end(text)) == inked(text),
        unbroken(text) ==> unbroken(trim_end(text)),
        trim_end(text).len() > 0 ==> !white_space(trim_end(text).last()) && trim_end(text)[0]
            == text[0],
    decreases text.len(),
{
    if text.len() > 0 && white_space(text.last()) {
        let rest = text.drop_last();
        lemma_trim_end(rest);
        if unbroken(text) {
            assert forall|k: int| 0 <= k < rest.len() implies !line_break(#[trigger] rest[k]) by {
                assert(rest[k] == text[k]);
            }
        }
    }
}

proof fn lemma_trimmed(text: Seq<char>)
    ensures
        inked(trimmed(text)) == inked(text),
        unbroken(text) ==> unbroken(trimmed(text)),
        tidy(trimmed(text)),
{
    lemma_trim_start(text);
    lemma_trim_end(trim_start(text));
}

proof fn lemma_joined(lines: Seq<Seq<char>>)
    requires
        forall|k: int| 0 <= k < lines.len() ==> unbroken(#[trigger] lines[k]),
    ensures
        unbroken(joined(lines)),
        tidy(joined(lines)),
        inked(joined(lines)) == inked_lines(lines),
    decreases lines.len(),
{
    if lines.len() > 0 {
        let front = lines.drop_last();
        assert forall|k: int| 0 <= k < front.len() implies unbroken(#[trigger] front[k]) by {
            assert(front[k] == lines[k]);
        }
        lemma_joined(front);
        assert(unbroken(lines[lines.len() - 1]));
        lemma_trimmed(lines.last());
        let before = joined(front);
        let line = trimmed(lines.last());
        if line.len() == 0 {
            assert(inked(line) =~= Seq::<char>::empty());
            assert(inked_lines(front) + inked(line) =~= inked_lines(front));
        } else if before.len() == 0 {
            assert(inked(before) =~= Seq::<char>::empty());
            assert(inked(before) + inked(line) =~= inked(line));
        } else {
            let spaced = before.push(' ');
            assert(spaced.drop_last() =~= before);
            lemma_inked_concat(spaced, line);
            let all = spaced + line;
            assert forall|k: int| 0 <= k < all.len() implies !line_break(#[trigger] all[k]) by {
                if k < before.len() {
                    assert(all[k] == before[k]);
                } else if k > before.len() {
                    assert(all[k] == line[k - spaced.len()]);
                }
            }
            assert(all[0] == before[0]);
            assert(all.last() == line.last());
        }
    } else {
        assert(inked(joined(lines)) =~= Seq::<char>::empty());
    }
}

proof fn lemma_inked_lines_front(line: Seq<char>, rest: Seq<Seq<char>>)
    ensures
        inked_lines(seq![line] + rest) == inked(line) + inked_lines(rest),
    decreases rest.len(),
{
    let all = seq![line] + rest;
    if rest.len() == 0 {
        assert(all.drop_last() =~= Seq::<Seq<char>>::empty());
        assert(inked_lines(all.drop_last()) =~= Seq::<char>::empty());
        assert(inked_lines(rest) =~= Seq::<char>::empty());
        assert(all.last() == line);
        assert(inked_lines(all) =~= inked(line) + inked_lines(rest));
    } else {
        lemma_inked_lines_front(line, rest.drop_last());
        assert(all.drop_last() =~= seq![line] + rest.drop_last());
        assert(all.last() == rest.last());
        assert(inked_lines(all) =~= inked(line) + inked_lines(rest));
    }
}

proof fn lemma_break_from(text: Seq<char>, at: int)
    requires
        0 <= at <= text.len(),
    ensures
        at <= break_from(text, at) <= text.len(),
        break_from(text, at) < text.len() ==> line_break(text[break_from(text, at)]),
        forall|k: int| at <= k < break_from(text, at) ==> !line_break(#[trigger] text[k]),
    decreases text.len() - at,
{
    if at < text.len() && !line_break(text[at]) {
        lemma_break_from(text, at + 1);
    }
}

proof fn lemma_lines_from(text: Seq<char>, at: int)
    requires
        0 <= at <= text.len(),
    ensures
        forall|k: int|
            0 <= k < lines_from(text, at).len() ==> unbroken(#[trigger] lines_from(text, at)[k]),
        inked_lines(lines_from(text, at)) == inked(text.subrange(at, text.len() as int)),
    decreases text.len() - at,
{
    let end = break_from(text, at);
    lemma_break_from(text, at);
    if end < text.len() {
        let line = text.subrange(at, end);
        let rest = lines_from(text, end + 1);
        lemma_lines_from(text, end + 1);
        lemma_inked_lines_front(line, rest);
        let broken = seq![text[end]];
        let tail = text.subrange(end + 1, text.len() as int);
        assert(text.subrange(at, text.len() as int) =~= line + (broken + tail));
        lemma_inked_concat(line, broken + tail);
        lemma_inked_concat(broken, tail);
        assert(broken.drop_last() =~= Seq::<char>::empty());
        assert(inked(broken.drop_last()) =~= Seq::<char>::empty());
        assert(white_space(text[end]));
        assert(inked(broken) == inked(broken.drop_last()));
        assert(inked(broken) + inked(tail) =~= inked(tail));
        let all = lines_from(text, at);
        assert forall|k: int| 0 <= k < all.len() implies unbroken(#[trigger] all[k]) by {
            if k == 0 {
                assert(all[0] == line);
            } else {
                assert(all[k] == rest[k - 1]);
            }
        }
    } else {
        let line = text.subrange(at, text.len() as int);
        let all = lines_from(text, at);
        assert(all =~= seq![line] + Seq::<Seq<char>>::empty());
        lemma_inked_lines_front(line, Seq::empty());
        assert(inked(line) + inked_lines(Seq::<Seq<char>>::empty()) =~= inked(line));
    }
}

/// A folded text is one line, and folding it again changes nothing. Nothing but white
/// space is touched: a text of one line stays as it is, and one of several loses the white
/// space at its ends.
pub proof fn law_folding_touches_white_space_alone(text: Seq<char>)
    ensures
        unbroken(folded(text)),
        folded(folded(text)) == folded(text),
        inked(folded(text)) == inked(text),
        unbroken(text) ==> folded(text) == text,
        !unbroken(text) ==> trimmed(folded(text)) == folded(text),
{
    lemma_break_from(text, 0);
    let end = break_from(text, 0);
    if end < text.len() {
        assert(!unbroken(text)) by {
            assert(line_break(text[end]));
        }
        lemma_lines_from(text, 0);
        assert(text.subrange(0, text.len() as int) =~= text);
        lemma_joined(lines_from(text, 0));
        lemma_tidy(folded(text));
    } else {
        assert forall|k: int| 0 <= k < text.len() implies !line_break(#[trigger] text[k]) by {}
    }
    lemma_break_from(folded(text), 0);
    let again = break_from(folded(text), 0);
    if again < folded(text).len() {
        assert(line_break(folded(text)[again]));
    }
}

/// Where the line that holds byte `at` begins. A line ends behind its line feed.
pub open spec fn line_start(bytes: Seq<u8>, at: int) -> int
    decreases at,
{
    if at <= 0 || at > bytes.len() {
        0
    } else if bytes[at - 1] == 10 {
        at
    } else {
        line_start(bytes, at - 1)
    }
}

/// Where the line that holds byte `at` ends, behind its line feed.
pub open spec fn line_end(bytes: Seq<u8>, at: int) -> int
    decreases bytes.len() - at,
{
    if at < 0 || at >= bytes.len() {
        bytes.len() as int
    } else if bytes[at] == 10 {
        at + 1
    } else {
        line_end(bytes, at + 1)
    }
}

/// Why `offset` is no position in `text`.
pub open spec fn position_error(text: Seq<char>, offset: ByteOffset) -> Option<TextPositionError> {
    if offset.value > byte_len(text) {
        Some(TextPositionError::OutOfBounds { offset })
    } else if !boundary(text, offset.value as int) {
        Some(TextPositionError::NotCharBoundary { offset })
    } else {
        None
    }
}

/// What is wrong with an offset.
pub fn check_position(text: &str, offset: ByteOffset) -> (r: Option<TextPositionError>)
    ensures
        r == position_error(text@, offset),
{
    if offset.value > text_len(text) as u64 {
        Some(TextPositionError::OutOfBounds { offset })
    } else if !is_boundary(text, offset) {
        Some(TextPositionError::NotCharBoundary { offset })
    } else {
        None
    }
}

/// The part of the line at `hit` that lies in `block`, or the empty range where that
/// part would begin.
pub open spec fn context_of(text: Seq<char>, hit: TextRange, block: TextRange) -> TextRange {
    let bytes = encode_utf8(text);
    let from = line_start(bytes, hit.start.value as int);
    let to = line_end(bytes, hit.start.value as int);
    let start = if from >= block.start.value {
        from
    } else {
        block.start.value as int
    };
    let end = if to <= block.end.value {
        to
    } else {
        block.end.value as int
    };
    TextRange {
        start: ByteOffset { value: start as u64 },
        end: ByteOffset {
            value: if start <= end {
                end as u64
            } else {
                start as u64
            },
        },
    }
}

fn find_line_start(bytes: &[u8], at: usize) -> (r: usize)
    requires
        at <= bytes@.len(),
    ensures
        r == line_start(bytes@, at as int),
        r <= at,
{
    let mut i: usize = at;
    while i > 0 && bytes[i - 1] != 10
        invariant
            i <= at <= bytes@.len(),
            line_start(bytes@, i as int) == line_start(bytes@, at as int),
        decreases i,
    {
        i -= 1;
    }
    i
}

fn find_line_end(bytes: &[u8], at: usize) -> (r: usize)
    requires
        at <= bytes@.len(),
    ensures
        r == line_end(bytes@, at as int),
        at <= r <= bytes@.len(),
{
    let mut i: usize = at;
    while i < bytes.len()
        invariant
            at <= i <= bytes@.len(),
            line_end(bytes@, i as int) == line_end(bytes@, at as int),
        decreases bytes@.len() - i,
    {
        if bytes[i] == 10 {
            return i + 1;
        }
        i += 1;
    }
    i
}

/// The source that stands for a hit: its line, cut to its block.
pub fn context_range(snapshot: &TextBuffer, hit: TextRange, block_range: TextRange) -> (r: Result<
    TextRange,
    PanelError,
>)
    ensures
        match position_error(snapshot.text@, hit.start) {
            Some(error) => r == Err::<TextRange, PanelError>(PanelError::Position(error)),
            None => r == Ok::<TextRange, PanelError>(
                context_of(snapshot.text@, hit, block_range),
            ),
        },
        r matches Ok(context) ==> context.wf(),
{
    let text = snapshot.as_str();
    if let Some(error) = check_position(text, hit.start) {
        return Err(PanelError::Position(error));
    }
    let bytes = text.as_bytes();
    assert(bytes@.len() == bytes.len());
    let at = hit.start.value as usize;
    let from: u64 = find_line_start(bytes, at) as u64;
    let to: u64 = find_line_end(bytes, at) as u64;
    let start: u64 = if from >= block_range.start.value {
        from
    } else {
        block_range.start.value
    };
    let end: u64 = if to <= block_range.end.value {
        to
    } else {
        block_range.end.value
    };
    Ok(
        TextRange {
            start: ByteOffset::new(start),
            end: ByteOffset::new(
                if start <= end {
                    end
                } else {
                    start
                },
            ),
        },
    )
}

/// What the panels read of a block: where it is, and which of its source the editor
/// hides while no caret is in it.
#[derive(Debug)]
pub struct PanelBlock {
    pub range: TextRange,
    pub hidden: HiddenRanges,
}

/// Whether the hidden ranges of every block fit the text.
pub open spec fn blocks_wf(text: Seq<char>, blocks: Seq<PanelBlock>) -> bool {
    forall|k: int| 0 <= k < blocks.len() ==> hidden_wf(text, (#[trigger] blocks[k]).hidden.ranges@)
}

/// Why `range` cannot be read from `text`.
pub open spec fn range_error(text: Seq<char>, range: TextRange) -> Option<TextPositionError> {
    if position_error(text, range.start) is Some {
        position_error(text, range.start)
    } else {
        position_error(text, range.end)
    }
}

/// Why the visible source of `range` cannot be read. A hidden end of the range may be
/// anywhere; behind the text nothing is read.
pub open spec fn visible_error(
    text: Seq<char>,
    range: TextRange,
    hidden: Seq<TextRange>,
) -> Option<TextPositionError> {
    if position_error(text, range.start) is Some && !covered(hidden, range.start.value as int) {
        position_error(text, range.start)
    } else if range.end.value < byte_len(text) && position_error(text, range.end) is Some
        && !covered(hidden, range.end.value as int) {
        position_error(text, range.end)
    } else {
        None
    }
}

/// Why the source of `range` in block number `block` cannot be shown.
pub open spec fn source_error(
    text: Seq<char>,
    blocks: Seq<PanelBlock>,
    block: usize,
    range: TextRange,
) -> Option<PanelError> {
    if block >= blocks.len() {
        Some(
            PanelError::Document(
                EditorDocumentError::BlockOutOfBounds {
                    index: block,
                    blocks: blocks.len() as usize,
                },
            ),
        )
    } else {
        match visible_error(text, range, blocks[block as int].hidden.ranges@) {
            Some(error) => Some(
                PanelError::Visual(VisualTextError::Source(SourceError::Position(error))),
            ),
            None => None,
        }
    }
}

/// The source of `range` without what the block hides.
pub open spec fn source_of(
    text: Seq<char>,
    blocks: Seq<PanelBlock>,
    block: usize,
    range: TextRange,
) -> Seq<char> {
    visible(
        text,
        range.start.value as int,
        if range.end.value <= byte_len(text) {
            range.end.value as int
        } else {
            byte_len(text)
        },
        blocks[block as int].hidden.ranges@,
    )
}

/// Reads the source of a range without what its block hides.
pub fn visible_source(
    text: &str,
    blocks: &[PanelBlock],
    block: usize,
    range: TextRange,
) -> (r: Result<String, PanelError>)
    requires
        blocks_wf(text@, blocks@),
    ensures
        match source_error(text@, blocks@, block, range) {
            Some(error) => r == Err::<String, PanelError>(error),
            None => r is Ok && r->Ok_0@ == source_of(text@, blocks@, block, range),
        },
{
    if block >= blocks.len() {
        return Err(
            PanelError::Document(
                EditorDocumentError::BlockOutOfBounds { index: block, blocks: blocks.len() },
            ),
        );
    }
    let total: usize = text_len(text);
    let hidden = &blocks[block].hidden;
    assert(hidden_wf(text@, blocks@[block as int].hidden.ranges@));
    if let Some(error) = check_position(text, range.start) {
        if !hidden.covers(range.start.value) {
            return Err(PanelError::Visual(VisualTextError::Source(SourceError::Position(error))));
        }
    }
    proof {
        lemma_covered_inside(text@, hidden.ranges@, range.start.value as int);
        lemma_boundary_ends(text@);
    }
    let start = range.start.value as usize;
    if range.end.value >= total as u64 {
        return Ok(read_visible_between(text, start, total, hidden));
    }
    if let Some(error) = check_position(text, range.end) {
        if !hidden.covers(range.end.value) {
            return Err(PanelError::Visual(VisualTextError::Source(SourceError::Position(error))));
        }
    }
    Ok(read_visible_between(text, start, range.end.value as usize, hidden))
}

/// A hidden offset lies in the text.
proof fn lemma_covered_inside(text: Seq<char>, hidden: Seq<TextRange>, at: int)
    requires
        hidden_wf(text, hidden),
    ensures
        covered(hidden, at) ==> 0 <= at <= byte_len(text),
{
    if covered(hidden, at) {
        let k = choose|k: int| #[trigger] covers_at(hidden, k, at);
        assert(sliceable(text, hidden[k].start.value as int, hidden[k].end.value as int));
        lemma_boundary_bounds(text, hidden[k].end.value as int);
    }
}

/// A line of the outline panel.
#[derive(Debug)]
pub struct OutlineRow {
    pub item: OutlineItem,
    pub label: String,
    pub identity: String,
    pub child_count: usize,
}

impl OutlineRow {
    /// The heading.
    pub fn item(&self) -> (r: OutlineItem)
        ensures
            r == self.item,
    {
        self.item
    }

    /// The heading's text on one line, without what the editor hides.
    pub fn label(&self) -> (r: &str)
        ensures
            r@ == self.label@,
    {
        self.label.as_str()
    }

    /// What tells the row from all others and stays when headings before it come and
    /// go: the labels from the root down, each numbered among equal siblings.
    pub fn identity(&self) -> (r: &str)
        ensures
            r@ == self.identity@,
    {
        self.identity.as_str()
    }

    /// The number of rows directly under this one.
    pub fn child_count(&self) -> (r: usize)
        ensures
            r == self.child_count,
    {
        self.child_count
    }
}

/// Stands between the parts of an identity.
pub const IDENTITY_SEPARATOR: char = '\u{1F}';

/// A row as the panel names it.
pub struct RowName {
    /// The parent's identity and the label.
    pub base: Seq<char>,
    /// The base and the row's number among rows with the same base.
    pub identity: Seq<char>,
}

/// How many rows have the base.
pub open spec fn same_base(rows: Seq<RowName>, base: Seq<char>) -> nat
    decreases rows.len(),
{
    if rows.len() == 0 {
        0
    } else {
        same_base(rows.drop_last(), base) + if rows.last().base == base {
            1nat
        } else {
            0nat
        }
    }
}

/// The base of a row under `parent`.
pub open spec fn base_of(
    rows: Seq<RowName>,
    parent: Option<usize>,
    label: Seq<char>,
) -> Seq<char> {
    let above = match parent {
        Some(p) => rows[p as int].identity,
        None => Seq::empty(),
    };
    above.push(IDENTITY_SEPARATOR) + label
}

/// The names of the first `count` rows.
pub open spec fn row_names(
    items: Seq<OutlineItem>,
    labels: Seq<Seq<char>>,
    count: int,
) -> Seq<RowName>
    decreases count,
{
    if count <= 0 {
        Seq::empty()
    } else {
        let before = row_names(items, labels, count - 1);
        let base = base_of(before, items[count - 1].parent, labels[count - 1]);
        before.push(
            RowName {
                base,
                identity: base.push(IDENTITY_SEPARATOR) + decimal(same_base(before, base)),
            },
        )
    }
}

/// How many of the first `count` items stand directly under item `parent`.
pub open spec fn children(items: Seq<OutlineItem>, count: int, parent: usize) -> nat
    decreases count,
{
    if count <= 0 {
        0
    } else {
        children(items, count - 1, parent) + if items[count - 1].parent == Some(parent) {
            1nat
        } else {
            0nat
        }
    }
}

/// The labels of the outline's items.
pub open spec fn labels_of(
    text: Seq<char>,
    blocks: Seq<PanelBlock>,
    items: Seq<OutlineItem>,
) -> Seq<Seq<char>> {
    Seq::new(
        items.len(),
        |k: int| folded(source_of(text, blocks, items[k].block, items[k].label_range)),
    )
}

/// What stops the outline's rows from item `from` on.
pub open spec fn outline_error(
    text: Seq<char>,
    blocks: Seq<PanelBlock>,
    items: Seq<OutlineItem>,
    from: int,
) -> Option<PanelError>
    decreases items.len() - from,
{
    if from < 0 || from >= items.len() {
        None
    } else {
        match source_error(text, blocks, items[from].block, items[from].label_range) {
            Some(error) => Some(error),
            None => outline_error(text, blocks, items, from + 1),
        }
    }
}

/// The outline panel of one revision.
#[derive(Debug)]
pub struct OutlineTree {
    pub revision: Revision,
    pub rows: Vec<OutlineRow>,
}

/// Whether the rows are those of `items` with these labels, in preorder.
pub open spec fn rows_show(
    rows: Seq<OutlineRow>,
    items: Seq<OutlineItem>,
    labels: Seq<Seq<char>>,
    count: int,
) -> bool {
    &&& rows.len() == count
    &&& forall|k: int|
        0 <= k < count ==> {
            let row = #[trigger] rows[k];
            &&& row.item == items[k]
            &&& row.label@ == labels[k]
            &&& row.identity@ == row_names(items, labels, count)[k].identity
            &&& row.child_count == children(items, count, k as usize)
        }
}

proof fn lemma_row_names_len(items: Seq<OutlineItem>, labels: Seq<Seq<char>>, count: int)
    requires
        0 <= count,
    ensures
        row_names(items, labels, count).len() == count,
    decreases count,
{
    if count > 0 {
        lemma_row_names_len(items, labels, count - 1);
    }
}

proof fn lemma_children_bound(items: Seq<OutlineItem>, count: int, parent: usize)
    requires
        0 <= count,
    ensures
        children(items, count, parent) <= count,
    decreases count,
{
    if count > 0 {
        lemma_children_bound(items, count - 1, parent);
    }
}

/// No item stands under one that is not there yet.
proof fn lemma_no_children_yet(items: Seq<OutlineItem>, count: int, parent: usize)
    requires
        linked(items),
        0 <= count <= items.len() <= usize::MAX,
        count <= parent + 1,
    ensures
        children(items, count, parent) == 0,
    decreases count,
{
    if count > 0 {
        lemma_no_children_yet(items, count - 1, parent);
        lemma_parent_before(items, count - 1);
    }
}

/// An item's parent stands before it.
proof fn lemma_parent_before(items: Seq<OutlineItem>, i: int)
    requires
        linked(items),
        0 <= i < items.len() <= usize::MAX,
    ensures
        items[i].parent matches Some(p) ==> p < i,
{
    assert(items[i].parent == nearest(items, i, items[i].level));
    lemma_nearest_below(items, i, items[i].level);
}

proof fn lemma_nearest_below(items: Seq<OutlineItem>, count: int, level: u8)
    requires
        0 <= count <= items.len() <= usize::MAX,
    ensures
        nearest(items, count, level) matches Some(p) ==> p < count,
    decreases count,
{
    if count > 0 {
        lemma_nearest_below(items, count - 1, level);
    }
}

/// Counts the bases that equal `base`.
fn count_same(bases: &Vec<String>, base: &str, rows: Ghost<Seq<RowName>>) -> (r: usize)
    requires
        bases@.len() == rows@.len(),
        forall|k: int| 0 <= k < bases@.len() ==> (#[trigger] bases@[k])@ == rows@[k].base,
    ensures
        r == same_base(rows@, base@),
        r <= bases@.len(),
{
    let mut count: usize = 0;
    let mut i: usize = 0;
    while i < bases.len()
        invariant
            i <= bases@.len() == rows@.len(),
            forall|k: int| 0 <= k < bases@.len() ==> (#[trigger] bases@[k])@ == rows@[k].base,
            count == same_base(rows@.take(i as int), base@),
            count <= i,
        decreases bases@.len() - i,
    {
        proof {
            assert(rows@.take(i + 1).drop_last() =~= rows@.take(i as int));
            assert(rows@.take(i + 1).last() == rows@[i as int]);
            assert(bases@[i as int]@ == rows@[i as int].base);
        }
        if same_text(bases[i].as_str(), base) {
            count += 1;
        }
        i += 1;
    }
    assert(rows@.take(rows@.len() as int) =~= rows@);
    count
}

/// The base of the next row.
fn next_base(rows: &Vec<OutlineRow>, parent: Option<usize>, label: &str, names: Ghost<
    Seq<RowName>,
>) -> (r: String)
    requires
        rows@.len() == names@.len(),
        forall|k: int| 0 <= k < rows@.len() ==> (#[trigger] rows@[k]).identity@ == names@[k].identity,
        parent matches Some(p) ==> p < rows@.len(),
    ensures
        r@ == base_of(names@, parent, label@),
{
    let mut base = String::new();
    match parent {
        Some(p) => {
            assert(rows@[p as int].identity@ == names@[p as int].identity);
            base.push_str(rows[p].identity.as_str());
            assert(base@ =~= names@[p as int].identity);
        },
        None => {},
    }
    base.push(IDENTITY_SEPARATOR);
    base.push_str(label);
    base
}

/// Adds a row under `parent`.
fn add_row(
    rows: &mut Vec<OutlineRow>,
    bases: &mut Vec<String>,
    item: OutlineItem,
    label: String,
    items: Ghost<Seq<OutlineItem>>,
    labels: Ghost<Seq<Seq<char>>>,
)
    requires
        linked(items@),
        old(rows)@.len() < items@.len() <= usize::MAX,
        labels@.len() == items@.len(),
        item == items@[old(rows)@.len() as int],
        label@ == labels@[old(rows)@.len() as int],
        rows_show(old(rows)@, items@, labels@, old(rows)@.len() as int),
        old(bases)@.len() == old(rows)@.len(),
        forall|k: int|
            0 <= k < old(bases)@.len() ==> (#[trigger] old(bases)@[k])@ == row_names(
                items@,
                labels@,
                old(rows)@.len() as int,
            )[k].base,
    ensures
        rows_show(final(rows)@, items@, labels@, (old(rows)@.len() + 1) as int),
        final(bases)@.len() == old(rows)@.len() + 1,
        forall|k: int|
            0 <= k < final(bases)@.len() ==> (#[trigger] final(bases)@[k])@ == row_names(
                items@,
                labels@,
                (old(rows)@.len() + 1) as int,
            )[k].base,
{
    let ghost n = rows@.len() as int;
    let ghost names = row_names(items@, labels@, n);
    proof {
        lemma_row_names_len(items@, labels@, n);
        lemma_parent_before(items@, n);
        assert forall|k: int| 0 <= k < n implies (#[trigger] rows@[k]).identity@
            == names[k].identity by {}
    }
    let base = next_base(rows, item.parent, label.as_str(), Ghost(names));
    let number = count_same(bases, base.as_str(), Ghost(names));
    let mut identity = base.as_str().to_owned();
    identity.push(IDENTITY_SEPARATOR);
    push_decimal(&mut identity, number as u64);
    let ghost before = rows@;
    if let Some(p) = item.parent {
        proof {
            lemma_children_bound(items@, n, p);
            assert(before[p as int].child_count == children(items@, n, p));
        }
        rows[p].child_count = rows[p].child_count + 1;
    }
    let ghost middle = rows@;
    rows.push(OutlineRow { item, label, identity, child_count: 0 });
    bases.push(base);
    proof {
        let after = row_names(items@, labels@, n + 1);
        assert(after.drop_last() =~= names);
        lemma_no_children_yet(items@, n + 1, n as usize);
        assert forall|k: int| 0 <= k < n + 1 implies {
            let row = #[trigger] rows@[k];
            &&& row.item == items@[k]
            &&& row.label@ == labels@[k]
            &&& row.identity@ == after[k].identity
            &&& row.child_count == children(items@, n + 1, k as usize)
        } by {
            if k < n {
                assert(rows@[k] == middle[k]);
                assert(before[k].item == items@[k]);
                assert(after[k] == names[k]);
            }
        }
    }
}

impl OutlineTree {
    /// Makes the rows of an outline, in document order, which is preorder.
    pub fn build(
        snapshot: &TextBuffer,
        outline: &OutlineSnapshot,
        blocks: &[PanelBlock],
    ) -> (r: Result<OutlineTree, PanelError>)
        requires
            blocks_wf(snapshot.text@, blocks@),
            linked(outline.items@),
        ensures
            match outline_error(snapshot.text@, blocks@, outline.items@, 0) {
                Some(error) => r == Err::<OutlineTree, PanelError>(error),
                None => r is Ok && r->Ok_0.revision == outline.revision && rows_show(
                    r->Ok_0.rows@,
                    outline.items@,
                    labels_of(snapshot.text@, blocks@, outline.items@),
                    outline.items@.len() as int,
                ),
            },
    {
        let text = snapshot.as_str();
        let ghost labels = labels_of(text@, blocks@, outline.items@);
        let mut rows: Vec<OutlineRow> = Vec::new();
        let mut bases: Vec<String> = Vec::new();
        let count = outline.items.len();
        let mut i: usize = 0;
        while i < count
            invariant
                i <= count == outline.items@.len(),
                text@ == snapshot.text@,
                labels == labels_of(text@, blocks@, outline.items@),
                blocks_wf(text@, blocks@),
                linked(outline.items@),
                outline_error(text@, blocks@, outline.items@, i as int) == outline_error(
                    snapshot.text@,
                    blocks@,
                    outline.items@,
                    0,
                ),
                rows_show(rows@, outline.items@, labels, i as int),
                bases@.len() == i,
                forall|k: int|
                    0 <= k < i ==> (#[trigger] bases@[k])@ == row_names(
                        outline.items@,
                        labels,
                        i as int,
                    )[k].base,
            decreases count - i,
        {
            let item = outline.items[i];
            let label = match visible_source(text, blocks, item.block, item.label_range) {
                Ok(raw) => fold_lines(raw.as_str()),
                Err(error) => return Err(error),
            };
            assert(label@ == labels[i as int]);
            add_row(&mut rows, &mut bases, item, label, Ghost(outline.items@), Ghost(labels));
            i += 1;
        }
        Ok(OutlineTree { revision: outline.revision(), rows })
    }

    /// The revision that the rows show.
    pub fn revision(&self) -> (r: Revision)
        ensures
            r == self.revision,
    {
        self.revision
    }

    /// All rows, in preorder.
    pub fn rows(&self) -> (r: &[OutlineRow])
        ensures
            r@ == self.rows@,
    {
        self.rows.as_slice()
    }
}

/// Different numbers are written differently.
proof fn lemma_decimal_injective(a: nat, b: nat)
    requires
        decimal(a) == decimal(b),
    ensures
        a == b,
    decreases a,
{
    lemma_decimal_not_empty(a / 10);
    lemma_decimal_not_empty(b / 10);
    assert(decimal(a).last() == digit(a % 10)) by {
        if a < 10 {
            assert(a % 10 == a);
        }
    }
    assert(decimal(b).last() == digit(b % 10)) by {
        if b < 10 {
            assert(b % 10 == b);
        }
    }
    if a >= 10 && b >= 10 {
        assert(decimal(a).drop_last() =~= decimal(a / 10));
        assert(decimal(b).drop_last() =~= decimal(b / 10));
        lemma_decimal_injective(a / 10, b / 10);
    } else if a >= 10 {
        assert(decimal(a).len() >= 2);
        assert(decimal(b).len() == 1);
    } else if b >= 10 {
        assert(decimal(b).len() >= 2);
        assert(decimal(a).len() == 1);
    }
}

proof fn lemma_decimal_not_empty(value: nat)
    ensures
        decimal(value).len() >= 1,
{
}

/// The last separator of an identity parts the base from the number.
proof fn lemma_identity_parts(a: Seq<char>, b: Seq<char>, m: nat, n: nat)
    requires
        a.push(IDENTITY_SEPARATOR) + decimal(m) == b.push(IDENTITY_SEPARATOR) + decimal(n),
    ensures
        a == b,
        m == n,
{
    let left = a.push(IDENTITY_SEPARATOR) + decimal(m);
    let right = b.push(IDENTITY_SEPARATOR) + decimal(n);
    assert(left.len() == a.len() + 1 + decimal(m).len());
    assert(right.len() == b.len() + 1 + decimal(n).len());
    if a.len() < b.len() {
        let k = b.len() as int;
        assert(right[k] == IDENTITY_SEPARATOR);
        assert(left[k] == decimal(m)[k - a.len() - 1]);
        lemma_decimal_digits(m, k - a.len() - 1);
    } else if b.len() < a.len() {
        let k = a.len() as int;
        assert(left[k] == IDENTITY_SEPARATOR);
        assert(right[k] == decimal(n)[k - b.len() - 1]);
        lemma_decimal_digits(n, k - b.len() - 1);
    } else {
        assert(left.take(a.len() as int) =~= a);
        assert(right.take(b.len() as int) =~= b);
        assert(left.skip(a.len() as int + 1) =~= decimal(m));
        assert(right.skip(b.len() as int + 1) =~= decimal(n));
        lemma_decimal_injective(m, n);
    }
}

/// A longer list of rows has no fewer rows of one base.
proof fn lemma_same_base_grows(rows: Seq<RowName>, count: int, base: Seq<char>)
    requires
        0 <= count <= rows.len(),
    ensures
        same_base(rows.take(count), base) <= same_base(rows, base),
    decreases rows.len() - count,
{
    if count < rows.len() {
        lemma_same_base_grows(rows, count + 1, base);
        assert(rows.take(count + 1).drop_last() =~= rows.take(count));
    } else {
        assert(rows.take(count) =~= rows);
    }
}

/// The names of fewer rows are the first of the names of more.
proof fn lemma_row_names_prefix(
    items: Seq<OutlineItem>,
    labels: Seq<Seq<char>>,
    fewer: int,
    count: int,
)
    requires
        0 <= fewer <= count,
    ensures
        row_names(items, labels, count).len() == count,
        row_names(items, labels, count).take(fewer) == row_names(items, labels, fewer),
    decreases count,
{
    lemma_row_names_len(items, labels, count);
    lemma_row_names_len(items, labels, fewer);
    if fewer < count {
        lemma_row_names_prefix(items, labels, fewer, count - 1);
        assert(row_names(items, labels, count).take(fewer) =~= row_names(
            items,
            labels,
            count - 1,
        ).take(fewer));
    } else {
        assert(row_names(items, labels, count).take(fewer) =~= row_names(items, labels, fewer));
    }
}

/// No two rows of an outline have the same identity.
pub proof fn law_identities_differ(
    items: Seq<OutlineItem>,
    labels: Seq<Seq<char>>,
    count: int,
    i: int,
    j: int,
)
    requires
        0 <= i < j < count,
    ensures
        row_names(items, labels, count).len() == count,
        row_names(items, labels, count)[i].identity != row_names(items, labels, count)[j].identity,
{
    let all = row_names(items, labels, count);
    lemma_row_names_prefix(items, labels, i, count);
    lemma_row_names_prefix(items, labels, i + 1, count);
    lemma_row_names_prefix(items, labels, j, count);
    lemma_row_names_prefix(items, labels, j + 1, count);
    let before_i = row_names(items, labels, i);
    let before_j = row_names(items, labels, j);
    assert(all[i] == all.take(i + 1)[i]);
    assert(all[j] == all.take(j + 1)[j]);
    let a = all[i].base;
    let b = all[j].base;
    assert(all[i].identity == a.push(IDENTITY_SEPARATOR) + decimal(same_base(before_i, a)));
    assert(all[j].identity == b.push(IDENTITY_SEPARATOR) + decimal(same_base(before_j, b)));
    if all[i].identity == all[j].identity {
        lemma_identity_parts(a, b, same_base(before_i, a), same_base(before_j, b));
        let through_i = row_names(items, labels, i + 1);
        assert(through_i.drop_last() =~= before_i);
        assert(through_i.last() == all[i]);
        assert(before_j.take(i + 1) =~= all.take(i + 1));
        lemma_same_base_grows(before_j, i + 1, a);
    }
}

/// The rows' child counts, in preorder, say the whole tree: two outlines in which
/// every row has as many children have the same parents.
pub proof fn law_child_counts_restore_the_tree(a: Seq<OutlineItem>, b: Seq<OutlineItem>, i: int)
    requires
        linked(a),
        linked(b),
        a.len() == b.len() <= usize::MAX,
        forall|p: usize|
            p < a.len() ==> #[trigger] children(a, a.len() as int, p) == children(
                b,
                b.len() as int,
                p,
            ),
        0 <= i < a.len(),
    ensures
        a[i].parent == b[i].parent,
    decreases i,
{
    assert forall|k: int| 0 <= k < i implies #[trigger] a[k].parent == b[k].parent by {
        law_child_counts_restore_the_tree(a, b, k);
    }
    lemma_parent_before(a, i);
    lemma_parent_before(b, i);
    if a[i].parent != b[i].parent {
        if a[i].parent is Some && (b[i].parent is None || b[i].parent->Some_0
            < a[i].parent->Some_0) {
            lemma_leaving_closes(a, b, i);
        } else {
            assert(b[i].parent is Some);
            lemma_leaving_closes(b, a, i);
        }
    }
}

/// Where `b` puts item `i` further up than `a` does, the row that `a` puts it under
/// has fewer children in `b`.
proof fn lemma_leaving_closes(a: Seq<OutlineItem>, b: Seq<OutlineItem>, i: int)
    requires
        linked(a),
        linked(b),
        a.len() == b.len() <= usize::MAX,
        0 <= i < a.len(),
        forall|k: int| 0 <= k < i ==> #[trigger] a[k].parent == b[k].parent,
        a[i].parent matches Some(p) && p < i,
        b[i].parent matches Some(q) ==> q < a[i].parent->Some_0,
    ensures
        children(a, a.len() as int, a[i].parent->Some_0) > children(
            b,
            b.len() as int,
            a[i].parent->Some_0,
        ),
{
    let p = a[i].parent->Some_0;
    lemma_same_children(a, b, i, p);
    lemma_children_grow(a, i + 1, a.len() as int, p);
    assert forall|k: int| i <= k < b.len() implies #[trigger] b[k].parent != Some(p) by {
        if k > i && b[k].parent == Some(p) {
            crate::outline::law_outline_is_preorder(b, k, i);
        }
    }
    lemma_no_more_children(b, i, b.len() as int, p);
}

proof fn lemma_same_children(a: Seq<OutlineItem>, b: Seq<OutlineItem>, count: int, p: usize)
    requires
        0 <= count <= a.len() == b.len(),
        forall|k: int| 0 <= k < count ==> #[trigger] a[k].parent == b[k].parent,
    ensures
        children(a, count, p) == children(b, count, p),
    decreases count,
{
    if count > 0 {
        lemma_same_children(a, b, count - 1, p);
        assert(a[count - 1].parent == b[count - 1].parent);
    }
}

proof fn lemma_children_grow(items: Seq<OutlineItem>, fewer: int, count: int, p: usize)
    requires
        0 <= fewer <= count,
    ensures
        children(items, fewer, p) <= children(items, count, p),
    decreases count - fewer,
{
    if fewer < count {
        lemma_children_grow(items, fewer, count - 1, p);
    }
}

proof fn lemma_no_more_children(items: Seq<OutlineItem>, from: int, count: int, p: usize)
    requires
        0 <= from <= count <= items.len(),
        forall|k: int| from <= k < count ==> #[trigger] items[k].parent != Some(p),
    ensures
        children(items, count, p) == children(items, from, p),
    decreases count - from,
{
    if from < count {
        lemma_no_more_children(items, from, count - 1, p);
        assert(items[count - 1].parent != Some(p));
    }
}

/// A line of the search results.
#[derive(Debug)]
pub struct SearchRow {
    pub hit: TextRange,
    pub block: usize,
    pub block_range: TextRange,
    pub context: TextRange,
    pub label: String,
}

impl SearchRow {
    /// The match. Choosing the row selects it.
    pub fn hit(&self) -> (r: TextRange)
        ensures
            r == self.hit,
    {
        self.hit
    }

    /// The block that holds the match.
    pub fn block(&self) -> (r: usize)
        ensures
            r == self.block,
    {
        self.block
    }

    /// The range of that block.
    pub fn block_range(&self) -> (r: TextRange)
        ensures
            r == self.block_range,
    {
        self.block_range
    }

    /// The source that the label shows: the line of the match, cut to the block.
    pub fn context(&self) -> (r: TextRange)
        ensures
            r == self.context,
    {
        self.context
    }

    /// The context on one line, without what the editor hides and without white
    /// space at its ends.
    pub fn label(&self) -> (r: &str)
        ensures
            r@ == self.label@,
    {
        self.label.as_str()
    }
}

/// Why a hit in block `owner` cannot be shown.
pub open spec fn hit_error(
    text: Seq<char>,
    blocks: Seq<PanelBlock>,
    hit: TextRange,
    owner: Option<usize>,
) -> Option<PanelError> {
    match owner {
        Some(block) if block < blocks.len() => match position_error(text, hit.start) {
            Some(error) => Some(PanelError::Position(error)),
            None => source_error(
                text,
                blocks,
                block,
                context_of(text, hit, blocks[block as int].range),
            ),
        },
        _ => Some(PanelError::OrphanMatch(hit)),
    }
}

/// Whether `row` shows a hit in block `owner`.
pub open spec fn row_shows(
    row: SearchRow,
    text: Seq<char>,
    blocks: Seq<PanelBlock>,
    hit: TextRange,
    owner: Option<usize>,
) -> bool {
    &&& row.hit == hit
    &&& owner == Some(row.block)
    &&& row.block_range == blocks[row.block as int].range
    &&& row.context == context_of(text, hit, row.block_range)
    &&& row.label@ == folded(trimmed(source_of(text, blocks, row.block, row.context)))
}

/// The block of match number `k`.
pub open spec fn owner_of(owners: Seq<Option<usize>>, k: int) -> Option<usize> {
    if 0 <= k < owners.len() {
        owners[k]
    } else {
        None
    }
}

/// What stops the rows of the hits from `from` on.
pub open spec fn hits_error(
    text: Seq<char>,
    blocks: Seq<PanelBlock>,
    hits: Seq<TextRange>,
    owners: Seq<Option<usize>>,
    from: int,
) -> Option<PanelError>
    decreases hits.len() - from,
{
    if from < 0 || from >= hits.len() {
        None
    } else {
        match hit_error(text, blocks, hits[from], owner_of(owners, from)) {
            Some(error) => Some(error),
            None => hits_error(text, blocks, hits, owners, from + 1),
        }
    }
}

/// The hits of a search, none where nothing is searched for.
pub open spec fn hits_of(search: Option<&SearchState>) -> Seq<TextRange> {
    match search {
        Some(state) => state.matches@,
        None => Seq::empty(),
    }
}

/// Makes the row of one hit.
fn search_row(
    snapshot: &TextBuffer,
    blocks: &[PanelBlock],
    hit: TextRange,
    owner: Option<usize>,
) -> (r: Result<SearchRow, PanelError>)
    requires
        blocks_wf(snapshot.text@, blocks@),
    ensures
        match hit_error(snapshot.text@, blocks@, hit, owner) {
            Some(error) => r == Err::<SearchRow, PanelError>(error),
            None => r is Ok && row_shows(r->Ok_0, snapshot.text@, blocks@, hit, owner),
        },
{
    let block = match owner {
        Some(block) => block,
        None => return Err(PanelError::OrphanMatch(hit)),
    };
    if block >= blocks.len() {
        return Err(PanelError::OrphanMatch(hit));
    }
    let block_range = blocks[block].range;
    let context = match context_range(snapshot, hit, block_range) {
        Ok(context) => context,
        Err(error) => return Err(error),
    };
    match visible_source(snapshot.as_str(), blocks, block, context) {
        Ok(raw) => {
            let inner = trim_text(raw.as_str());
            let label = fold_lines(inner.as_str());
            Ok(SearchRow { hit, block, block_range, context, label })
        },
        Err(error) => Err(error),
    }
}

/// The search panel of one revision.
#[derive(Debug)]
pub struct SearchResults {
    pub revision: Revision,
    pub rows: Vec<SearchRow>,
}

impl SearchResults {
    /// Makes a row for every match. `owners` holds the block of each match.
    pub fn build(
        snapshot: &TextBuffer,
        search: Option<&SearchState>,
        owners: &[Option<usize>],
        blocks: &[PanelBlock],
    ) -> (r: Result<SearchResults, PanelError>)
        requires
            blocks_wf(snapshot.text@, blocks@),
        ensures
            match hits_error(snapshot.text@, blocks@, hits_of(search), owners@, 0) {
                Some(error) => r == Err::<SearchResults, PanelError>(error),
                None => r is Ok && r->Ok_0.revision == snapshot.revision && r->Ok_0.rows@.len()
                    == hits_of(search).len() && forall|k: int|
                    0 <= k < hits_of(search).len() ==> row_shows(
                        #[trigger] r->Ok_0.rows@[k],
                        snapshot.text@,
                        blocks@,
                        hits_of(search)[k],
                        owner_of(owners@, k),
                    ),
            },
    {
        let mut rows: Vec<SearchRow> = Vec::new();
        let state = match search {
            Some(state) => state,
            None => return Ok(SearchResults { revision: snapshot.revision(), rows }),
        };
        let count = state.matches.len();
        let mut i: usize = 0;
        while i < count
            invariant
                i <= count == state.matches@.len(),
                search == Some(state),
                blocks_wf(snapshot.text@, blocks@),
                hits_error(snapshot.text@, blocks@, state.matches@, owners@, i as int)
                    == hits_error(snapshot.text@, blocks@, state.matches@, owners@, 0),
                rows@.len() == i,
                forall|k: int|
                    0 <= k < i ==> row_shows(
                        #[trigger] rows@[k],
                        snapshot.text@,
                        blocks@,
                        state.matches@[k],
                        owner_of(owners@, k),
                    ),
            decreases count - i,
        {
            let owner = if i < owners.len() {
                owners[i]
            } else {
                None
            };
            match search_row(snapshot, blocks, state.matches[i], owner) {
                Ok(row) => rows.push(row),
                Err(error) => return Err(error),
            }
            i += 1;
        }
        Ok(SearchResults { revision: snapshot.revision(), rows })
    }

    /// The revision that the rows show.
    pub fn revision(&self) -> (r: Revision)
        ensures
            r == self.revision,
    {
        self.revision
    }

    /// All rows, in document order, one for each match.
    pub fn rows(&self) -> (r: &[SearchRow])
        ensures
            r@ == self.rows@,
    {
        self.rows.as_slice()
    }
}

/// What is shown of a hit is the part of its line that lies in its block: every byte before
/// the hit on its line, no line feed among them, and every byte behind it up to the line
/// feed, which is the last. `at` is any byte.
pub proof fn law_context_is_the_line_of_the_hit(
    text: Seq<char>,
    hit: TextRange,
    block: TextRange,
    at: int,
)
    requires
        hit.start.value <= byte_len(text) <= u64::MAX,
        block.start.value <= block.end.value,
        0 <= at < byte_len(text),
        block.start.value <= at < block.end.value,
    ensures
        ({
            let context = context_of(text, hit, block);
            let shown = context.start.value <= at < context.end.value;
            let bytes = encode_utf8(text);
            let start = hit.start.value as int;
            &&& shown <==> if at < start {
                forall|k: int| at <= k < start ==> (#[trigger] bytes[k]) != 10
            } else {
                forall|k: int| start <= k < at ==> (#[trigger] bytes[k]) != 10
            }
        }),
{
    let bytes = encode_utf8(text);
    let start = hit.start.value as int;
    lemma_line_start(bytes, start);
    lemma_line_end(bytes, start);
    let from = line_start(bytes, start);
    let to = line_end(bytes, start);
    if at < from {
        assert(bytes[from - 1] == 10);
    }
    if at >= to {
        assert(bytes[to - 1] == 10);
    }
}

proof fn lemma_line_start(bytes: Seq<u8>, at: int)
    requires
        0 <= at <= bytes.len(),
    ensures
        0 <= line_start(bytes, at) <= at,
        line_start(bytes, at) > 0 ==> bytes[line_start(bytes, at) - 1] == 10,
        forall|k: int| line_start(bytes, at) <= k < at ==> (#[trigger] bytes[k]) != 10,
    decreases at,
{
    if at > 0 && bytes[at - 1] != 10 {
        lemma_line_start(bytes, at - 1);
    }
}

proof fn lemma_line_end(bytes: Seq<u8>, at: int)
    requires
        0 <= at <= bytes.len(),
    ensures
        at <= line_end(bytes, at) <= bytes.len(),
        line_end(bytes, at) < bytes.len() ==> line_end(bytes, at) > at && bytes[line_end(bytes, at)
            - 1] == 10,
        forall|k: int| at <= k < line_end(bytes, at) - 1 ==> (#[trigger] bytes[k]) != 10,
    decreases bytes.len() - at,
{
    if at < bytes.len() && bytes[at] != 10 {
        lemma_line_end(bytes, at + 1);
    }
}

} // verus!
