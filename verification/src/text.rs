//! Byte-addressed views of UTF-8 text.
//!
//! Text is modelled as a sequence of characters. Offsets count bytes of its
//! UTF-8 encoding and address character boundaries.
use vstd::prelude::*;
use vstd::string::*;
use vstd::utf8::*;

verus! {

/// Whether `offset` lies between two characters of `text`, or at either end.
pub open spec fn boundary(text: Seq<char>, offset: int) -> bool {
    is_char_boundary(encode_utf8(text), offset)
}

/// The number of bytes in the encoding of `text`.
pub open spec fn byte_len(text: Seq<char>) -> int {
    encode_utf8(text).len() as int
}

/// The characters encoded by the bytes from `start` up to `end`.
pub open spec fn span(text: Seq<char>, start: int, end: int) -> Seq<char> {
    decode_utf8(encode_utf8(text).subrange(start, end))
}

/// Whether `start..end` can be sliced out of `text`.
pub open spec fn sliceable(text: Seq<char>, start: int, end: int) -> bool {
    start <= end && boundary(text, start) && boundary(text, end)
}

/// The encoding of a concatenation is the concatenation of the encodings.
pub proof fn lemma_encode_concat(a: Seq<char>, b: Seq<char>)
    ensures
        encode_utf8(a + b) == encode_utf8(a) + encode_utf8(b),
    decreases a.len(),
{
    if a.len() == 0 {
        assert(a + b =~= b);
        assert(encode_utf8(a) + encode_utf8(b) =~= encode_utf8(b));
    } else {
        lemma_encode_concat(a.drop_first(), b);
        assert((a + b).drop_first() =~= a.drop_first() + b);
        assert(encode_utf8(a + b) =~= encode_utf8(a) + encode_utf8(b));
    }
}

/// A boundary lies inside the encoded text.
pub proof fn lemma_boundary_bounds(text: Seq<char>, offset: int)
    requires
        boundary(text, offset),
    ensures
        0 <= offset <= byte_len(text),
{
    encode_utf8_valid_utf8(text);
}

/// Both ends of a text are boundaries.
pub proof fn lemma_boundary_ends(text: Seq<char>)
    ensures
        boundary(text, 0),
        boundary(text, byte_len(text)),
{
    encode_utf8_valid_utf8(text);
    is_char_boundary_start_end_of_seq(encode_utf8(text));
}

/// A boundary of a text stays one in every prefix that ends at a later boundary.
proof fn lemma_prefix_boundary(bytes: Seq<u8>, a: int, b: int)
    requires
        valid_utf8(bytes),
        is_char_boundary(bytes, a),
        is_char_boundary(bytes, b),
        a <= b,
    ensures
        valid_utf8(bytes.subrange(0, b)),
        is_char_boundary(bytes.subrange(0, b), a),
{
    valid_utf8_split(bytes, b);
    let prefix = bytes.subrange(0, b);
    if a == b {
        is_char_boundary_start_end_of_seq(prefix);
    } else {
        is_char_boundary_iff_not_is_continuation_byte(bytes, a);
        is_char_boundary_iff_not_is_continuation_byte(prefix, a);
    }
}

/// A text has no more characters than bytes.
pub proof fn lemma_chars_fit(text: Seq<char>)
    ensures
        text.len() <= byte_len(text),
    decreases text.len(),
{
    if text.len() > 0 {
        lemma_chars_fit(text.drop_first());
    }
}

/// Slicing and then encoding gives back the sliced bytes.
pub proof fn lemma_span_bytes(text: Seq<char>, start: int, end: int)
    requires
        sliceable(text, start, end),
    ensures
        valid_utf8(encode_utf8(text).subrange(start, end)),
        encode_utf8(span(text, start, end)) == encode_utf8(text).subrange(start, end),
        byte_len(span(text, start, end)) == end - start,
{
    let bytes = encode_utf8(text);
    encode_utf8_valid_utf8(text);
    lemma_boundary_bounds(text, start);
    lemma_boundary_bounds(text, end);
    lemma_prefix_boundary(bytes, start, end);
    let prefix = bytes.subrange(0, end);
    valid_utf8_split(prefix, start);
    assert(prefix.subrange(start, prefix.len() as int) =~= bytes.subrange(start, end));
    decode_utf8_encode_utf8(bytes.subrange(start, end));
}

/// Adjacent slices join.
pub proof fn lemma_span_join(text: Seq<char>, a: int, b: int, c: int)
    requires
        sliceable(text, a, b),
        sliceable(text, b, c),
    ensures
        span(text, a, b) + span(text, b, c) == span(text, a, c),
{
    lemma_span_bytes(text, a, b);
    lemma_span_bytes(text, b, c);
    lemma_span_bytes(text, a, c);
    lemma_boundary_bounds(text, a);
    lemma_boundary_bounds(text, c);
    let joined = span(text, a, b) + span(text, b, c);
    lemma_encode_concat(span(text, a, b), span(text, b, c));
    assert(encode_utf8(joined) =~= encode_utf8(text).subrange(a, c));
    encode_utf8_decode_utf8(joined);
    encode_utf8_decode_utf8(span(text, a, c));
}

/// The slice from start to end is the text itself.
pub proof fn lemma_span_whole(text: Seq<char>)
    ensures
        span(text, 0, byte_len(text)) == text,
{
    assert(encode_utf8(text).subrange(0, byte_len(text)) =~= encode_utf8(text));
    encode_utf8_decode_utf8(text);
}

/// An empty slice holds no character.
pub proof fn lemma_span_empty(text: Seq<char>, at: int)
    requires
        boundary(text, at),
    ensures
        span(text, at, at) == Seq::<char>::empty(),
{
    lemma_boundary_bounds(text, at);
    assert(encode_utf8(text).subrange(at, at) =~= Seq::<u8>::empty());
    encode_utf8_decode_utf8(Seq::<char>::empty());
    assert(encode_utf8(Seq::<char>::empty()) =~= Seq::<u8>::empty());
}

/// Two texts with the same encoding are the same text.
pub proof fn lemma_encode_injective(a: Seq<char>, b: Seq<char>)
    requires
        encode_utf8(a) == encode_utf8(b),
    ensures
        a == b,
{
    encode_utf8_decode_utf8(a);
    encode_utf8_decode_utf8(b);
}

/// Slicing `left + right` at the seam gives both parts back.
pub proof fn lemma_span_seam(left: Seq<char>, right: Seq<char>)
    ensures
        boundary(left + right, byte_len(left)),
        byte_len(left + right) == byte_len(left) + byte_len(right),
        span(left + right, 0, byte_len(left)) == left,
        span(left + right, byte_len(left), byte_len(left + right)) == right,
{
    let bytes = encode_utf8(left + right);
    lemma_encode_concat(left, right);
    encode_utf8_valid_utf8(left);
    encode_utf8_valid_utf8(right);
    encode_utf8_valid_utf8(left + right);
    if right.len() == 0 {
        assert(encode_utf8(right) =~= Seq::<u8>::empty());
        assert(encode_utf8(left) + encode_utf8(right) =~= encode_utf8(left));
        is_char_boundary_start_end_of_seq(bytes);
    } else {
        encode_utf8_first_scalar(right);
        assert(encode_utf8(right).len() > 0);
        assert(bytes[byte_len(left)] == encode_utf8(right)[0]);
        is_char_boundary_start_end_of_seq(encode_utf8(right));
        is_char_boundary_iff_not_is_continuation_byte(encode_utf8(right), 0);
        is_char_boundary_iff_not_is_continuation_byte(bytes, byte_len(left));
    }
    assert(bytes.subrange(0, byte_len(left)) =~= encode_utf8(left));
    assert(bytes.subrange(byte_len(left), byte_len(left + right)) =~= encode_utf8(right));
    encode_utf8_decode_utf8(left);
    encode_utf8_decode_utf8(right);
}

/// Slicing `left + middle + right` at the two seams gives the middle back.
pub proof fn lemma_span_middle(left: Seq<char>, middle: Seq<char>, right: Seq<char>)
    ensures
        sliceable(left + middle + right, byte_len(left), byte_len(left + middle)),
        span(left + middle + right, byte_len(left), byte_len(left + middle)) == middle,
        byte_len(left + middle) == byte_len(left) + byte_len(middle),
        byte_len(left + middle) <= byte_len(left + middle + right),
{
    let both = left + middle;
    lemma_span_seam(both, right);
    lemma_span_seam(left, middle);
    lemma_boundary_left(both, right, byte_len(left));
    let a = byte_len(left);
    let b = byte_len(both);
    assert(encode_utf8(both + right).subrange(a, b) =~= encode_utf8(both).subrange(a, b)) by {
        lemma_encode_concat(both, right);
    }
}

/// The number of bytes in `text`.
pub fn text_len(text: &str) -> (r: usize)
    ensures
        r == byte_len(text@),
{
    text.as_bytes().len()
}

/// Slices `text` between two boundaries.
pub fn slice(text: &str, start: usize, end: usize) -> (r: &str)
    requires
        sliceable(text@, start as int, end as int),
    ensures
        r@ == span(text@, start as int, end as int),
{
    proof {
        encode_utf8_valid_utf8(text@);
        lemma_boundary_bounds(text@, end as int);
        lemma_prefix_boundary(encode_utf8(text@), start as int, end as int);
    }
    let prefix = text.split_at(end).0;
    let part = prefix.split_at(start).1;
    proof {
        assert(part.spec_bytes() =~= encode_utf8(text@).subrange(start as int, end as int));
        encode_utf8_decode_utf8(part@);
    }
    part
}

/// Slices `text`, or gives `None` where the range is out of order, out of
/// bounds or splits a character.
pub fn get(text: &str, start: usize, end: usize) -> (r: Option<&str>)
    ensures
        r matches Some(part) ==> part@ == span(text@, start as int, end as int),
        r is Some <==> sliceable(text@, start as int, end as int),
{
    if start <= end && text.is_char_boundary(start) && text.is_char_boundary(end) {
        Some(slice(text, start, end))
    } else {
        None
    }
}

/// Whether two texts hold the same characters.
pub fn same_text(a: &str, b: &str) -> (r: bool)
    ensures
        r == (a@ == b@),
{
    let left = a.as_bytes();
    let right = b.as_bytes();
    if left.len() != right.len() {
        return false;
    }
    let mut i: usize = 0;
    while i < left.len()
        invariant
            left@ == encode_utf8(a@),
            right@ == encode_utf8(b@),
            left@.len() == right@.len(),
            i <= left@.len(),
            forall|k: int| 0 <= k < i ==> left@[k] == right@[k],
        decreases left@.len() - i,
    {
        if left[i] != right[i] {
            return false;
        }
        i += 1;
    }
    proof {
        assert(left@ =~= right@);
        lemma_encode_injective(a@, b@);
    }
    true
}

/// Whether `wanted` occurs in `text`.
pub fn contains_char(text: &str, wanted: char) -> (r: bool)
    ensures
        r == text@.contains(wanted),
{
    let chars = chars_of(text);
    let mut i: usize = 0;
    while i < chars.len()
        invariant
            chars@ == text@,
            i <= chars@.len(),
            forall|k: int| 0 <= k < i ==> chars@[k] != wanted,
        decreases chars@.len() - i,
    {
        if chars[i] == wanted {
            assert(text@[i as int] == wanted);
            return true;
        }
        i += 1;
    }
    false
}

/// The characters of `text`.
pub fn chars_of(text: &str) -> (r: Vec<char>)
    ensures
        r@ == text@,
{
    let mut out: Vec<char> = Vec::new();
    for c in it: text.chars()
        invariant
            it.seq() == text@,
            out@ == text@.take(it.index()),
    {
        out.push(c);
    }
    assert(text@.take(text@.len() as int) =~= text@);
    out
}

/// `String::push` appends one character.
pub assume_specification[ String::push ](s: &mut String, c: char)
    ensures
        final(s)@ == old(s)@.push(c),
;

/// `String::push_str` appends the characters of `other`.
pub assume_specification[ String::push_str ](s: &mut String, other: &str)
    ensures
        final(s)@ == old(s)@ + other@,
;

/// Builds a text out of its characters.
pub fn string_of(chars: &[char], start: usize, end: usize) -> (r: String)
    requires
        start <= end <= chars@.len(),
    ensures
        r@ == chars@.subrange(start as int, end as int),
{
    let mut out = String::new();
    let mut i: usize = start;
    while i < end
        invariant
            start <= i <= end <= chars@.len(),
            out@ == chars@.subrange(start as int, i as int),
        decreases end - i,
    {
        out.push(chars[i]);
        i += 1;
        assert(out@ =~= chars@.subrange(start as int, i as int));
    }
    out
}

/// `text` without the `trimmed` characters at its two ends.
pub open spec fn trim_char(text: Seq<char>, trimmed: char) -> Seq<char>
    decreases text.len(),
{
    if text.len() > 0 && text[0] == trimmed {
        trim_char(text.drop_first(), trimmed)
    } else if text.len() > 0 && text.last() == trimmed {
        trim_char(text.drop_last(), trimmed)
    } else {
        text
    }
}

/// The characters before the first `stop`, or all where there is none.
pub open spec fn before_char(text: Seq<char>, stop: char) -> Seq<char>
    decreases text.len(),
{
    if text.len() == 0 || text[0] == stop {
        Seq::empty()
    } else {
        seq![text[0]] + before_char(text.drop_first(), stop)
    }
}

/// Whether a carriage return stands directly before a line feed somewhere.
pub open spec fn has_crlf(text: Seq<char>) -> bool {
    exists|k: int| 0 <= k < text.len() - 1 && #[trigger] text[k] == '\r' && text[k + 1] == '\n'
}

/// The line ending that `text` uses.
pub open spec fn line_ending(text: Seq<char>) -> Seq<char> {
    if has_crlf(text) {
        "\r\n"@
    } else {
        "\n"@
    }
}

/// `count` copies of `unit`.
pub open spec fn repeated(unit: Seq<char>, count: nat) -> Seq<char>
    decreases count,
{
    if count == 0 {
        Seq::empty()
    } else {
        repeated(unit, (count - 1) as nat) + unit
    }
}

/// Whether `text` ends in a line feed.
pub open spec fn ends_line(text: Seq<char>) -> bool {
    text.len() > 0 && text.last() == '\n'
}

/// `text` without the `trimmed` characters at its two ends.
pub fn trim_matches(text: &str, trimmed: char) -> (r: String)
    ensures
        r@ == trim_char(text@, trimmed),
{
    let chars = chars_of(text);
    let mut start: usize = 0;
    assert(chars@.subrange(0, chars@.len() as int) =~= chars@);
    while start < chars.len() && chars[start] == trimmed
        invariant
            start <= chars@.len(),
            trim_char(chars@.subrange(start as int, chars@.len() as int), trimmed) == trim_char(
                chars@,
                trimmed,
            ),
        decreases chars@.len() - start,
    {
        assert(chars@.subrange(start as int, chars@.len() as int).drop_first() =~= chars@.subrange(
            start + 1,
            chars@.len() as int,
        ));
        start += 1;
    }
    let mut end: usize = chars.len();
    while end > start && chars[end - 1] == trimmed
        invariant
            start <= end <= chars@.len(),
            start < end ==> chars@[start as int] != trimmed,
            trim_char(chars@.subrange(start as int, end as int), trimmed) == trim_char(
                chars@,
                trimmed,
            ),
        decreases end,
    {
        assert(chars@.subrange(start as int, end as int).drop_last() =~= chars@.subrange(
            start as int,
            end - 1,
        ));
        end -= 1;
    }
    string_of(chars.as_slice(), start, end)
}

/// The characters before the first `stop`, or all where there is none.
pub fn up_to_char(text: &str, stop: char) -> (r: String)
    ensures
        r@ == before_char(text@, stop),
{
    let chars = chars_of(text);
    let mut out = String::new();
    let mut i: usize = 0;
    assert(chars@.skip(0) =~= chars@);
    assert(out@ + before_char(chars@, stop) =~= before_char(chars@, stop));
    while i < chars.len() && chars[i] != stop
        invariant
            i <= chars@.len(),
            out@ + before_char(chars@.skip(i as int), stop) == before_char(chars@, stop),
        decreases chars@.len() - i,
    {
        let ghost before = out@;
        out.push(chars[i]);
        assert(chars@.skip(i as int).drop_first() =~= chars@.skip(i + 1));
        assert(out@ + before_char(chars@.skip(i + 1), stop) =~= before + before_char(
            chars@.skip(i as int),
            stop,
        ));
        i += 1;
    }
    assert(before_char(chars@.skip(i as int), stop) =~= Seq::empty());
    assert(out@ + Seq::<char>::empty() =~= out@);
    out
}

/// The line ending that `text` uses.
pub fn line_ending_of(text: &str) -> (r: &'static str)
    ensures
        r@ == line_ending(text@),
{
    let chars = chars_of(text);
    let mut i: usize = 1;
    while i < chars.len()
        invariant
            chars@ == text@,
            1 <= i,
            i <= chars@.len() || chars@.len() == 0,
            forall|k: int|
                0 <= k < i - 1 && k < chars@.len() - 1 ==> !(#[trigger] text@[k] == '\r' && text@[k
                    + 1] == '\n'),
        decreases chars@.len() - i,
    {
        if chars[i - 1] == '\r' && chars[i] == '\n' {
            assert(text@[i - 1] == '\r');
            return "\r\n";
        }
        i += 1;
    }
    "\n"
}

/// Whether `text` ends in a line feed.
pub fn ends_with_newline(text: &str) -> (r: bool)
    ensures
        r == ends_line(text@),
{
    let chars = chars_of(text);
    chars.len() > 0 && chars[chars.len() - 1] == '\n'
}

/// Appends `count` copies of `unit`.
pub fn push_repeated(out: &mut String, unit: &str, count: usize)
    ensures
        final(out)@ == old(out)@ + repeated(unit@, count as nat),
{
    let mut i: usize = 0;
    assert(out@ =~= out@ + repeated(unit@, 0));
    while i < count
        invariant
            i <= count,
            out@ == old(out)@ + repeated(unit@, i as nat),
        decreases count - i,
    {
        out.push_str(unit);
        i += 1;
        assert(out@ =~= old(out)@ + repeated(unit@, i as nat));
    }
}

/// The character of a decimal digit.
pub open spec fn digit(value: nat) -> char {
    if value == 0 {
        '0'
    } else if value == 1 {
        '1'
    } else if value == 2 {
        '2'
    } else if value == 3 {
        '3'
    } else if value == 4 {
        '4'
    } else if value == 5 {
        '5'
    } else if value == 6 {
        '6'
    } else if value == 7 {
        '7'
    } else if value == 8 {
        '8'
    } else {
        '9'
    }
}

/// A number in decimal, without leading zeros.
pub open spec fn decimal(value: nat) -> Seq<char>
    decreases value,
{
    if value < 10 {
        seq![digit(value)]
    } else {
        decimal(value / 10).push(digit(value % 10))
    }
}

fn digit_char(value: u64) -> (r: char)
    ensures
        r == digit(value as nat),
{
    match value {
        0 => '0',
        1 => '1',
        2 => '2',
        3 => '3',
        4 => '4',
        5 => '5',
        6 => '6',
        7 => '7',
        8 => '8',
        _ => '9',
    }
}

/// Appends `value` in decimal.
pub fn push_decimal(out: &mut String, value: u64)
    ensures
        final(out)@ == old(out)@ + decimal(value as nat),
    decreases value,
{
    if value < 10 {
        out.push(digit_char(value));
        assert(out@ =~= old(out)@ + decimal(value as nat));
    } else {
        push_decimal(out, value / 10);
        out.push(digit_char(value % 10));
        assert(out@ =~= old(out)@ + decimal(value as nat));
    }
}

/// Every character of a number is a digit.
pub proof fn lemma_decimal_digits(value: nat, k: int)
    requires
        0 <= k < decimal(value).len(),
    ensures
        '0' <= decimal(value)[k] <= '9',
    decreases value,
{
    if value >= 10 && k < decimal(value / 10).len() {
        lemma_decimal_digits(value / 10, k);
    }
}

/// Whether a character is white space by the Unicode property of that name.
pub open spec fn white_space(c: char) -> bool {
    ||| '\u{9}' <= c <= '\u{d}'
    ||| c == ' '
    ||| c == '\u{85}'
    ||| c == '\u{a0}'
    ||| c == '\u{1680}'
    ||| '\u{2000}' <= c <= '\u{200a}'
    ||| c == '\u{2028}'
    ||| c == '\u{2029}'
    ||| c == '\u{202f}'
    ||| c == '\u{205f}'
    ||| c == '\u{3000}'
}

/// Whether a character is white space by the Unicode property of that name.
pub fn is_white_space(c: char) -> (r: bool)
    ensures
        r == white_space(c),
{
    ('\u{9}' <= c && c <= '\u{d}') || c == ' ' || c == '\u{85}' || c == '\u{a0}' || c == '\u{1680}'
        || ('\u{2000}' <= c && c <= '\u{200a}') || c == '\u{2028}' || c == '\u{2029}' || c
        == '\u{202f}' || c == '\u{205f}' || c == '\u{3000}'
}

/// `text` without the white space at its start.
pub open spec fn trim_start(text: Seq<char>) -> Seq<char>
    decreases text.len(),
{
    if text.len() > 0 && white_space(text[0]) {
        trim_start(text.drop_first())
    } else {
        text
    }
}

/// `text` without the white space at its end.
pub open spec fn trim_end(text: Seq<char>) -> Seq<char>
    decreases text.len(),
{
    if text.len() > 0 && white_space(text.last()) {
        trim_end(text.drop_last())
    } else {
        text
    }
}

/// `text` without the white space at its two ends.
pub open spec fn trimmed(text: Seq<char>) -> Seq<char> {
    trim_end(trim_start(text))
}

/// Whether a text has no white space at its ends.
pub open spec fn tidy(text: Seq<char>) -> bool {
    text.len() > 0 ==> !white_space(text[0]) && !white_space(text.last())
}

/// A text without white space at its ends is not trimmed.
pub proof fn lemma_tidy(text: Seq<char>)
    requires
        tidy(text),
    ensures
        trimmed(text) == text,
{
}

/// The characters of `text` without the white space at its two ends.
pub fn trim_text(text: &str) -> (r: String)
    ensures
        r@ == trimmed(text@),
{
    let chars = chars_of(text);
    let mut start: usize = 0;
    assert(chars@.skip(0) =~= chars@);
    while start < chars.len() && is_white_space(chars[start])
        invariant
            start <= chars@.len(),
            trim_start(chars@.skip(start as int)) == trim_start(chars@),
        decreases chars@.len() - start,
    {
        assert(chars@.skip(start as int).drop_first() =~= chars@.skip(start + 1));
        start += 1;
    }
    let mut end: usize = chars.len();
    assert(trim_start(chars@) =~= chars@.subrange(start as int, end as int));
    while end > start && is_white_space(chars[end - 1])
        invariant
            start <= end <= chars@.len(),
            trim_end(chars@.subrange(start as int, end as int)) == trimmed(chars@),
        decreases end,
    {
        assert(chars@.subrange(start as int, end as int).drop_last() =~= chars@.subrange(
            start as int,
            end - 1,
        ));
        end -= 1;
    }
    string_of(chars.as_slice(), start, end)
}

/// A boundary of the first part of a text is one of the whole, and the other way
/// round.
pub proof fn lemma_boundary_left(left: Seq<char>, right: Seq<char>, at: int)
    requires
        0 <= at <= byte_len(left),
    ensures
        boundary(left + right, at) <==> boundary(left, at),
{
    let bytes = encode_utf8(left + right);
    lemma_encode_concat(left, right);
    lemma_span_seam(left, right);
    encode_utf8_valid_utf8(left);
    encode_utf8_valid_utf8(left + right);
    if at < byte_len(left) {
        assert(bytes[at] == encode_utf8(left)[at]);
        is_char_boundary_iff_not_is_continuation_byte(bytes, at);
        is_char_boundary_iff_not_is_continuation_byte(encode_utf8(left), at);
    } else {
        lemma_boundary_ends(left);
    }
}

/// A boundary of the last part of a text is one of the whole, and the other way
/// round.
pub proof fn lemma_boundary_right(left: Seq<char>, right: Seq<char>, at: int)
    requires
        0 <= at <= byte_len(right),
    ensures
        boundary(left + right, byte_len(left) + at) <==> boundary(right, at),
{
    let bytes = encode_utf8(left + right);
    lemma_encode_concat(left, right);
    lemma_span_seam(left, right);
    encode_utf8_valid_utf8(right);
    encode_utf8_valid_utf8(left + right);
    if at < byte_len(right) {
        assert(bytes[byte_len(left) + at] == encode_utf8(right)[at]);
        is_char_boundary_iff_not_is_continuation_byte(bytes, byte_len(left) + at);
        is_char_boundary_iff_not_is_continuation_byte(encode_utf8(right), at);
    } else {
        lemma_boundary_ends(right);
        lemma_boundary_ends(left + right);
    }
}

/// How many characters two texts start with in common.
pub open spec fn common_prefix(a: Seq<char>, b: Seq<char>) -> nat
    decreases a.len(),
{
    if a.len() > 0 && b.len() > 0 && a[0] == b[0] {
        1 + common_prefix(a.drop_first(), b.drop_first())
    } else {
        0
    }
}

/// How many characters two texts end with in common.
pub open spec fn common_suffix(a: Seq<char>, b: Seq<char>) -> nat
    decreases a.len(),
{
    if a.len() > 0 && b.len() > 0 && a.last() == b.last() {
        1 + common_suffix(a.drop_last(), b.drop_last())
    } else {
        0
    }
}

/// Two texts agree on what they have in common at their start.
pub proof fn lemma_common_prefix(a: Seq<char>, b: Seq<char>)
    ensures
        common_prefix(a, b) <= a.len(),
        common_prefix(a, b) <= b.len(),
        a.take(common_prefix(a, b) as int) == b.take(common_prefix(a, b) as int),
    decreases a.len(),
{
    if a.len() > 0 && b.len() > 0 && a[0] == b[0] {
        lemma_common_prefix(a.drop_first(), b.drop_first());
        let n = common_prefix(a, b) as int;
        assert(a.take(n) =~= seq![a[0]] + a.drop_first().take(n - 1));
        assert(b.take(n) =~= seq![b[0]] + b.drop_first().take(n - 1));
    } else {
        assert(a.take(0) =~= b.take(0));
    }
}

/// Two texts agree on what they have in common at their end.
pub proof fn lemma_common_suffix(a: Seq<char>, b: Seq<char>)
    ensures
        common_suffix(a, b) <= a.len(),
        common_suffix(a, b) <= b.len(),
        a.skip(a.len() - common_suffix(a, b)) == b.skip(b.len() - common_suffix(a, b)),
    decreases a.len(),
{
    if a.len() > 0 && b.len() > 0 && a.last() == b.last() {
        lemma_common_suffix(a.drop_last(), b.drop_last());
        let n = common_suffix(a, b) as int;
        assert(a.skip(a.len() - n) =~= a.drop_last().skip(a.len() - n).push(a.last()));
        assert(b.skip(b.len() - n) =~= b.drop_last().skip(b.len() - n).push(b.last()));
    } else {
        assert(a.skip(a.len() as int) =~= b.skip(b.len() as int));
    }
}

/// The length in bytes of what two texts start with in common.
pub fn common_prefix_len(a: &str, b: &str) -> (r: usize)
    ensures
        r == byte_len(a@.take(common_prefix(a@, b@) as int)),
{
    let left = chars_of(a);
    let right = chars_of(b);
    let mut n: usize = 0;
    assert(left@.skip(0) =~= left@);
    assert(right@.skip(0) =~= right@);
    while n < left.len() && n < right.len() && left[n] == right[n]
        invariant
            n <= left@.len(),
            n <= right@.len(),
            n + common_prefix(left@.skip(n as int), right@.skip(n as int)) == common_prefix(
                left@,
                right@,
            ),
        decreases left@.len() - n,
    {
        assert(left@.skip(n as int).drop_first() =~= left@.skip(n + 1));
        assert(right@.skip(n as int).drop_first() =~= right@.skip(n + 1));
        n += 1;
    }
    let part = string_of(left.as_slice(), 0, n);
    assert(part@ =~= a@.take(n as int));
    text_len(part.as_str())
}

/// The length in bytes of what two texts end with in common.
pub fn common_suffix_len(a: &str, b: &str) -> (r: usize)
    ensures
        r == byte_len(a@.skip(a@.len() - common_suffix(a@, b@))),
{
    let left = chars_of(a);
    let right = chars_of(b);
    let mut n: usize = 0;
    assert(left@.take(left@.len() as int) =~= left@);
    assert(right@.take(right@.len() as int) =~= right@);
    while n < left.len() && n < right.len() && left[left.len() - 1 - n] == right[right.len() - 1
        - n]
        invariant
            n <= left@.len(),
            n <= right@.len(),
            n + common_suffix(left@.take(left@.len() - n), right@.take(right@.len() - n))
                == common_suffix(left@, right@),
        decreases left@.len() - n,
    {
        assert(left@.take(left@.len() - n).drop_last() =~= left@.take(left@.len() - n - 1));
        assert(right@.take(right@.len() - n).drop_last() =~= right@.take(right@.len() - n - 1));
        n += 1;
    }
    let part = string_of(left.as_slice(), left.len() - n, left.len());
    assert(part@ =~= a@.skip(a@.len() - n));
    text_len(part.as_str())
}

/// Whether a character is punctuation of ASCII.
pub open spec fn ascii_punctuation(c: char) -> bool {
    '!' <= c <= '/' || ':' <= c <= '@' || '[' <= c <= '`' || '{' <= c <= '~'
}

/// Whether a character is punctuation of ASCII.
pub fn is_ascii_punctuation(c: char) -> (r: bool)
    ensures
        r == ascii_punctuation(c),
{
    ('!' <= c && c <= '/') || (':' <= c && c <= '@') || ('[' <= c && c <= '`') || ('{' <= c && c
        <= '~')
}

/// Whether a character is a control code.
pub open spec fn control(c: char) -> bool {
    c <= '\u{1f}' || '\u{7f}' <= c <= '\u{9f}'
}

/// Whether a character is a control code.
pub fn is_control(c: char) -> (r: bool)
    ensures
        r == control(c),
{
    c <= '\u{1f}' || ('\u{7f}' <= c && c <= '\u{9f}')
}

/// Numbers are written in base ten: a digit stands for itself, and one behind a number adds
/// to ten times that number.
pub proof fn law_decimal_is_base_ten(value: nat, last: nat)
    requires
        last < 10,
    ensures
        decimal(last) == seq!["0123456789"@[last as int]],
        value > 0 ==> decimal(10 * value + last) == decimal(value) + decimal(last),
{
    reveal_strlit("0123456789");
    if value > 0 {
        assert((10 * value + last) / 10 == value && (10 * value + last) % 10 == last);
        assert(decimal(10 * value + last) =~= decimal(value) + decimal(last));
    }
}

/// Whether a text holds white space alone.
pub open spec fn all_white(text: Seq<char>) -> bool {
    forall|k: int| 0 <= k < text.len() ==> white_space(#[trigger] text[k])
}

/// Trimming a text takes off white space at its two ends, all of it, and nothing else. What
/// it took off is returned.
pub proof fn law_trimming_takes_white_space_off_the_ends(text: Seq<char>) -> (r: (
    Seq<char>,
    Seq<char>,
))
    ensures
        text == r.0 + trimmed(text) + r.1,
        all_white(r.0),
        all_white(r.1),
        trimmed(text).len() > 0 ==> !white_space(trimmed(text)[0]) && !white_space(
            trimmed(text).last(),
        ),
{
    let front = lemma_trim_start(text);
    let rest = trim_start(text);
    let back = lemma_trim_end(rest);
    assert(text =~= front + trimmed(text) + back);
    if trimmed(text).len() > 0 {
        assert(trimmed(text)[0] == rest[0]);
    }
    (front, back)
}

proof fn lemma_trim_start(text: Seq<char>) -> (front: Seq<char>)
    ensures
        text == front + trim_start(text),
        all_white(front),
        trim_start(text).len() > 0 ==> !white_space(trim_start(text)[0]),
    decreases text.len(),
{
    if text.len() > 0 && white_space(text[0]) {
        let rest = lemma_trim_start(text.drop_first());
        let front = seq![text[0]] + rest;
        assert(text.drop_first() == rest + trim_start(text));
        assert(text =~= seq![text[0]] + text.drop_first());
        assert(text =~= front + trim_start(text));
        assert forall|k: int| 0 <= k < front.len() implies white_space(#[trigger] front[k]) by {
            if k > 0 {
                assert(front[k] == rest[k - 1]);
            }
        }
        front
    } else {
        assert(text =~= Seq::<char>::empty() + trim_start(text));
        Seq::empty()
    }
}

proof fn lemma_trim_end(text: Seq<char>) -> (back: Seq<char>)
    ensures
        text == trim_end(text) + back,
        all_white(back),
        trim_end(text).len() > 0 ==> !white_space(trim_end(text).last()),
    decreases text.len(),
{
    if text.len() > 0 && white_space(text.last()) {
        let rest = lemma_trim_end(text.drop_last());
        let back = rest.push(text.last());
        assert(text.drop_last() == trim_end(text) + rest);
        assert(text =~= text.drop_last().push(text.last()));
        assert(text =~= trim_end(text) + back);
        assert forall|k: int| 0 <= k < back.len() implies white_space(#[trigger] back[k]) by {
            if k < rest.len() {
                assert(back[k] == rest[k]);
            }
        }
        back
    } else {
        assert(text =~= trim_end(text) + Seq::<char>::empty());
        Seq::empty()
    }
}

/// What two texts have in common at an end is all that they have in common there: the
/// characters next to it differ, or one of the texts ends.
pub proof fn law_common_parts_are_the_longest(a: Seq<char>, b: Seq<char>)
    ensures
        ({
            let front = common_prefix(a, b) as int;
            let back = common_suffix(a, b) as int;
            &&& a.take(front) == b.take(front)
            &&& front < a.len() && front < b.len() ==> a[front] != b[front]
            &&& a.skip(a.len() - back) == b.skip(b.len() - back)
            &&& back < a.len() && back < b.len() ==> a[a.len() - 1 - back] != b[b.len() - 1 - back]
        }),
{
    lemma_common_prefix(a, b);
    lemma_common_suffix(a, b);
    lemma_prefix_ends(a, b);
    lemma_suffix_ends(a, b);
}

proof fn lemma_prefix_ends(a: Seq<char>, b: Seq<char>)
    ensures
        ({
            let n = common_prefix(a, b) as int;
            n < a.len() && n < b.len() ==> a[n] != b[n]
        }),
    decreases a.len(),
{
    if a.len() > 0 && b.len() > 0 && a[0] == b[0] {
        lemma_prefix_ends(a.drop_first(), b.drop_first());
    }
}

proof fn lemma_suffix_ends(a: Seq<char>, b: Seq<char>)
    ensures
        ({
            let n = common_suffix(a, b) as int;
            n < a.len() && n < b.len() ==> a[a.len() - 1 - n] != b[b.len() - 1 - n]
        }),
    decreases a.len(),
{
    if a.len() > 0 && b.len() > 0 && a.last() == b.last() {
        lemma_suffix_ends(a.drop_last(), b.drop_last());
    }
}

/// Copies of a unit follow each other without a gap.
pub proof fn law_copies_follow_each_other(unit: Seq<char>, count: nat, copy: int, k: int)
    requires
        0 <= copy < count,
        0 <= k < unit.len(),
    ensures
        repeated(unit, count).len() == count * unit.len(),
        copy * unit.len() + k < repeated(unit, count).len(),
        repeated(unit, count)[copy * unit.len() + k] == unit[k],
    decreases count,
{
    let n = unit.len() as int;
    let before = repeated(unit, (count - 1) as nat);
    assert(count * n == (count - 1) * n + n) by (nonlinear_arith);
    if copy < count - 1 {
        law_copies_follow_each_other(unit, (count - 1) as nat, copy, k);
        assert(before.len() == (count - 1) * n);
    } else {
        if count > 1 {
            law_copies_follow_each_other(unit, (count - 1) as nat, 0, k);
        }
        if count == 1 {
            assert(repeated(unit, 0).len() == 0);
        }
        assert(before.len() == (count - 1) * n);
    }
}

} // verus!
