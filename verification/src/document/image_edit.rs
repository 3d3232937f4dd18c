//! Writing images: inspected properties back into the source, and new images.
use crate::document::error::EditorDocumentError;
use crate::document::session::{committed, EditorDocument};
use crate::edit::{edit_views, ordered_edits, rewrite, rewritten, Edit, EditView};
use crate::grid::SourceSpan;
use crate::history::HistoryGroup;
use crate::html::{span_contains, span_in, span_is_valid, span_wf};
use crate::offset::{Revision, TextRange};
use crate::text::{
    ascii_punctuation, chars_of, control, is_ascii_punctuation, is_control, is_white_space,
    same_text, slice, span, string_of, white_space,
};
use vstd::prelude::*;
use vstd::string::*;
use vstd::utf8::*;

verus! {

/// What an image shows. The destination keeps its percent escapes. The parser finds all of
/// it: where the image is, its destination, its decoded text and its size.
#[derive(Debug)]
pub struct ImageProperties {
    pub revision: Revision,
    pub source: TextRange,
    pub destination: String,
    pub alternative: String,
    pub width: Option<u32>,
    pub height: Option<u32>,
    pub html: bool,
}

impl ImageProperties {
    /// Whether both say the same.
    pub open spec fn agrees(self, other: ImageProperties) -> bool {
        &&& self.revision == other.revision
        &&& self.source == other.source
        &&& self.destination@ == other.destination@
        &&& self.alternative@ == other.alternative@
        &&& self.width == other.width
        &&& self.height == other.height
        &&& self.html == other.html
    }

    /// Whether both say the same.
    pub fn same(&self, other: &ImageProperties) -> (r: bool)
        ensures
            r == self.agrees(*other),
    {
        self.revision == other.revision && self.source == other.source && same_text(
            self.destination.as_str(),
            other.destination.as_str(),
        ) && same_text(self.alternative.as_str(), other.alternative.as_str()) && self.width
            == other.width && self.height == other.height && self.html == other.html
    }
}

/// `value` as literal Markdown text: punctuation escaped, controls as blanks.
pub open spec fn literal(value: Seq<char>) -> Seq<char>
    decreases value.len(),
{
    if value.len() == 0 {
        Seq::empty()
    } else {
        let c = value.last();
        literal(value.drop_last()) + (if control(c) {
            seq![' ']
        } else if ascii_punctuation(c) {
            seq!['\\', c]
        } else {
            seq![c]
        })
    }
}

/// Writes `value` as literal Markdown text.
pub fn markdown_literal(value: &str) -> (r: String)
    ensures
        r@ == literal(value@),
{
    let chars = chars_of(value);
    let ghost all = value@;
    let mut out = String::new();
    let mut i: usize = 0;
    assert(all.take(0) =~= Seq::empty());
    while i < chars.len()
        invariant
            chars@ == all,
            i <= all.len(),
            out@ == literal(all.take(i as int)),
        decreases all.len() - i,
    {
        let c = chars[i];
        let ghost before = out@;
        assert(all.take(i + 1).drop_last() =~= all.take(i as int));
        assert(all.take(i + 1).last() == c);
        if is_control(c) {
            out.push(' ');
        } else {
            if is_ascii_punctuation(c) {
                out.push('\\');
            }
            out.push(c);
        }
        assert(out@ =~= literal(all.take(i + 1)));
        i += 1;
    }
    assert(all.take(i as int) =~= all);
    out
}

/// The upper-case hexadecimal digit of a value below sixteen.
pub open spec fn hex_digit(value: u8) -> char {
    if value == 0 {
        '0'
    } else if value == 1 {
        '1'
    } else if value == 2 {
        '2'
    } else if value == 3 {
        '3'
    } else if value == 4 {
        '4'
    } else if value == 5 {
        '5'
    } else if value == 6 {
        '6'
    } else if value == 7 {
        '7'
    } else if value == 8 {
        '8'
    } else if value == 9 {
        '9'
    } else if value == 10 {
        'A'
    } else if value == 11 {
        'B'
    } else if value == 12 {
        'C'
    } else if value == 13 {
        'D'
    } else if value == 14 {
        'E'
    } else {
        'F'
    }
}

fn hex_char(value: u8) -> (r: char)
    ensures
        r == hex_digit(value),
{
    match value {
        0 => '0',
        1 => '1',
        2 => '2',
        3 => '3',
        4 => '4',
        5 => '5',
        6 => '6',
        7 => '7',
        8 => '8',
        9 => '9',
        10 => 'A',
        11 => 'B',
        12 => 'C',
        13 => 'D',
        14 => 'E',
        _ => 'F',
    }
}

/// Bytes written as percent escapes.
pub open spec fn percent_escaped(bytes: Seq<u8>) -> Seq<char>
    decreases bytes.len(),
{
    if bytes.len() == 0 {
        Seq::empty()
    } else {
        percent_escaped(bytes.drop_last()) + seq![
            '%',
            hex_digit(bytes.last() / 16),
            hex_digit(bytes.last() % 16),
        ]
    }
}

/// One character of a destination: what would be read as syntax is escaped, what
/// cannot stand in a destination is percent-escaped.
pub open spec fn destination_char(c: char) -> Seq<char> {
    if c == '(' || c == ')' || c == '\\' || c == '&' {
        seq!['\\', c]
    } else if white_space(c) || control(c) || c == '<' || c == '>' {
        percent_escaped(encode_utf8(seq![c]))
    } else {
        seq![c]
    }
}

/// `value` as the destination of an image.
pub open spec fn destination(value: Seq<char>) -> Seq<char>
    decreases value.len(),
{
    if value.len() == 0 {
        Seq::empty()
    } else {
        destination(value.drop_last()) + destination_char(value.last())
    }
}

/// Writes `value` as the destination of an image. Its own percent escapes stay.
pub fn markdown_destination(value: &str) -> (r: String)
    ensures
        r@ == destination(value@),
{
    let chars = chars_of(value);
    let ghost all = value@;
    let mut out = String::new();
    let mut i: usize = 0;
    assert(all.take(0) =~= Seq::empty());
    while i < chars.len()
        invariant
            chars@ == all,
            i <= all.len(),
            out@ == destination(all.take(i as int)),
        decreases all.len() - i,
    {
        let c = chars[i];
        let ghost before = out@;
        assert(all.take(i + 1).drop_last() =~= all.take(i as int));
        assert(all.take(i + 1).last() == c);
        if c == '(' || c == ')' || c == '\\' || c == '&' {
            out.push('\\');
            out.push(c);
        } else if is_white_space(c) || is_control(c) || c == '<' || c == '>' {
            let one = string_of(chars.as_slice(), i, i + 1);
            assert(one@ =~= seq![c]);
            push_percent(&mut out, one.as_str());
        } else {
            out.push(c);
        }
        assert(out@ =~= before + destination_char(c));
        i += 1;
    }
    assert(all.take(i as int) =~= all);
    out
}

fn push_percent(out: &mut String, text: &str)
    ensures
        final(out)@ == old(out)@ + percent_escaped(encode_utf8(text@)),
{
    let bytes = text.as_bytes();
    let ghost all = encode_utf8(text@);
    let ghost before = out@;
    let mut i: usize = 0;
    assert(all.take(0) =~= Seq::empty());
    assert(before + Seq::<char>::empty() =~= before);
    while i < bytes.len()
        invariant
            bytes@ == all,
            i <= all.len(),
            out@ == before + percent_escaped(all.take(i as int)),
        decreases all.len() - i,
    {
        assert(all.take(i + 1).drop_last() =~= all.take(i as int));
        assert(all.take(i + 1).last() == bytes@[i as int]);
        out.push('%');
        out.push(hex_char(bytes[i] / 16));
        out.push(hex_char(bytes[i] % 16));
        assert(out@ =~= before + percent_escaped(all.take(i + 1)));
        i += 1;
    }
    assert(all.take(i as int) =~= all);
}

/// Where the parts of a Markdown image stand. A reference image has no
/// destination of its own.
#[derive(Clone, Copy, Debug, PartialEq, Eq, Structural)]
pub struct ImageParts {
    pub source: SourceSpan,
    pub label: SourceSpan,
    pub destination: Option<SourceSpan>,
}

impl ImageParts {
    /// Whether the parts lie apart from each other inside the image.
    pub open spec fn wf(self, text: Seq<char>) -> bool {
        &&& span_wf(text, self.source)
        &&& span_wf(text, self.label)
        &&& span_in(self.source, self.label)
        &&& self.destination matches Some(destination) ==> {
            &&& span_wf(text, destination)
            &&& span_in(self.source, destination)
            &&& self.label.end <= destination.start
        }
    }

    /// Whether the parts lie apart from each other inside the image.
    pub fn is_valid(&self, text: &str) -> (r: bool)
        ensures
            r == self.wf(text@),
    {
        if !span_is_valid(text, self.source) || !span_is_valid(text, self.label) || !span_contains(
            self.source,
            self.label,
        ) {
            return false;
        }
        match self.destination {
            Some(destination) => span_is_valid(text, destination) && span_contains(
                self.source,
                destination,
            ) && self.label.end <= destination.start,
            None => true,
        }
    }
}

/// The new destination in the brackets that the old one stood in.
pub open spec fn rebracketed(old: Seq<char>, value: Seq<char>) -> Seq<char> {
    if old.len() > 0 && old[0] == '<' && old.last() == '>' {
        seq!['<'] + value + seq!['>']
    } else {
        value
    }
}

/// The changes to a Markdown image with a destination of its own: the label and
/// the destination, as far as they change.
pub open spec fn image_edits(
    text: Seq<char>,
    parts: ImageParts,
    current: ImageProperties,
    desired: ImageProperties,
) -> Seq<EditView> {
    let target = parts.destination->0;
    (if desired.alternative@ != current.alternative@ {
        seq![
            EditView {
                start: parts.label.start as int,
                end: parts.label.end as int,
                text: literal(desired.alternative@),
            },
        ]
    } else {
        Seq::empty()
    }) + (if desired.destination@ != current.destination@ {
        seq![
            EditView {
                start: target.start as int,
                end: target.end as int,
                text: rebracketed(
                    span(text, target.start as int, target.end as int),
                    destination(desired.destination@),
                ),
            },
        ]
    } else {
        Seq::empty()
    })
}

/// The source of a Markdown image without a size. An image with its own
/// destination keeps all that does not change; a reference image becomes one
/// with its own destination and title.
pub open spec fn markdown_image(
    text: Seq<char>,
    parts: ImageParts,
    current: ImageProperties,
    desired: ImageProperties,
    title: Option<Seq<char>>,
) -> Seq<char> {
    match parts.destination {
        Some(_) => rewritten(
            text,
            parts.source.start as int,
            parts.source.end as int,
            image_edits(text, parts, current, desired),
        ),
        None => "!["@ + literal(desired.alternative@) + "]("@ + destination(desired.destination@) + (
        match title {
            Some(title) => " \""@ + literal(title) + "\""@,
            None => Seq::empty(),
        }) + ")"@,
    }
}

/// What an image's source becomes: Markdown stays Markdown as long as it has no
/// size; anything else becomes the tag `tag`.
pub open spec fn image_source(
    text: Seq<char>,
    parts: ImageParts,
    current: ImageProperties,
    desired: ImageProperties,
    title: Option<Seq<char>>,
    tag: Seq<char>,
) -> Seq<char> {
    if !current.html && desired.width is None && desired.height is None {
        markdown_image(text, parts, current, desired, title)
    } else {
        tag
    }
}

fn change_parts(
    source: &str,
    parts: ImageParts,
    target: SourceSpan,
    current: &ImageProperties,
    desired: &ImageProperties,
) -> (r: String)
    requires
        parts.wf(source@),
        parts.destination == Some(target),
    ensures
        r@ == rewritten(
            source@,
            parts.source.start as int,
            parts.source.end as int,
            image_edits(source@, parts, *current, *desired),
        ),
{
    let mut edits: Vec<Edit> = Vec::new();
    if !same_text(desired.alternative.as_str(), current.alternative.as_str()) {
        edits.push(
            Edit::replace(
                parts.label.start,
                parts.label.end,
                markdown_literal(desired.alternative.as_str()),
            ),
        );
    }
    if !same_text(desired.destination.as_str(), current.destination.as_str()) {
        let old = chars_of(slice(source, target.start, target.end));
        let value = markdown_destination(desired.destination.as_str());
        let bracketed = old.len() > 0 && old[0] == '<' && old[old.len() - 1] == '>';
        let mut made = String::new();
        if bracketed {
            made.push('<');
        }
        made.push_str(value.as_str());
        if bracketed {
            made.push('>');
        }
        assert(made@ =~= rebracketed(old@, value@));
        edits.push(Edit::replace(target.start, target.end, made));
    }
    assert(edit_views(edits@) =~= image_edits(source@, parts, *current, *desired));
    rewrite(source, parts.source.start, parts.source.end, &edits)
}

/// What the tag of an image is written from: an image in HTML from its own tag, any other
/// from a bare tag that keeps its title, which is given escaped.
pub open spec fn template_text(
    text: Seq<char>,
    parts: ImageParts,
    html: bool,
    title: Option<Seq<char>>,
) -> Seq<char> {
    if html {
        span(text, parts.source.start as int, parts.source.end as int)
    } else {
        match title {
            Some(title) => "<img title=\""@ + title + "\">"@,
            None => "<img>"@,
        }
    }
}

/// What the tag of an image is written from.
pub fn image_template(source: &str, parts: ImageParts, html: bool, title: Option<&str>) -> (r: String)
    requires
        parts.wf(source@),
    ensures
        r@ == template_text(source@, parts, html, text_of(title)),
{
    if html {
        return slice(source, parts.source.start, parts.source.end).to_owned();
    }
    match title {
        Some(title) => {
            let mut made = String::new();
            made.push_str("<img title=\"");
            made.push_str(title);
            made.push_str("\">");
            assert(made@ =~= template_text(source@, parts, html, Some(title@)));
            made
        },
        None => "<img>".to_owned(),
    }
}

/// The characters of a text, where there is one.
pub open spec fn text_of(text: Option<&str>) -> Option<Seq<char>> {
    match text {
        Some(text) => Some(text@),
        None => None,
    }
}

/// An image's title as it is, and escaped for an attribute.
#[derive(Clone, Copy, Debug)]
pub struct ImageTitle<'a> {
    pub plain: Option<&'a str>,
    pub escaped: Option<&'a str>,
}

/// Whether `write` may turn the template of an image into `tag`.
pub open spec fn tag_written<F: FnOnce(&str) -> Option<String>>(
    write: F,
    template: Seq<char>,
    tag: Option<String>,
) -> bool {
    exists|given: &str| given@ == template && #[trigger] write.ensures((given,), tag)
}

/// Why an image is left alone before its new source is made.
pub open spec fn image_refusal(
    composing: bool,
    revision: Revision,
    current: Option<&ImageProperties>,
    desired: ImageProperties,
) -> Option<EditorDocumentError> {
    if composing {
        Some(EditorDocumentError::CompositionActive)
    } else if desired.revision != revision || current is None {
        Some(EditorDocumentError::InvalidImageProperties)
    } else {
        None
    }
}

/// Whether an image is to be rewritten: it is the one that was inspected, and something of
/// it changes.
pub open spec fn image_changes(
    composing: bool,
    revision: Revision,
    current: Option<&ImageProperties>,
    desired: ImageProperties,
) -> bool {
    image_refusal(composing, revision, current, desired) is None && !current->Some_0.agrees(
        desired,
    )
}

/// Whether the parts are those of the image that is to be rewritten.
pub open spec fn parts_of(text: Seq<char>, parts: ImageParts, desired: ImageProperties) -> bool {
    &&& parts.wf(text)
    &&& parts.source.start == desired.source.start.value
    &&& parts.source.end == desired.source.end.value
}

/// Whether `r` is what an inspected image's source becomes. `Ok(None)` where nothing
/// changes.
pub open spec fn image_update_is<F: FnOnce(&str) -> Option<String>>(
    text: Seq<char>,
    refusal: Option<EditorDocumentError>,
    current: Option<&ImageProperties>,
    desired: ImageProperties,
    parts: ImageParts,
    title: ImageTitle<'_>,
    write: F,
    r: Result<Option<EditView>, EditorDocumentError>,
) -> bool {
    match refusal {
        Some(error) => r == Err::<Option<EditView>, EditorDocumentError>(error),
        None => if current->Some_0.agrees(desired) {
            r == Ok::<Option<EditView>, EditorDocumentError>(None)
        } else {
            exists|tag: Option<String>| #[trigger]
                tag_written(
                    write,
                    template_text(text, parts, current->Some_0.html, text_of(title.escaped)),
                    tag,
                ) && r == (match tag {
                    Some(tag) => Ok::<Option<EditView>, EditorDocumentError>(
                        Some(
                            EditView {
                                start: parts.source.start as int,
                                end: parts.source.end as int,
                                text: image_source(
                                    text,
                                    parts,
                                    *current->Some_0,
                                    desired,
                                    text_of(title.plain),
                                    tag@,
                                ),
                            },
                        ),
                    ),
                    None => Err::<Option<EditView>, EditorDocumentError>(
                        EditorDocumentError::InvalidImageProperties,
                    ),
                })
        },
    }
}

/// The model of a planned edit.
pub open spec fn edit_plan(r: Result<Option<Edit>, EditorDocumentError>) -> Result<
    Option<EditView>,
    EditorDocumentError,
> {
    match r {
        Ok(Some(edit)) => Ok(Some(edit@)),
        Ok(None) => Ok(None),
        Err(error) => Err(error),
    }
}

/// Decides what an inspected image's source becomes. `current` are its properties now.
/// `write` writes the desired properties into the template of a tag, where that can be
/// done. Stale requests are refused.
pub fn plan_image_update<F: FnOnce(&str) -> Option<String>>(
    source: &str,
    revision: Revision,
    composing: bool,
    current: Option<&ImageProperties>,
    desired: &ImageProperties,
    parts: ImageParts,
    title: ImageTitle<'_>,
    write: F,
) -> (r: Result<Option<Edit>, EditorDocumentError>)
    requires
        image_changes(composing, revision, current, *desired) ==> parts_of(
            source@,
            parts,
            *desired,
        ),
        forall|template: &str| #[trigger] write.requires((template,)),
    ensures
        image_update_is(
            source@,
            image_refusal(composing, revision, current, *desired),
            current,
            *desired,
            parts,
            title,
            write,
            edit_plan(r),
        ),
{
    if composing {
        return Err(EditorDocumentError::CompositionActive);
    }
    if desired.revision != revision {
        return Err(EditorDocumentError::InvalidImageProperties);
    }
    let now = match current {
        Some(now) => now,
        None => {
            return Err(EditorDocumentError::InvalidImageProperties);
        },
    };
    if now.same(desired) {
        return Ok(None);
    }
    let template = image_template(source, parts, now.html, title.escaped);
    let written = write(template.as_str());
    proof {
        assert(tag_written(
            write,
            template_text(source@, parts, now.html, text_of(title.escaped)),
            written,
        ));
    }
    let tag = match written {
        Some(tag) => tag,
        None => {
            return Err(EditorDocumentError::InvalidImageProperties);
        },
    };
    let text = image_source_text(source, parts, now, desired, title.plain, tag);
    Ok(Some(Edit::replace(parts.source.start, parts.source.end, text)))
}

/// What an image's source becomes.
fn image_source_text(
    source: &str,
    parts: ImageParts,
    now: &ImageProperties,
    desired: &ImageProperties,
    title: Option<&str>,
    tag: String,
) -> (r: String)
    requires
        parts.wf(source@),
    ensures
        r@ == image_source(source@, parts, *now, *desired, text_of(title), tag@),
{
    if now.html || desired.width.is_some() || desired.height.is_some() {
        return tag;
    }
    match parts.destination {
        Some(target) => change_parts(source, parts, target, now, desired),
        None => {
            let mut made = String::new();
            made.push_str("![");
            made.push_str(markdown_literal(desired.alternative.as_str()).as_str());
            made.push_str("](");
            made.push_str(markdown_destination(desired.destination.as_str()).as_str());
            if let Some(title) = title {
                made.push_str(" \"");
                made.push_str(markdown_literal(title).as_str());
                made.push_str("\"");
            }
            made.push_str(")");
            assert(made@ =~= markdown_image(source@, parts, *now, *desired, text_of(title)));
            made
        },
    }
}

/// Whether `after` and `r` are what becomes of a document whose image is `planned` to
/// change.
pub open spec fn image_updated(
    before: EditorDocument,
    after: EditorDocument,
    planned: Result<Option<EditView>, EditorDocumentError>,
    r: Result<bool, EditorDocumentError>,
) -> bool {
    match planned {
        Ok(Some(edit)) => {
            &&& r == Ok::<bool, EditorDocumentError>(true)
            &&& committed(before, after, seq![edit])
        },
        Ok(None) => r == Ok::<bool, EditorDocumentError>(false) && after == before,
        Err(error) => r == Err::<bool, EditorDocumentError>(error) && after == before,
    }
}

impl EditorDocument {
    /// Gives an inspected image other properties, as one step of its own. Says whether
    /// anything changed.
    pub fn update_image_properties<F: FnOnce(&str) -> Option<String>>(
        &mut self,
        current: Option<&ImageProperties>,
        desired: &ImageProperties,
        parts: ImageParts,
        title: ImageTitle<'_>,
        write: F,
    ) -> (r: Result<bool, EditorDocumentError>)
        requires
            old(self).buffer.revision.value < u64::MAX,
            image_changes(
                old(self).composing,
                old(self).buffer.revision,
                current,
                *desired,
            ) ==> parts_of(old(self).buffer.text@, parts, *desired),
            forall|template: &str| #[trigger] write.requires((template,)),
        ensures
            exists|planned: Result<Option<EditView>, EditorDocumentError>| #[trigger]
                image_update_is(
                    old(self).buffer.text@,
                    image_refusal(
                        old(self).composing,
                        old(self).buffer.revision,
                        current,
                        *desired,
                    ),
                    current,
                    *desired,
                    parts,
                    title,
                    write,
                    planned,
                ) && image_updated(*old(self), *final(self), planned, r),
    {
        let revision = self.buffer.revision();
        let planned = plan_image_update(
            self.buffer.as_str(),
            revision,
            self.composing,
            current,
            desired,
            parts,
            title,
            write,
        );
        let ghost view = edit_plan(planned);
        match planned {
            Ok(Some(edit)) => {
                let ghost made = edit@;
                let mut edits: Vec<Edit> = Vec::new();
                edits.push(edit);
                assert(edit_views(edits@) =~= seq![made]);
                assert(ordered_edits(self.buffer.text@, seq![made]));
                match self.apply_isolated(edits, HistoryGroup::External) {
                    Ok(_) => {
                        assert(image_updated(*old(self), *self, view, Ok(true)));
                        Ok(true)
                    },
                    Err(error) => Err(error),
                }
            },
            Ok(None) => {
                assert(image_updated(*old(self), *self, view, Ok(false)));
                Ok(false)
            },
            Err(error) => {
                assert(image_updated(*old(self), *self, view, Err(error)));
                Err(error)
            },
        }
    }
}

/// The value of an upper-case hexadecimal digit.
pub open spec fn hex_value(c: char) -> int {
    if '0' <= c <= '9' {
        c as int - '0' as int
    } else {
        c as int - 'A' as int + 10
    }
}

/// Whether `made` writes bytes as percent signs, each with the two hexadecimal digits of a
/// byte.
pub open spec fn writes_bytes(made: Seq<char>, bytes: Seq<u8>) -> bool {
    &&& made.len() == 3 * bytes.len()
    &&& forall|k: int|
        0 <= k < bytes.len() ==> writes_byte(
            made[3 * k],
            made[3 * k + 1],
            made[3 * k + 2],
            #[trigger] bytes[k],
        )
}

/// Whether a percent sign and two digits write a byte.
pub open spec fn writes_byte(sign: char, high: char, low: char, byte: u8) -> bool {
    &&& sign == '%'
    &&& ('0' <= high <= '9' || 'A' <= high <= 'F') && ('0' <= low <= '9' || 'A' <= low <= 'F')
    &&& hex_value(high) * 16 + hex_value(low) == byte
}

proof fn lemma_hex(value: u8)
    requires
        value < 16,
    ensures
        '0' <= hex_digit(value) <= '9' || 'A' <= hex_digit(value) <= 'F',
        hex_value(hex_digit(value)) == value,
{
}

proof fn lemma_percent(bytes: Seq<u8>)
    ensures
        writes_bytes(percent_escaped(bytes), bytes),
    decreases bytes.len(),
{
    let made = percent_escaped(bytes);
    if bytes.len() > 0 {
        let front = bytes.drop_last();
        lemma_percent(front);
        let before = percent_escaped(front);
        let last = bytes.last();
        lemma_hex(last / 16);
        lemma_hex(last % 16);
        let added = seq!['%', hex_digit(last / 16), hex_digit(last % 16)];
        assert(made =~= before + added);
        assert(made.len() == 3 * bytes.len());
        assert forall|k: int| 0 <= k < bytes.len() implies writes_byte(
            made[3 * k],
            made[3 * k + 1],
            made[3 * k + 2],
            #[trigger] bytes[k],
        ) by {
            if k < front.len() {
                assert(front[k] == bytes[k]);
                assert(made[3 * k] == before[3 * k]);
                assert(made[3 * k + 1] == before[3 * k + 1]);
                assert(made[3 * k + 2] == before[3 * k + 2]);
            } else {
                assert(made[3 * k] == '%');
                assert(made[3 * k + 1] == hex_digit(last / 16));
                assert(made[3 * k + 2] == hex_digit(last % 16));
            }
        }
    } else {
        assert(made.len() == 0);
    }
}

/// Whether a character controls something: it is below the space, or from the one behind the
/// tilde up to the no-break space, which is none.
pub open spec fn controls(c: char) -> bool {
    c < ' ' || ('\u{7f}' <= c && c < '\u{a0}')
}

/// A text is written as literal Markdown character by character: a control character as a
/// blank, a mark of ASCII behind a backslash, and any other as it is.
pub proof fn law_literal_text_is_written_by_character(a: Seq<char>, b: Seq<char>, c: char)
    ensures
        literal(a + b) == literal(a) + literal(b),
        literal(seq![c]) == (if controls(c) {
            seq![' ']
        } else if '!' <= c <= '~' && !('0' <= c <= '9') && !('A' <= c <= 'Z') && !('a' <= c
            <= 'z') {
            seq!['\\', c]
        } else {
            seq![c]
        }),
    decreases b.len(),
{
    let one = seq![c];
    assert(one.drop_last() =~= Seq::<char>::empty());
    assert(literal(one.drop_last()) =~= Seq::<char>::empty());
    assert(one.last() == c);
    assert(literal(one) =~= (if control(c) {
        seq![' ']
    } else if ascii_punctuation(c) {
        seq!['\\', c]
    } else {
        seq![c]
    }));
    if b.len() == 0 {
        assert(a + b =~= a);
        assert(literal(a) + literal(b) =~= literal(a));
    } else {
        law_literal_text_is_written_by_character(a, b.drop_last(), c);
        assert((a + b).drop_last() =~= a + b.drop_last());
        assert((a + b).last() == b.last());
        assert(literal(a + b) =~= literal(a) + literal(b));
    }
}

/// A destination is written character by character: brackets, backslash and ampersand behind
/// a backslash; white space, control characters and angle brackets as the percent escapes of
/// their bytes; and any other character as it is.
pub proof fn law_destination_is_written_by_character(a: Seq<char>, b: Seq<char>, c: char)
    ensures
        destination(a + b) == destination(a) + destination(b),
        if c == '(' || c == ')' || c == '\\' || c == '&' {
            destination(seq![c]) == seq!['\\', c]
        } else if white_space(c) || controls(c) || c == '<' || c == '>' {
            writes_bytes(destination(seq![c]), encode_utf8(seq![c]))
        } else {
            destination(seq![c]) == seq![c]
        },
    decreases b.len(),
{
    let one = seq![c];
    assert(one.drop_last() =~= Seq::<char>::empty());
    assert(destination(one.drop_last()) =~= Seq::<char>::empty());
    assert(one.last() == c);
    assert(destination(one) =~= destination_char(c));
    lemma_percent(encode_utf8(one));
    if b.len() == 0 {
        assert(a + b =~= a);
        assert(destination(a) + destination(b) =~= destination(a));
    } else {
        law_destination_is_written_by_character(a, b.drop_last(), c);
        assert((a + b).drop_last() =~= a + b.drop_last());
        assert((a + b).last() == b.last());
        assert(destination(a + b) =~= destination(a) + destination(b));
    }
}

/// An image stays Markdown exactly as long as it is no tag and has no size. Of a Markdown
/// image with a destination of its own the label changes where the alternative text does, and
/// the destination where the address does, inside the angle brackets that were there; all
/// else of its source stays. One without is written anew with its title.
pub proof fn law_changed_image_keeps_the_rest(
    text: Seq<char>,
    parts: ImageParts,
    current: ImageProperties,
    desired: ImageProperties,
    title: Option<Seq<char>>,
    tag: Seq<char>,
)
    requires
        parts.wf(text),
    ensures
        ({
            let made = image_source(text, parts, current, desired, title, tag);
            let start = parts.source.start as int;
            let end = parts.source.end as int;
            if current.html || desired.width is Some || desired.height is Some {
                made == tag
            } else {
                match parts.destination {
                    Some(target) => {
                        let label = span(text, parts.label.start as int, parts.label.end as int);
                        let address = span(text, target.start as int, target.end as int);
                        let bracketed = address.len() > 0 && address[0] == '<' && address.last()
                            == '>';
                        made == span(text, start, parts.label.start as int) + (
                        if desired.alternative@ == current.alternative@ {
                            label
                        } else {
                            literal(desired.alternative@)
                        }) + span(text, parts.label.end as int, target.start as int) + (
                        if desired.destination@ == current.destination@ {
                            address
                        } else if bracketed {
                            seq!['<'] + destination(desired.destination@) + seq!['>']
                        } else {
                            destination(desired.destination@)
                        }) + span(text, target.end as int, end)
                    },
                    None => made == seq!['!', '['] + literal(desired.alternative@) + seq![
                        ']',
                        '(',
                    ] + destination(desired.destination@) + (match title {
                        Some(title) => seq![' ', '"'] + literal(title) + seq!['"'],
                        None => Seq::empty(),
                    }) + seq![')'],
                }
            }
        }),
{
    let made = image_source(text, parts, current, desired, title, tag);
    let start = parts.source.start as int;
    let end = parts.source.end as int;
    if !(current.html || desired.width is Some || desired.height is Some) {
        match parts.destination {
            Some(target) => {
                let edits = image_edits(text, parts, current, desired);
                let a = parts.label.start as int;
                let b = parts.label.end as int;
                let c = target.start as int;
                let d = target.end as int;
                crate::text::lemma_span_join(text, start, a, b);
                crate::text::lemma_span_join(text, start, b, c);
                crate::text::lemma_span_join(text, b, c, d);
                crate::text::lemma_span_join(text, start, c, d);
                crate::text::lemma_span_join(text, start, d, end);
                crate::text::lemma_span_join(text, b, d, end);
                crate::text::lemma_span_join(text, c, d, end);
                crate::text::lemma_span_join(text, b, c, end);
                let label = desired.alternative@ != current.alternative@;
                let address = desired.destination@ != current.destination@;
                let none = Seq::<EditView>::empty();
                assert(rewritten(text, d, end, none) == span(text, d, end));
                assert(rewritten(text, b, end, none) == span(text, b, end));
                assert(rewritten(text, start, end, none) == span(text, start, end));
                if label && address {
                    assert(edits.len() == 2);
                    let tail = edits.drop_first();
                    assert(tail.drop_first() =~= none);
                    assert(tail[0] == edits[1]);
                    assert(rewritten(text, b, end, tail) == span(text, b, c) + edits[1].text
                        + span(text, d, end));
                } else if label {
                    assert(edits.drop_first() =~= none);
                } else if address {
                    assert(edits.drop_first() =~= none);
                } else {
                    assert(edits =~= none);
                }
                assert(made =~= span(text, start, a) + (if !label {
                    span(text, a, b)
                } else {
                    literal(desired.alternative@)
                }) + span(text, b, c) + (if !address {
                    span(text, c, d)
                } else {
                    rebracketed(span(text, c, d), destination(desired.destination@))
                }) + span(text, d, end));
            },
            None => {
                reveal_strlit("![");
                reveal_strlit("](");
                reveal_strlit(" \"");
                reveal_strlit("\"");
                reveal_strlit(")");
                assert("!["@ =~= seq!['!', '[']);
                assert("]("@ =~= seq![']', '(']);
                assert(" \""@ =~= seq![' ', '"']);
                assert("\""@ =~= seq!['"']);
                assert(")"@ =~= seq![')']);
            },
        }
    }
}

} // verus!
