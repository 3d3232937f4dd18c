//! The visible text of a projection, with an input method's transient text.
//!
//! A projection hides byte ranges of the source. What stays visible forms a
//! byte stream of its own. An input method may lay a transient text over it
//! without touching the source.
use crate::edit::{
    change_of, growth, inverse_edits, lemma_inverse_end, lemma_inverse_start, ordered_edits, ChangeSet,
    EditView, TextChange,
};
use crate::hidden::{
    hidden_wf, law_visible_before_is_monotone, law_visible_length, lemma_visible_split, maps_back,
    read_visible, visible, visible_before, HiddenRanges,
};
use crate::offset::{ByteOffset, Revision, TextRange};
use crate::panel::{check_position, range_error, TextPositionError};
use crate::selection::{is_boundary, Bias};
use crate::text::{
    boundary, byte_len, lemma_boundary_bounds, lemma_boundary_ends, lemma_encode_concat,
    lemma_span_seam, slice, sliceable, span, text_len,
};
use vstd::prelude::*;
use vstd::string::*;
use vstd::utf8::*;

verus! {

/// A byte offset into the visible text.
#[derive(Clone, Copy, Debug, PartialEq, Eq, PartialOrd, Ord, Structural)]
pub struct VisualOffset {
    pub value: u64,
}

impl VisualOffset {
    /// The offset of byte `value`.
    pub fn new(value: u64) -> (r: VisualOffset)
        ensures
            r.value == value,
    {
        VisualOffset { value }
    }

    /// The number of visible bytes before this offset.
    pub fn get(self) -> (r: u64)
        ensures
            r == self.value,
    {
        self.value
    }
}

/// A range of the visible text.
#[derive(Clone, Copy, Debug, PartialEq, Eq, Structural)]
pub struct VisualRange {
    pub start: VisualOffset,
    pub end: VisualOffset,
}

/// Why the source of a projection cannot be read.
#[derive(Clone, Copy, Debug, PartialEq, Eq, Structural)]
pub enum SourceError {
    /// There is no such place in it.
    Position(TextPositionError),
    /// The changes start from another revision.
    StaleRevision,
}

/// Why a projection refused a request.
#[allow(inconsistent_fields)]
#[derive(Clone, Copy, Debug, PartialEq, Eq, Structural)]
pub enum VisualTextError {
    /// The source offset lies outside the projected range.
    SourceOutsideRange { offset: ByteOffset, range: TextRange },
    /// The source offset splits a character.
    SourceNotCharBoundary { offset: ByteOffset },
    /// The visible offset lies behind the visible text.
    VisualOutOfBounds { offset: VisualOffset, len: VisualOffset },
    /// The transient text replaces a range outside the projected one.
    CompositionOutsideRange { range: TextRange, visual: TextRange },
    /// The selection inside the transient text leaves it.
    CompositionSelectionOutOfBounds { range: TextRange, text_len: ByteOffset },
    /// The selection inside the transient text splits a character.
    CompositionSelectionNotUtf8Boundary { offset: ByteOffset },
    /// There is a transient text already.
    CompositionAlreadyActive,
    /// The source cannot be read.
    Source(SourceError),
    /// An offset cannot be represented.
    OffsetOverflow,
}

/// An input method's transient text.
#[derive(Debug)]
pub struct ActiveComposition {
    /// The source range that it covers.
    pub replacement: TextRange,
    pub text: String,
    /// What is selected inside the transient text.
    pub selection_bytes: TextRange,
    /// Where it stands in the visible text.
    pub visual: VisualRange,
}

/// The visible text of one range of a document.
#[derive(Debug)]
pub struct VisualText {
    pub source: String,
    pub revision: Revision,
    pub range: TextRange,
    pub hidden: HiddenRanges,
    pub base: VisualOffset,
    pub text: String,
    pub composition: Option<ActiveComposition>,
}

impl VisualText {
    /// The visible text without the transient text.
    pub open spec fn canon(self) -> Seq<char> {
        visible(
            self.source@,
            self.range.start.value as int,
            self.range.end.value as int,
            self.hidden.ranges@,
        )
    }

    /// Where source offset `at`, moved into the range, stands in the visible text
    /// without the transient text.
    pub open spec fn canonical(self, at: int) -> int {
        let clamped = if at < self.range.start.value {
            self.range.start.value as int
        } else if at > self.range.end.value {
            self.range.end.value as int
        } else {
            at
        };
        visible_before(self.hidden.ranges@, clamped) - self.base.value
    }

    /// How far the transient text moves what follows it.
    pub open spec fn delta(self) -> int {
        match self.composition {
            Some(c) => (c.visual.end.value - c.visual.start.value) - (self.canonical(
                c.replacement.end.value as int,
            ) - self.canonical(c.replacement.start.value as int)),
            None => 0,
        }
    }

    /// Whether the projection agrees with its source.
    pub open spec fn wf(self) -> bool {
        &&& hidden_wf(self.source@, self.hidden.ranges@)
        &&& sliceable(
            self.source@,
            self.range.start.value as int,
            self.range.end.value as int,
        )
        &&& self.base.value == visible_before(
            self.hidden.ranges@,
            self.range.start.value as int,
        )
        &&& match self.composition {
            None => self.text@ == self.canon(),
            Some(c) => self.composed(c),
        }
    }

    /// Whether `c` lies over the canonical text as its range says.
    pub open spec fn composed(self, c: ActiveComposition) -> bool {
        let from = self.canonical(c.replacement.start.value as int);
        let to = self.canonical(c.replacement.end.value as int);
        &&& c.replacement.wf()
        &&& self.range.spec_contains_range(c.replacement)
        &&& sliceable(
            self.source@,
            c.replacement.start.value as int,
            c.replacement.end.value as int,
        )
        &&& c.selection_bytes.wf()
        &&& sliceable(
            c.text@,
            c.selection_bytes.start.value as int,
            c.selection_bytes.end.value as int,
        )
        &&& c.visual.start.value == from
        &&& c.visual.end.value == from + byte_len(c.text@)
        &&& self.text@ == span(self.canon(), 0, from) + c.text@ + span(
            self.canon(),
            to,
            byte_len(self.canon()),
        )
    }

    /// Where source offset `at` stands in the visible text.
    pub open spec fn to_visual(self, at: int, bias: Bias) -> int {
        match self.composition {
            None => self.canonical(at),
            Some(c) => {
                let start = c.replacement.start.value as int;
                let end = c.replacement.end.value as int;
                if at < start {
                    self.canonical(at)
                } else if start < end && at < end && (at == start || bias == Bias::Before) {
                    c.visual.start.value as int
                } else if at <= end {
                    c.visual.end.value as int
                } else {
                    self.canonical(at) + self.delta()
                }
            },
        }
    }

    /// The first or the last source offset of the projected range that stands at
    /// `at` in the visible text without the transient text.
    pub open spec fn canonical_source(self, at: int, bias: Bias, found: int) -> bool {
        exists|x: int|
            #[trigger] maps_back(self.hidden.ranges@, at + self.base.value, bias, x) && found == (
            if x < self.range.start.value {
                self.range.start.value as int
            } else if x > self.range.end.value {
                self.range.end.value as int
            } else {
                x
            })
    }

    /// Whether `found` is the source offset for visible offset `at`.
    pub open spec fn to_source(self, at: int, bias: Bias, found: int) -> bool {
        match self.composition {
            None => self.canonical_source(at, bias, found),
            Some(c) => if at < c.visual.start.value {
                self.canonical_source(at, bias, found)
            } else if at == c.visual.start.value || (at < c.visual.end.value && bias
                == Bias::Before) {
                found == c.replacement.start.value
            } else if at <= c.visual.end.value {
                found == c.replacement.end.value
            } else {
                self.canonical_source(at - self.delta(), bias, found)
            },
        }
    }

    /// What a source offset must be to be mapped.
    pub open spec fn source_error(self, at: ByteOffset) -> Option<VisualTextError> {
        if at.value < self.range.start.value || at.value > self.range.end.value {
            Some(VisualTextError::SourceOutsideRange { offset: at, range: self.range })
        } else if !boundary(self.source@, at.value as int) {
            Some(VisualTextError::SourceNotCharBoundary { offset: at })
        } else {
            None
        }
    }

    /// Projects `range` of `source`, whose ends have to be places in it.
    pub fn new(source: &str, revision: Revision, range: TextRange, hidden: HiddenRanges) -> (r:
        Result<VisualText, VisualTextError>)
        requires
            range.wf(),
            hidden_wf(source@, hidden.ranges@),
        ensures
            match range_error(source@, range) {
                Some(error) => r == Err::<VisualText, VisualTextError>(
                    VisualTextError::Source(SourceError::Position(error)),
                ),
                None => r matches Ok(made) && {
                    &&& made.wf()
                    &&& made.source@ == source@
                    &&& made.revision == revision
                    &&& made.range == range
                    &&& made.hidden == hidden
                    &&& made.composition is None
                    &&& made.text@ == made.canon()
                },
            },
    {
        if let Some(error) = check_position(source, range.start) {
            return Err(VisualTextError::Source(SourceError::Position(error)));
        }
        if let Some(error) = check_position(source, range.end) {
            return Err(VisualTextError::Source(SourceError::Position(error)));
        }
        let length = text_len(source);
        proof {
            lemma_boundary_bounds(source@, range.start.value as int);
            lemma_boundary_bounds(source@, range.end.value as int);
        }
        let base = VisualOffset::new(hidden.source_to_visual(range.start.value));
        let text = read_visible(
            source,
            range.start.value as usize,
            range.end.value as usize,
            &hidden,
        );
        Ok(
            VisualText {
                source: source.to_owned(),
                revision,
                range,
                hidden,
                base,
                text,
                composition: None,
            },
        )
    }

    fn validate_source(&self, at: ByteOffset) -> (r: Result<(), VisualTextError>)
        ensures
            match r {
                Ok(_) => self.source_error(at) is None,
                Err(e) => self.source_error(at) == Some(e),
            },
    {
        if at.value < self.range.start.value || at.value > self.range.end.value {
            return Err(VisualTextError::SourceOutsideRange { offset: at, range: self.range });
        }
        if !is_boundary(self.source.as_str(), at) {
            return Err(VisualTextError::SourceNotCharBoundary { offset: at });
        }
        Ok(())
    }

    /// Where source offset `source`, moved into the range, stands in the visible
    /// text without the transient text.
    pub fn canonical_source_to_visual(&self, source: ByteOffset) -> (r: VisualOffset)
        requires
            self.wf(),
        ensures
            r.value == self.canonical(source.value as int),
    {
        let clamped: u64 = if source.value < self.range.start.value {
            self.range.start.value
        } else if source.value > self.range.end.value {
            self.range.end.value
        } else {
            source.value
        };
        proof {
            law_visible_before_is_monotone(
                self.hidden.ranges@,
                self.range.start.value as int,
                clamped as int,
            );
        }
        VisualOffset::new(self.hidden.source_to_visual(clamped) - self.base.value)
    }

    /// The projection's revision.
    pub fn revision(&self) -> (r: Revision)
        ensures
            r == self.revision,
    {
        self.revision
    }

    /// The projected range.
    pub fn source_range(&self) -> (r: TextRange)
        ensures
            r == self.range,
    {
        self.range
    }

    /// The visible text, the transient text included.
    pub fn text(&self) -> (r: &str)
        ensures
            r@ == self.text@,
    {
        self.text.as_str()
    }

    /// The length of the visible text.
    pub fn visual_len(&self) -> (r: VisualOffset)
        ensures
            r.value == byte_len(self.text@),
    {
        VisualOffset::new(text_len(self.text.as_str()) as u64)
    }

    /// Where the transient text stands in the visible text.
    pub fn composition_visual(&self) -> (r: Option<VisualRange>)
        ensures
            r == (match self.composition {
                Some(c) => Some(c.visual),
                None => None,
            }),
    {
        match &self.composition {
            Some(c) => Some(c.visual),
            None => None,
        }
    }

    /// The transient text.
    pub fn composition_text(&self) -> (r: Option<&str>)
        ensures
            match r {
                Some(text) => self.composition matches Some(c) && c.text@ == text@,
                None => self.composition is None,
            },
    {
        match &self.composition {
            Some(c) => Some(c.text.as_str()),
            None => None,
        }
    }

    /// The source range that the transient text covers.
    pub fn composition_range(&self) -> (r: Option<TextRange>)
        ensures
            r == (match self.composition {
                Some(c) => Some(c.replacement),
                None => None,
            }),
    {
        match &self.composition {
            Some(c) => Some(c.replacement),
            None => None,
        }
    }

    /// What is selected inside the transient text.
    pub fn composition_selection_bytes(&self) -> (r: Option<TextRange>)
        ensures
            r == (match self.composition {
                Some(c) => Some(c.selection_bytes),
                None => None,
            }),
    {
        match &self.composition {
            Some(c) => Some(c.selection_bytes),
            None => None,
        }
    }

    /// Where the selection inside the transient text stands in the visible text.
    pub fn composition_selection_visual(&self) -> (r: Option<VisualRange>)
        requires
            self.wf(),
        ensures
            match r {
                Some(range) => self.composition matches Some(c) && range.start.value
                    == c.visual.start.value + c.selection_bytes.start.value && range.end.value
                    == c.visual.start.value + c.selection_bytes.end.value,
                None => self.composition is None,
            },
    {
        match &self.composition {
            Some(c) => {
                proof {
                    lemma_boundary_bounds(c.text@, c.selection_bytes.end.value as int);
                }
                Some(
                    VisualRange {
                        start: VisualOffset::new(
                            c.visual.start.value + c.selection_bytes.start.value,
                        ),
                        end: VisualOffset::new(c.visual.start.value + c.selection_bytes.end.value),
                    },
                )
            },
            None => None,
        }
    }
}

/// Why a selection does not fit the transient text `text`.
pub open spec fn selection_error(text: Seq<char>, selection: TextRange) -> Option<VisualTextError> {
    if selection.end.value > byte_len(text) {
        Some(
            VisualTextError::CompositionSelectionOutOfBounds {
                range: selection,
                text_len: ByteOffset { value: byte_len(text) as u64 },
            },
        )
    } else if !boundary(text, selection.start.value as int) {
        Some(VisualTextError::CompositionSelectionNotUtf8Boundary { offset: selection.start })
    } else if !boundary(text, selection.end.value as int) {
        Some(VisualTextError::CompositionSelectionNotUtf8Boundary { offset: selection.end })
    } else {
        None
    }
}

fn validate_selection(text: &str, selection: TextRange) -> (r: Result<(), VisualTextError>)
    requires
        selection.wf(),
    ensures
        match r {
            Ok(_) => selection_error(text@, selection) is None,
            Err(e) => selection_error(text@, selection) == Some(e),
        },
{
    let length = ByteOffset::new(text_len(text) as u64);
    if selection.end.value > length.value {
        return Err(
            VisualTextError::CompositionSelectionOutOfBounds { range: selection, text_len: length },
        );
    }
    if !is_boundary(text, selection.start) {
        return Err(
            VisualTextError::CompositionSelectionNotUtf8Boundary { offset: selection.start },
        );
    }
    if !is_boundary(text, selection.end) {
        return Err(VisualTextError::CompositionSelectionNotUtf8Boundary { offset: selection.end });
    }
    Ok(())
}

impl VisualText {
    /// The canonical image of a boundary splits the canonical text.
    proof fn lemma_canonical_boundary(self, at: int)
        requires
            hidden_wf(self.source@, self.hidden.ranges@),
            sliceable(self.source@, self.range.start.value as int, at),
            sliceable(self.source@, at, self.range.end.value as int),
            self.base.value == visible_before(
                self.hidden.ranges@,
                self.range.start.value as int,
            ),
        ensures
            boundary(self.canon(), self.canonical(at)),
            0 <= self.canonical(at) <= byte_len(self.canon()),
            self.canonical(at) == byte_len(
                visible(self.source@, self.range.start.value as int, at, self.hidden.ranges@),
            ),
            byte_len(self.canon()) == self.canonical(self.range.end.value as int),
    {
        let start = self.range.start.value as int;
        let end = self.range.end.value as int;
        let hidden = self.hidden.ranges@;
        lemma_visible_split(self.source@, start, at, end, hidden);
        law_visible_length(self.source@, start, at, hidden);
        law_visible_length(self.source@, at, end, hidden);
        law_visible_length(self.source@, start, end, hidden);
        lemma_span_seam(
            visible(self.source@, start, at, hidden),
            visible(self.source@, at, end, hidden),
        );
    }

    /// Why a transient text cannot be laid over the projection.
    pub open spec fn composition_error(
        self,
        replacement: TextRange,
        text: Seq<char>,
        selection: TextRange,
    ) -> Option<VisualTextError> {
        if self.composition is Some {
            Some(VisualTextError::CompositionAlreadyActive)
        } else if !self.range.spec_contains_range(replacement) {
            Some(
                VisualTextError::CompositionOutsideRange { range: replacement, visual: self.range },
            )
        } else if self.source_error(replacement.start) is Some {
            self.source_error(replacement.start)
        } else if self.source_error(replacement.end) is Some {
            self.source_error(replacement.end)
        } else if selection_error(text, selection) is Some {
            selection_error(text, selection)
        } else {
            None
        }
    }

    /// The visible text with `text` in place of what is visible of `replacement`.
    pub open spec fn laid_over(self, replacement: TextRange, text: Seq<char>) -> Seq<char> {
        span(self.text@, 0, self.canonical(replacement.start.value as int)) + text + span(
            self.text@,
            self.canonical(replacement.end.value as int),
            byte_len(self.text@),
        )
    }

    /// Lays a transient text over the projection in place of `replacement`. The
    /// source and its revision stay as they are.
    pub fn with_composition(self, replacement: TextRange, text: &str, selection_bytes: TextRange)
        -> (r: Result<VisualText, VisualTextError>)
        requires
            self.wf(),
            replacement.wf(),
            selection_bytes.wf(),
        ensures
            match r {
                Err(e) => self.composition_error(replacement, text@, selection_bytes) == Some(e),
                Ok(made) => {
                    &&& self.composition_error(replacement, text@, selection_bytes) is None
                    &&& made.wf()
                    &&& made.source == self.source
                    &&& made.revision == self.revision
                    &&& made.range == self.range
                    &&& made.hidden == self.hidden
                    &&& made.text@ == self.laid_over(replacement, text@)
                    &&& made.composition matches Some(c) && c.replacement == replacement && c.text@
                        == text@ && c.selection_bytes == selection_bytes
                },
            },
    {
        if self.composition.is_some() {
            return Err(VisualTextError::CompositionAlreadyActive);
        }
        if !self.range.contains_range(replacement) {
            return Err(
                VisualTextError::CompositionOutsideRange { range: replacement, visual: self.range },
            );
        }
        if let Err(error) = self.validate_source(replacement.start) {
            return Err(error);
        }
        if let Err(error) = self.validate_source(replacement.end) {
            return Err(error);
        }
        if let Err(error) = validate_selection(text, selection_bytes) {
            return Err(error);
        }
        let start = self.canonical_source_to_visual(replacement.start);
        let end = self.canonical_source_to_visual(replacement.end);
        let visible_len = text_len(self.text.as_str());
        let ghost before = self;
        proof {
            self.lemma_canonical_boundary(replacement.start.value as int);
            self.lemma_canonical_boundary(replacement.end.value as int);
            lemma_boundary_ends(self.text@);
            law_visible_before_is_monotone(
                self.hidden.ranges@,
                replacement.start.value as int,
                replacement.end.value as int,
            );
        }
        let mut composed = String::new();
        composed.push_str(slice(self.text.as_str(), 0, start.value as usize));
        composed.push_str(text);
        composed.push_str(slice(self.text.as_str(), end.value as usize, visible_len));
        let composed_len = text_len(composed.as_str());
        proof {
            let head = span(self.text@, 0, start.value as int);
            let tail = span(self.text@, end.value as int, visible_len as int);
            assert(composed@ =~= head + text@ + tail);
            crate::text::lemma_span_bytes(self.text@, 0, start.value as int);
            lemma_encode_concat(head, text@);
            lemma_encode_concat(head + text@, tail);
            assert(start.value + byte_len(text@) <= composed_len);
        }
        let visual_end = VisualOffset::new(start.value + text_len(text) as u64);
        let made = VisualText {
            source: self.source,
            revision: self.revision,
            range: self.range,
            hidden: self.hidden,
            base: self.base,
            text: composed,
            composition: Some(
                ActiveComposition {
                    replacement,
                    text: text.to_owned(),
                    selection_bytes,
                    visual: VisualRange { start, end: visual_end },
                },
            ),
        };
        proof {
            assert(made.canon() == before.canon());
            assert(made.canonical(replacement.start.value as int) == start.value);
            assert(made.canonical(replacement.end.value as int) == end.value);
            let head = span(before.canon(), 0, start.value as int);
            assert(composed@ =~= head + text@ + span(
                before.canon(),
                end.value as int,
                byte_len(before.canon()),
            ));
        }
        Ok(made)
    }

    /// The visible text is as long as the mapping says.
    proof fn lemma_text_len(self)
        requires
            self.wf(),
        ensures
            byte_len(self.text@) == self.canonical(self.range.end.value as int) + self.delta(),
            self.composition matches Some(c) ==> {
                &&& c.visual.start.value <= c.visual.end.value
                &&& c.visual.end.value == self.canonical(c.replacement.end.value as int)
                    + self.delta()
                &&& c.visual.end.value <= byte_len(self.text@)
            },
    {
        let end = self.range.end.value as int;
        lemma_boundary_bounds(self.source@, self.range.start.value as int);
        self.lemma_canonical_boundary(end);
        if let Some(c) = self.composition {
            let canon = self.canon();
            let from = self.canonical(c.replacement.start.value as int);
            let to = self.canonical(c.replacement.end.value as int);
            self.lemma_canonical_boundary(c.replacement.start.value as int);
            self.lemma_canonical_boundary(c.replacement.end.value as int);
            lemma_boundary_ends(canon);
            crate::text::lemma_span_bytes(canon, 0, from);
            crate::text::lemma_span_bytes(canon, to, byte_len(canon));
            lemma_encode_concat(span(canon, 0, from), c.text@);
            lemma_encode_concat(span(canon, 0, from) + c.text@, span(canon, to, byte_len(canon)));
        }
    }

    /// Maps a source offset to the visible text.
    pub fn source_to_visual(&self, source: ByteOffset, bias: Bias) -> (r: Result<
        VisualOffset,
        VisualTextError,
    >)
        requires
            self.wf(),
        ensures
            match r {
                Err(e) => self.source_error(source) == Some(e),
                Ok(at) => {
                    &&& self.source_error(source) is None
                    &&& at.value == self.to_visual(source.value as int, bias)
                    &&& at.value <= byte_len(self.text@)
                },
            },
    {
        if let Err(error) = self.validate_source(source) {
            return Err(error);
        }
        let visible_len = self.visual_len();
        let canonical = self.canonical_source_to_visual(source);
        proof {
            self.lemma_text_len();
            self.lemma_canonical_boundary(source.value as int);
        }
        match &self.composition {
            None => Ok(canonical),
            Some(c) => {
                let start = c.replacement.start.value;
                let end = c.replacement.end.value;
                if source.value < start {
                    proof {
                        law_visible_before_is_monotone(
                            self.hidden.ranges@,
                            source.value as int,
                            start as int,
                        );
                    }
                    return Ok(canonical);
                }
                if start < end && source.value < end && (source.value == start || bias
                    == Bias::Before) {
                    return Ok(c.visual.start);
                }
                if source.value <= end {
                    return Ok(c.visual.end);
                }
                let old_end = self.canonical_source_to_visual(c.replacement.end);
                proof {
                    law_visible_before_is_monotone(
                        self.hidden.ranges@,
                        end as int,
                        source.value as int,
                    );
                    law_visible_before_is_monotone(
                        self.hidden.ranges@,
                        source.value as int,
                        self.range.end.value as int,
                    );
                }
                Ok(VisualOffset::new(c.visual.end.value + (canonical.value - old_end.value)))
            },
        }
    }

    fn canonical_visual_to_source(&self, at: u64, bias: Bias) -> (r: ByteOffset)
        requires
            self.wf(),
            at <= self.canonical(self.range.end.value as int),
        ensures
            self.canonical_source(at as int, bias, r.value as int),
            self.range.start.value <= r.value <= self.range.end.value,
            self.canonical(r.value as int) == at,
    {
        let length = text_len(self.source.as_str()) as u64;
        let ghost hidden = self.hidden.ranges@;
        proof {
            lemma_boundary_bounds(self.source@, self.range.start.value as int);
            lemma_boundary_bounds(self.source@, self.range.end.value as int);
            law_visible_before_is_monotone(
                hidden,
                self.range.end.value as int,
                length as int,
            );
            assert forall|i: int| 0 <= i < hidden.len() implies (#[trigger] hidden[i]).end.value
                <= length by {
                lemma_boundary_bounds(self.source@, hidden[i].end.value as int);
            }
            assert(visible_before(hidden, length as int) <= length) by {
                crate::hidden::lemma_hidden_bound(hidden, length as int);
            }
        }
        let found = self.hidden.visual_to_source(length, at + self.base.value, bias);
        proof {
            if found < self.range.start.value {
                law_visible_before_is_monotone(
                    hidden,
                    found as int,
                    self.range.start.value as int,
                );
            }
            if found > self.range.end.value {
                law_visible_before_is_monotone(
                    hidden,
                    self.range.end.value as int,
                    found as int,
                );
            }
        }
        if found < self.range.start.value {
            self.range.start
        } else if found > self.range.end.value {
            self.range.end
        } else {
            ByteOffset::new(found)
        }
    }

    /// Maps a visible offset to the source.
    pub fn visual_to_source(&self, visual: VisualOffset, bias: Bias) -> (r: Result<
        ByteOffset,
        VisualTextError,
    >)
        requires
            self.wf(),
        ensures
            match r {
                Err(e) => visual.value > byte_len(self.text@) && e == (
                VisualTextError::VisualOutOfBounds {
                    offset: visual,
                    len: VisualOffset { value: byte_len(self.text@) as u64 },
                }),
                Ok(at) => {
                    &&& visual.value <= byte_len(self.text@)
                    &&& self.to_source(visual.value as int, bias, at.value as int)
                    &&& self.range.start.value <= at.value <= self.range.end.value
                    &&& self.composition is None ==> self.canonical(at.value as int)
                        == visual.value
                },
            },
    {
        let visible_len = self.visual_len();
        if visual.value > visible_len.value {
            return Err(VisualTextError::VisualOutOfBounds { offset: visual, len: visible_len });
        }
        proof {
            self.lemma_text_len();
        }
        match &self.composition {
            None => Ok(self.canonical_visual_to_source(visual.value, bias)),
            Some(c) => {
                if visual.value < c.visual.start.value {
                    proof {
                        law_visible_before_is_monotone(
                            self.hidden.ranges@,
                            c.replacement.start.value as int,
                            self.range.end.value as int,
                        );
                    }
                    return Ok(self.canonical_visual_to_source(visual.value, bias));
                }
                if visual.value == c.visual.start.value || (visual.value < c.visual.end.value
                    && bias == Bias::Before) {
                    return Ok(c.replacement.start);
                }
                if visual.value <= c.visual.end.value {
                    return Ok(c.replacement.end);
                }
                let old_end = self.canonical_source_to_visual(c.replacement.end);
                proof {
                    let canonical = visual.value - self.delta();
                    assert(canonical == old_end.value + (visual.value - c.visual.end.value));
                    self.lemma_canonical_boundary(self.range.end.value as int);
                    law_visible_before_is_monotone(
                        self.hidden.ranges@,
                        c.replacement.end.value as int,
                        self.range.end.value as int,
                    );
                    crate::hidden::lemma_hidden_bound(
                        self.hidden.ranges@,
                        self.range.end.value as int,
                    );
                }
                Ok(
                    self.canonical_visual_to_source(
                        old_end.value + (visual.value - c.visual.end.value),
                        bias,
                    ),
                )
            },
        }
    }

    /// How far an edit elsewhere moves the projection: see [`shift_for`]. `None`
    /// where a transient text is active, which no edit survives.
    pub fn shift_through(&self, changes: &ChangeSet) -> (r: Result<Option<i64>, VisualTextError>)
        ensures
            r == (if self.revision != changes.before {
                Err(VisualTextError::Source(SourceError::StaleRevision))
            } else if self.composition is Some {
                Ok(None)
            } else {
                shift_result(self.range, changes.changes@)
            }),
    {
        if self.revision.value != changes.before.value {
            return Err(VisualTextError::Source(SourceError::StaleRevision));
        }
        if self.composition.is_some() {
            return Ok(None);
        }
        shift_for(self.range, changes)
    }
}

/// Whether a change touches `range` or one of its ends.
pub open spec fn touched(range: TextRange, changes: Seq<TextChange>) -> bool {
    exists|i: int| 0 <= i < changes.len() && (#[trigger] changes[i]).old.spec_touches(range)
}

/// How far the changes before `at` move what follows them.
pub open spec fn shift_at(changes: Seq<TextChange>, at: int) -> int
    decreases changes.len(),
{
    if changes.len() == 0 {
        0
    } else if changes.last().old.end.value < at {
        changes.last().new.end.value - changes.last().old.end.value
    } else {
        shift_at(changes.drop_last(), at)
    }
}

/// What [`shift_for`] answers.
pub open spec fn shift_result(range: TextRange, changes: Seq<TextChange>) -> Result<
    Option<i64>,
    VisualTextError,
> {
    let start = range.start.value as int;
    let moved = start + shift_at(changes, start);
    if touched(range, changes) {
        Ok(None)
    } else if start <= i64::MAX && 0 <= moved <= i64::MAX {
        Ok(Some((moved - start) as i64))
    } else {
        Err(VisualTextError::OffsetOverflow)
    }
}

/// How far `changes` move `range` as a whole, or `None` where one touches it.
/// To meet an end of the range is to touch it: a character typed there can
/// change what the range is.
pub fn shift_for(range: TextRange, changes: &ChangeSet) -> (r: Result<
    Option<i64>,
    VisualTextError,
>)
    ensures
        r == shift_result(range, changes.changes@),
{
    let ghost all = changes.changes@;
    let start = range.start.value;
    let mut shift: i128 = 0;
    let mut i: usize = 0;
    while i < changes.changes.len()
        invariant
            all == changes.changes@,
            start == range.start.value,
            i <= all.len(),
            shift == shift_at(all.take(i as int), start as int),
            -0x1_0000_0000_0000_0000 < shift < 0x1_0000_0000_0000_0000,
            forall|k: int| 0 <= k < i ==> !(#[trigger] all[k]).old.spec_touches(range),
        decreases all.len() - i,
    {
        let change = changes.changes[i];
        assert(all.take(i + 1).drop_last() =~= all.take(i as int));
        assert(all.take(i + 1).last() == change);
        if change.old.touches(range) {
            assert(all[i as int].old.spec_touches(range));
            return Ok(None);
        }
        if change.old.end.value < start {
            shift = change.new.end.value as i128 - change.old.end.value as i128;
        }
        i += 1;
    }
    assert(all.take(i as int) =~= all);
    let limit: i128 = 0x7fff_ffff_ffff_ffff;
    let moved: i128 = start as i128 + shift;
    if start as i128 <= limit && 0 <= moved && moved <= limit {
        Ok(Some((moved - start as i128) as i64))
    } else {
        Err(VisualTextError::OffsetOverflow)
    }
}

/// A projection without a transient text maps each of its offsets to the source
/// and back without loss: the source offset that stands for a visible offset
/// stands at that visible offset.
pub proof fn law_visual_round_trip(visual: VisualText, at: int, bias: Bias, found: int)
    requires
        visual.wf(),
        visual.composition is None,
        0 <= at <= byte_len(visual.text@),
        visual.to_source(at, bias, found),
    ensures
        visual.to_visual(found, bias) == at,
        visual.range.start.value <= found <= visual.range.end.value,
{
    let hidden = visual.hidden.ranges@;
    let x = choose|x: int|
        #[trigger] maps_back(hidden, at + visual.base.value, bias, x) && found == (if x
            < visual.range.start.value {
            visual.range.start.value as int
        } else if x > visual.range.end.value {
            visual.range.end.value as int
        } else {
            x
        });
    visual.lemma_text_len();
    if x < visual.range.start.value {
        law_visible_before_is_monotone(hidden, x, visual.range.start.value as int);
    }
    if x > visual.range.end.value {
        law_visible_before_is_monotone(hidden, visual.range.end.value as int, x);
    }
}

/// The ends of a transient text map to the ends of the range that it covers, and
/// the range's ends map back, where both are wider than nothing.
pub proof fn law_composition_ends(visual: VisualText, c: ActiveComposition, bias: Bias)
    requires
        visual.wf(),
        visual.composition == Some(c),
        c.replacement.start.value < c.replacement.end.value,
        c.text@.len() > 0,
    ensures
        visual.to_visual(c.replacement.start.value as int, bias) == c.visual.start.value,
        visual.to_visual(c.replacement.end.value as int, bias) == c.visual.end.value,
        visual.to_source(
            c.visual.start.value as int,
            bias,
            c.replacement.start.value as int,
        ),
        visual.to_source(c.visual.end.value as int, bias, c.replacement.end.value as int),
{
    vstd::utf8::encode_utf8_first_scalar(c.text@);
}

/// A transient text is laid over a projection wherever it replaces whole characters of it
/// and its selection lies between its own; over another transient text none is laid.
pub proof fn law_when_text_is_laid_over(
    visual: VisualText,
    replacement: TextRange,
    text: Seq<char>,
    selection: TextRange,
)
    ensures
        visual.composition is Some ==> visual.composition_error(replacement, text, selection)
            == Some(VisualTextError::CompositionAlreadyActive),
        visual.composition is None && visual.range.spec_contains_range(replacement) && boundary(
            visual.source@,
            replacement.start.value as int,
        ) && boundary(visual.source@, replacement.end.value as int) && replacement.wf()
            && selection.wf() && sliceable(
            text,
            selection.start.value as int,
            selection.end.value as int,
        ) ==> visual.composition_error(replacement, text, selection) is None,
{
    if sliceable(text, selection.start.value as int, selection.end.value as int) {
        lemma_boundary_bounds(text, selection.end.value as int);
    }
}

/// A range that no change touches moves by what the changes before it add: `before` is the
/// number of those, and `edits` are what was changed in `text`.
pub proof fn law_range_moves_by_what_is_added_before(
    text: Seq<char>,
    edits: Seq<EditView>,
    changes: Seq<TextChange>,
    range: TextRange,
    before: int,
)
    requires
        ordered_edits(text, edits),
        changes.len() == edits.len(),
        forall|i: int|
            0 <= i < edits.len() ==> change_of(
                #[trigger] changes[i],
                edits[i],
                inverse_edits(text, 0, edits, 0)[i],
            ),
        range.wf(),
        0 <= before <= edits.len(),
        forall|i: int| 0 <= i < before ==> (#[trigger] edits[i]).end < range.start.value,
        forall|i: int| before <= i < edits.len() ==> range.end.value < (#[trigger] edits[i]).start,
    ensures
        shift_at(changes, range.start.value as int) == growth(edits.take(before)),
        !touched(range, changes),
{
    let at = range.start.value as int;
    assert forall|i: int| 0 <= i < changes.len() implies !(
    #[trigger] changes[i]).old.spec_touches(range) by {
        assert(change_of(changes[i], edits[i], inverse_edits(text, 0, edits, 0)[i]));
        assert(edits[i].start <= edits[i].end);
    }
    assert forall|i: int| before <= i < edits.len() implies at < (#[trigger] edits[i]).start
        <= edits[i].end by {
        assert(range.end.value < edits[i].start);
    }
    lemma_shift_at(changes, at, before, changes.len() as int, text, edits);
    assert(changes.take(changes.len() as int) =~= changes);
    if before > 0 {
        let last = before - 1;
        assert(changes.take(before).last() == changes[last]);
        assert(change_of(changes[last], edits[last], inverse_edits(text, 0, edits, 0)[last]));
        assert(edits[last].end < at);
        lemma_inverse_start(text, 0, edits, 0, last);
        lemma_inverse_end(text, 0, edits, 0, last);
        assert(edits.take(before).last() == edits[last]);
        assert(edits.take(before).drop_last() =~= edits.take(last));
    } else {
        assert(changes.take(0) =~= Seq::empty());
        assert(edits.take(0) =~= Seq::empty());
    }
}

proof fn lemma_shift_at(
    changes: Seq<TextChange>,
    at: int,
    before: int,
    count: int,
    text: Seq<char>,
    edits: Seq<EditView>,
)
    requires
        0 <= before <= count <= changes.len(),
        changes.len() == edits.len(),
        forall|i: int|
            0 <= i < edits.len() ==> change_of(
                #[trigger] changes[i],
                edits[i],
                inverse_edits(text, 0, edits, 0)[i],
            ),
        forall|i: int|
            before <= i < edits.len() ==> at < (#[trigger] edits[i]).start <= edits[i].end,
    ensures
        shift_at(changes.take(count), at) == shift_at(changes.take(before), at),
    decreases count - before,
{
    if before < count {
        lemma_shift_at(changes, at, before, count - 1, text, edits);
        assert(changes.take(count).last() == changes[count - 1]);
        assert(changes.take(count).drop_last() =~= changes.take(count - 1));
        assert(change_of(
            changes[count - 1],
            edits[count - 1],
            inverse_edits(text, 0, edits, 0)[count - 1],
        ));
        assert(at < edits[count - 1].start);
    }
}

} // verus!
