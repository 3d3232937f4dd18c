//! Byte offsets, byte ranges and document revisions.
use vstd::prelude::*;

verus! {

/// A byte offset into a document.
#[derive(Clone, Copy, Debug, PartialEq, Eq, PartialOrd, Ord, Hash, Structural)]
pub struct ByteOffset {
    pub value: u64,
}

impl ByteOffset {
    /// The offset of byte `value`.
    pub fn new(value: u64) -> (r: ByteOffset)
        ensures
            r.value == value,
    {
        ByteOffset { value }
    }

    /// The number of bytes before this offset.
    pub fn get(self) -> (r: u64)
        ensures
            r == self.value,
    {
        self.value
    }
}

/// An ordered pair of byte offsets.
#[derive(Clone, Copy, Debug, PartialEq, Eq, Hash, Structural)]
pub struct TextRange {
    pub start: ByteOffset,
    pub end: ByteOffset,
}

impl TextRange {
    /// Whether the endpoints are in order.
    pub open spec fn wf(self) -> bool {
        self.start.value <= self.end.value
    }

    /// The range from `start` up to `end`, or `None` where they are out of order.
    pub fn new(start: ByteOffset, end: ByteOffset) -> (r: Option<TextRange>)
        ensures
            r == (if start.value <= end.value {
                Some(TextRange { start, end })
            } else {
                None
            }),
    {
        if start.value <= end.value {
            Some(TextRange { start, end })
        } else {
            None
        }
    }

    /// The empty range at `at`.
    pub fn empty(at: ByteOffset) -> (r: TextRange)
        ensures
            r == (TextRange { start: at, end: at }),
            r.wf(),
    {
        TextRange { start: at, end: at }
    }

    /// The first offset of the range.
    pub fn start(self) -> (r: ByteOffset)
        ensures
            r == self.start,
    {
        self.start
    }

    /// The offset just behind the range.
    pub fn end(self) -> (r: ByteOffset)
        ensures
            r == self.end,
    {
        self.end
    }

    /// The number of bytes in the range.
    pub fn len(self) -> (r: u64)
        requires
            self.wf(),
        ensures
            r == self.end.value - self.start.value,
    {
        self.end.value - self.start.value
    }

    /// Whether the range holds no byte.
    pub fn is_empty(self) -> (r: bool)
        ensures
            r == (self.start.value == self.end.value),
    {
        self.start.value == self.end.value
    }

    /// Whether `other` lies inside the range, endpoints included.
    pub open spec fn spec_contains_range(self, other: TextRange) -> bool {
        self.start.value <= other.start.value && other.end.value <= self.end.value
    }

    /// Whether `other` lies inside the range, endpoints included.
    pub fn contains_range(self, other: TextRange) -> (r: bool)
        ensures
            r == self.spec_contains_range(other),
    {
        self.start.value <= other.start.value && other.end.value <= self.end.value
    }

    /// Whether the two ranges share a byte or meet at an endpoint.
    pub open spec fn spec_touches(self, other: TextRange) -> bool {
        self.start.value <= other.end.value && self.end.value >= other.start.value
    }

    /// Whether the two ranges share a byte or meet at an endpoint.
    pub fn touches(self, other: TextRange) -> (r: bool)
        ensures
            r == self.spec_touches(other),
    {
        self.start.value <= other.end.value && self.end.value >= other.start.value
    }
}

/// The version of a document. Every accepted transaction makes a new one.
#[derive(Clone, Copy, Debug, PartialEq, Eq, PartialOrd, Ord, Hash, Structural)]
pub struct Revision {
    pub value: u64,
}

impl Revision {
    /// Revision number `value`.
    pub fn new(value: u64) -> (r: Revision)
        ensures
            r.value == value,
    {
        Revision { value }
    }

    /// The revision's number.
    pub fn get(self) -> (r: u64)
        ensures
            r == self.value,
    {
        self.value
    }
}

} // verus!
