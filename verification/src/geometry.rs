//! Ranges under geometry: moving them, and why a layout is refused.
use crate::offset::{ByteOffset, TextRange};
use vstd::prelude::*;

verus! {

/// Why a layout is refused.
#[derive(Clone, Copy, Debug, PartialEq, Eq, Structural)]
pub enum LayoutError {
    /// An offset left the range of offsets, or the text.
    OffsetOverflow,
    /// No widget has that number.
    UnknownWidget(u32),
    /// A table has no column, or its delimiter row does not fit its columns.
    TableColumns,
    /// A row of a table does not fit its columns.
    TableRow,
    /// A cell of a table was not laid out.
    TableCell,
}

/// `range` moved by `delta` bytes.
pub open spec fn moved(range: TextRange, delta: i64) -> Result<TextRange, LayoutError> {
    let start = range.start.value + delta;
    let end = range.end.value + delta;
    if start < 0 || end < 0 || start > u64::MAX || end > u64::MAX {
        Err(LayoutError::OffsetOverflow)
    } else {
        Ok(
            TextRange {
                start: ByteOffset { value: start as u64 },
                end: ByteOffset { value: end as u64 },
            },
        )
    }
}

/// `at` moved by `delta`, or `None` where that is no offset.
fn shift_offset(at: u64, delta: i64) -> (r: Option<u64>)
    ensures
        match r {
            Some(there) => there == at + delta,
            None => at + delta < 0 || at + delta > u64::MAX,
        },
{
    let there: i128 = at as i128 + delta as i128;
    if there < 0 || there > u64::MAX as i128 {
        None
    } else {
        Some(there as u64)
    }
}

/// Moves a range by so many bytes.
pub fn shift_range(range: TextRange, delta: i64) -> (r: Result<TextRange, LayoutError>)
    ensures
        r == moved(range, delta),
{
    match (shift_offset(range.start.value, delta), shift_offset(range.end.value, delta)) {
        (Some(start), Some(end)) => Ok(
            TextRange { start: ByteOffset { value: start }, end: ByteOffset { value: end } },
        ),
        _ => Err(LayoutError::OffsetOverflow),
    }
}

/// Moving there and back changes nothing.
pub proof fn law_moving_back_restores(range: TextRange, delta: i64)
    requires
        delta > i64::MIN,
        moved(range, delta) is Ok,
    ensures
        moved(moved(range, delta)->Ok_0, (-delta) as i64) == Ok::<TextRange, LayoutError>(range),
{
}

/// The ranges moved by `delta` up to `count`, or the first failure.
pub open spec fn all_moved(ranges: Seq<TextRange>, delta: i64, count: int) -> Option<Seq<TextRange>>
    decreases count,
{
    if count <= 0 {
        Some(Seq::empty())
    } else {
        match (all_moved(ranges, delta, count - 1), moved(ranges[count - 1], delta)) {
            (Some(before), Ok(range)) => Some(before.push(range)),
            _ => None,
        }
    }
}

/// Moves every range.
pub fn shift_ranges(ranges: &Vec<TextRange>, delta: i64) -> (r: Result<
    Vec<TextRange>,
    LayoutError,
>)
    ensures
        match all_moved(ranges@, delta, ranges@.len() as int) {
            Some(all) => r is Ok && r->Ok_0@ == all,
            None => r == Err::<Vec<TextRange>, LayoutError>(LayoutError::OffsetOverflow),
        },
{
    let mut out: Vec<TextRange> = Vec::new();
    let mut i: usize = 0;
    while i < ranges.len()
        invariant
            i <= ranges@.len(),
            all_moved(ranges@, delta, i as int) == Some(out@),
        decreases ranges@.len() - i,
    {
        match shift_range(ranges[i], delta) {
            Ok(range) => out.push(range),
            Err(error) => {
                proof {
                    lemma_failed(ranges@, delta, i + 1, ranges@.len() as int);
                }
                return Err(error);
            },
        }
        i += 1;
    }
    Ok(out)
}

proof fn lemma_failed(ranges: Seq<TextRange>, delta: i64, at: int, count: int)
    requires
        at <= count,
        all_moved(ranges, delta, at) is None,
    ensures
        all_moved(ranges, delta, count) is None,
    decreases count - at,
{
    if at < count {
        lemma_failed(ranges, delta, at, count - 1);
    }
}

} // verus!
