//! Confirmed column widths of pipe tables. They follow the tables' delimiter
//! lines through edits.
//!
//! Proportions are kept as the bit patterns that they were given in: nothing here
//! computes with them.
use crate::cache::kept;
use crate::document::error::EditorDocumentError;
use crate::edit::{mapped_after, mapped_before, ChangeSet, TextChange};
use crate::offset::{ByteOffset, TextRange};
use crate::text::{
    chars_of, get, lemma_boundary_bounds, same_text, sliceable, span, text_len, trim_char,
    trim_matches,
};
use vstd::prelude::*;

verus! {

/// The widths of one table, by the source of its delimiter line.
#[derive(Debug)]
pub struct SavedTableWidths {
    pub delimiter: TextRange,
    pub proportions: Vec<u32>,
}

/// What a [`SavedTableWidths`] says.
pub struct WidthsView {
    pub delimiter: TextRange,
    pub proportions: Seq<u32>,
}

impl View for SavedTableWidths {
    type V = WidthsView;

    open spec fn view(&self) -> WidthsView {
        WidthsView { delimiter: self.delimiter, proportions: self.proportions@ }
    }
}

impl SavedTableWidths {
    /// Another record that says the same.
    pub fn duplicate(&self) -> (r: SavedTableWidths)
        ensures
            r@ == self@,
    {
        SavedTableWidths { delimiter: self.delimiter, proportions: copy_bits(&self.proportions) }
    }
}

fn copy_bits(bits: &Vec<u32>) -> (r: Vec<u32>)
    ensures
        r@ == bits@,
{
    let mut out: Vec<u32> = Vec::new();
    let mut i: usize = 0;
    while i < bits.len()
        invariant
            i <= bits@.len(),
            out@ == bits@.take(i as int),
        decreases bits@.len() - i,
    {
        out.push(bits[i]);
        i += 1;
        assert(out@ =~= bits@.take(i as int));
    }
    assert(bits@.take(i as int) =~= bits@);
    out
}

fn same_bits(a: &Vec<u32>, b: &Vec<u32>) -> (r: bool)
    ensures
        r == (a@ == b@),
{
    if a.len() != b.len() {
        return false;
    }
    let mut i: usize = 0;
    while i < a.len()
        invariant
            a@.len() == b@.len(),
            i <= a@.len(),
            forall|k: int| 0 <= k < i ==> a@[k] == b@[k],
        decreases a@.len() - i,
    {
        if a[i] != b[i] {
            return false;
        }
        i += 1;
    }
    assert(a@ =~= b@);
    true
}

/// The models of a list of records.
pub open spec fn width_views(entries: Seq<SavedTableWidths>) -> Seq<WidthsView> {
    entries.map_values(|e: SavedTableWidths| e@)
}

/// The first record for a delimiter line.
pub open spec fn saved_for(entries: Seq<WidthsView>, delimiter: TextRange) -> Option<Seq<u32>>
    decreases entries.len(),
{
    if entries.len() == 0 {
        None
    } else if entries[0].delimiter == delimiter {
        Some(entries[0].proportions)
    } else {
        saved_for(entries.drop_first(), delimiter)
    }
}

/// Whether no delimiter line has two records.
pub open spec fn distinct(entries: Seq<WidthsView>) -> bool {
    forall|i: int, j: int|
        #![trigger entries[i], entries[j]]
        0 <= i < j < entries.len() ==> entries[i].delimiter != entries[j].delimiter
}

/// The confirmed widths of a document's tables. The generation changes with them.
#[derive(Debug)]
pub struct TableWidths {
    pub entries: Vec<SavedTableWidths>,
    pub generation: u64,
}

impl TableWidths {
    /// The records.
    pub open spec fn records(self) -> Seq<WidthsView> {
        width_views(self.entries@)
    }

    /// The generation after a change.
    pub open spec fn next_generation(self) -> u64 {
        if self.generation == u64::MAX {
            0
        } else {
            (self.generation + 1) as u64
        }
    }
}

fn position_of(entries: &Vec<SavedTableWidths>, delimiter: TextRange) -> (r: Option<usize>)
    ensures
        match r {
            Some(i) => i < entries@.len() && entries@[i as int].delimiter == delimiter && saved_for(
                width_views(entries@),
                delimiter,
            ) == Some(entries@[i as int].proportions@),
            None => saved_for(width_views(entries@), delimiter) is None,
        },
        r is Some <==> exists|i: int|
            0 <= i < entries@.len() && (#[trigger] entries@[i]).delimiter == delimiter,
{
    let ghost views = width_views(entries@);
    let mut i: usize = 0;
    assert(views.skip(0) =~= views);
    while i < entries.len()
        invariant
            views == width_views(entries@),
            i <= entries@.len(),
            saved_for(views.skip(i as int), delimiter) == saved_for(views, delimiter),
            forall|k: int| 0 <= k < i ==> (#[trigger] entries@[k]).delimiter != delimiter,
        decreases entries@.len() - i,
    {
        assert(views.skip(i as int)[0] == entries@[i as int]@);
        assert(views.skip(i as int).drop_first() =~= views.skip(i + 1));
        if entries[i].delimiter == delimiter {
            return Some(i);
        }
        i += 1;
    }
    None
}

fn same_records(a: &Vec<SavedTableWidths>, b: &Vec<SavedTableWidths>) -> (r: bool)
    ensures
        r == (width_views(a@) == width_views(b@)),
{
    if a.len() != b.len() {
        assert(width_views(a@).len() != width_views(b@).len());
        return false;
    }
    let mut i: usize = 0;
    while i < a.len()
        invariant
            a@.len() == b@.len(),
            i <= a@.len(),
            forall|k: int| 0 <= k < i ==> (#[trigger] a@[k])@ == b@[k]@,
        decreases a@.len() - i,
    {
        if a[i].delimiter != b[i].delimiter || !same_bits(&a[i].proportions, &b[i].proportions) {
            assert(width_views(a@)[i as int] != width_views(b@)[i as int]);
            return false;
        }
        i += 1;
    }
    assert(width_views(a@) =~= width_views(b@));
    true
}

/// Whether saved records can be taken over: each is valid by itself, and no
/// delimiter line has two.
pub open spec fn restorable(records: Seq<WidthsView>, valid: Seq<bool>) -> bool {
    distinct(records) && forall|i: int| 0 <= i < records.len() ==> #[trigger] valid[i]
}

/// Whether `changed` are the delimiter lines whose widths differ.
pub open spec fn differing(
    before: Seq<WidthsView>,
    after: Seq<WidthsView>,
    changed: Seq<TextRange>,
) -> bool {
    forall|d: TextRange|
        #[trigger] changed.contains(d) <==> saved_for(before, d) != saved_for(after, d)
}

fn keys_are_distinct(records: &Vec<SavedTableWidths>) -> (r: bool)
    ensures
        r == distinct(width_views(records@)),
{
    let ghost views = width_views(records@);
    let mut j: usize = 0;
    while j < records.len()
        invariant
            views == width_views(records@),
            j <= records@.len(),
            forall|a: int, b: int|
                #![trigger views[a], views[b]]
                0 <= a < b < j ==> views[a].delimiter != views[b].delimiter,
        decreases records@.len() - j,
    {
        let mut i: usize = 0;
        while i < j
            invariant
                views == width_views(records@),
                i <= j < records@.len(),
                forall|a: int|
                    0 <= a < i ==> (#[trigger] views[a]).delimiter != views[j as int].delimiter,
            decreases j - i,
        {
            assert(views[i as int] == records@[i as int]@);
            assert(views[j as int] == records@[j as int]@);
            if records[i].delimiter == records[j].delimiter {
                return false;
            }
            i += 1;
        }
        j += 1;
    }
    true
}

impl TableWidths {
    /// Replaces all records by saved ones, where each is valid. Gives the delimiter lines
    /// of the tables whose widths changed.
    fn replace_records(
        &mut self,
        records: Vec<SavedTableWidths>,
        valid: &Vec<bool>,
    ) -> (r: Result<Vec<TextRange>, EditorDocumentError>)
        requires
            valid@.len() == records@.len(),
        ensures
            match r {
                Err(e) => {
                    &&& e == EditorDocumentError::InvalidTableWidths
                    &&& !restorable(width_views(records@), valid@)
                    &&& *final(self) == *old(self)
                },
                Ok(changed) => {
                    &&& restorable(width_views(records@), valid@)
                    &&& final(self).records() == width_views(records@)
                    &&& differing(old(self).records(), final(self).records(), changed@)
                    &&& final(self).generation == (if old(self).records() == width_views(records@) {
                        old(self).generation
                    } else {
                        old(self).next_generation()
                    })
                },
            },
    {
        let mut i: usize = 0;
        while i < valid.len()
            invariant
                i <= valid@.len(),
                valid@.len() == records@.len(),
                *self == *old(self),
                forall|k: int| 0 <= k < i ==> #[trigger] valid@[k],
            decreases valid@.len() - i,
        {
            if !valid[i] {
                return Err(EditorDocumentError::InvalidTableWidths);
            }
            i += 1;
        }
        if !keys_are_distinct(&records) {
            return Err(EditorDocumentError::InvalidTableWidths);
        }
        let ghost before = self.records();
        let ghost after = width_views(records@);
        let mut changed: Vec<TextRange> = Vec::new();
        if same_records(&self.entries, &records) {
            assert(differing(before, after, changed@));
            return Ok(changed);
        }
        let mut k: usize = 0;
        while k < records.len()
            invariant
                *self == *old(self),
                before == self.records(),
                after == width_views(records@),
                distinct(after),
                k <= records@.len(),
                forall|d: TextRange|
                    #[trigger] changed@.contains(d) <==> saved_for(before, d) != saved_for(after, d)
                        && exists|m: int|
                        0 <= m < k && (#[trigger] records@[m]).delimiter == d,
            decreases records@.len() - k,
        {
            let delimiter = records[k].delimiter;
            proof {
                lemma_saved_at(after, k as int);
                assert(after[k as int] == records@[k as int]@);
            }
            let differs = match position_of(&self.entries, delimiter) {
                Some(at) => !same_bits(&self.entries[at].proportions, &records[k].proportions),
                None => true,
            };
            let ghost so_far = changed@;
            if differs {
                changed.push(delimiter);
            }
            proof {
                assert(differs == (saved_for(before, delimiter) != saved_for(after, delimiter)));
                assert forall|d: TextRange|
                    #[trigger] changed@.contains(d) <==> saved_for(before, d) != saved_for(
                        after,
                        d,
                    ) && exists|m: int|
                        0 <= m < k + 1 && (#[trigger] records@[m]).delimiter == d by {
                    lemma_contains_push(so_far, delimiter, d);
                    assert(records@[k as int].delimiter == delimiter);
                }
            }
            k += 1;
        }
        let mut j: usize = 0;
        while j < self.entries.len()
            invariant
                *self == *old(self),
                before == self.records(),
                after == width_views(records@),
                distinct(after),
                k == records@.len(),
                j <= self.entries@.len(),
                forall|d: TextRange|
                    #[trigger] changed@.contains(d) <==> saved_for(before, d) != saved_for(after, d)
                        && ((exists|m: int|
                        0 <= m < k && (#[trigger] records@[m]).delimiter == d) || exists|m: int|
                        0 <= m < j && (#[trigger] self.entries@[m]).delimiter == d),
            decreases self.entries@.len() - j,
        {
            let delimiter = self.entries[j].delimiter;
            let ghost so_far = changed@;
            let removed = position_of(&records, delimiter).is_none();
            if removed {
                changed.push(delimiter);
            }
            proof {
                lemma_saved_some(before, j as int);
                assert(before[j as int] == self.entries@[j as int]@);
                assert forall|d: TextRange|
                    #[trigger] changed@.contains(d) <==> saved_for(before, d) != saved_for(
                        after,
                        d,
                    ) && ((exists|m: int|
                        0 <= m < k && (#[trigger] records@[m]).delimiter == d) || exists|m: int|
                        0 <= m < j + 1 && (#[trigger] self.entries@[m]).delimiter == d) by {
                    lemma_contains_push(so_far, delimiter, d);
                    assert(self.entries@[j as int].delimiter == delimiter);
                }
            }
            j += 1;
        }
        proof {
            assert forall|d: TextRange|
                #[trigger] changed@.contains(d) <==> saved_for(before, d) != saved_for(
                    after,
                    d,
                ) by {
                lemma_saved_exists(before, d);
                lemma_saved_exists(after, d);
                if saved_for(before, d) is Some {
                    let m = choose|m: int|
                        0 <= m < before.len() && (#[trigger] before[m]).delimiter == d;
                    assert(self.entries@[m]@ == before[m]);
                }
                if saved_for(after, d) is Some {
                    let m = choose|m: int|
                        0 <= m < after.len() && (#[trigger] after[m]).delimiter == d;
                    assert(records@[m]@ == after[m]);
                }
            }
        }
        self.entries = records;
        self.generation = self.generation.wrapping_add(1);
        Ok(changed)
    }

    /// Confirms the widths of one table.
    pub fn confirm_table_column_widths(&mut self, delimiter: TextRange, proportions: Vec<u32>)
        ensures
            final(self).records() == without_delimiter(old(self).records(), delimiter).push(
                WidthsView { delimiter, proportions: proportions@ },
            ),
            final(self).generation == old(self).next_generation(),
    {
        let ghost before = self.records();
        let mut kept: Vec<SavedTableWidths> = Vec::new();
        let mut i: usize = 0;
        assert(before.take(0) =~= Seq::empty());
        assert(width_views(kept@) =~= Seq::empty());
        while i < self.entries.len()
            invariant
                before == self.records(),
                *self == *old(self),
                i <= self.entries@.len(),
                width_views(kept@) == without_delimiter(before.take(i as int), delimiter),
            decreases self.entries@.len() - i,
        {
            assert(before.take(i + 1).drop_last() =~= before.take(i as int));
            assert(before.take(i + 1).last() == self.entries@[i as int]@);
            if self.entries[i].delimiter != delimiter {
                let ghost so_far = kept@;
                let copy = self.entries[i].duplicate();
                kept.push(copy);
                assert(width_views(kept@) =~= width_views(so_far).push(copy@));
            }
            i += 1;
        }
        assert(before.take(i as int) =~= before);
        let ghost so_far = kept@;
        let added = SavedTableWidths { delimiter, proportions };
        kept.push(added);
        assert(width_views(kept@) =~= width_views(so_far).push(added@));
        self.entries = kept;
        self.generation = self.generation.wrapping_add(1);
    }

    /// Whether a table inside `block` has confirmed widths.
    pub fn has_saved_table_widths(&self, block: TextRange) -> (r: bool)
        ensures
            r == exists|i: int|
                0 <= i < self.entries@.len() && block.spec_contains_range(
                    (#[trigger] self.entries@[i]).delimiter,
                ),
    {
        let mut i: usize = 0;
        while i < self.entries.len()
            invariant
                i <= self.entries@.len(),
                forall|k: int|
                    0 <= k < i ==> !block.spec_contains_range(
                        (#[trigger] self.entries@[k]).delimiter,
                    ),
            decreases self.entries@.len() - i,
        {
            if block.contains_range(self.entries[i].delimiter) {
                assert(block.spec_contains_range(self.entries@[i as int].delimiter));
                return true;
            }
            i += 1;
        }
        false
    }

    /// The confirmed proportions of a table with `columns` columns.
    pub fn saved_table_widths(&self, delimiter: TextRange, columns: usize) -> (r: Option<Vec<u32>>)
        ensures
            match r {
                Some(bits) => saved_for(self.records(), delimiter) == Some(bits@) && bits@.len()
                    == columns,
                None => saved_for(self.records(), delimiter) matches Some(bits) ==> bits.len()
                    != columns,
            },
    {
        match position_of(&self.entries, delimiter) {
            Some(i) => if self.entries[i].proportions.len() == columns {
                Some(copy_bits(&self.entries[i].proportions))
            } else {
                None
            },
            None => None,
        }
    }
}

proof fn lemma_contains_push(items: Seq<TextRange>, added: TextRange, d: TextRange)
    ensures
        items.push(added).contains(d) <==> items.contains(d) || d == added,
{
    if items.contains(d) {
        let k = choose|k: int| 0 <= k < items.len() && items[k] == d;
        assert(items.push(added)[k] == d);
    }
    assert(items.push(added)[items.len() as int] == added);
    if items.push(added).contains(d) && d != added {
        let k = choose|k: int| 0 <= k < items.push(added).len() && items.push(added)[k] == d;
        assert(items[k] == d);
    }
}

proof fn lemma_saved_exists(entries: Seq<WidthsView>, delimiter: TextRange)
    ensures
        saved_for(entries, delimiter) is Some <==> exists|m: int|
            0 <= m < entries.len() && (#[trigger] entries[m]).delimiter == delimiter,
    decreases entries.len(),
{
    if entries.len() > 0 && entries[0].delimiter != delimiter {
        let tail = entries.drop_first();
        lemma_saved_exists(tail, delimiter);
        if saved_for(entries, delimiter) is Some {
            let m = choose|m: int| 0 <= m < tail.len() && (#[trigger] tail[m]).delimiter == delimiter;
            assert(entries[m + 1].delimiter == delimiter);
        }
        if exists|m: int| 0 <= m < entries.len() && (#[trigger] entries[m]).delimiter == delimiter {
            let m = choose|m: int|
                0 <= m < entries.len() && (#[trigger] entries[m]).delimiter == delimiter;
            assert(tail[m - 1].delimiter == delimiter);
        }
    }
}

proof fn lemma_saved_some(entries: Seq<WidthsView>, at: int)
    requires
        0 <= at < entries.len(),
    ensures
        saved_for(entries, entries[at].delimiter) is Some,
{
    lemma_saved_exists(entries, entries[at].delimiter);
}

proof fn lemma_saved_at(entries: Seq<WidthsView>, at: int)
    requires
        0 <= at < entries.len(),
        distinct(entries),
    ensures
        saved_for(entries, entries[at].delimiter) == Some(entries[at].proportions),
    decreases entries.len(),
{
    if at > 0 {
        assert(entries[0].delimiter != entries[at].delimiter);
        let tail = entries.drop_first();
        assert forall|i: int, j: int|
            #![trigger tail[i], tail[j]]
            0 <= i < j < tail.len() implies tail[i].delimiter != tail[j].delimiter by {
            assert(entries[i + 1].delimiter != entries[j + 1].delimiter);
        }
        assert(tail[at - 1] == entries[at]);
        lemma_saved_at(tail, at - 1);
    }
}

/// The records of other delimiter lines.
pub open spec fn without_delimiter(entries: Seq<WidthsView>, delimiter: TextRange) -> Seq<WidthsView>
    decreases entries.len(),
{
    if entries.len() == 0 {
        Seq::empty()
    } else {
        let before = without_delimiter(entries.drop_last(), delimiter);
        if entries.last().delimiter == delimiter {
            before
        } else {
            before.push(entries.last())
        }
    }
}

/// Whether a change touches a delimiter line: it replaces bytes of it, or inserts
/// strictly inside it.
pub open spec fn touches_delimiter(old: TextRange, delimiter: TextRange) -> bool {
    if old.start == old.end {
        delimiter.start.value < old.start.value < delimiter.end.value
    } else {
        old.start.value < delimiter.end.value && delimiter.start.value < old.end.value
    }
}

/// Whether a text is made of dashes, and not empty.
pub open spec fn all_dashes(text: Seq<char>) -> bool {
    text.len() > 0 && forall|i: int| 0 <= i < text.len() ==> (#[trigger] text[i]) == '-'
}

/// Whether a change inside a delimiter line only realigns one of its cells: the
/// same dashes, with other colons around them.
pub open spec fn realigns(
    before: Seq<char>,
    after: Seq<char>,
    change: TextChange,
    delimiter: TextRange,
) -> bool {
    let old = change.old;
    let new = change.new;
    let dashes = trim_char(span(before, old.start.value as int, old.end.value as int), ':');
    &&& delimiter.start.value <= old.start.value
    &&& old.end.value <= delimiter.end.value
    &&& sliceable(before, old.start.value as int, old.end.value as int)
    &&& sliceable(after, new.start.value as int, new.end.value as int)
    &&& all_dashes(dashes)
    &&& trim_char(span(after, new.start.value as int, new.end.value as int), ':') == dashes
}

/// Whether a delimiter line keeps its identity through all changes.
pub open spec fn survives(
    before: Seq<char>,
    after: Seq<char>,
    changes: Seq<TextChange>,
    delimiter: TextRange,
) -> bool {
    forall|i: int|
        0 <= i < changes.len() && touches_delimiter((#[trigger] changes[i]).old, delimiter)
            ==> realigns(before, after, changes[i], delimiter)
}

/// Whether the first cell of the delimiter line is realigned.
pub open spec fn realigned_at_start(changes: Seq<TextChange>, delimiter: TextRange) -> bool {
    exists|i: int|
        0 <= i < changes.len() && touches_delimiter((#[trigger] changes[i]).old, delimiter)
            && changes[i].old.start == delimiter.start
}

/// Where a delimiter line stands after changes, if it keeps its identity.
pub open spec fn moved_delimiter(
    before: Seq<char>,
    after: Seq<char>,
    changes: Seq<TextChange>,
    delimiter: TextRange,
) -> Option<TextRange> {
    let start = if realigned_at_start(changes, delimiter) {
        mapped_before(changes, delimiter.start.value as int)
    } else {
        mapped_after(changes, delimiter.start.value as int)
    };
    let end = mapped_before(changes, delimiter.end.value as int);
    if survives(before, after, changes, delimiter) && start <= end && end <= u64::MAX {
        Some(
            TextRange {
                start: ByteOffset { value: start as u64 },
                end: ByteOffset { value: end as u64 },
            },
        )
    } else {
        None
    }
}

/// The records after changes, each at its delimiter line's new place.
pub open spec fn moved_records(
    before: Seq<char>,
    after: Seq<char>,
    changes: Seq<TextChange>,
    entries: Seq<WidthsView>,
) -> Seq<WidthsView>
    decreases entries.len(),
{
    if entries.len() == 0 {
        Seq::empty()
    } else {
        let kept = moved_records(before, after, changes, entries.drop_last());
        match moved_delimiter(before, after, changes, entries.last().delimiter) {
            Some(delimiter) => kept.push(
                WidthsView { delimiter, proportions: entries.last().proportions },
            ),
            None => kept,
        }
    }
}

fn is_all_dashes(text: &str) -> (r: bool)
    ensures
        r == all_dashes(text@),
{
    let chars = chars_of(text);
    if chars.len() == 0 {
        return false;
    }
    let mut i: usize = 0;
    while i < chars.len()
        invariant
            chars@ == text@,
            chars@.len() > 0,
            i <= chars@.len(),
            forall|k: int| 0 <= k < i ==> (#[trigger] text@[k]) == '-',
        decreases chars@.len() - i,
    {
        if chars[i] != '-' {
            assert(text@[i as int] != '-');
            return false;
        }
        i += 1;
    }
    true
}

fn read_range(text: &str, range: TextRange) -> (r: Option<&str>)
    ensures
        match r {
            Some(part) => sliceable(
                text@,
                range.start.value as int,
                range.end.value as int,
            ) && part@ == span(text@, range.start.value as int, range.end.value as int),
            None => !sliceable(text@, range.start.value as int, range.end.value as int),
        },
{
    let length = text_len(text) as u64;
    if range.start.value > length || range.end.value > length {
        proof {
            if sliceable(text@, range.start.value as int, range.end.value as int) {
                lemma_boundary_bounds(text@, range.start.value as int);
                lemma_boundary_bounds(text@, range.end.value as int);
            }
        }
        return None;
    }
    get(text, range.start.value as usize, range.end.value as usize)
}

fn is_realigned(before: &str, after: &str, change: TextChange, delimiter: TextRange) -> (r: bool)
    ensures
        r == realigns(before@, after@, change, delimiter),
{
    if change.old.start.value < delimiter.start.value || change.old.end.value
        > delimiter.end.value {
        return false;
    }
    match (read_range(before, change.old), read_range(after, change.new)) {
        (Some(old), Some(new)) => {
            let dashes = trim_matches(old, ':');
            is_all_dashes(dashes.as_str()) && same_text(
                trim_matches(new, ':').as_str(),
                dashes.as_str(),
            )
        },
        _ => false,
    }
}

fn move_delimiter(before: &str, after: &str, changes: &ChangeSet, delimiter: TextRange) -> (r: Option<
    TextRange,
>)
    ensures
        r == moved_delimiter(before@, after@, changes.changes@, delimiter),
{
    let mut at_start = false;
    let mut i: usize = 0;
    while i < changes.changes.len()
        invariant
            i <= changes.changes@.len(),
            forall|k: int|
                0 <= k < i && touches_delimiter((#[trigger] changes.changes@[k]).old, delimiter)
                    ==> realigns(before@, after@, changes.changes@[k], delimiter),
            at_start <==> exists|k: int|
                0 <= k < i && touches_delimiter((#[trigger] changes.changes@[k]).old, delimiter)
                    && changes.changes@[k].old.start == delimiter.start,
        decreases changes.changes@.len() - i,
    {
        let change = changes.changes[i];
        let old = change.old;
        let touched = if old.is_empty() {
            delimiter.start.value < old.start.value && old.start.value < delimiter.end.value
        } else {
            old.start.value < delimiter.end.value && delimiter.start.value < old.end.value
        };
        assert(touched == touches_delimiter(changes.changes@[i as int].old, delimiter));
        if touched {
            if !is_realigned(before, after, change, delimiter) {
                return None;
            }
            if old.start == delimiter.start {
                at_start = true;
            }
        }
        i += 1;
    }
    let start = if at_start {
        changes.map_before(delimiter.start)
    } else {
        changes.map_after(delimiter.start)
    };
    let end = changes.map_before(delimiter.end);
    match (start, end) {
        (Some(start), Some(end)) => if start.value <= end.value {
            Some(TextRange { start, end })
        } else {
            None
        },
        _ => None,
    }
}

impl TableWidths {
    /// Lets the records follow their tables through changes from `before` to
    /// `after`. A record is dropped when its delimiter line loses its identity: a
    /// change that replaces more of it than the alignment of a column.
    pub fn map_table_widths(&mut self, before: &str, after: &str, changes: &ChangeSet)
        ensures
            final(self).records() == moved_records(
                before@,
                after@,
                changes.changes@,
                old(self).records(),
            ),
            final(self).generation == old(self).generation,
    {
        let ghost all = self.records();
        let mut kept: Vec<SavedTableWidths> = Vec::new();
        let mut i: usize = 0;
        assert(all.take(0) =~= Seq::empty());
        assert(width_views(kept@) =~= Seq::empty());
        while i < self.entries.len()
            invariant
                *self == *old(self),
                all == self.records(),
                i <= self.entries@.len(),
                width_views(kept@) == moved_records(
                    before@,
                    after@,
                    changes.changes@,
                    all.take(i as int),
                ),
            decreases self.entries@.len() - i,
        {
            assert(all.take(i + 1).drop_last() =~= all.take(i as int));
            assert(all.take(i + 1).last() == self.entries@[i as int]@);
            if let Some(delimiter) = move_delimiter(
                before,
                after,
                changes,
                self.entries[i].delimiter,
            ) {
                let ghost so_far = kept@;
                let moved = SavedTableWidths {
                    delimiter,
                    proportions: copy_bits(&self.entries[i].proportions),
                };
                kept.push(moved);
                assert(width_views(kept@) =~= width_views(so_far).push(moved@));
            }
            i += 1;
        }
        assert(all.take(i as int) =~= all);
        self.entries = kept;
    }
}

/// A checkpoint of all widths.
#[derive(Debug)]
pub struct WidthCheckpoint {
    pub token: u64,
    pub widths: Vec<SavedTableWidths>,
}

/// The checkpoints that undo and redo steps refer to by token. Token zero stands
/// for no widths at all.
#[derive(Debug)]
pub struct WidthHistory {
    pub next: u64,
    pub checkpoints: Vec<WidthCheckpoint>,
}

/// What is kept for a token.
pub open spec fn checkpoint_for(checkpoints: Seq<WidthCheckpoint>, token: u64) -> Option<
    Seq<WidthsView>,
>
    decreases checkpoints.len(),
{
    if checkpoints.len() == 0 {
        None
    } else if checkpoints.last().token == token {
        Some(width_views(checkpoints.last().widths@))
    } else {
        checkpoint_for(checkpoints.drop_last(), token)
    }
}

impl WidthHistory {
    /// Whether every token was given out.
    pub open spec fn wf(self) -> bool {
        forall|i: int|
            0 <= i < self.checkpoints@.len() ==> (#[trigger] self.checkpoints@[i]).token <= self.next
    }

    /// No checkpoint at all.
    pub fn new() -> (r: WidthHistory)
        ensures
            r.next == 0,
            r.checkpoints@.len() == 0,
            r.wf(),
    {
        WidthHistory { next: 0, checkpoints: Vec::new() }
    }

    /// Keeps the widths for a later restore, and gives the token to ask for them.
    pub fn capture(&mut self, widths: &Vec<SavedTableWidths>) -> (r: u64)
        requires
            old(self).wf(),
            old(self).next < u64::MAX,
        ensures
            final(self).wf(),
            widths@.len() == 0 ==> r == 0 && *final(self) == *old(self),
            widths@.len() > 0 ==> {
                &&& r == old(self).next + 1
                &&& final(self).next == r
                &&& checkpoint_for(final(self).checkpoints@, r) == Some(width_views(widths@))
                &&& forall|token: u64|
                    token != r ==> #[trigger] checkpoint_for(final(self).checkpoints@, token)
                        == checkpoint_for(old(self).checkpoints@, token)
            },
    {
        if widths.len() == 0 {
            return 0;
        }
        self.next = self.next + 1;
        let token = self.next;
        let mut copy: Vec<SavedTableWidths> = Vec::new();
        let mut i: usize = 0;
        while i < widths.len()
            invariant
                i <= widths@.len(),
                copy@.len() == i,
                forall|k: int| 0 <= k < i ==> (#[trigger] copy@[k])@ == widths@[k]@,
            decreases widths@.len() - i,
        {
            copy.push(widths[i].duplicate());
            i += 1;
        }
        assert(width_views(copy@) =~= width_views(widths@));
        let ghost before = self.checkpoints@;
        self.checkpoints.push(WidthCheckpoint { token, widths: copy });
        assert(self.checkpoints@.drop_last() =~= before);
        token
    }

    /// Forgets the checkpoints that no step refers to.
    pub fn prune(&mut self, retained: &Vec<u64>)
        requires
            old(self).wf(),
        ensures
            final(self).wf(),
            final(self).next == old(self).next,
            forall|token: u64|
                #[trigger] checkpoint_for(final(self).checkpoints@, token) == (
                if retained@.contains(token) {
                    checkpoint_for(old(self).checkpoints@, token)
                } else {
                    None
                }),
    {
        let ghost all = self.checkpoints@;
        let mut kept: Vec<WidthCheckpoint> = Vec::new();
        let mut rest: Vec<WidthCheckpoint> = Vec::new();
        rest.append(&mut self.checkpoints);
        // The newest checkpoints are moved first, so that order is restored below.
        let mut newest: Vec<WidthCheckpoint> = Vec::new();
        assert(all.take(all.len() as int) =~= all);
        while rest.len() > 0
            invariant
                rest@.len() + newest@.len() == all.len(),
                rest@ == all.take(rest@.len() as int),
                forall|k: int|
                    0 <= k < newest@.len() ==> (#[trigger] newest@[k]) == all[all.len() - 1 - k],
            decreases rest@.len(),
        {
            let ghost before = rest@;
            if let Some(checkpoint) = rest.pop() {
                assert(before[before.len() - 1] == checkpoint);
                newest.push(checkpoint);
                assert(rest@ =~= all.take(rest@.len() as int));
            }
        }
        while newest.len() > 0
            invariant
                self.next == old(self).next,
                all == old(self).checkpoints@,
                old(self).wf(),
                newest@.len() <= all.len(),
                forall|k: int|
                    0 <= k < newest@.len() ==> (#[trigger] newest@[k]) == all[all.len() - 1 - k],
                forall|k: int| 0 <= k < kept@.len() ==> (#[trigger] kept@[k]).token <= self.next,
                forall|token: u64|
                    #[trigger] checkpoint_for(kept@, token) == (if retained@.contains(token) {
                        checkpoint_for(all.take(all.len() - newest@.len()), token)
                    } else {
                        None
                    }),
            decreases newest@.len(),
        {
            let ghost n = all.len() - newest@.len();
            let ghost before = newest@;
            if let Some(checkpoint) = newest.pop() {
                proof {
                    assert(before[before.len() - 1] == all[n]);
                    assert(checkpoint == all[n]);
                    assert(all.take(n + 1).drop_last() =~= all.take(n));
                    assert(all.take(n + 1).last() == checkpoint);
                    assert(old(self).checkpoints@[n].token <= self.next);
                }
                let ghost so_far = kept@;
                if contains_token(retained, checkpoint.token) {
                    kept.push(checkpoint);
                    assert(kept@.drop_last() =~= so_far);
                }
                proof {
                    assert forall|token: u64|
                        #[trigger] checkpoint_for(kept@, token) == (if retained@.contains(token) {
                            checkpoint_for(all.take(n + 1), token)
                        } else {
                            None
                        }) by {
                        let earlier = checkpoint_for(so_far, token);
                        assert(checkpoint_for(all.take(n + 1), token) == (if all[n].token == token {
                            Some(width_views(all[n].widths@))
                        } else {
                            checkpoint_for(all.take(n), token)
                        }));
                    }
                }
            }
        }
        assert(all.take(all.len() as int) =~= all);
        self.checkpoints = kept;
    }
}

fn contains_token(tokens: &Vec<u64>, wanted: u64) -> (r: bool)
    ensures
        r == tokens@.contains(wanted),
{
    let mut i: usize = 0;
    while i < tokens.len()
        invariant
            i <= tokens@.len(),
            forall|k: int| 0 <= k < i ==> tokens@[k] != wanted,
        decreases tokens@.len() - i,
    {
        if tokens[i] == wanted {
            assert(tokens@[i as int] == wanted);
            return true;
        }
        i += 1;
    }
    false
}

/// The checkpointed records that come back: those without a current record whose
/// table is still there. `valid` says of each whether it is.
pub open spec fn restored_records(
    current: Seq<WidthsView>,
    saved: Seq<WidthsView>,
    valid: Seq<bool>,
    count: int,
) -> Seq<WidthsView>
    decreases count,
{
    if count <= 0 {
        Seq::empty()
    } else {
        let before = restored_records(current, saved, valid, count - 1);
        if saved_for(current, saved[count - 1].delimiter) is None && valid[count - 1] {
            before.push(saved[count - 1])
        } else {
            before
        }
    }
}

impl TableWidths {
    /// Brings back the valid ones of checkpointed records that no current record replaces.
    /// Gives their delimiter lines.
    fn bring_back(&mut self, saved: &Vec<SavedTableWidths>, valid: &Vec<bool>) -> (r: Vec<TextRange>)
        requires
            valid@.len() == saved@.len(),
        ensures
            ({
                let back = restored_records(
                    old(self).records(),
                    width_views(saved@),
                    valid@,
                    saved@.len() as int,
                );
                &&& final(self).records() == old(self).records() + back
                &&& r@ == back.map_values(|w: WidthsView| w.delimiter)
                &&& final(self).generation == (if back.len() == 0 {
                    old(self).generation
                } else {
                    old(self).next_generation()
                })
            }),
    {
        let ghost current = self.records();
        let ghost views = width_views(saved@);
        let mut restored: Vec<SavedTableWidths> = Vec::new();
        let mut changed: Vec<TextRange> = Vec::new();
        let mut i: usize = 0;
        assert(width_views(restored@) =~= Seq::empty());
        while i < saved.len()
            invariant
                *self == *old(self),
                current == self.records(),
                views == width_views(saved@),
                valid@.len() == saved@.len(),
                i <= saved@.len(),
                width_views(restored@) == restored_records(current, views, valid@, i as int),
                changed@ == width_views(restored@).map_values(|w: WidthsView| w.delimiter),
            decreases saved@.len() - i,
        {
            assert(views[i as int] == saved@[i as int]@);
            if position_of(&self.entries, saved[i].delimiter).is_none() && valid[i] {
                let ghost so_far = restored@;
                let copy = saved[i].duplicate();
                restored.push(copy);
                changed.push(saved[i].delimiter);
                assert(width_views(restored@) =~= width_views(so_far).push(copy@));
                assert(changed@ =~= width_views(restored@).map_values(
                    |w: WidthsView| w.delimiter,
                ));
            }
            i += 1;
        }
        if restored.len() > 0 {
            let ghost back = width_views(restored@);
            self.entries.append(&mut restored);
            assert(self.records() =~= current + back);
            self.generation = self.generation.wrapping_add(1);
        } else {
            assert(current + width_views(restored@) =~= current);
        }
        changed
    }
}

/// Confirming widths keeps one record per table.
pub proof fn law_confirmed_widths_stay_distinct(
    entries: Seq<WidthsView>,
    delimiter: TextRange,
    proportions: Seq<u32>,
)
    requires
        distinct(entries),
    ensures
        distinct(without_delimiter(entries, delimiter).push(WidthsView { delimiter, proportions })),
        saved_for(
            without_delimiter(entries, delimiter).push(WidthsView { delimiter, proportions }),
            delimiter,
        ) == Some(proportions),
{
    lemma_without(entries, delimiter);
    let kept = without_delimiter(entries, delimiter);
    let all = kept.push(WidthsView { delimiter, proportions });
    assert(distinct(all)) by {
        assert forall|i: int, j: int|
            #![trigger all[i], all[j]]
            0 <= i < j < all.len() implies all[i].delimiter != all[j].delimiter by {
            assert(all[i] == kept[i]);
            if j < kept.len() {
                assert(all[j] == kept[j]);
            }
        }
    }
    lemma_saved_at(all, kept.len() as int);
}

proof fn lemma_without(entries: Seq<WidthsView>, delimiter: TextRange)
    requires
        distinct(entries),
    ensures
        ({
            let kept = without_delimiter(entries, delimiter);
            &&& distinct(kept)
            &&& forall|i: int|
                0 <= i < kept.len() ==> (#[trigger] kept[i]).delimiter != delimiter
                    && entries.contains(kept[i])
        }),
    decreases entries.len(),
{
    if entries.len() > 0 {
        let shorter = entries.drop_last();
        assert(distinct(shorter)) by {
            assert forall|i: int, j: int|
                #![trigger shorter[i], shorter[j]]
                0 <= i < j < shorter.len() implies shorter[i].delimiter != shorter[j].delimiter by {
                assert(entries[i].delimiter != entries[j].delimiter);
            }
        }
        lemma_without(shorter, delimiter);
        let before = without_delimiter(shorter, delimiter);
        let kept = without_delimiter(entries, delimiter);
        let last = entries.len() - 1;
        assert forall|i: int| 0 <= i < kept.len() implies (#[trigger] kept[i]).delimiter
            != delimiter && entries.contains(kept[i]) by {
            if i < before.len() {
                assert(kept[i] == before[i]);
                let m = choose|m: int| 0 <= m < shorter.len() && shorter[m] == before[i];
                assert(entries[m] == kept[i]);
            } else {
                assert(entries[last] == kept[i]);
            }
        }
        assert forall|i: int, j: int|
            #![trigger kept[i], kept[j]]
            0 <= i < j < kept.len() implies kept[i].delimiter != kept[j].delimiter by {
            assert(kept[i] == before[i]);
            if j < before.len() {
                assert(kept[j] == before[j]);
            } else {
                let m = choose|m: int| 0 <= m < shorter.len() && shorter[m] == before[i];
                assert(entries[m].delimiter != entries[last].delimiter);
            }
        }
    }
}

impl TableWidths {
    /// The valid records.
    fn records_where(&self, valid: &Vec<bool>) -> (r: Vec<SavedTableWidths>)
        requires
            valid@.len() == self.entries@.len(),
        ensures
            width_views(r@) == kept(self.records(), valid@),
    {
        let ghost all = self.records();
        let mut out: Vec<SavedTableWidths> = Vec::new();
        let mut i: usize = 0;
        assert(all.take(0) =~= Seq::empty());
        assert(width_views(out@) =~= Seq::empty());
        while i < self.entries.len()
            invariant
                i <= self.entries@.len() == valid@.len(),
                all == self.records(),
                width_views(out@) == kept(all.take(i as int), valid@),
            decreases self.entries@.len() - i,
        {
            let ghost before = out@;
            proof {
                assert(all.take(i + 1).drop_last() =~= all.take(i as int));
                assert(all.take(i + 1).last() == self.entries@[i as int]@);
            }
            if valid[i] {
                let copy = self.entries[i].duplicate();
                out.push(copy);
                assert(width_views(out@) =~= width_views(before).push(copy@));
            }
            i += 1;
        }
        assert(all.take(all.len() as int) =~= all);
        out
    }

    /// Whether these are the records.
    pub fn holds(&self, records: &Vec<SavedTableWidths>) -> (r: bool)
        ensures
            r == (self.records() == width_views(records@)),
    {
        same_records(&self.entries, records)
    }

    /// Changes with the records.
    pub fn table_width_generation(&self) -> (r: u64)
        ensures
            r == self.generation,
    {
        self.generation
    }
}

/// The delimiter line and the number of columns of a table.
#[derive(Clone, Copy, Debug, PartialEq, Eq, Structural)]
pub struct TableAnchor {
    pub delimiter: Option<TextRange>,
    pub columns: usize,
}

/// Whether widths of `columns` columns that were saved for a delimiter line still belong
/// to a table. `table` is the one in the block where the line begins.
pub fn table_width_anchor_is_current(
    delimiter: TextRange,
    columns: usize,
    table: Option<TableAnchor>,
) -> (r: bool)
    ensures
        r == (table == Some(TableAnchor { delimiter: Some(delimiter), columns })),
{
    match table {
        Some(anchor) => match anchor.delimiter {
            Some(line) => anchor.columns == columns && line == delimiter,
            None => false,
        },
        None => false,
    }
}

/// The bits of the number one.
pub const ONE_BITS: u32 = 0x3F80_0000;

/// Whether bits are those of a number above zero and at most one. Such numbers are in the
/// order of their bits.
pub open spec fn is_proportion(bits: u32) -> bool {
    0 < bits <= ONE_BITS
}

/// Whether widths are those of a table: `table` is the one in the block where the
/// delimiter line begins.
pub open spec fn belongs_to(record: WidthsView, table: Option<TableAnchor>) -> bool {
    table == Some(
        TableAnchor {
            delimiter: Some(record.delimiter),
            columns: record.proportions.len() as usize,
        },
    )
}

/// Which records belong to their tables.
pub open spec fn current_records(
    records: Seq<WidthsView>,
    tables: Seq<Option<TableAnchor>>,
) -> Seq<bool> {
    Seq::new(records.len(), |i: int| belongs_to(records[i], tables[i]))
}

/// Whether one saved record can be taken over. `whole` says whether its proportions sum up
/// to one, as far as the numbers can tell.
pub open spec fn record_is_sound(
    record: WidthsView,
    whole: bool,
    table: Option<TableAnchor>,
) -> bool {
    &&& record.proportions.len() > 0
    &&& forall|k: int|
        0 <= k < record.proportions.len() ==> is_proportion(#[trigger] record.proportions[k])
    &&& whole
    &&& belongs_to(record, table)
}

/// Which saved records can be taken over.
pub open spec fn sound_records(
    records: Seq<WidthsView>,
    whole: Seq<bool>,
    tables: Seq<Option<TableAnchor>>,
) -> Seq<bool> {
    Seq::new(records.len(), |i: int| record_is_sound(records[i], whole[i], tables[i]))
}

fn all_proportions(proportions: &Vec<u32>) -> (r: bool)
    ensures
        r == forall|k: int|
            0 <= k < proportions@.len() ==> is_proportion(#[trigger] proportions@[k]),
{
    let mut i: usize = 0;
    while i < proportions.len()
        invariant
            i <= proportions@.len(),
            forall|k: int| 0 <= k < i ==> is_proportion(#[trigger] proportions@[k]),
        decreases proportions@.len() - i,
    {
        let bits = proportions[i];
        if bits == 0 || bits > ONE_BITS {
            assert(!is_proportion(proportions@[i as int]));
            return false;
        }
        i += 1;
    }
    true
}

fn find_current(entries: &Vec<SavedTableWidths>, tables: &Vec<Option<TableAnchor>>) -> (r: Vec<bool>)
    requires
        tables@.len() == entries@.len(),
    ensures
        r@ == current_records(width_views(entries@), tables@),
{
    let ghost views = width_views(entries@);
    let mut out: Vec<bool> = Vec::new();
    let mut i: usize = 0;
    while i < entries.len()
        invariant
            views == width_views(entries@),
            tables@.len() == entries@.len(),
            i <= entries@.len(),
            out@.len() == i,
            forall|k: int| 0 <= k < i ==> (#[trigger] out@[k]) == belongs_to(views[k], tables@[k]),
        decreases entries@.len() - i,
    {
        assert(views[i as int] == entries@[i as int]@);
        let columns = entries[i].proportions.len();
        out.push(table_width_anchor_is_current(entries[i].delimiter, columns, tables[i]));
        i += 1;
    }
    assert(out@ =~= current_records(views, tables@));
    out
}

fn find_sound(
    records: &Vec<SavedTableWidths>,
    whole: &Vec<bool>,
    tables: &Vec<Option<TableAnchor>>,
) -> (r: Vec<bool>)
    requires
        whole@.len() == records@.len(),
        tables@.len() == records@.len(),
    ensures
        r@ == sound_records(width_views(records@), whole@, tables@),
{
    let ghost views = width_views(records@);
    let mut out: Vec<bool> = Vec::new();
    let mut i: usize = 0;
    while i < records.len()
        invariant
            views == width_views(records@),
            whole@.len() == records@.len(),
            tables@.len() == records@.len(),
            i <= records@.len(),
            out@.len() == i,
            forall|k: int|
                0 <= k < i ==> (#[trigger] out@[k]) == record_is_sound(
                    views[k],
                    whole@[k],
                    tables@[k],
                ),
        decreases records@.len() - i,
    {
        assert(views[i as int] == records@[i as int]@);
        let proportions = &records[i].proportions;
        let sound = proportions.len() > 0 && all_proportions(proportions) && whole[i]
            && table_width_anchor_is_current(
            records[i].delimiter,
            proportions.len(),
            tables[i],
        );
        out.push(sound);
        i += 1;
    }
    assert(out@ =~= sound_records(views, whole@, tables@));
    out
}

impl TableWidths {
    /// The records to be saved: those that still belong to their tables. `tables` holds
    /// for each record the table in the block where its delimiter line begins.
    pub fn table_column_width_records(&self, tables: &Vec<Option<TableAnchor>>) -> (r: Vec<
        SavedTableWidths,
    >)
        requires
            tables@.len() == self.entries@.len(),
        ensures
            width_views(r@) == kept(self.records(), current_records(self.records(), tables@)),
    {
        let valid = find_current(&self.entries, tables);
        self.records_where(&valid)
    }

    /// Replaces all records by saved ones. A record without proportions, with one that is
    /// no part of a whole, with a sum that is not one, for a delimiter line that another
    /// has or that is not that of a table with as many columns refuses them all. Gives the
    /// delimiter lines of the tables whose widths changed.
    pub fn restore_table_column_width_records(
        &mut self,
        records: Vec<SavedTableWidths>,
        whole: &Vec<bool>,
        tables: &Vec<Option<TableAnchor>>,
    ) -> (r: Result<Vec<TextRange>, EditorDocumentError>)
        requires
            whole@.len() == records@.len(),
            tables@.len() == records@.len(),
        ensures
            ({
                let saved = width_views(records@);
                let valid = sound_records(saved, whole@, tables@);
                if restorable(saved, valid) {
                    &&& r is Ok
                    &&& final(self).records() == saved
                    &&& differing(old(self).records(), saved, r->Ok_0@)
                    &&& final(self).generation == (if old(self).records() == saved {
                        old(self).generation
                    } else {
                        old(self).next_generation()
                    })
                } else {
                    &&& r == Err::<Vec<TextRange>, EditorDocumentError>(
                        EditorDocumentError::InvalidTableWidths,
                    )
                    &&& *final(self) == *old(self)
                }
            }),
    {
        let valid = find_sound(&records, whole, tables);
        self.replace_records(records, &valid)
    }

    /// Brings checkpointed records back after undo or redo, where they belong to their
    /// tables. Current records stay: they followed the source, or were set by hand since.
    /// Gives the delimiter lines of the tables that got widths back.
    pub fn restore_width_history(
        &mut self,
        saved: &Vec<SavedTableWidths>,
        tables: &Vec<Option<TableAnchor>>,
    ) -> (r: Vec<TextRange>)
        requires
            tables@.len() == saved@.len(),
        ensures
            ({
                let views = width_views(saved@);
                let back = restored_records(
                    old(self).records(),
                    views,
                    current_records(views, tables@),
                    saved@.len() as int,
                );
                &&& final(self).records() == old(self).records() + back
                &&& r@ == back.map_values(|w: WidthsView| w.delimiter)
                &&& final(self).generation == (if back.len() == 0 {
                    old(self).generation
                } else {
                    old(self).next_generation()
                })
            }),
    {
        let valid = find_current(saved, tables);
        self.bring_back(saved, &valid)
    }
}

/// Nothing is left out where every flag is set.
proof fn lemma_all_kept<T>(all: Seq<T>, keep: Seq<bool>)
    requires
        all.len() <= keep.len(),
        forall|k: int| 0 <= k < all.len() ==> keep[k],
    ensures
        kept(all, keep) == all,
    decreases all.len(),
{
    if all.len() > 0 {
        lemma_all_kept(all.drop_last(), keep);
        assert(all.drop_last().push(all.last()) =~= all);
    }
}

/// Records that can be restored are saved again as they are, and they are refused exactly
/// where one has no proportions, one that is no part of a whole or a sum that is not one,
/// belongs to no table, or names a delimiter line twice.
pub proof fn law_restored_records_are_saved(
    records: Seq<WidthsView>,
    whole: Seq<bool>,
    tables: Seq<Option<TableAnchor>>,
)
    requires
        whole.len() == records.len(),
        tables.len() == records.len(),
    ensures
        restorable(records, sound_records(records, whole, tables)) ==> kept(
            records,
            current_records(records, tables),
        ) == records,
        restorable(records, sound_records(records, whole, tables)) <==> distinct(records)
            && forall|i: int|
            0 <= i < records.len() ==> record_is_sound(
                #[trigger] records[i],
                whole[i],
                tables[i],
            ),
{
    let valid = sound_records(records, whole, tables);
    let current = current_records(records, tables);
    if restorable(records, valid) {
        assert forall|k: int| 0 <= k < records.len() implies current[k] by {
            assert(valid[k]);
        }
        assert forall|i: int| 0 <= i < records.len() implies record_is_sound(
            #[trigger] records[i],
            whole[i],
            tables[i],
        ) by {
            assert(valid[i]);
        }
        lemma_all_kept(records, current);
    }
}

/// The widths of a table are those of the first record for its delimiter line, and there
/// are none exactly where no record is for it: `k` is the number of a record.
pub proof fn law_first_record_counts(entries: Seq<WidthsView>, delimiter: TextRange, k: int)
    requires
        0 <= k < entries.len(),
        entries[k].delimiter == delimiter,
        forall|m: int| 0 <= m < k ==> (#[trigger] entries[m]).delimiter != delimiter,
    ensures
        saved_for(entries, delimiter) == Some(entries[k].proportions),
    decreases k,
{
    if k > 0 {
        assert(entries[0].delimiter != delimiter);
        let rest = entries.drop_first();
        assert forall|m: int| 0 <= m < k - 1 implies (#[trigger] rest[m]).delimiter
            != delimiter by {
            assert(rest[m] == entries[m + 1]);
        }
        law_first_record_counts(rest, delimiter, k - 1);
    }
}

/// Whether `made` is a record at the new place of its delimiter line, with its proportions.
pub open spec fn record_moves(
    before: Seq<char>,
    after: Seq<char>,
    changes: Seq<TextChange>,
    record: WidthsView,
    made: WidthsView,
) -> bool {
    moved_delimiter(before, after, changes, record.delimiter) == Some(made.delimiter)
        && made.proportions == record.proportions
}

/// Whether `made` is where one of the records moves.
pub open spec fn some_record_moves(
    before: Seq<char>,
    after: Seq<char>,
    changes: Seq<TextChange>,
    entries: Seq<WidthsView>,
    made: WidthsView,
) -> bool {
    exists|n: int|
        0 <= n < entries.len() && #[trigger] record_moves(before, after, changes, entries[n], made)
}

/// Records whose delimiter lines keep their identity move with them and keep their
/// proportions; the others are dropped. `k` is the number of a record, and `m` that of one
/// that was kept.
pub proof fn law_records_move_with_their_tables(
    before: Seq<char>,
    after: Seq<char>,
    changes: Seq<TextChange>,
    entries: Seq<WidthsView>,
    k: int,
    m: int,
)
    requires
        0 <= k < entries.len(),
    ensures
        moved_records(before, after, changes, entries).len() <= entries.len(),
        moved_delimiter(before, after, changes, entries[k].delimiter) matches Some(delimiter)
            ==> moved_records(before, after, changes, entries).contains(
            WidthsView { delimiter, proportions: entries[k].proportions },
        ),
        0 <= m < moved_records(before, after, changes, entries).len() ==> some_record_moves(
            before,
            after,
            changes,
            entries,
            moved_records(before, after, changes, entries)[m],
        ),
    decreases entries.len(),
{
    let front = entries.drop_last();
    let kept = moved_records(before, after, changes, front);
    let all = moved_records(before, after, changes, entries);
    let last = entries.len() - 1;
    if last > 0 {
        law_records_move_with_their_tables(
            before,
            after,
            changes,
            front,
            if k < last {
                k
            } else {
                0
            },
            m,
        );
    }
    if let Some(delimiter) = moved_delimiter(before, after, changes, entries[k].delimiter) {
        let wanted = WidthsView { delimiter, proportions: entries[k].proportions };
        if k < last {
            assert(front[k] == entries[k]);
            let n = kept.index_of(wanted);
            assert(all[n] == wanted);
        } else {
            assert(all[kept.len() as int] == wanted);
        }
    }
    if 0 <= m < kept.len() {
        assert(all[m] == kept[m]);
        let n = choose|n: int|
            0 <= n < front.len() && #[trigger] record_moves(
                before,
                after,
                changes,
                front[n],
                kept[m],
            );
        assert(record_moves(before, after, changes, entries[n], all[m]));
    } else if 0 <= m < all.len() {
        assert(record_moves(before, after, changes, entries[last], all[m]));
    }
}

/// A delimiter line that all changes stand clear of keeps its identity and its length.
pub proof fn law_untouched_delimiter_keeps_its_length(
    before: Seq<char>,
    after: Seq<char>,
    changes: Seq<TextChange>,
    delimiter: TextRange,
)
    requires
        delimiter.start.value < delimiter.end.value,
        forall|k: int|
            0 <= k < changes.len() ==> (#[trigger] changes[k]).old.wf() && (
            changes[k].old.end.value < delimiter.start.value || delimiter.end.value
                < changes[k].old.start.value),
        mapped_before(changes, delimiter.end.value as int) <= u64::MAX,
    ensures
        moved_delimiter(before, after, changes, delimiter) matches Some(there) && there.end.value
            - there.start.value == delimiter.end.value - delimiter.start.value
            && there.start.value == mapped_after(changes, delimiter.start.value as int),
{
    lemma_clear_of_changes(changes, delimiter);
    assert(survives(before, after, changes, delimiter));
    assert(!realigned_at_start(changes, delimiter));
}

proof fn lemma_clear_of_changes(changes: Seq<TextChange>, delimiter: TextRange)
    requires
        delimiter.start.value < delimiter.end.value,
        forall|k: int|
            0 <= k < changes.len() ==> (#[trigger] changes[k]).old.wf() && (
            changes[k].old.end.value < delimiter.start.value || delimiter.end.value
                < changes[k].old.start.value),
    ensures
        mapped_after(changes, delimiter.start.value as int) >= 0,
        mapped_before(changes, delimiter.end.value as int) - mapped_after(
            changes,
            delimiter.start.value as int,
        ) == delimiter.end.value - delimiter.start.value,
    decreases changes.len(),
{
    if changes.len() > 0 {
        let front = changes.drop_last();
        assert(changes[changes.len() - 1] == changes.last());
        assert forall|k: int| 0 <= k < front.len() implies (#[trigger] front[k]).old.wf() && (
        front[k].old.end.value < delimiter.start.value || delimiter.end.value
            < front[k].old.start.value) by {
            assert(front[k] == changes[k]);
        }
        lemma_clear_of_changes(front, delimiter);
    }
}

/// A restore brings back exactly the records whose tables are still there and have no
/// widths by now: `k` is the number of a saved record.
pub proof fn law_restore_keeps_current_widths(
    current: Seq<WidthsView>,
    saved: Seq<WidthsView>,
    valid: Seq<bool>,
    count: int,
    k: int,
)
    requires
        0 <= k < count <= saved.len(),
        saved.len() == valid.len(),
        distinct(saved),
    ensures
        restored_records(current, saved, valid, count).contains(saved[k]) <==> valid[k]
            && saved_for(current, saved[k].delimiter) is None,
        forall|m: int|
            0 <= m < restored_records(current, saved, valid, count).len() ==> saved.take(
                count,
            ).contains(#[trigger] restored_records(current, saved, valid, count)[m]),
    decreases count,
{
    let before = restored_records(current, saved, valid, count - 1);
    let all = restored_records(current, saved, valid, count);
    let last = saved[count - 1];
    if count > 1 {
        law_restore_keeps_current_widths(
            current,
            saved,
            valid,
            count - 1,
            if k < count - 1 {
                k
            } else {
                0
            },
        );
    }
    assert(saved.take(count)[count - 1] == last);
    assert forall|m: int| 0 <= m < all.len() implies saved.take(count).contains(
        #[trigger] all[m],
    ) by {
        if m < before.len() {
            assert(all[m] == before[m]);
            let n = saved.take(count - 1).index_of(before[m]);
            assert(saved.take(count - 1)[n] == before[m]);
            assert(saved.take(count)[n] == all[m]);
        }
    }
    if k < count - 1 {
        assert(saved[k].delimiter != last.delimiter);
        if before.contains(saved[k]) {
            let m = choose|m: int| 0 <= m < before.len() && before[m] == saved[k];
            assert(all[m] == saved[k]);
        }
        if all.contains(saved[k]) {
            let m = choose|m: int| 0 <= m < all.len() && all[m] == saved[k];
            assert(before[m] == saved[k]);
        }
    } else {
        if valid[k] && saved_for(current, last.delimiter) is None {
            assert(all[before.len() as int] == last);
        } else if all.contains(last) {
            let m = choose|m: int| 0 <= m < all.len() && all[m] == last;
            assert(saved.take(count - 1).contains(before[m]));
            let n = saved.take(count - 1).index_of(last);
            assert(saved.take(count - 1)[n] == last);
            assert(saved[n].delimiter != saved[count - 1].delimiter);
        }
    }
}

} // verus!
