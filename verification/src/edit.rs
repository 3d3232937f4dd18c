//! Transactions: the only way in which a document's source changes.
use crate::offset::{ByteOffset, Revision, TextRange};
use crate::text::{
    boundary, byte_len, lemma_boundary_bounds, lemma_boundary_ends, lemma_encode_concat,
    lemma_span_bytes, lemma_span_seam, slice, sliceable, span, text_len,
};
use vstd::prelude::*;
use vstd::string::*;
use vstd::utf8::*;

verus! {

/// The replacement of one range of the source by a text.
#[derive(Debug)]
pub struct Edit {
    pub range: TextRange,
    pub text: String,
}

/// What an [`Edit`] says, over mathematical offsets.
pub struct EditView {
    pub start: int,
    pub end: int,
    pub text: Seq<char>,
}

impl View for Edit {
    type V = EditView;

    open spec fn view(&self) -> EditView {
        EditView {
            start: self.range.start.value as int,
            end: self.range.end.value as int,
            text: self.text@,
        }
    }
}

impl Edit {
    /// Replaces `range` by `text`.
    pub fn new(range: TextRange, text: String) -> (r: Edit)
        ensures
            r.range == range,
            r.text == text,
    {
        Edit { range, text }
    }

    /// Replaces the bytes from `start` up to `end` by `text`.
    pub fn replace(start: usize, end: usize, text: String) -> (r: Edit)
        ensures
            r@ == (EditView { start: start as int, end: end as int, text: text@ }),
    {
        Edit {
            range: TextRange {
                start: ByteOffset::new(start as u64),
                end: ByteOffset::new(end as u64),
            },
            text,
        }
    }

    /// Another edit that does the same.
    pub fn duplicate(&self) -> (r: Edit)
        ensures
            r@ == self@,
            r.range == self.range,
    {
        Edit { range: self.range, text: self.text.clone() }
    }
}

/// The models of a list of edits.
pub open spec fn edit_views(edits: Seq<Edit>) -> Seq<EditView> {
    edits.map_values(|e: Edit| e@)
}

/// Whether every edit addresses boundaries of `text` and the edits follow each
/// other without overlap.
pub open spec fn ordered_edits(text: Seq<char>, edits: Seq<EditView>) -> bool {
    &&& forall|i: int|
        0 <= i < edits.len() ==> sliceable(text, (#[trigger] edits[i]).start, edits[i].end)
    &&& forall|i: int, j: int|
        #![trigger edits[i], edits[j]]
        0 <= i < j < edits.len() ==> edits[i].end <= edits[j].start
}

/// What is left of `text` from `cursor` on once `edits` are made.
pub open spec fn splice(text: Seq<char>, cursor: int, edits: Seq<EditView>) -> Seq<char>
    decreases edits.len(),
{
    if edits.len() == 0 {
        span(text, cursor, byte_len(text))
    } else {
        span(text, cursor, edits[0].start) + edits[0].text + splice(
            text,
            edits[0].end,
            edits.drop_first(),
        )
    }
}

/// The text that `edits` turn `text` into.
pub open spec fn edited(text: Seq<char>, edits: Seq<EditView>) -> Seq<char> {
    splice(text, 0, edits)
}

/// How many bytes `edits` add.
pub open spec fn growth(edits: Seq<EditView>) -> int
    decreases edits.len(),
{
    if edits.len() == 0 {
        0
    } else {
        growth(edits.drop_last()) + byte_len(edits.last().text) - (edits.last().end
            - edits.last().start)
    }
}

/// The edits that undo `edits`. They address the text that `edits` make; the
/// part of it that stands for `text` from `cursor` on starts at `base`.
pub open spec fn inverse_edits(
    text: Seq<char>,
    cursor: int,
    edits: Seq<EditView>,
    base: int,
) -> Seq<EditView>
    decreases edits.len(),
{
    if edits.len() == 0 {
        Seq::empty()
    } else {
        let start = base + edits[0].start - cursor;
        let end = start + byte_len(edits[0].text);
        seq![
            EditView { start, end, text: span(text, edits[0].start, edits[0].end) },
        ] + inverse_edits(text, edits[0].end, edits.drop_first(), end)
    }
}

proof fn lemma_ordered_tail(text: Seq<char>, edits: Seq<EditView>)
    requires
        ordered_edits(text, edits),
        edits.len() > 0,
    ensures
        ordered_edits(text, edits.drop_first()),
        forall|i: int|
            0 <= i < edits.drop_first().len() ==> edits[0].end <= (
            #[trigger] edits.drop_first()[i]).start,
{
}

proof fn lemma_inverse_steps(prefix: Seq<char>, text: Seq<char>, cursor: int, edits: Seq<EditView>)
    requires
        ordered_edits(text, edits),
        boundary(text, cursor),
        edits.len() > 0 ==> cursor <= edits[0].start,
    ensures
        ({
            let made = prefix + splice(text, cursor, edits);
            let base = byte_len(prefix);
            let back = inverse_edits(text, cursor, edits, base);
            &&& boundary(made, base)
            &&& back.len() == edits.len()
            &&& ordered_edits(made, back)
            &&& forall|i: int| 0 <= i < back.len() ==> base <= (#[trigger] back[i]).start
            &&& splice(made, base, back) == span(text, cursor, byte_len(text))
        }),
    decreases edits.len(),
{
    let rest = splice(text, cursor, edits);
    let made = prefix + rest;
    let base = byte_len(prefix);
    let back = inverse_edits(text, cursor, edits, base);
    lemma_span_seam(prefix, rest);
    if edits.len() > 0 {
        let first = edits[0];
        let tail = edits.drop_first();
        lemma_ordered_tail(text, edits);
        let kept = span(text, cursor, first.start);
        let after = splice(text, first.end, tail);
        let prefix2 = prefix + kept + first.text;
        lemma_inverse_steps(prefix2, text, first.end, tail);
        assert(prefix2 + after =~= made);
        lemma_encode_concat(prefix, kept);
        lemma_encode_concat(prefix + kept, first.text);
        lemma_span_bytes(text, cursor, first.start);
        let start = base + first.start - cursor;
        let end = start + byte_len(first.text);
        assert(byte_len(prefix + kept) == start);
        assert(byte_len(prefix2) == end);
        assert(prefix + kept + (first.text + after) =~= made);
        lemma_span_seam(prefix + kept, first.text + after);
        assert(sliceable(made, start, end));
        let tail_back = inverse_edits(text, first.end, tail, end);
        assert(back.drop_first() =~= tail_back);
        assert(back =~= seq![back[0]] + tail_back);
        // The part of the new text between `base` and `start` is `kept`.
        assert(span(made, base, start) == kept) by {
            lemma_encode_concat(prefix + kept, first.text + after);
            assert(encode_utf8(made).subrange(base, start) =~= encode_utf8(kept));
            encode_utf8_decode_utf8(kept);
        }
        assert forall|i: int, j: int|
            #![trigger back[i], back[j]]
            0 <= i < j < back.len() implies back[i].end <= back[j].start by {
            assert(back[j] == tail_back[j - 1]);
            if i > 0 {
                assert(back[i] == tail_back[i - 1]);
            }
        }
        assert forall|i: int| 0 <= i < back.len() implies sliceable(
            made,
            (#[trigger] back[i]).start,
            back[i].end,
        ) && base <= back[i].start by {
            if i > 0 {
                assert(back[i] == tail_back[i - 1]);
            }
        }
        let removed = span(text, first.start, first.end);
        lemma_boundary_ends(text);
        lemma_boundary_bounds(text, first.end);
        crate::text::lemma_span_join(text, cursor, first.start, first.end);
        crate::text::lemma_span_join(text, cursor, first.end, byte_len(text));
        assert(splice(made, base, back) == kept + removed + splice(made, end, tail_back));
    } else {
        assert(back =~= Seq::empty());
    }
}

/// Undoing restores: the inverse edits turn the edited text back into the text
/// that was edited.
pub proof fn law_inverse_restores(text: Seq<char>, edits: Seq<EditView>)
    requires
        ordered_edits(text, edits),
    ensures
        ordered_edits(edited(text, edits), inverse_edits(text, 0, edits, 0)),
        edited(edited(text, edits), inverse_edits(text, 0, edits, 0)) == text,
{
    let empty = Seq::<char>::empty();
    lemma_boundary_ends(text);
    assert forall|i: int| 0 <= i < edits.len() implies 0 <= (#[trigger] edits[i]).start by {
        lemma_boundary_bounds(text, edits[i].start);
    }
    lemma_inverse_steps(empty, text, 0, edits);
    assert(empty + edited(text, edits) =~= edited(text, edits));
    assert(encode_utf8(empty) =~= Seq::<u8>::empty());
    crate::text::lemma_span_whole(text);
}

/// Redoing restores: undoing the undoing gives the edited text again.
pub proof fn law_redo_restores(text: Seq<char>, edits: Seq<EditView>)
    requires
        ordered_edits(text, edits),
    ensures
        ({
            let made = edited(text, edits);
            let back = inverse_edits(text, 0, edits, 0);
            let again = inverse_edits(made, 0, back, 0);
            ordered_edits(text, again) && edited(text, again) == made
        }),
{
    law_inverse_restores(text, edits);
    law_inverse_restores(edited(text, edits), inverse_edits(text, 0, edits, 0));
}

proof fn lemma_inserted_steps(
    prefix: Seq<char>,
    text: Seq<char>,
    cursor: int,
    edits: Seq<EditView>,
    i: int,
)
    requires
        ordered_edits(text, edits),
        boundary(text, cursor),
        0 <= i < edits.len(),
        cursor <= edits[0].start,
    ensures
        ({
            let made = prefix + splice(text, cursor, edits);
            let back = inverse_edits(text, cursor, edits, byte_len(prefix));
            &&& sliceable(made, back[i].start, back[i].end)
            &&& span(made, back[i].start, back[i].end) == edits[i].text
        }),
    decreases edits.len(),
{
    let first = edits[0];
    let tail = edits.drop_first();
    let kept = span(text, cursor, first.start);
    let after = splice(text, first.end, tail);
    let made = prefix + splice(text, cursor, edits);
    let base = byte_len(prefix);
    let head = prefix + kept;
    lemma_ordered_tail(text, edits);
    lemma_span_bytes(text, cursor, first.start);
    lemma_encode_concat(prefix, kept);
    crate::text::lemma_span_middle(head, first.text, after);
    assert(head + first.text + after =~= made);
    let back = inverse_edits(text, cursor, edits, base);
    let start = base + first.start - cursor;
    let end = start + byte_len(first.text);
    assert(byte_len(head) == start);
    assert(byte_len(head + first.text) == end);
    let tail_back = inverse_edits(text, first.end, tail, end);
    assert(back == seq![EditView { start, end, text: span(text, first.start, first.end) }]
        + tail_back);
    assert(back[0].start == start && back[0].end == end);
    if i > 0 {
        lemma_inserted_steps(head + first.text, text, first.end, tail, i - 1);
        lemma_inverse_steps(head + first.text, text, first.end, tail);
        assert(back[i] == tail_back[i - 1]);
        assert(tail[i - 1] == edits[i]);
    }
}

/// What an edit puts in stands in the edited text where undoing it takes it out again.
pub proof fn law_inserted_text_stands(text: Seq<char>, edits: Seq<EditView>, i: int)
    requires
        ordered_edits(text, edits),
        0 <= i < edits.len(),
    ensures
        ({
            let made = edited(text, edits);
            let back = inverse_edits(text, 0, edits, 0)[i];
            sliceable(made, back.start, back.end) && span(made, back.start, back.end)
                == edits[i].text
        }),
{
    let empty = Seq::<char>::empty();
    lemma_boundary_ends(text);
    lemma_boundary_bounds(text, edits[0].start);
    lemma_inserted_steps(empty, text, 0, edits, i);
    assert(empty + edited(text, edits) =~= edited(text, edits));
    assert(encode_utf8(empty) =~= Seq::<u8>::empty());
}

proof fn lemma_growth_front(edits: Seq<EditView>)
    requires
        edits.len() > 0,
    ensures
        growth(edits) == byte_len(edits[0].text) - (edits[0].end - edits[0].start) + growth(
            edits.drop_first(),
        ),
    decreases edits.len(),
{
    if edits.len() > 1 {
        let front = edits.drop_last();
        lemma_growth_front(front);
        assert(front.drop_first() =~= edits.drop_first().drop_last());
        assert(edits.drop_first().last() == edits.last());
    } else {
        assert(edits.drop_last() =~= Seq::empty());
        assert(edits.drop_first() =~= Seq::empty());
        assert(growth(edits.drop_last()) == 0);
    }
}

/// The text of an edit starts as far behind its range as the edits before it add.
pub proof fn lemma_inverse_start(
    text: Seq<char>,
    cursor: int,
    edits: Seq<EditView>,
    base: int,
    i: int,
)
    requires
        0 <= i < edits.len(),
    ensures
        inverse_edits(text, cursor, edits, base).len() == edits.len(),
        inverse_edits(text, cursor, edits, base)[i].start == base - cursor + edits[i].start
            + growth(edits.take(i)),
    decreases edits.len(),
{
    let tail = edits.drop_first();
    let start = base + edits[0].start - cursor;
    let end = start + byte_len(edits[0].text);
    let back = inverse_edits(text, edits[0].end, tail, end);
    let first = EditView { start, end, text: span(text, edits[0].start, edits[0].end) };
    assert(inverse_edits(text, cursor, edits, base) == seq![first] + back);
    if tail.len() > 0 {
        lemma_inverse_start(text, edits[0].end, tail, end, 0);
    }
    if i > 0 {
        lemma_inverse_start(text, edits[0].end, tail, end, i - 1);
        let before = edits.take(i);
        lemma_growth_front(before);
        assert(before.drop_first() =~= tail.take(i - 1));
        assert(tail[i - 1] == edits[i]);
    } else {
        assert(edits.take(0) =~= Seq::empty());
    }
}

/// Where offset `at`, which no edit from the first on covers, stands in the edited text.
/// The part of it that stands for the text from `cursor` on starts at `base`.
pub open spec fn kept_place(edits: Seq<EditView>, cursor: int, at: int, base: int) -> int
    decreases edits.len(),
{
    if edits.len() == 0 || at <= edits[0].start {
        base + at - cursor
    } else {
        kept_place(
            edits.drop_first(),
            edits[0].end,
            at,
            base + edits[0].start - cursor + byte_len(edits[0].text),
        )
    }
}

/// Whether an edit covers an offset, its ends not included.
pub open spec fn edited_over(edits: Seq<EditView>, at: int) -> bool {
    exists|i: int| 0 <= i < edits.len() && (#[trigger] edits[i]).start < at < edits[i].end
}

/// An offset between characters that no edit covers stays between characters.
pub proof fn lemma_kept_boundary(
    prefix: Seq<char>,
    text: Seq<char>,
    cursor: int,
    edits: Seq<EditView>,
    at: int,
)
    requires
        ordered_edits(text, edits),
        boundary(text, cursor),
        boundary(text, at),
        cursor <= at,
        edits.len() > 0 ==> cursor <= edits[0].start,
        !edited_over(edits, at),
    ensures
        boundary(
            prefix + splice(text, cursor, edits),
            kept_place(edits, cursor, at, byte_len(prefix)),
        ),
    decreases edits.len(),
{
    let made = prefix + splice(text, cursor, edits);
    lemma_boundary_ends(text);
    lemma_boundary_bounds(text, at);
    if edits.len() == 0 || at <= edits[0].start {
        let end = if edits.len() == 0 {
            byte_len(text)
        } else {
            edits[0].start
        };
        let kept = span(text, cursor, end);
        let rest = if edits.len() == 0 {
            Seq::<char>::empty()
        } else {
            edits[0].text + splice(text, edits[0].end, edits.drop_first())
        };
        if edits.len() > 0 {
            assert(sliceable(text, edits[0].start, edits[0].end));
        }
        assert(made =~= prefix + (kept + rest));
        let head = span(text, cursor, at);
        let tail = span(text, at, end);
        crate::text::lemma_span_join(text, cursor, at, end);
        lemma_span_bytes(text, cursor, at);
        assert(made =~= (prefix + head) + (tail + rest));
        lemma_encode_concat(prefix, head);
        lemma_span_seam(prefix + head, tail + rest);
    } else {
        let first = edits[0];
        let tail = edits.drop_first();
        assert(sliceable(text, first.start, first.end));
        lemma_ordered_tail(text, edits);
        assert(first.end <= at);
        let kept = span(text, cursor, first.start);
        let next = prefix + kept + first.text;
        lemma_span_bytes(text, cursor, first.start);
        lemma_encode_concat(prefix, kept);
        lemma_encode_concat(prefix + kept, first.text);
        assert(!edited_over(tail, at)) by {
            if edited_over(tail, at) {
                let i = choose|i: int|
                    0 <= i < tail.len() && (#[trigger] tail[i]).start < at < tail[i].end;
                assert(edits[i + 1] == tail[i]);
            }
        }
        lemma_kept_boundary(next, text, first.end, tail, at);
        assert(next + splice(text, first.end, tail) =~= made);
    }
}

/// Bytes that no edit addresses stay: what precedes the first edit and what
/// follows the last one are a prefix and a suffix of the edited text.
pub proof fn law_outside_is_kept(text: Seq<char>, edits: Seq<EditView>)
    requires
        ordered_edits(text, edits),
        edits.len() > 0,
    ensures
        ({
            let made = edited(text, edits);
            let before = span(text, 0, edits[0].start);
            let after = span(text, edits.last().end, byte_len(text));
            &&& before.is_prefix_of(made)
            &&& after.is_suffix_of(made)
        }),
{
    let made = edited(text, edits);
    let before = span(text, 0, edits[0].start);
    let rest = edits[0].text + splice(text, edits[0].end, edits.drop_first());
    assert(made =~= before + rest);
    assert(before =~= made.take(before.len() as int));
    lemma_suffix_kept(text, 0, edits);
}

proof fn lemma_suffix_kept(text: Seq<char>, cursor: int, edits: Seq<EditView>)
    requires
        edits.len() > 0,
    ensures
        span(text, edits.last().end, byte_len(text)).is_suffix_of(splice(text, cursor, edits)),
    decreases edits.len(),
{
    let tail = edits.drop_first();
    let whole = splice(text, cursor, edits);
    let rest = splice(text, edits[0].end, tail);
    assert(whole =~= (span(text, cursor, edits[0].start) + edits[0].text) + rest);
    let after = span(text, edits.last().end, byte_len(text));
    if tail.len() > 0 {
        lemma_suffix_kept(text, edits[0].end, tail);
        assert(tail.last() == edits.last());
    } else {
        assert(rest == after);
    }
    assert(after =~= rest.subrange(rest.len() - after.len(), rest.len() as int));
    assert(after =~= whole.subrange(whole.len() - after.len(), whole.len() as int));
}

/// The edits of one step, with the revision that they were computed for.
#[derive(Debug)]
pub struct Transaction {
    pub revision: Revision,
    pub edits: Vec<Edit>,
}

impl Transaction {
    /// A step from `revision` that makes `edits`.
    pub fn new(revision: Revision, edits: Vec<Edit>) -> (r: Transaction)
        ensures
            r.revision == revision,
            r.edits == edits,
    {
        Transaction { revision, edits }
    }

    /// The models of the transaction's edits.
    pub open spec fn view_edits(self) -> Seq<EditView> {
        edit_views(self.edits@)
    }

    /// The transaction's edits.
    pub fn edits(&self) -> (r: &Vec<Edit>)
        ensures
            *r == self.edits,
    {
        &self.edits
    }

    /// The same edits, addressed to `revision`.
    pub fn rebased(&self, revision: Revision) -> (r: Transaction)
        ensures
            r.revision == revision,
            r.view_edits() == self.view_edits(),
    {
        let mut edits: Vec<Edit> = Vec::new();
        let mut i: usize = 0;
        while i < self.edits.len()
            invariant
                i <= self.edits@.len(),
                edits@.len() == i,
                forall|k: int| 0 <= k < i ==> (#[trigger] edits@[k])@ == self.edits@[k]@,
            decreases self.edits@.len() - i,
        {
            edits.push(self.edits[i].duplicate());
            i += 1;
        }
        assert(edit_views(edits@) =~= edit_views(self.edits@));
        Transaction { revision, edits }
    }
}

/// Where one edit's range stood, and where its replacement stands.
#[derive(Clone, Copy, Debug, PartialEq, Eq, Structural)]
pub struct TextChange {
    pub old: TextRange,
    pub new: TextRange,
}

/// How the offsets of one revision relate to those of the next.
#[derive(Debug)]
pub struct ChangeSet {
    pub before: Revision,
    pub after: Revision,
    pub changes: Vec<TextChange>,
}

/// The change that an edit and the edit that undoes it describe together.
pub open spec fn change_of(change: TextChange, edit: EditView, back: EditView) -> bool {
    &&& change.old.start.value == edit.start
    &&& change.old.end.value == edit.end
    &&& change.new.start.value == back.start
    &&& change.new.end.value == back.end
}

/// A transaction that was accepted: how offsets moved, and how to undo it.
#[derive(Debug)]
pub struct AppliedTransaction {
    pub changes: ChangeSet,
    pub inverse: Transaction,
}

/// Why a transaction was refused.
#[derive(Clone, Copy, Debug, PartialEq, Eq, Structural)]
pub enum TransactionError {
    /// The transaction was computed for another revision.
    StaleRevision,
    /// An edit is out of bounds, splits a character, or overlaps its neighbour.
    InvalidEdit,
}

/// A document's source with its revision.
#[derive(Debug)]
pub struct TextBuffer {
    pub revision: Revision,
    pub text: String,
}

impl TextBuffer {
    /// A document that was never edited.
    pub fn new(text: String) -> (r: TextBuffer)
        ensures
            r.revision.value == 0,
            r.text == text,
    {
        TextBuffer { revision: Revision::new(0), text }
    }

    /// The source.
    pub fn as_str(&self) -> (r: &str)
        ensures
            r@ == self.text@,
    {
        self.text.as_str()
    }

    /// The revision of the source.
    pub fn revision(&self) -> (r: Revision)
        ensures
            r == self.revision,
    {
        self.revision
    }

    /// The source's length in bytes.
    pub fn len_bytes(&self) -> (r: ByteOffset)
        ensures
            r.value == byte_len(self.text@),
    {
        ByteOffset::new(text_len(self.text.as_str()) as u64)
    }

    /// Makes the edits of `transaction`, or refuses them all and changes nothing.
    pub fn apply(&mut self, transaction: &Transaction) -> (r: Result<
        AppliedTransaction,
        TransactionError,
    >)
        requires
            old(self).revision.value < u64::MAX,
        ensures
            r is Err ==> *final(self) == *old(self),
            r matches Err(e) ==> e == (if transaction.revision != old(self).revision {
                TransactionError::StaleRevision
            } else {
                TransactionError::InvalidEdit
            }),
            r is Ok <==> transaction.revision == old(self).revision && ordered_edits(
                old(self).text@,
                transaction.view_edits(),
            ),
            r matches Ok(applied) ==> {
                let edits = transaction.view_edits();
                let back = inverse_edits(old(self).text@, 0, edits, 0);
                &&& final(self).text@ == edited(old(self).text@, edits)
                &&& final(self).revision.value == old(self).revision.value + 1
                &&& applied.inverse.revision == final(self).revision
                &&& applied.inverse.view_edits() == back
                &&& applied.changes.before == old(self).revision
                &&& applied.changes.after == final(self).revision
                &&& applied.changes.changes@.len() == edits.len()
                &&& forall|i: int|
                    0 <= i < edits.len() ==> change_of(
                        #[trigger] applied.changes.changes@[i],
                        edits[i],
                        back[i],
                    )
            },
    {
        if transaction.revision.value != self.revision.value {
            return Err(TransactionError::StaleRevision);
        }
        if !edits_are_ordered(self.text.as_str(), &transaction.edits) {
            return Err(TransactionError::InvalidEdit);
        }
        let ghost source = self.text@;
        let ghost edits = transaction.view_edits();
        let mut out = String::new();
        let mut cursor: usize = 0;
        let mut back: Vec<Edit> = Vec::new();
        let mut changes: Vec<TextChange> = Vec::new();
        let mut i: usize = 0;
        proof {
            lemma_boundary_ends(source);
            assert(edits.skip(0) =~= edits);
            assert(encode_utf8(out@) =~= Seq::<u8>::empty());
            assert(edit_views(back@) =~= Seq::empty());
            assert(Seq::<EditView>::empty() + inverse_edits(source, 0, edits, 0) =~= inverse_edits(
                source,
                0,
                edits,
                0,
            ));
        }
        while i < transaction.edits.len()
            invariant
                self.text@ == source,
                *self == *old(self),
                edits == transaction.view_edits(),
                ordered_edits(source, edits),
                i <= edits.len(),
                edits.len() == transaction.edits@.len(),
                boundary(source, cursor as int),
                forall|k: int| i <= k < edits.len() ==> cursor <= (#[trigger] edits[k]).start,
                out@ + splice(source, cursor as int, edits.skip(i as int)) == edited(source, edits),
                back@.len() == i,
                changes@.len() == i,
                edit_views(back@) + inverse_edits(
                    source,
                    cursor as int,
                    edits.skip(i as int),
                    byte_len(out@),
                ) == inverse_edits(source, 0, edits, 0),
                forall|k: int|
                    0 <= k < i ==> change_of(#[trigger] changes@[k], edits[k], back@[k]@),
            decreases edits.len() - i,
        {
            let edit = &transaction.edits[i];
            let ghost rest = edits.skip(i as int);
            let ghost out_before = out@;
            let ghost back_before = back@;
            assert(rest[0] == edit@);
            assert(edits[i as int] == edit@);
            assert(rest.drop_first() =~= edits.skip(i + 1));
            proof {
                lemma_boundary_bounds(source, edit@.end);
                lemma_boundary_bounds(source, edit@.start);
            }
            let length = text_len(self.text.as_str());
            let start = edit.range.start.value as usize;
            let end = edit.range.end.value as usize;
            out.push_str(slice(self.text.as_str(), cursor, start));
            let new_start = text_len(out.as_str());
            out.push_str(edit.text.as_str());
            let new_end = text_len(out.as_str());
            let removed = slice(self.text.as_str(), start, end).to_owned();
            proof {
                let kept = span(source, cursor as int, start as int);
                lemma_span_bytes(source, cursor as int, start as int);
                lemma_encode_concat(out_before, kept);
                lemma_encode_concat(out_before + kept, edit.text@);
                assert(out@ + splice(source, end as int, edits.skip(i + 1)) =~= out_before
                    + splice(source, cursor as int, rest));
            }
            back.push(Edit::replace(new_start, new_end, removed));
            changes.push(
                TextChange {
                    old: edit.range,
                    new: TextRange {
                        start: ByteOffset::new(new_start as u64),
                        end: ByteOffset::new(new_end as u64),
                    },
                },
            );
            proof {
                let tail = inverse_edits(source, end as int, edits.skip(i + 1), new_end as int);
                let whole = inverse_edits(source, cursor as int, rest, byte_len(out_before));
                assert(whole =~= seq![back@[i as int]@] + tail);
                assert(edit_views(back@) =~= edit_views(back_before).push(back@[i as int]@));
                assert(edit_views(back@) + tail =~= edit_views(back_before) + whole);
            }
            cursor = end;
            i += 1;
        }
        let length = text_len(self.text.as_str());
        proof {
            lemma_boundary_bounds(source, cursor as int);
            lemma_boundary_ends(source);
            assert(edits.skip(i as int) =~= Seq::empty());
        }
        out.push_str(slice(self.text.as_str(), cursor, length));
        proof {
            assert(edit_views(back@) =~= inverse_edits(source, 0, edits, 0));
            assert forall|k: int| 0 <= k < edits.len() implies change_of(
                #[trigger] changes@[k],
                edits[k],
                inverse_edits(source, 0, edits, 0)[k],
            ) by {
                assert(edit_views(back@)[k] == back@[k]@);
            }
        }
        let before = self.revision;
        let after = Revision::new(self.revision.value + 1);
        self.text = out;
        self.revision = after;
        Ok(
            AppliedTransaction {
                changes: ChangeSet { before, after, changes },
                inverse: Transaction { revision: after, edits: back },
            },
        )
    }
}

/// Whether `edits` can all be made in `text`.
pub fn edits_are_ordered(text: &str, edits: &Vec<Edit>) -> (r: bool)
    ensures
        r == ordered_edits(text@, edit_views(edits@)),
{
    let ghost views = edit_views(edits@);
    let length = text_len(text);
    let mut cursor: usize = 0;
    let mut i: usize = 0;
    while i < edits.len()
        invariant
            i <= edits@.len(),
            length == byte_len(text@),
            views == edit_views(edits@),
            i == 0 ==> cursor == 0,
            i > 0 ==> cursor == views[i - 1].end,
            forall|k: int|
                0 <= k < i ==> sliceable(text@, (#[trigger] views[k]).start, views[k].end)
                    && views[k].end <= cursor,
            forall|j: int, k: int|
                #![trigger views[j], views[k]]
                0 <= j < k < i ==> views[j].end <= views[k].start,
        decreases edits@.len() - i,
    {
        let range = edits[i].range;
        assert(views[i as int] == edits@[i as int]@);
        if range.start.value < cursor as u64 || range.end.value < range.start.value
            || range.end.value > length as u64 || !text.is_char_boundary(
            range.start.value as usize,
        ) || !text.is_char_boundary(range.end.value as usize) {
            proof {
                if ordered_edits(text@, views) {
                    assert(sliceable(text@, views[i as int].start, views[i as int].end));
                    lemma_boundary_bounds(text@, views[i as int].end);
                    lemma_boundary_bounds(text@, views[i as int].start);
                    if i > 0 {
                        assert(views[i - 1].end <= views[i as int].start);
                    }
                }
            }
            return false;
        }
        cursor = range.end.value as usize;
        i += 1;
    }
    true
}

/// What the bytes of `text` from `cursor` up to `end` become once `edits`,
/// which all lie there, are made.
pub open spec fn rewritten(text: Seq<char>, cursor: int, end: int, edits: Seq<EditView>) -> Seq<char>
    decreases edits.len(),
{
    if edits.len() == 0 {
        span(text, cursor, end)
    } else {
        span(text, cursor, edits[0].start) + edits[0].text + rewritten(
            text,
            edits[0].end,
            end,
            edits.drop_first(),
        )
    }
}

/// Whether `edits` all lie between `start` and `end`.
pub open spec fn edits_within(edits: Seq<EditView>, start: int, end: int) -> bool {
    forall|i: int|
        0 <= i < edits.len() ==> start <= (#[trigger] edits[i]).start && edits[i].end <= end
}

/// Edits inside a range change that range alone: the edited text is what stood
/// before it, the rewritten range, and what stood behind it.
pub proof fn law_edits_stay_inside(text: Seq<char>, start: int, end: int, edits: Seq<EditView>)
    requires
        ordered_edits(text, edits),
        sliceable(text, start, end),
        edits_within(edits, start, end),
    ensures
        edited(text, edits) == span(text, 0, start) + rewritten(text, start, end, edits) + span(
            text,
            end,
            byte_len(text),
        ),
{
    lemma_boundary_ends(text);
    lemma_boundary_bounds(text, start);
    lemma_boundary_bounds(text, end);
    lemma_splice_is_rewritten(text, start, end, edits);
    let after = span(text, end, byte_len(text));
    if edits.len() == 0 {
        crate::text::lemma_span_join(text, 0, start, byte_len(text));
    } else {
        crate::text::lemma_span_join(text, 0, start, edits[0].start);
        assert(edited(text, edits) =~= span(text, 0, start) + splice(text, start, edits));
    }
    assert(span(text, 0, start) + (rewritten(text, start, end, edits) + after) =~= span(
        text,
        0,
        start,
    ) + rewritten(text, start, end, edits) + after);
}

proof fn lemma_splice_is_rewritten(text: Seq<char>, cursor: int, end: int, edits: Seq<EditView>)
    requires
        ordered_edits(text, edits),
        sliceable(text, cursor, end),
        edits_within(edits, cursor, end),
    ensures
        splice(text, cursor, edits) == rewritten(text, cursor, end, edits) + span(
            text,
            end,
            byte_len(text),
        ),
    decreases edits.len(),
{
    lemma_boundary_ends(text);
    lemma_boundary_bounds(text, end);
    let after = span(text, end, byte_len(text));
    if edits.len() == 0 {
        crate::text::lemma_span_join(text, cursor, end, byte_len(text));
    } else {
        lemma_ordered_tail(text, edits);
        let tail = edits.drop_first();
        assert(edits_within(tail, edits[0].end, end));
        lemma_splice_is_rewritten(text, edits[0].end, end, tail);
        assert(splice(text, cursor, edits) =~= rewritten(text, cursor, end, edits) + after);
    }
}

/// Appending an insertion at the end of a range appends its text.
pub proof fn lemma_rewritten_push(
    text: Seq<char>,
    cursor: int,
    end: int,
    edits: Seq<EditView>,
    added: Seq<char>,
)
    requires
        sliceable(text, cursor, end),
        ordered_edits(text, edits),
        edits_within(edits, cursor, end),
    ensures
        rewritten(text, cursor, end, edits.push(EditView { start: end, end, text: added }))
            == rewritten(text, cursor, end, edits) + added,
    decreases edits.len(),
{
    let last = EditView { start: end, end, text: added };
    let all = edits.push(last);
    if edits.len() == 0 {
        assert(all.drop_first() =~= Seq::empty());
        crate::text::lemma_span_empty(text, end);
        assert(rewritten(text, end, end, all.drop_first()) == span(text, end, end));
        assert(rewritten(text, cursor, end, all) =~= span(text, cursor, end) + added);
    } else {
        lemma_ordered_tail(text, edits);
        assert(edits_within(edits.drop_first(), edits[0].end, end));
        lemma_rewritten_push(text, edits[0].end, end, edits.drop_first(), added);
        assert(all.drop_first() =~= edits.drop_first().push(last));
        assert(rewritten(text, cursor, end, all) =~= rewritten(text, cursor, end, edits) + added);
    }
}

/// A rewritten range is the rewritten part up to a place and the rewritten part from there
/// on, where no edit reaches over the place.
pub proof fn lemma_rewritten_split(
    text: Seq<char>,
    cursor: int,
    middle: int,
    end: int,
    left: Seq<EditView>,
    right: Seq<EditView>,
)
    requires
        sliceable(text, cursor, middle),
        sliceable(text, middle, end),
        ordered_edits(text, left),
        ordered_edits(text, right),
        edits_within(left, cursor, middle),
        edits_within(right, middle, end),
    ensures
        rewritten(text, cursor, end, left + right) == rewritten(text, cursor, middle, left)
            + rewritten(text, middle, end, right),
    decreases left.len(),
{
    if left.len() == 0 {
        assert(left + right =~= right);
        if right.len() == 0 {
            crate::text::lemma_span_join(text, cursor, middle, end);
        } else {
            crate::text::lemma_span_join(text, cursor, middle, right[0].start);
            assert(rewritten(text, cursor, end, right) =~= span(text, cursor, middle) + rewritten(
                text,
                middle,
                end,
                right,
            ));
        }
    } else {
        lemma_ordered_tail(text, left);
        let tail = left.drop_first();
        assert(edits_within(tail, left[0].end, middle));
        lemma_rewritten_split(text, left[0].end, middle, end, tail, right);
        assert((left + right).drop_first() =~= tail + right);
        assert((left + right)[0] == left[0]);
        assert(rewritten(text, cursor, end, left + right) =~= rewritten(text, cursor, middle, left)
            + rewritten(text, middle, end, right));
    }
}

/// How many bytes a rewritten range takes.
proof fn lemma_rewritten_len(text: Seq<char>, cursor: int, end: int, edits: Seq<EditView>)
    requires
        sliceable(text, cursor, end),
        ordered_edits(text, edits),
        edits_within(edits, cursor, end),
    ensures
        byte_len(rewritten(text, cursor, end, edits)) == end - cursor + growth(edits),
    decreases edits.len(),
{
    if edits.len() == 0 {
        crate::text::lemma_span_bytes(text, cursor, end);
    } else {
        lemma_ordered_tail(text, edits);
        let tail = edits.drop_first();
        assert(edits_within(tail, edits[0].end, end));
        lemma_rewritten_len(text, edits[0].end, end, tail);
        lemma_growth_front(edits);
        let head = span(text, cursor, edits[0].start);
        crate::text::lemma_span_bytes(text, cursor, edits[0].start);
        lemma_encode_concat(head, edits[0].text);
        lemma_encode_concat(
            head + edits[0].text,
            rewritten(text, edits[0].end, end, tail),
        );
    }
}

/// A piece of the text that no edit touches reads the same after the edits. It moves by what
/// the edits before it add.
pub proof fn law_untouched_text_is_kept(
    text: Seq<char>,
    edits: Seq<EditView>,
    before: int,
    start: int,
    end: int,
)
    requires
        ordered_edits(text, edits),
        sliceable(text, start, end),
        0 <= before <= edits.len(),
        forall|i: int| 0 <= i < before ==> (#[trigger] edits[i]).end <= start,
        forall|i: int| before <= i < edits.len() ==> end <= (#[trigger] edits[i]).start,
    ensures
        ({
            let moved = growth(edits.take(before));
            let made = edited(text, edits);
            sliceable(made, start + moved, end + moved) && span(made, start + moved, end + moved)
                == span(text, start, end)
        }),
{
    let left = edits.take(before);
    let right = edits.skip(before);
    let total = byte_len(text);
    lemma_boundary_ends(text);
    lemma_boundary_bounds(text, start);
    lemma_boundary_bounds(text, end);
    assert(left + right =~= edits);
    assert forall|i: int| 0 <= i < edits.len() implies 0 <= (#[trigger] edits[i]).start
        && edits[i].end <= total by {
        lemma_boundary_bounds(text, edits[i].start);
        lemma_boundary_bounds(text, edits[i].end);
    }
    assert forall|i: int| 0 <= i < left.len() implies 0 <= (#[trigger] left[i]).start
        && left[i].end <= start by {
        assert(left[i] == edits[i]);
    }
    assert forall|i: int| 0 <= i < right.len() implies end <= (#[trigger] right[i]).start
        && right[i].end <= total by {
        assert(right[i] == edits[before + i]);
    }
    assert(ordered_edits(text, left)) by {
        assert forall|i: int| 0 <= i < left.len() implies sliceable(
            text,
            (#[trigger] left[i]).start,
            left[i].end,
        ) by {
            assert(left[i] == edits[i]);
        }
        assert forall|i: int, j: int|
            #![trigger left[i], left[j]]
            0 <= i < j < left.len() implies left[i].end <= left[j].start by {
            assert(left[i] == edits[i] && left[j] == edits[j]);
        }
    }
    assert(ordered_edits(text, right)) by {
        assert forall|i: int| 0 <= i < right.len() implies sliceable(
            text,
            (#[trigger] right[i]).start,
            right[i].end,
        ) by {
            assert(right[i] == edits[before + i]);
        }
        assert forall|i: int, j: int|
            #![trigger right[i], right[j]]
            0 <= i < j < right.len() implies right[i].end <= right[j].start by {
            assert(right[i] == edits[before + i] && right[j] == edits[before + j]);
        }
    }
    law_edits_stay_inside(text, 0, total, edits);
    crate::text::lemma_span_empty(text, 0);
    crate::text::lemma_span_empty(text, total);
    lemma_rewritten_split(text, 0, start, total, left, right);
    lemma_rewritten_split(text, start, end, total, Seq::empty(), right);
    assert(Seq::<EditView>::empty() + right =~= right);
    let a = rewritten(text, 0, start, left);
    let m = span(text, start, end);
    let b = rewritten(text, end, total, right);
    assert(rewritten(text, start, end, Seq::empty()) == m);
    assert(edited(text, edits) =~= a + m + b);
    lemma_rewritten_len(text, 0, start, left);
    crate::text::lemma_span_middle(a, m, b);
    crate::text::lemma_span_bytes(text, start, end);
}

/// The bytes of `text` from `start` up to `end` with `edits` made in them.
pub fn rewrite(text: &str, start: usize, end: usize, edits: &Vec<Edit>) -> (r: String)
    requires
        ordered_edits(text@, edit_views(edits@)),
        sliceable(text@, start as int, end as int),
        edits_within(edit_views(edits@), start as int, end as int),
    ensures
        r@ == rewritten(text@, start as int, end as int, edit_views(edits@)),
{
    let ghost views = edit_views(edits@);
    let mut out = String::new();
    let mut cursor: usize = start;
    let mut i: usize = 0;
    proof {
        assert(views.skip(0) =~= views);
        assert(out@ + rewritten(text@, start as int, end as int, views) =~= rewritten(
            text@,
            start as int,
            end as int,
            views,
        ));
    }
    while i < edits.len()
        invariant
            views == edit_views(edits@),
            ordered_edits(text@, views),
            sliceable(text@, cursor as int, end as int),
            edits_within(views, start as int, end as int),
            i <= views.len(),
            forall|k: int| i <= k < views.len() ==> cursor <= (#[trigger] views[k]).start,
            out@ + rewritten(text@, cursor as int, end as int, views.skip(i as int)) == rewritten(
                text@,
                start as int,
                end as int,
                views,
            ),
        decreases views.len() - i,
    {
        let edit = &edits[i];
        let ghost before = out@;
        assert(views[i as int] == edit@);
        assert(views.skip(i as int)[0] == edit@);
        assert(views.skip(i as int).drop_first() =~= views.skip(i + 1));
        let from = edit.range.start.value as usize;
        let to = edit.range.end.value as usize;
        out.push_str(slice(text, cursor, from));
        out.push_str(edit.text.as_str());
        assert(out@ + rewritten(text@, to as int, end as int, views.skip(i + 1)) =~= before
            + rewritten(text@, cursor as int, end as int, views.skip(i as int)));
        cursor = to;
        i += 1;
    }
    assert(views.skip(i as int) =~= Seq::empty());
    out.push_str(slice(text, cursor, end));
    out
}

/// Whether `a` may stand before `b`: by start, then by end.
pub open spec fn edit_precedes(a: EditView, b: EditView) -> bool {
    a.start < b.start || (a.start == b.start && a.end <= b.end)
}

/// `edit` put into sorted `edits`, behind all that may precede it.
pub open spec fn sorted_insert(edits: Seq<EditView>, edit: EditView) -> Seq<EditView>
    decreases edits.len(),
{
    if edits.len() == 0 || edit_precedes(edits.last(), edit) {
        edits.push(edit)
    } else {
        sorted_insert(edits.drop_last(), edit).push(edits.last())
    }
}

/// `edits` sorted by start, then by end. Equal ones keep their order.
pub open spec fn sorted_edits(edits: Seq<EditView>) -> Seq<EditView>
    decreases edits.len(),
{
    if edits.len() == 0 {
        Seq::empty()
    } else {
        sorted_insert(sorted_edits(edits.drop_last()), edits.last())
    }
}

proof fn lemma_sorted_insert(edits: Seq<EditView>, edit: EditView)
    requires
        forall|i: int, j: int|
            #![trigger edits[i], edits[j]]
            0 <= i < j < edits.len() ==> edit_precedes(edits[i], edits[j]),
    ensures
        ({
            let made = sorted_insert(edits, edit);
            &&& made.len() == edits.len() + 1
            &&& made.to_multiset() == edits.to_multiset().insert(edit)
            &&& forall|i: int, j: int|
                #![trigger made[i], made[j]]
                0 <= i < j < made.len() ==> edit_precedes(made[i], made[j])
            &&& forall|e: EditView|
                #[trigger] made.contains(e) <==> e == edit || edits.contains(e)
        }),
    decreases edits.len(),
{
    let made = sorted_insert(edits, edit);
    broadcast use vstd::seq_lib::group_to_multiset_ensures;

    if edits.len() == 0 || edit_precedes(edits.last(), edit) {
        assert forall|i: int, j: int|
            #![trigger made[i], made[j]]
            0 <= i < j < made.len() implies edit_precedes(made[i], made[j]) by {
            if j == edits.len() && i < edits.len() - 1 {
                assert(edit_precedes(edits[i], edits.last()));
            }
        }
        assert forall|e: EditView| #[trigger] made.contains(e) <==> e == edit || edits.contains(
            e,
        ) by {
            if edits.contains(e) {
                let k = choose|k: int| 0 <= k < edits.len() && edits[k] == e;
                assert(made[k] == e);
            }
            assert(made[edits.len() as int] == edit);
        }
    } else {
        let head = sorted_insert(edits.drop_last(), edit);
        lemma_sorted_insert(edits.drop_last(), edit);
        assert(edits =~= edits.drop_last().push(edits.last()));
        assert forall|i: int, j: int|
            #![trigger made[i], made[j]]
            0 <= i < j < made.len() implies edit_precedes(made[i], made[j]) by {
            if j == head.len() {
                assert(head.contains(head[i]));
                if head[i] != edit {
                    let k = choose|k: int|
                        0 <= k < edits.drop_last().len() && edits.drop_last()[k] == head[i];
                    assert(edits[k] == head[i]);
                }
            }
        }
        assert forall|e: EditView| #[trigger] made.contains(e) <==> e == edit || edits.contains(
            e,
        ) by {
            if head.contains(e) {
                let k = choose|k: int| 0 <= k < head.len() && head[k] == e;
                assert(made[k] == e);
                if e != edit {
                    let m = choose|m: int|
                        0 <= m < edits.drop_last().len() && edits.drop_last()[m] == e;
                    assert(edits[m] == e);
                }
            }
            if edits.contains(e) {
                let k = choose|k: int| 0 <= k < edits.len() && edits[k] == e;
                if k < edits.len() - 1 {
                    assert(edits.drop_last()[k] == e);
                    assert(head.contains(e));
                } else {
                    assert(made[head.len() as int] == e);
                }
            }
            if e == edit {
                assert(head.contains(e));
            }
        }
        assert(made.to_multiset() =~= edits.to_multiset().insert(edit));
    }
}

/// Sorting keeps every edit and puts them in order.
pub proof fn law_sorted_edits(edits: Seq<EditView>)
    ensures
        sorted_edits(edits).to_multiset() == edits.to_multiset(),
        sorted_edits(edits).len() == edits.len(),
        forall|i: int, j: int|
            #![trigger sorted_edits(edits)[i], sorted_edits(edits)[j]]
            0 <= i < j < edits.len() ==> edit_precedes(
                sorted_edits(edits)[i],
                sorted_edits(edits)[j],
            ),
        forall|e: EditView|
            #[trigger] sorted_edits(edits).contains(e) <==> edits.contains(e),
    decreases edits.len(),
{
    broadcast use vstd::seq_lib::group_to_multiset_ensures;

    if edits.len() > 0 {
        law_sorted_edits(edits.drop_last());
        lemma_sorted_insert(sorted_edits(edits.drop_last()), edits.last());
        assert(edits =~= edits.drop_last().push(edits.last()));
        assert forall|e: EditView|
            #[trigger] sorted_edits(edits).contains(e) <==> edits.contains(e) by {
            if edits.contains(e) {
                let k = choose|k: int| 0 <= k < edits.len() && edits[k] == e;
                if k < edits.len() - 1 {
                    assert(edits.drop_last()[k] == e);
                }
            }
            if edits.drop_last().contains(e) {
                let k = choose|k: int|
                    0 <= k < edits.drop_last().len() && edits.drop_last()[k] == e;
                assert(edits[k] == e);
            }
            assert(edits[edits.len() - 1] == edits.last());
        }
    }
}

/// Puts `edit` into sorted `edits`, behind all that may precede it.
pub fn insert_sorted(edits: &mut Vec<Edit>, edit: Edit)
    ensures
        edit_views(final(edits)@) == sorted_insert(edit_views(old(edits)@), edit@),
{
    let mut at: usize = edits.len();
    let ghost views = edit_views(edits@);
    proof {
        assert(views.take(at as int) =~= views);
        assert(sorted_insert(views, edit@) =~= sorted_insert(views.take(at as int), edit@)
            + views.skip(at as int));
    }
    while at > 0 && (edits[at - 1].range.start.value > edit.range.start.value || (edits[at
        - 1].range.start.value == edit.range.start.value && edits[at - 1].range.end.value
        > edit.range.end.value))
        invariant
            at <= edits@.len(),
            edits@ == old(edits)@,
            views == edit_views(edits@),
            sorted_insert(views, edit@) == sorted_insert(views.take(at as int), edit@)
                + views.skip(at as int),
        decreases at,
    {
        proof {
            let part = views.take(at as int);
            assert(part.last() == views[at - 1]);
            assert(part.drop_last() =~= views.take(at - 1));
            assert(sorted_insert(part, edit@) == sorted_insert(views.take(at - 1), edit@).push(
                views[at - 1],
            ));
            assert(sorted_insert(part, edit@) + views.skip(at as int) =~= sorted_insert(
                views.take(at - 1),
                edit@,
            ) + views.skip(at - 1));
        }
        at -= 1;
    }
    proof {
        let part = views.take(at as int);
        if at > 0 {
            assert(part.last() == views[at - 1]);
        }
        assert(sorted_insert(part, edit@) == part.push(edit@));
    }
    edits.insert(at, edit);
    assert(edit_views(edits@) =~= views.take(at as int).push(edit@) + views.skip(at as int));
}

/// Where offset `at` stands after `changes`, on the near side of what was put
/// there. An offset inside a replaced range goes to the replacement's start.
pub open spec fn mapped_before(changes: Seq<TextChange>, at: int) -> int
    decreases changes.len(),
{
    if changes.len() == 0 {
        at
    } else {
        let last = changes.last();
        if at > last.old.end.value || (at == last.old.end.value && last.old.start.value
            < last.old.end.value) {
            at - last.old.end.value + last.new.end.value
        } else if at >= last.old.start.value {
            last.new.start.value as int
        } else {
            mapped_before(changes.drop_last(), at)
        }
    }
}

/// Where offset `at` stands after `changes`, on the far side of what was put
/// there. An offset inside a replaced range goes to the replacement's end.
pub open spec fn mapped_after(changes: Seq<TextChange>, at: int) -> int
    decreases changes.len(),
{
    if changes.len() == 0 {
        at
    } else {
        let last = changes.last();
        if at >= last.old.end.value {
            at - last.old.end.value + last.new.end.value
        } else if at >= last.old.start.value {
            last.new.end.value as int
        } else {
            mapped_after(changes.drop_last(), at)
        }
    }
}

impl ChangeSet {
    /// Where offset `at` stands after the changes, on the near side of what was
    /// put there. `None` where that cannot be addressed.
    pub fn map_before(&self, at: ByteOffset) -> (r: Option<ByteOffset>)
        ensures
            match r {
                Some(moved) => moved.value == mapped_before(self.changes@, at.value as int),
                None => mapped_before(self.changes@, at.value as int) > u64::MAX,
            },
    {
        let mut i: usize = self.changes.len();
        assert(self.changes@.take(i as int) =~= self.changes@);
        while i > 0
            invariant
                i <= self.changes@.len(),
                mapped_before(self.changes@.take(i as int), at.value as int) == mapped_before(
                    self.changes@,
                    at.value as int,
                ),
            decreases i,
        {
            let last = self.changes[i - 1];
            assert(self.changes@.take(i as int).last() == last);
            assert(self.changes@.take(i as int).drop_last() =~= self.changes@.take(i - 1));
            if at.value > last.old.end.value || (at.value == last.old.end.value
                && last.old.start.value < last.old.end.value) {
                return match (at.value - last.old.end.value).checked_add(last.new.end.value) {
                    Some(moved) => Some(ByteOffset::new(moved)),
                    None => None,
                };
            }
            if at.value >= last.old.start.value {
                return Some(last.new.start);
            }
            i -= 1;
        }
        Some(at)
    }

    /// Where offset `at` stands after the changes, on the far side of what was
    /// put there. `None` where that cannot be addressed.
    pub fn map_after(&self, at: ByteOffset) -> (r: Option<ByteOffset>)
        ensures
            match r {
                Some(moved) => moved.value == mapped_after(self.changes@, at.value as int),
                None => mapped_after(self.changes@, at.value as int) > u64::MAX,
            },
    {
        let mut i: usize = self.changes.len();
        assert(self.changes@.take(i as int) =~= self.changes@);
        while i > 0
            invariant
                i <= self.changes@.len(),
                mapped_after(self.changes@.take(i as int), at.value as int) == mapped_after(
                    self.changes@,
                    at.value as int,
                ),
            decreases i,
        {
            let last = self.changes[i - 1];
            assert(self.changes@.take(i as int).last() == last);
            assert(self.changes@.take(i as int).drop_last() =~= self.changes@.take(i - 1));
            if at.value >= last.old.end.value {
                return match (at.value - last.old.end.value).checked_add(last.new.end.value) {
                    Some(moved) => Some(ByteOffset::new(moved)),
                    None => None,
                };
            }
            if at.value >= last.old.start.value {
                return Some(last.new.end);
            }
            i -= 1;
        }
        Some(at)
    }
}

/// What an edit put in ends where its own text does.
pub proof fn lemma_inverse_end(
    text: Seq<char>,
    cursor: int,
    edits: Seq<EditView>,
    base: int,
    i: int,
)
    requires
        0 <= i < edits.len(),
    ensures
        inverse_edits(text, cursor, edits, base)[i].end == inverse_edits(
            text,
            cursor,
            edits,
            base,
        )[i].start + byte_len(edits[i].text),
    decreases edits.len(),
{
    let start = base + edits[0].start - cursor;
    let end = start + byte_len(edits[0].text);
    lemma_inverse_start(text, cursor, edits, base, i);
    if i > 0 {
        let tail = edits.drop_first();
        lemma_inverse_end(text, edits[0].end, tail, end, i - 1);
        lemma_inverse_start(text, edits[0].end, tail, end, i - 1);
        assert(inverse_edits(text, cursor, edits, base)[i] == inverse_edits(
            text,
            edits[0].end,
            tail,
            end,
        )[i - 1]);
    }
}

/// An offset that stands before or behind each edit moves by what the edits before it add,
/// which is how far the text around it moves. `before` is the number of those edits.
pub proof fn law_offsets_move_with_their_text(
    text: Seq<char>,
    edits: Seq<EditView>,
    changes: Seq<TextChange>,
    before: int,
    at: int,
)
    requires
        ordered_edits(text, edits),
        changes.len() == edits.len(),
        forall|i: int|
            0 <= i < edits.len() ==> change_of(
                #[trigger] changes[i],
                edits[i],
                inverse_edits(text, 0, edits, 0)[i],
            ),
        0 <= before <= edits.len(),
        forall|i: int| 0 <= i < before ==> (#[trigger] edits[i]).end < at,
        forall|i: int| before <= i < edits.len() ==> at < (#[trigger] edits[i]).start,
    ensures
        mapped_before(changes, at) == at + growth(edits.take(before)),
        mapped_after(changes, at) == at + growth(edits.take(before)),
{
    assert forall|i: int| 0 <= i < edits.len() implies (#[trigger] changes[i]).old.start.value
        == edits[i].start && changes[i].old.end.value == edits[i].end && edits[i].start
        <= edits[i].end by {
        assert(change_of(changes[i], edits[i], inverse_edits(text, 0, edits, 0)[i]));
    }
    assert forall|i: int| before <= i < edits.len() implies at < (
    #[trigger] changes[i]).old.end.value by {
        assert(at < edits[i].start);
    }
    lemma_later_changes(changes, before, changes.len() as int, at, edits);
    assert(changes.take(changes.len() as int) =~= changes);
    if before == 0 {
        assert(changes.take(0) =~= Seq::empty());
        assert(edits.take(0) =~= Seq::empty());
    } else {
        let last = before - 1;
        lemma_inverse_start(text, 0, edits, 0, last);
        lemma_inverse_end(text, 0, edits, 0, last);
        assert(changes.take(before).last() == changes[last]);
        assert(edits.take(before).last() == edits[last]);
        assert(edits.take(before).drop_last() =~= edits.take(last));
        assert(change_of(changes[last], edits[last], inverse_edits(text, 0, edits, 0)[last]));
    }
}

proof fn lemma_later_changes(
    changes: Seq<TextChange>,
    before: int,
    count: int,
    at: int,
    edits: Seq<EditView>,
)
    requires
        0 <= before <= count <= changes.len(),
        changes.len() == edits.len(),
        forall|i: int| before <= i < edits.len() ==> at < (#[trigger] edits[i]).start,
        forall|i: int|
            0 <= i < edits.len() ==> (#[trigger] changes[i]).old.start.value == edits[i].start,
        forall|i: int|
            0 <= i < edits.len() ==> (#[trigger] changes[i]).old.end.value == edits[i].end,
        forall|i: int| before <= i < edits.len() ==> at < (#[trigger] changes[i]).old.end.value,
    ensures
        mapped_before(changes.take(count), at) == mapped_before(changes.take(before), at),
        mapped_after(changes.take(count), at) == mapped_after(changes.take(before), at),
    decreases count - before,
{
    if before < count {
        lemma_later_changes(changes, before, count - 1, at, edits);
        let last = changes.take(count).last();
        assert(last == changes[count - 1]);
        assert(changes.take(count).drop_last() =~= changes.take(count - 1));
        assert(at < edits[count - 1].start);
    }
}

/// An offset inside what an edit replaces goes to an end of what stands there then: to its
/// start on the near side and to its end on the far side. `k` is the number of the edit.
pub proof fn law_replaced_offsets_go_to_the_ends(
    text: Seq<char>,
    edits: Seq<EditView>,
    changes: Seq<TextChange>,
    k: int,
    at: int,
)
    requires
        ordered_edits(text, edits),
        changes.len() == edits.len(),
        forall|i: int|
            0 <= i < edits.len() ==> change_of(
                #[trigger] changes[i],
                edits[i],
                inverse_edits(text, 0, edits, 0)[i],
            ),
        0 <= k < edits.len(),
        edits[k].start < at < edits[k].end,
    ensures
        mapped_before(changes, at) == edits[k].start + growth(edits.take(k)),
        mapped_after(changes, at) == mapped_before(changes, at) + byte_len(edits[k].text),
{
    assert forall|i: int| k + 1 <= i < edits.len() implies at < (#[trigger] edits[i]).start
        && at < changes[i].old.end.value by {
        assert(edits[k].end <= edits[i].start);
        assert(change_of(changes[i], edits[i], inverse_edits(text, 0, edits, 0)[i]));
    }
    assert forall|i: int| k + 1 <= i < edits.len() implies at < (
    #[trigger] changes[i]).old.end.value by {
        assert(at < edits[i].start);
    }
    lemma_later_changes(changes, k + 1, changes.len() as int, at, edits);
    assert(changes.take(changes.len() as int) =~= changes);
    lemma_inverse_start(text, 0, edits, 0, k);
    lemma_inverse_end(text, 0, edits, 0, k);
    assert(changes.take(k + 1).last() == changes[k]);
    assert(change_of(changes[k], edits[k], inverse_edits(text, 0, edits, 0)[k]));
}

} // verus!
