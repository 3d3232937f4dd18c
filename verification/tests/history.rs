//! Undoing and redoing.
use yu_editor::edit::{Edit, TextBuffer, Transaction, TransactionError};
use yu_editor::history::{EditorHistory, HistoryEntry, HistoryGroup};
use yu_editor::offset::{ByteOffset, Revision, TextRange};

fn edit_at(revision: Revision, offset: u64, text: &str) -> Transaction {
    Transaction::new(
        revision,
        vec![Edit::new(TextRange::empty(ByteOffset::new(offset)), text.to_owned())],
    )
}

#[test]
fn inverse_transactions_are_grouped_and_redo_order_is_forward() {
    let mut buffer = TextBuffer::new(String::new());
    let mut history = EditorHistory::default();
    let first = buffer.apply(&edit_at(buffer.revision(), 0, "a")).expect("first edit");
    history.record(&first, HistoryGroup::Typing);
    let second = buffer.apply(&edit_at(buffer.revision(), 1, "b")).expect("second edit");
    history.record(&second, HistoryGroup::Typing);

    let undo = history.pop_undo_group().expect("undo group");
    assert_eq!(undo.len(), 2);
    let mut redo = Vec::new();
    for entry in &undo {
        let applied = buffer
            .apply(&entry.transaction_for(buffer.revision()))
            .expect("inverse should apply");
        redo.push(HistoryEntry::new(applied.inverse, entry.group()));
    }
    assert_eq!(buffer.as_str(), "");
    history.push_redo_group(redo);

    let redo = history.pop_redo_group().expect("redo group");
    for entry in &redo {
        buffer
            .apply(&entry.transaction_for(buffer.revision()))
            .expect("redo should apply");
    }
    assert_eq!(buffer.as_str(), "ab");
}

#[test]
fn a_different_group_breaks_consecutive_input() {
    let mut buffer = TextBuffer::new(String::new());
    let mut history = EditorHistory::default();
    let first = buffer.apply(&edit_at(buffer.revision(), 0, "a")).expect("edit");
    history.record(&first, HistoryGroup::Typing);
    history.break_group();
    let second = buffer.apply(&edit_at(buffer.revision(), 1, "b")).expect("edit");
    history.record(&second, HistoryGroup::Typing);
    assert_eq!(history.pop_undo_group().expect("group").len(), 1);
}

#[test]
fn whole_groups_leave_a_full_history_and_a_popped_group_comes_back() {
    let mut buffer = TextBuffer::new(String::new());
    let mut history = EditorHistory::default();
    history.limit = 2;
    for (kind, text) in [
        (HistoryGroup::Typing, "a"),
        (HistoryGroup::Typing, "b"),
        (HistoryGroup::Deletion, "c"),
    ] {
        let applied = buffer.apply(&edit_at(buffer.revision(), 0, text)).expect("edit");
        history.record(&applied, kind);
    }
    assert_eq!(history.stats().undo_entries(), 1);
    let group = history.pop_undo_group().expect("group");
    assert_eq!(history.stats().undo_entries(), 0);
    history.restore_undo_group(&group);
    assert_eq!(history.stats().undo_entries(), 1);
    assert!(history.pop_redo_group().is_none());
    history.restore_redo_group(&group);
    let redo = history.pop_redo_group().expect("redo");
    assert_eq!((redo.len(), history.stats().redo_entries()), (1, 0));
    history.restore_redo_group(&redo);
    assert_eq!(history.stats().redo_entries(), 1);
    assert_eq!(history.pop_redo_group().expect("redo").len(), 1);
    history.pop_undo_group().expect("undo");
    history.push_undo_group(group);
    assert_eq!(history.stats().undo_entries(), 1);
    history.clear();
    assert!(history.pop_undo_group().is_none());
    assert_eq!(history.stats().redo_entries(), 0);
}

#[test]
fn refused_transactions_change_nothing() {
    let mut buffer = TextBuffer::new("羽毛".to_owned());
    let stale = edit_at(Revision::new(7), 0, "x");
    assert_eq!(
        buffer.apply(&stale).map(|_| ()).expect_err("stale"),
        TransactionError::StaleRevision
    );
    let split = edit_at(buffer.revision(), 1, "x");
    assert_eq!(
        buffer.apply(&split).map(|_| ()).expect_err("split character"),
        TransactionError::InvalidEdit
    );
    let behind = edit_at(buffer.revision(), 7, "x");
    assert_eq!(
        buffer.apply(&behind).map(|_| ()).expect_err("behind the text"),
        TransactionError::InvalidEdit
    );
    let crossed = Transaction::new(
        buffer.revision(),
        vec![Edit::replace(3, 6, "a".to_owned()), Edit::replace(0, 3, "b".to_owned())],
    );
    assert!(buffer.apply(&crossed).is_err());
    assert_eq!(buffer.as_str(), "羽毛");
    assert_eq!(buffer.revision().get(), 0);
}

#[test]
fn changes_say_where_offsets_went() {
    let mut buffer = TextBuffer::new("abcdef".to_owned());
    let applied = buffer
        .apply(&Transaction::new(
            buffer.revision(),
            vec![Edit::replace(1, 3, "XYZ".to_owned()), Edit::replace(5, 5, "!".to_owned())],
        ))
        .expect("edits");
    assert_eq!(buffer.as_str(), "aXYZde!f");
    let at = |value: u64| ByteOffset::new(value);
    assert_eq!(applied.changes.map_before(at(0)), Some(at(0)));
    assert_eq!(applied.changes.map_before(at(2)), Some(at(1)));
    assert_eq!(applied.changes.map_after(at(2)), Some(at(4)));
    assert_eq!(applied.changes.map_before(at(5)), Some(at(6)));
    assert_eq!(applied.changes.map_after(at(5)), Some(at(7)));
    let undone = applied.inverse.rebased(buffer.revision());
    buffer.apply(&undone).expect("undo");
    assert_eq!(buffer.as_str(), "abcdef");
}
