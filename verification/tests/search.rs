//! Searching the source.
use yu_editor::document::layout_context::DocumentSearch;
use yu_editor::edit::TextBuffer;
use yu_editor::offset::{ByteOffset, TextRange};
use yu_editor::search::SearchState;

fn snapshot(source: &str) -> TextBuffer {
    TextBuffer::new(source.to_owned())
}

fn range(start: u64, end: u64) -> TextRange {
    TextRange::new(ByteOffset::new(start), ByteOffset::new(end)).expect("ordered")
}

#[test]
fn empty_query_matches_nothing() {
    let state = SearchState::new(&snapshot("abc"), String::new());
    assert!(state.is_empty());
    assert_eq!(state.matches(), &[]);
}

#[test]
fn matches_are_ordered_and_do_not_overlap() {
    let state = SearchState::new(&snapshot("aaaa"), "aa".to_owned());
    assert_eq!(state.matches(), &[range(0, 2), range(2, 4)]);
}

#[test]
fn every_occurrence_starts_in_a_match() {
    let source = "羽aaa羽aaaaa";
    let state = SearchState::new(&snapshot(source), "aa".to_owned());
    for (at, _) in source.char_indices() {
        if source[at..].starts_with("aa") {
            let holds = |found: &TextRange| {
                found.start().get() <= at as u64 && (at as u64) < found.end().get()
            };
            assert!(state.matches().iter().any(holds), "{at}");
        }
    }
}

#[test]
fn matches_report_byte_offsets_around_multibyte_text() {
    let state = SearchState::new(&snapshot("x🙂x"), "x".to_owned());
    assert_eq!(state.matches(), &[range(0, 1), range(5, 6)]);
}

#[test]
fn matching_is_case_sensitive() {
    let state = SearchState::new(&snapshot("Yu yu YU"), "yu".to_owned());
    assert_eq!(state.matches(), &[range(3, 5)]);
}

#[test]
fn current_is_the_match_the_selection_sits_exactly_on() {
    let state = SearchState::new(&snapshot("aXbXc"), "X".to_owned());
    assert_eq!(state.current(range(1, 2)), Some(0));
    assert_eq!(state.current(range(3, 4)), Some(1));
    assert_eq!(state.current(range(1, 3)), None);
    assert_eq!(state.current(TextRange::empty(ByteOffset::new(1))), None);
    assert_eq!(state.current(range(0, 5)), None);
}

#[test]
fn an_odd_match_leaves_a_rest_and_the_query_is_kept() {
    let state = SearchState::new(&snapshot("aaa"), "aa".to_owned());
    assert_eq!(state.matches(), &[range(0, 2)]);
    assert_eq!(state.query(), "aa");
    assert_eq!(state.revision().get(), 0);
    let state = SearchState::new(&snapshot("羽毛羽"), "羽".to_owned());
    assert_eq!(state.matches(), &[range(0, 3), range(6, 9)]);
    let state = SearchState::new(&snapshot("ab"), "abc".to_owned());
    assert!(state.is_empty());
}

#[test]
fn a_new_query_and_the_end_of_a_search_are_told_apart_from_before() {
    let mut search = DocumentSearch::new();
    let text = snapshot("a b a");
    search.clear_search();
    assert_eq!(search.generation, 0);
    search.set_search_query(&text, "a".to_owned());
    assert_eq!(search.generation, 1);
    assert_eq!(search.search().expect("search").matches().len(), 2);
    search.set_search_query(&text, String::new());
    assert_eq!(search.generation, 2);
    assert!(search.search().expect("search").is_empty());
    search.clear_search();
    assert_eq!(search.generation, 3);
    assert!(search.search().is_none());
}
