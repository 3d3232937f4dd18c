//! Prefixes of list items.
use yu_editor::list::{LineSpan, ListLinePrefix};

#[test]
fn parses_task_and_plain_list_prefixes_without_attached_markers() {
    let task = ListLinePrefix::parse("  - [x] item").expect("task prefix");
    assert_eq!(task.content_start, "  - [x] ".len());
    assert_eq!(task.continuation("  - [x] item"), "  - [ ] ");
    assert!(!task.is_empty_item("  - [x] item"));
    assert!(ListLinePrefix::parse("- [x]attached").is_some());
    let attached = ListLinePrefix::parse("- [x]attached").expect("ordinary list prefix");
    assert_eq!(attached.content_start, "- ".len());
    assert!(!attached.is_empty_item("- [x]attached"));
}

#[test]
fn continuation_increments_ordered_marker_and_exits_empty_item() {
    let ordered = ListLinePrefix::parse("9. item").expect("ordered prefix");
    assert_eq!(ordered.continuation("9. item"), "10. ");
    let empty = ListLinePrefix::parse("- [ ]  ").expect("empty task prefix");
    assert!(empty.is_empty_item("- [ ]  "));
}

#[test]
fn lines_without_a_marker_and_a_blank_are_no_items() {
    for line in ["", "text", "-", "-x", "1", "1.", "1.x", "12a ", "\t- x", "1) ", "- "] {
        let expected = matches!(line, "1) " | "- ");
        assert_eq!(ListLinePrefix::parse(line).is_some(), expected, "{line:?}");
    }
}

#[test]
fn offsets_count_bytes_before_text_of_any_script() {
    let line = "  3) [X]\t中文🪶";
    let prefix = ListLinePrefix::parse(line).expect("item");
    assert_eq!(prefix.ordered_digits, Some(LineSpan { start: 2, end: 3 }));
    assert_eq!(prefix.list_marker_end, 4);
    assert_eq!(prefix.task_marker, Some(LineSpan { start: 5, end: 8 }));
    assert_eq!(&line[prefix.content_start..], "中文🪶");
    assert_eq!(prefix.continuation(line), "  4) [ ]\t");
}

#[test]
fn numbers_that_do_not_fit_are_kept() {
    for (line, next) in [
        ("007. x", "8. "),
        ("18446744073709551614. x", "18446744073709551615. "),
        ("18446744073709551615. x", "18446744073709551615. "),
        ("99999999999999999999999. x", "99999999999999999999999. "),
    ] {
        let prefix = ListLinePrefix::parse(line).expect("item");
        assert_eq!(prefix.continuation(line), next);
    }
}

#[test]
fn a_continued_item_reads_back_as_an_empty_one() {
    for line in [
        "- a",
        "  + [X] a",
        "* [ ]\t羽",
        "9. item",
        "  3) [x]\t中文🪶",
        "18446744073709551615. x",
        "99999999999999999999999. x",
    ] {
        let prefix = ListLinePrefix::parse(line).expect("item");
        let next = prefix.continuation(line);
        let read = ListLinePrefix::parse(&next).expect("continued item");
        assert_eq!(read.content_start, next.len(), "{line:?}");
        assert!(read.is_empty_item(&next));
        assert_eq!(read.task_marker.is_some(), prefix.task_marker.is_some());
    }
}

#[test]
fn an_item_of_any_white_space_is_empty() {
    let line = "* \u{3000}\u{a0}";
    let prefix = ListLinePrefix::parse(line).expect("item");
    assert!(prefix.is_empty_item(line));
    assert!(!prefix.is_empty_item("* x"));
    assert!(!prefix.is_empty_item("*"));
}
