//! Tab-separated text.
use yu_editor::document::error::EditorDocumentError;
use yu_editor::document::tabular_text::{
    copy_table_tsv, parse_tsv, paste_clipboard_text, tsv_grid, tsv_of_cells, ClipboardRoute,
};
use yu_editor::offset::{ByteOffset, TextRange};
use yu_editor::selection::{CaretAffinity, EditorSelection, Selections};

#[test]
fn quoted_tabs_newlines_quotes_and_unicode_remain_cell_data() {
    let (width, cells) =
        parse_tsv("\"a\tb\"\t\"first\r\nsecond\"\r\n\"say \"\"羽\"\"\"\t👨‍👩‍👧‍👦\r\n")
            .expect("quoted grid");
    assert_eq!(width, 2);
    assert_eq!(cells, ["a\tb", "first\r\nsecond", "say \"羽\"", "👨‍👩‍👧‍👦"]);
}

#[test]
fn trailing_empty_fields_blank_rows_and_ragged_rows_are_retained() {
    assert_eq!(
        parse_tsv("a\tb\t\nc\n\n").expect("ragged"),
        (
            3,
            vec!["a", "b", "", "c", "", "", "", "", ""]
                .into_iter()
                .map(String::from)
                .collect()
        )
    );
    assert_eq!(
        parse_tsv("a\t").expect("last empty"),
        (2, vec!["a".into(), "".into()])
    );
    assert_eq!(
        parse_tsv("").expect("empty field"),
        (1, vec![String::new()])
    );
    assert_eq!(
        parse_tsv("\"\"\r").expect("quoted empty"),
        (1, vec![String::new()])
    );
    assert_eq!(parse_tsv(" a \t\" b \"").expect("spaces").1, [" a ", " b "]);
}

#[test]
fn malformed_quoted_fields_are_rejected_without_guessing() {
    for source in [
        "\"unterminated",
        "\"closed\"tail\tx",
        "a\t\"b",
        "\"a\"\"",
        "\"a\" \tb",
    ] {
        assert_eq!(
            parse_tsv(source),
            Err(EditorDocumentError::InvalidTablePaste)
        );
    }
    assert_eq!(
        parse_tsv("a\"b\tx").expect("unquoted quote").1,
        ["a\"b", "x"]
    );
}

#[test]
fn copied_cells_read_back() {
    let cells: Vec<String> = [" first\nsecond ", "a\tb", "say \"羽\"", "", "**literal**", "<br>"]
        .into_iter()
        .map(String::from)
        .collect();
    let copied = tsv_of_cells(2, &cells);
    assert_eq!(parse_tsv(&copied).expect("decode"), (2, cells));
    let single = vec!["a".to_owned(), String::new()];
    assert_eq!(tsv_of_cells(1, &single), "a\n");
    assert_eq!(parse_tsv("a\n").expect("decode").1, ["a"]);
}

#[test]
fn only_selected_cells_are_copied_as_a_grid() {
    let text = "ab";
    let at = |value: u64| {
        EditorSelection::cursor(text, ByteOffset::new(value), CaretAffinity::Downstream)
            .expect("caret")
    };
    let plain = Selections::new(text, vec![at(0), at(1)], 0).expect("selections");
    let block = TextRange::new(ByteOffset::new(0), ByteOffset::new(2)).expect("ordered");
    let visible = vec!["x".to_owned(), "y z".to_owned()];
    assert_eq!(copy_table_tsv(&plain, Some(block), &visible).expect("no grid"), None);
    let cells = Selections::new(text, vec![at(0), at(1)], 0)
        .expect("selections")
        .with_table_slots(2, vec![Some(0), Some(1)])
        .expect("cells");
    assert_eq!(
        copy_table_tsv(&cells, Some(block), &visible).expect("grid"),
        Some("x\ty z".to_owned())
    );
    let narrow = TextRange::new(ByteOffset::new(0), ByteOffset::new(0)).expect("ordered");
    for elsewhere in [Some(narrow), None] {
        assert_eq!(
            copy_table_tsv(&cells, elsewhere, &visible),
            Err(EditorDocumentError::InvalidTablePaste)
        );
    }
}

#[test]
fn pasted_cells_keep_their_text_as_markdown() {
    let (columns, cells) =
        tsv_grid("**bold**\tx|y\r\n羽\t\"say \"\"hi\"\"\"\r\n").expect("grid");
    assert_eq!(columns, 2);
    assert_eq!(cells, [r"\*\*bold\*\*", r"x\|y", "羽", r#"say \"hi\""#]);
    let (columns, cells) =
        tsv_grid("\" first\r\nsecond \"\t\"a\tb\"\r\n\"<br>\"\t\" \"").expect("grid");
    assert_eq!(columns, 2);
    assert_eq!(cells, ["&#32;first<br>second&#32;", "a&#9;b", "\\<br\\>", "&#32;"]);
    assert_eq!(tsv_grid("\"bad").map(|_| ()), Err(EditorDocumentError::InvalidTablePaste));
}

#[test]
fn tabs_make_a_grid_only_inside_a_table_or_when_asked() {
    assert_eq!(paste_clipboard_text("a\tb\n", false, true), ClipboardRoute::Plain);
    assert_eq!(paste_clipboard_text("a\tb\n", true, true), ClipboardRoute::Grid);
    assert_eq!(paste_clipboard_text("a\tb\n", false, false), ClipboardRoute::Grid);
    assert_eq!(paste_clipboard_text("ab", false, false), ClipboardRoute::Plain);
}

#[test]
fn quoted_cells_read_back_whatever_parts_the_rows() {
    let cells: Vec<String> =
        ["a\tb", "say \"hi\"", "x\r\ny", ""].into_iter().map(String::from).collect();
    let quoted: Vec<String> =
        cells.iter().map(|cell| format!("\"{}\"", cell.replace('"', "\"\""))).collect();
    for row_break in ["\n", "\r", "\r\n"] {
        let source =
            format!("{}\t{}{row_break}{}\t{}", quoted[0], quoted[1], quoted[2], quoted[3]);
        assert_eq!(parse_tsv(&source).expect("grid"), (2, cells.clone()));
    }
    let (_, written) = tsv_grid(" \n\t").expect("grid");
    for cell in &written {
        assert_eq!(cell.trim(), cell);
        assert!(!cell.contains(['\n', '\r', '\t']));
    }
}
