//! Lists and tables written in HTML.
use yu_editor::document::error::EditorDocumentError;
use yu_editor::document::html_cell_text::{
    encode_html_cell_text, html_paragraph_join,
    html_table_cell_input, html_table_deletion_text, html_table_input_cursor,
    html_table_replacement_text, normalize_ranges, plan_html_paragraph_boundaries, RangeContext,
};
use yu_editor::document::html_grapheme::{
    html_table_cluster_range, html_table_grapheme_deletion, html_table_grapheme_target,
    table_word_target, GraphemeTarget,
};
use yu_editor::document::html_list::{html_list_outdent_at, list_selection_span, ListPlan};
use yu_editor::document::html_list_edit::{
    combined_html_list_groups, html_list_command_available,
};
use yu_editor::document::html_list_groups::{
    compact_list_exits, only_trivia, trim_list_plan, ParsedGap,
};
use yu_editor::document::html_list_plans::{
    at_html_list_content_start, html_list_indent_for, html_list_split_markup,
    root_html_list_outdent_with_points, selected_html_list_outdent_for,
};
use yu_editor::document::html_list_selection::{
    group_html_list_items, has_html_list_selection, single_html_list_group, ListSelection,
};
use yu_editor::document::html_list_split::{
    finish_html_list_split, split_html_list_items, SplitInput,
};
use yu_editor::document::session::{EditorDocument, ImageTarget, ListIndent};
use yu_editor::document::table_html::{copy_html_table_source, HtmlCell};
use yu_editor::document::table_html_plan::{
    adopt_line_endings, html_grid_contents, html_grid_markup, html_grid_source,
    html_table_edit_plan, html_table_edit_step, html_table_grid_plan, html_table_grid_target,
    html_table_payload, html_table_replacement_plan, html_table_source_route,
    markdown_table_accepts, HtmlPasteRoute, HtmlTableAction, HtmlTableCell, ReadTable,
    TableTarget,
};
use yu_editor::document::table_html_source::{
    html_table_source_plan, markdown_table_source_plan, markdown_table_source_text, HtmlMerge,
    HtmlSourcePlan, HtmlTarget,
};
use yu_editor::document::table_edit::TableEdit;
use yu_editor::edit::{Edit, TextBuffer, Transaction};
use yu_editor::grid::{SourceSpan, TableCellAddress, TableGrid};
use yu_editor::hidden::HiddenRanges;
use yu_editor::history::HistoryGroup;
use yu_editor::html::{
    HtmlAlignment, HtmlAttribute, HtmlModel, HtmlNode, HtmlNodeKind, HtmlPart, HtmlTag,
};
use yu_editor::offset::{ByteOffset, Revision, TextRange};
use yu_editor::selection::{Bias, CaretAffinity, EditorSelection, SelectionError, Selections};
use yu_editor::visual::{VisualOffset, VisualRange, VisualText};

fn range(start: u64, end: u64) -> TextRange {
    TextRange::new(ByteOffset::new(start), ByteOffset::new(end)).expect("ordered")
}

/// Reads one tag that starts at `at`, and says where it ends.
fn read_tag(source: &str, at: usize) -> (HtmlTag, usize) {
    let end = at + source[at..].find('>').expect("tag") + 1;
    let inner = &source[at + 1..end - 1];
    let name_end = inner.find(' ').unwrap_or(inner.len());
    let mut attributes = Vec::new();
    let mut rest = at + 1 + name_end;
    while let Some(gap) = source[rest..end - 1].find(|c: char| c != ' ') {
        let start = rest + gap;
        let stop = source[start..end - 1].find(' ').map_or(end - 1, |n| start + n);
        let text = &source[start..stop];
        let (name, value) = match text.find('=') {
            Some(eq) => (
                &text[..eq],
                Some(SourceSpan::new(start + eq + 2, stop - 1)),
            ),
            None => (text, None),
        };
        attributes.push(HtmlAttribute {
            name: name.to_owned(),
            source: SourceSpan::new(start, stop),
            value,
        });
        rest = stop;
    }
    let tag = HtmlTag {
        name: inner[..name_end].trim_start_matches('/').to_owned(),
        source: SourceSpan::new(at, end),
        attributes,
    };
    (tag, end)
}

/// Reads well-formed markup into nodes.
fn read_model(source: &str) -> HtmlModel {
    let mut nodes: Vec<HtmlNode> = Vec::new();
    let mut open: Vec<usize> = Vec::new();
    let mut at = 0;
    let push = |nodes: &mut Vec<HtmlNode>, open: &Vec<usize>, span, kind| {
        let id = nodes.len();
        let parent = open.last().copied();
        nodes.push(HtmlNode {
            source: span,
            parent,
            children: Vec::new(),
            kind,
            resolved: true,
            start: None,
        });
        if let Some(parent) = parent {
            nodes[parent].children.push(id);
        }
        id
    };
    while at < source.len() {
        if source[at..].starts_with("</") {
            let (tag, end) = read_tag(source, at);
            let id = open.pop().expect("open element");
            nodes[id].source.end = end;
            if let HtmlNodeKind::Element { closing, .. } = &mut nodes[id].kind {
                *closing = Some(tag);
            }
            at = end;
        } else if source[at..].starts_with('<') {
            let (tag, end) = read_tag(source, at);
            let void = tag.name == "br" || tag.name == "img";
            let span = SourceSpan::new(at, end);
            let kind = HtmlNodeKind::Element { opening: tag, closing: None };
            let id = push(&mut nodes, &open, span, kind);
            if !void {
                open.push(id);
            }
            at = end;
        } else {
            let end = source[at..].find('<').map_or(source.len(), |n| at + n);
            push(&mut nodes, &open, SourceSpan::new(at, end), HtmlNodeKind::Text);
            at = end;
        }
    }
    HtmlModel {
        nodes,
        cell_parts: Vec::new(),
        math: Vec::new(),
        footnotes: Vec::new(),
        understood: true,
    }
}

fn valid_model(source: &str) -> HtmlModel {
    let model = read_model(source);
    assert!(model.is_valid(source), "{source:?}");
    model
}

fn apply(source: &str, plan: &ListPlan) -> String {
    format!("{}{}{}", &source[..plan.range.start], plan.text, &source[plan.range.end..])
}

const NESTED: &str = "<ul><li>a<ul><li>b</li><li>c</li></ul></li><li>d</li></ul>";
const FLAT: &str = "<ul><li>a</li><li>b</li><li>c</li></ul>";

#[test]
fn a_model_that_does_not_fit_its_source_is_told() {
    let mut model = valid_model(NESTED);
    assert!(!model.is_valid("<ul>"));
    model.nodes[1].parent = Some(4);
    assert!(!model.is_valid(NESTED));
    let mut model = read_model("<p>羽</p>");
    assert!(model.is_valid("<p>羽</p>"));
    model.footnotes.push(SourceSpan::new(3, 4));
    assert!(!model.is_valid("<p>羽</p>"));
}

#[test]
fn an_item_moves_out_of_a_nested_list() {
    let model = valid_model(NESTED);
    let at = NESTED.find("c<").expect("item");
    let plan = html_list_outdent_at(NESTED, &model, at, false).expect("plan");
    assert_eq!(
        apply(NESTED, &plan),
        "<ul><li>a<ul><li>b</li></ul></li><li>c</li><li>d</li></ul>"
    );
    let span = list_selection_span(NESTED, &model, at, at).expect("span");
    let plan = selected_html_list_outdent_for(NESTED, &model, span, at).expect("plan");
    assert_eq!(
        apply(NESTED, &plan),
        "<ul><li>a<ul><li>b</li></ul></li><li>c</li><li>d</li></ul>"
    );
    assert!(html_list_outdent_at(NESTED, &model, at, true).is_none());
}

#[test]
fn an_item_of_an_outermost_list_becomes_a_paragraph() {
    let model = valid_model(FLAT);
    let at = FLAT.find("b<").expect("item");
    let plan = html_list_outdent_at(FLAT, &model, at, false).expect("plan");
    assert_eq!(apply(FLAT, &plan), "<ul><li>a</li></ul><p>b</p><ul><li>c</li></ul>");
    let span = list_selection_span(FLAT, &model, at, at).expect("span");
    let plan =
        root_html_list_outdent_with_points(FLAT, &model, span, &vec![at]).expect("plan");
    let made = format!("{}{}{}", &FLAT[..plan.range.start], plan.text, &FLAT[plan.range.end..]);
    assert_eq!(made, "<ul><li>a</li></ul><p>b</p><ul><li>c</li></ul>");
    assert_eq!(plan.points.len(), 1);
    assert!(made[plan.range.start + plan.points[0]..].starts_with("b</p>"));
    assert!(selected_html_list_outdent_for(FLAT, &model, span, at).is_none());
}

#[test]
fn an_item_moves_into_the_one_before_it() {
    let model = valid_model(FLAT);
    let at = FLAT.find("b<").expect("item");
    let span = list_selection_span(FLAT, &model, at, at).expect("span");
    let plan = html_list_indent_for(FLAT, &model, span, at).expect("plan");
    assert_eq!(apply(FLAT, &plan), "<ul><li>a<ul><li>b</li></ul></li><li>c</li></ul>");
    let first = FLAT.find("a<").expect("item");
    let span = list_selection_span(FLAT, &model, first, first).expect("span");
    assert!(html_list_indent_for(FLAT, &model, span, first).is_none());
}

#[test]
fn an_item_is_split_at_the_caret_and_its_start_is_known() {
    let source = "<ul><li class='x'>one <b>two</b></li></ul>";
    let model = valid_model(source);
    let at = source.find("wo").expect("caret");
    let markup = html_list_split_markup(source, &model, at).expect("markup");
    let made = format!("{}{}{}", &source[..at], markup, &source[at..]);
    assert_eq!(
        made,
        "<ul><li class='x'>one <b>t</b></li><li class='x'><b>wo</b></li></ul>"
    );
    assert!(at_html_list_content_start(source, &model, source.find("one").expect("start")));
    assert!(!at_html_list_content_start(source, &model, at));
    let empty = "<ul><li></li></ul>";
    let model = valid_model(empty);
    assert!(html_list_split_markup(empty, &model, 8).is_none());
    let plan = html_list_outdent_at(empty, &model, 8, true).expect("empty item leaves");
    assert_eq!(apply(empty, &plan), "<p></p>");
}

#[test]
fn unchanged_bytes_are_left_out_of_a_plan() {
    let plan = ListPlan { range: SourceSpan::new(0, 6), text: "abXdef".to_owned(), caret: 3 };
    let trimmed = trim_list_plan("abcdef", plan);
    assert_eq!(trimmed.range, SourceSpan::new(2, 3));
    assert_eq!(trimmed.text, "X");
    assert_eq!(trimmed.caret, 1);
}

fn caret_at(source: &str, at: usize) -> EditorSelection {
    EditorSelection::cursor(source, ByteOffset::new(at as u64), CaretAffinity::Downstream)
        .expect("caret")
}

fn in_region(selection: EditorSelection) -> ListSelection {
    ListSelection { selection, region: Some(0), table_recognized: false }
}

fn moved(outcome: Result<ListIndent, EditorDocumentError>) -> Selections {
    match outcome.expect("command") {
        ListIndent::Moved(moved) => moved,
        other => panic!("{other:?}"),
    }
}

#[test]
fn a_list_command_moves_items_and_selections_in_one_step() {
    let regions = vec![valid_model(FLAT)];
    let none: Vec<ParsedGap> = Vec::new();
    let at = FLAT.find("b<").expect("item");
    let origins = vec![in_region(caret_at(FLAT, at))];
    let selections = Selections::new(FLAT, vec![caret_at(FLAT, at)], 0).expect("selection");
    let available = |source_mode: bool, origins: &Vec<ListSelection>, selections: &Selections| {
        html_list_command_available(source_mode, FLAT, &regions, origins, &none, selections, true)
    };
    assert!(available(false, &origins, &selections));
    assert!(!available(true, &origins, &selections));
    assert!(has_html_list_selection(false, &regions, &selections));
    assert!(!has_html_list_selection(true, &regions, &selections));
    assert!(single_html_list_group(true, FLAT, &regions, origins[0], true).is_none());
    let mut document = EditorDocument::new(FLAT.to_owned());
    document.source_mode = true;
    assert!(matches!(
        document.change_html_list_indent(&regions, &origins, &none, &selections, true),
        Ok(ListIndent::Elsewhere)
    ));
    assert_eq!(document.buffer.as_str(), FLAT);
    document.source_mode = false;
    let after =
        moved(document.change_html_list_indent(&regions, &origins, &none, &selections, true));
    let expected = "<ul><li>a<ul><li>b</li></ul></li><li>c</li></ul>";
    assert_eq!(document.buffer.as_str(), expected);
    let caret = after.primary().focus().get() as usize;
    assert!(expected[caret..].starts_with("b</li>"));
    assert_eq!(document.history.stats().undo_entries(), 1);

    let mut out = EditorDocument::new(FLAT.to_owned());
    moved(out.change_html_list_indent(&regions, &origins, &none, &selections, false));
    assert_eq!(out.buffer.as_str(), "<ul><li>a</li></ul><p>b</p><ul><li>c</li></ul>");

    let first = caret_at(FLAT, FLAT.find("a<").expect("item"));
    let stuck = Selections::new(FLAT, vec![first], 0).expect("selection");
    let mut kept = EditorDocument::new(FLAT.to_owned());
    assert!(!available(false, &vec![in_region(first)], &stuck));
    assert!(matches!(
        kept.change_html_list_indent(&regions, &vec![in_region(first)], &none, &stuck, true),
        Ok(ListIndent::Unchanged)
    ));
    let mut plain = EditorDocument::new(FLAT.to_owned());
    let outside = vec![ListSelection { region: None, ..in_region(first) }];
    assert!(matches!(
        plain.change_html_list_indent(&Vec::new(), &outside, &none, &stuck, true),
        Ok(ListIndent::Elsewhere)
    ));
    assert_eq!(plain.buffer.as_str(), FLAT);
}

#[test]
fn several_carets_move_their_items_together() {
    let regions = vec![valid_model(FLAT)];
    let none: Vec<ParsedGap> = Vec::new();
    let (b, c) = (FLAT.find("b<").expect("b"), FLAT.find("c<").expect("c"));
    let carets = vec![caret_at(FLAT, b), caret_at(FLAT, c)];
    let origins: Vec<ListSelection> = carets.iter().map(|caret| in_region(*caret)).collect();
    for (source_mode, cells) in [(true, false), (false, true)] {
        assert!(combined_html_list_groups(
            source_mode,
            cells,
            FLAT,
            &regions,
            &origins,
            &none,
            true
        )
        .is_none());
    }
    let selections = Selections::new(FLAT, carets, 1).expect("selections");
    let mut document = EditorDocument::new(FLAT.to_owned());
    let after =
        moved(document.change_html_list_indent(&regions, &origins, &none, &selections, true));
    let expected = "<ul><li>a<ul><li>b</li><li>c</li></ul></li></ul>";
    assert_eq!(document.buffer.as_str(), expected);
    assert_eq!(after.primary_index(), 1);
    for (selection, text) in after.ranges.iter().zip(["b</li>", "c</li>"]) {
        assert!(expected[selection.focus().get() as usize..].starts_with(text));
    }
}

fn text_node(source: SourceSpan, kind: HtmlNodeKind) -> HtmlNode {
    HtmlNode { source, parent: None, children: Vec::new(), kind, resolved: true, start: None }
}

#[test]
fn white_space_and_comments_alone_are_trivia() {
    let inner = " <!--c-->\n羽";
    let space = || text_node(SourceSpan::new(0, 1), HtmlNodeKind::Text);
    let comment = || text_node(SourceSpan::new(1, 9), HtmlNodeKind::Comment);
    let line = || text_node(SourceSpan::new(9, 10), HtmlNodeKind::Text);
    assert!(only_trivia(inner, &Vec::new()));
    assert!(only_trivia(inner, &vec![space(), comment(), line()]));
    let word = text_node(SourceSpan::new(9, 13), HtmlNodeKind::Text);
    assert!(!only_trivia(inner, &vec![space(), comment(), word]));
    let outside = text_node(SourceSpan::new(9, 90), HtmlNodeKind::Text);
    assert!(!only_trivia(inner, &vec![outside]));
    let element = read_model("<br>").nodes;
    assert!(!only_trivia("<br>", &element));
}

#[test]
fn neighbouring_groups_that_leave_a_list_are_joined() {
    let join = |source: &str, read: &dyn Fn(&str) -> Option<Vec<HtmlNode>>| {
        let regions = vec![valid_model(source)];
        let (b, c) = (source.find("b<").expect("b"), source.find("c<").expect("c"));
        let carets = vec![caret_at(source, b), caret_at(source, c)];
        let origins: Vec<ListSelection> = carets.iter().map(|caret| in_region(*caret)).collect();
        let groups = group_html_list_items(source, &regions, &origins, false).expect("groups");
        let gaps: Vec<ParsedGap> = groups
            .windows(2)
            .filter_map(|pair| {
                let gap = SourceSpan::new(pair[0].range.end + 1, pair[1].range.start - 1);
                let nodes = read(&source[gap.start..gap.end])?;
                Some(ParsedGap { source: gap, nodes })
            })
            .collect();
        let selections = Selections::new(source, carets, 0).expect("selections");
        let mut document = EditorDocument::new(source.to_owned());
        moved(document.change_html_list_indent(&regions, &origins, &gaps, &selections, false));
        document.buffer.as_str().to_owned()
    };
    let joined = "<ul><li>a</li></ul><p>b</p><p>c</p>";
    assert_eq!(join(FLAT, &|_| Some(Vec::new())), joined);
    let apart = "<ul><li>a</li></ul><p>b</p><ul></ul><p>c</p>";
    assert_eq!(join(FLAT, &|_| None), apart);
    let spaced = "<ul><li>a</li><li>b</li> <li>c</li></ul>";
    let kept = "<ul><li>a</li></ul><p>b</p> <p>c</p>";
    assert_eq!(
        join(spaced, &|inner| {
            assert_eq!(inner, " ");
            Some(vec![text_node(SourceSpan::new(0, 1), HtmlNodeKind::Text)])
        }),
        kept
    );
    assert_ne!(join(spaced, &|_| Some(read_model("<br>").nodes)), kept);
}

#[test]
fn breaking_lines_splits_items_and_leaves_empty_ones() {
    let source = "<ul><li>ab</li><li></li></ul>";
    let regions = vec![valid_model(source)];
    let input = |at: usize| SplitInput {
        range: SourceSpan::new(at, at),
        region: Some(0),
        fallback: "\n".to_owned(),
        fallback_caret: 1,
    };
    let first = source.find("b<").expect("caret");
    let last = source.rfind("</li>").expect("caret");
    let splits = split_html_list_items(source, &regions, &vec![input(first), input(last)], true);
    assert!(splits.structural);
    assert_eq!(splits.exits, [false, true]);
    let made = finish_html_list_split(source, splits, &Vec::new()).expect("edits");
    assert_eq!(made.edits.len(), 2);
    let mut document = EditorDocument::new(source.to_owned());
    let inputs = vec![input(first), input(last)];
    let carets = document
        .split_html_list_item(&regions, &inputs, &Vec::new(), 1)
        .expect("break")
        .expect("carets");
    let text = document.buffer.as_str();
    assert_eq!(text, "<ul><li>a</li><li>b</li></ul><p></p>");
    assert!(text[carets.ranges[0].focus().get() as usize..].starts_with("b</li>"));
    assert!(text[carets.ranges[1].focus().get() as usize..].starts_with("</p>"));
    assert_eq!(carets.primary_index(), 1);
    assert_eq!(document.history.stats().undo_entries(), 1);
    let plain = split_html_list_items(source, &regions, &vec![SplitInput {
        region: None,
        ..input(first)
    }], true);
    assert!(!plain.structural);
    assert!(finish_html_list_split(source, plain, &Vec::new()).is_none());
    let outside = vec![SplitInput { region: None, ..input(0) }];
    let before = document.buffer.as_str().to_owned();
    assert!(document
        .split_html_list_item(&Vec::new(), &outside, &Vec::new(), 0)
        .expect("no list")
        .is_none());
    assert_eq!(document.buffer.as_str(), before);
}

#[test]
fn one_caret_leaves_its_list_from_an_empty_item() {
    let source = "<ul><li></li></ul>";
    let regions = vec![valid_model(source)];
    let inputs = vec![SplitInput {
        range: SourceSpan::new(8, 8),
        region: Some(0),
        fallback: "\n".to_owned(),
        fallback_caret: 1,
    }];
    let mut document = EditorDocument::new(source.to_owned());
    let caret = document
        .split_html_list_item(&regions, &inputs, &Vec::new(), 0)
        .expect("break")
        .expect("caret");
    assert_eq!(document.buffer.as_str(), "<p></p>");
    assert_eq!(caret.primary().focus(), ByteOffset::new(3));
}

#[test]
fn deleting_backward_at_the_start_of_an_item_moves_it_out() {
    let regions = vec![valid_model(FLAT)];
    let none: Vec<ParsedGap> = Vec::new();
    let start = FLAT.find("b<").expect("item");
    let delete = |at: usize, table_recognized: bool, source_mode: bool| {
        let mut document = EditorDocument::new(FLAT.to_owned());
        document.source_mode = source_mode;
        let caret = caret_at(FLAT, at);
        let selections = Selections::new(FLAT, vec![caret], 0).expect("selection");
        let origins = vec![ListSelection { table_recognized, ..in_region(caret) }];
        let outcome = document
            .backspace_html_list_start(&regions, &origins, &none, &selections)
            .expect("command");
        (document.buffer.as_str().to_owned(), outcome)
    };
    for (at, table, source_mode) in
        [(start + 1, true, false), (start, false, false), (start, true, true)]
    {
        let (text, outcome) = delete(at, table, source_mode);
        assert!(outcome.is_none());
        assert_eq!(text, FLAT);
    }
    let (text, outcome) = delete(start, true, false);
    assert!(matches!(outcome, Some(ListIndent::Moved(_))));
    assert_eq!(text, "<ul><li>a</li></ul><p>b</p><ul><li>c</li></ul>");
}

#[test]
fn neighbouring_exits_are_joined() {
    let source = "<ul><li></li><li></li></ul>";
    let model = valid_model(source);
    let mut plans = Vec::new();
    for at in [8, 17] {
        let plan = html_list_outdent_at(source, &model, at, true).expect("plan");
        plans.push(trim_list_plan(source, plan));
    }
    let apart: Vec<String> = plans.iter().map(|plan| plan.text.clone()).collect();
    assert_eq!(plans[0].range.end + 2, plans[1].range.start);
    compact_list_exits(source, &mut plans, &vec![true, true], &Vec::new());
    assert_eq!(plans.iter().map(|plan| plan.text.clone()).collect::<Vec<_>>(), apart);
    let between = plans[0].range.end + 1;
    let gap = ParsedGap { source: SourceSpan::new(between, between), nodes: Vec::new() };
    let gaps = vec![gap];
    compact_list_exits(source, &mut plans, &vec![true, false], &gaps);
    assert_eq!(plans.iter().map(|plan| plan.text.clone()).collect::<Vec<_>>(), apart);
    compact_list_exits(source, &mut plans, &vec![true, true], &gaps);
    assert_eq!(plans.len(), 2);
    let joined: String = plans.iter().map(|plan| plan.text.as_str()).collect();
    assert!(!joined.contains("<ul"), "{joined:?}");
}

#[test]
fn cell_text_is_encoded_and_keeps_tags() {
    assert_eq!(
        encode_html_cell_text("a<b> & \"c\"\nd"),
        "a&lt;b&gt; &amp; \"c\"<br>d"
    );
    let source = "<td>ab<b>cd</b>ef</td>";
    let model = valid_model(source);
    let whole = SourceSpan::new(4, 17);
    let table = Some(&model);
    let (text, cursor) =
        html_table_replacement_text(false, source, table, true, whole, "X").expect("cell");
    assert_eq!(text, "X<b></b>");
    assert_eq!(cursor, 1);
    assert_eq!(
        html_table_deletion_text(false, source, table, true, whole).expect("cell"),
        "<b></b>"
    );
    let start = SourceSpan::new(4, 6);
    let typed = html_table_cell_input(false, source, table, true, start, "<").expect("cell");
    assert_eq!(typed, "&lt;");
    assert_eq!(
        html_table_input_cursor(false, source, table, true, start, typed.len()),
        Some(4)
    );
    assert_eq!(html_table_input_cursor(false, source, table, true, whole, 3), None);
    for (source_mode, table, inside_cells) in
        [(true, table, true), (false, None, true), (false, table, false)]
    {
        assert!(
            html_table_replacement_text(source_mode, source, table, inside_cells, whole, "X")
                .is_none()
        );
        assert!(
            html_table_deletion_text(source_mode, source, table, inside_cells, whole).is_none()
        );
        assert!(
            html_table_cell_input(source_mode, source, table, inside_cells, start, "<").is_none()
        );
        assert!(
            html_table_input_cursor(source_mode, source, table, inside_cells, start, 4).is_none()
        );
    }
}

#[test]
fn overlaps_go_to_the_earlier_range() {
    let spans = vec![SourceSpan::new(0, 5), SourceSpan::new(3, 8), SourceSpan::new(9, 9)];
    assert_eq!(
        normalize_ranges(&spans),
        [SourceSpan::new(0, 5), SourceSpan::new(5, 8), SourceSpan::new(9, 9)]
    );
}

/// A cell of two paragraphs, with its parts.
fn two_paragraphs() -> (&'static str, HtmlModel) {
    let source = "<td><p>ab</p><h2>cd</h2></td>";
    let mut model = valid_model(source);
    model.cell_parts = vec![vec![
        HtmlPart { owner: Some(1), source: SourceSpan::new(4, 13) },
        HtmlPart { owner: Some(3), source: SourceSpan::new(13, 24) },
    ]];
    assert!(model.is_valid(source));
    (source, model)
}

#[test]
fn deleting_the_seam_joins_two_paragraphs() {
    let (source, model) = two_paragraphs();
    let seam = SourceSpan::new(9, 17);
    let join = html_paragraph_join(&model, seam).expect("seam");
    assert_eq!(join.closing, SourceSpan::new(9, 13));
    assert_eq!(join.opening, SourceSpan::new(13, 17));
    assert_eq!(join.right_closing, SourceSpan::new(19, 24));
    assert!(!join.same_tag);
    let context = vec![RangeContext { region: Some(0), inside_cells: true }];
    let regions = vec![model];
    let edits = plan_html_paragraph_boundaries(source, &regions, &vec![seam], &context)
        .expect("plan")
        .expect("seam");
    let mut buffer = TextBuffer::new(source.to_owned());
    buffer.apply(&Transaction::new(buffer.revision(), edits)).expect("edits apply");
    assert_eq!(buffer.as_str(), "<td><p>abcd</p></td>");
    let caret = Selections::new(source, vec![caret_at(source, 9)], 0).expect("selection");
    let mut document = EditorDocument::new(source.to_owned());
    let delete = |document: &mut EditorDocument, selections: &Selections, ranges: &[SourceSpan]| {
        document.delete_html_paragraph_boundaries(
            selections,
            &regions,
            &ranges.to_vec(),
            &vec![context[0]; ranges.len()],
            HistoryGroup::Deletion,
        )
    };
    document.source_mode = true;
    assert!(delete(&mut document, &caret, &[seam]).expect("source mode").is_none());
    document.source_mode = false;
    let cells = Selections::new(source, vec![caret_at(source, 9)], 0)
        .expect("selection")
        .with_table_slots(1, vec![Some(0)])
        .expect("cells");
    assert!(delete(&mut document, &cells, &[seam]).expect("cells").is_none());
    assert!(delete(&mut document, &caret, &[SourceSpan::new(7, 8)]).expect("no seam").is_none());
    assert_eq!(
        delete(&mut document, &caret, &[seam, SourceSpan::new(20, 22)]).map(|_| ()),
        Err(EditorDocumentError::Selection(SelectionError::InvalidRange))
    );
    assert_eq!(document.buffer.as_str(), source);
    let after = delete(&mut document, &caret, &[seam]).expect("delete").expect("carets");
    assert_eq!(document.buffer.as_str(), "<td><p>abcd</p></td>");
    assert_eq!(after.primary().focus(), ByteOffset::new(9));
    assert_eq!(document.history.stats().undo_entries(), 1);
    let inside = vec![SourceSpan::new(7, 8)];
    assert!(plan_html_paragraph_boundaries(source, &regions, &inside, &context)
        .expect("plan")
        .is_none());
    assert_eq!(
        html_table_cluster_range(&regions[0], SourceSpan::new(9, 17), 9, true, true),
        Some(seam)
    );
    assert_eq!(
        html_table_cluster_range(&regions[0], SourceSpan::new(7, 8), 7, true, false),
        Some(SourceSpan::new(7, 8))
    );
    let deletion = |target: GraphemeTarget| {
        html_table_grapheme_deletion(target, &regions[0], seam, ByteOffset::new(9), true)
    };
    assert_eq!(deletion(GraphemeTarget::Edge), Some(range(9, 9)));
    assert_eq!(deletion(GraphemeTarget::Object(range(1, 2))), Some(range(1, 2)));
    let visual = VisualRange { start: VisualOffset::new(2), end: VisualOffset::new(3) };
    assert_eq!(
        deletion(GraphemeTarget::Cluster { visual, newline: true }),
        Some(range(9, 17))
    );
}

#[test]
fn deleting_takes_whole_clusters_and_objects() {
    let source = "<b>👨‍👩‍👧e\u{301}</b>x";
    let end = source.len() as u64;
    let hidden = vec![range(0, 3), range(end - 5, end - 1)];
    let text = VisualText::new(
        source,
        Revision::new(0),
        range(0, end),
        HiddenRanges::new(source, hidden).expect("hidden"),
    )
    .expect("text");
    let family = "👨‍👩‍👧".len() as u64;
    let none: Vec<TextRange> = Vec::new();
    let cluster = |from: u64, forward: bool| {
        match html_table_grapheme_target(false, Some(&text), &none, ByteOffset::new(from), forward)
            .expect("place")
            .expect("target")
        {
            GraphemeTarget::Cluster { visual, newline } => {
                assert!(!newline);
                Some((visual.start.get(), visual.end.get()))
            }
            GraphemeTarget::Edge => None,
            GraphemeTarget::Object(object) => panic!("{object:?}"),
        }
    };
    assert_eq!(cluster(3, true), Some((0, family)));
    assert_eq!(cluster(3 + family, true), Some((family, family + 3)));
    assert_eq!(cluster(3 + family, false), Some((0, family)));
    assert_eq!(cluster(3, false), None);
    assert_eq!(cluster(end, true), None);
    let object = vec![range(end - 1, end)];
    assert!(matches!(
        html_table_grapheme_target(false, Some(&text), &object, ByteOffset::new(end), false),
        Ok(Some(GraphemeTarget::Cluster { .. } | GraphemeTarget::Object(_)))
    ));
    let inside = ByteOffset::new(4);
    assert!(html_table_grapheme_target(false, Some(&text), &none, inside, true).is_err());
    assert_eq!(html_table_grapheme_target(true, Some(&text), &none, inside, true), Ok(None));
    assert_eq!(html_table_grapheme_target(false, None, &none, inside, true), Ok(None));
    let start = ByteOffset::new(3);
    let word = |target: u64| {
        table_word_target(Some(&text), start, |visible, at| {
            assert_eq!((visible, at), (text.text(), 0));
            target
        })
    };
    assert_eq!(word(family), Ok(Some(ByteOffset::new(3 + family))));
    assert_eq!(word(0), Ok(Some(start)));
    assert!(word(99).is_err());
    assert_eq!(table_word_target(None, start, |_, _| 0), Ok(None));
    assert!(table_word_target(Some(&text), ByteOffset::new(4), |_, _| 0).is_err());
    assert_eq!(
        text.visual_to_source(VisualOffset::new(0), Bias::After),
        Ok(ByteOffset::new(3))
    );
}

fn cell_of(source: &str, model: &HtmlModel, content: &str) -> HtmlCell {
    let start = source.find(content).expect("content");
    let span = SourceSpan::new(start, start + content.len());
    for node in &model.nodes {
        if let HtmlNodeKind::Element { opening, closing: Some(closing) } = &node.kind {
            if opening.source.end == span.start && closing.source.start == span.end {
                return HtmlCell {
                    content: span,
                    alignment: None,
                    opening: read_tag(source, opening.source.start).0,
                    closing: Some(closing.source),
                };
            }
        }
    }
    panic!("no cell {content:?}")
}

#[test]
fn copied_cells_keep_their_tags() {
    let source =
        "<table><tr><td rowspan='2'>A</td><th class='x'>B</th></tr><tr><td>C</td></tr></table>";
    let model = valid_model(source);
    let cells: Vec<HtmlCell> =
        ["A", "B", "C"].iter().map(|text| cell_of(source, &model, text)).collect();
    assert!(cells.iter().all(|cell| cell.is_valid(source)));
    assert!(!cells[0].is_valid("<td>"));
    let ranges = cells
        .iter()
        .map(|cell| {
            EditorSelection::range(
                source,
                ByteOffset::new(cell.content.start as u64),
                ByteOffset::new(cell.content.end as u64),
                CaretAffinity::Downstream,
            )
            .expect("range")
        })
        .collect();
    let selections = Selections::new(source, ranges, 0)
        .expect("selections")
        .with_table_slots(2, vec![Some(0), Some(1), Some(0), Some(2)])
        .expect("cells");
    let copied = copy_html_table_source(false, source, &selections, Some(&cells))
        .expect("copy")
        .expect("table");
    assert_eq!(
        copied,
        "<table><tr><td rowspan=\"2\">A</td><th class='x'>B</th></tr><tr><td>C</td></tr></table>"
    );
    assert_eq!(copy_html_table_source(false, source, &selections, None).expect("no table"), None);
    assert_eq!(
        copy_html_table_source(true, source, &selections, Some(&cells)).expect("source mode"),
        None
    );
}

#[test]
fn commands_on_a_table_are_planned_for_its_cell() {
    let source = "<td>abcd</td><td>efgh</td>";
    let cell = HtmlTableCell {
        rows: 2,
        columns: 2,
        table: SourceSpan::new(0, source.len()),
        current: TableCellAddress::new(1, 1),
        content: SourceSpan::new(4, 8),
    };
    let selected = |start: u64, end: u64| {
        let one = EditorSelection::range(
            source,
            ByteOffset::new(start),
            ByteOffset::new(end),
            CaretAffinity::Downstream,
        )
        .expect("range");
        Selections::new(source, vec![one], 0).expect("selection")
    };
    let inside = selected(6, 7);
    let step = |edit: TableEdit| {
        html_table_edit_step(false, &inside, cell, edit).expect("step")
    };
    assert_eq!(step(TableEdit::DeleteRow).action, HtmlTableAction::DeleteRow { row: 1 });
    let column = step(TableEdit::InsertColumnAfter);
    assert!(matches!(column.action, HtmlTableAction::EditColumn { insert: true, .. }));
    assert_eq!(column.target, TableCellAddress::new(1, 2));
    assert_eq!(
        step(TableEdit::AlignCenter).action,
        HtmlTableAction::AlignColumn { column: 1, alignment: Some(HtmlAlignment::Center) }
    );
    let edit = TableEdit::InsertColumnAfter;
    let document = EditorDocument::new(source.to_owned());
    let several =
        Selections::new(source, vec![caret_at(source, 5), caret_at(source, 6)], 0).expect("carets");
    let markup = |_: HtmlTableAction| Some(vec![Edit::replace(4, 8, String::new())]);
    for (source_mode, selections) in
        [(true, &inside), (false, &several), (false, &selected(3, 7))]
    {
        assert_eq!(html_table_edit_step(source_mode, selections, cell, edit), None);
        assert!(html_table_edit_plan(source_mode, selections, cell, edit, markup).is_none());
    }
    assert!(html_table_edit_plan(false, &inside, cell, edit, |_| Some(Vec::new())).is_none());
    assert!(html_table_edit_plan(false, &inside, cell, edit, |_| None).is_none());
    let plan = html_table_edit_plan(false, &inside, cell, edit, |action| {
        assert_eq!(action, column.action);
        Some(vec![Edit::replace(4, 8, String::new())])
    })
    .expect("plan");
    assert_eq!((plan.table_start, plan.target), (ByteOffset::new(0), column.target));
    assert_eq!(plan.edits.len(), 1);
    let last = HtmlTableCell { rows: 1, current: TableCellAddress::new(0, 1), ..cell };
    let removal = html_table_edit_plan(false, &inside, last, TableEdit::DeleteRow, |_| None)
        .expect("the table goes with its only row");
    assert_eq!(removal.edits[0].range, range(0, source.len() as u64));
    assert_eq!(removal.edits[0].text, "");
    let on = |document: &EditorDocument, selections: &Selections| {
        document
            .table_edit_plan(selections, TableTarget::Html(cell), edit, markup)
            .map(|plan| plan.target)
    };
    assert_eq!(on(&document, &inside), Some(column.target));
    assert_eq!(on(&document, &several), None);
    let mut raw = EditorDocument::new(source.to_owned());
    raw.source_mode = true;
    assert_eq!(on(&raw, &inside), None);
}

#[test]
fn a_grid_is_written_as_a_table_and_read_back() {
    let cells = vec!["a".to_owned(), "b".to_owned(), "c".to_owned(), "d".to_owned()];
    let markup = html_grid_markup(2, &cells).expect("markup");
    let contents: Vec<SourceSpan> = cells
        .iter()
        .map(|text| {
            let start = markup.find(&format!(">{text}<")).expect("cell") + 1;
            SourceSpan::new(start, start + 1)
        })
        .collect();
    let read = ReadTable {
        source: SourceSpan::new(0, markup.len()),
        columns: 2,
        rows: 2,
        contents,
        footnotes_resolve: true,
    };
    assert!(read.is_valid(&markup));
    assert_eq!(html_grid_source(markup.clone(), 2, &cells, Some(&read)).expect("source"), markup);
    assert_eq!(
        html_grid_source(markup.clone(), 2, &cells, None).expect_err("no table"),
        EditorDocumentError::InvalidTablePaste
    );
    assert!(html_grid_markup(0, &cells).is_err());
    assert!(html_grid_markup(3, &cells).is_err());
    assert_eq!(html_grid_contents(&vec!["<b>".to_owned()], true), ["<b>"]);
    assert_eq!(html_grid_contents(&vec!["<b>".to_owned()], false), ["&lt;b&gt;"]);
    let padded = format!("\n {markup}\n");
    let shifted = ReadTable {
        source: SourceSpan::new(2, 2 + markup.len()),
        contents: Vec::new(),
        ..read
    };
    assert_eq!(html_table_payload(&padded, Some(&shifted)).expect("payload"), markup);
    assert!(html_table_payload(&format!("x{markup}"), None).is_err());
    assert_eq!(adopt_line_endings("a\nb\r\nc", "x\r\ny"), "a\r\nb\r\nc");
}

#[test]
fn a_pasted_grid_finds_its_rectangle() {
    let text = "abcd";
    let spans: Vec<SourceSpan> = (0..4).map(|at| SourceSpan::new(at, at + 1)).collect();
    let grid = TableGrid::new(2, spans.clone(), (0..4).map(Some).collect()).expect("grid");
    let caret = Selections::new(text, vec![caret_at(text, 0)], 0).expect("selection");
    let start = TableCellAddress::new(0, 0);
    let target =
        html_table_grid_target(false, text, &grid, &caret, Some(start), 1, 3).expect("target");
    assert_eq!((target.start, target.last), (start, TableCellAddress::new(2, 0)));
    assert!(!target.fill);
    for refused in [
        html_table_grid_target(true, text, &grid, &caret, Some(start), 1, 3),
        html_table_grid_target(false, text, &grid, &caret, None, 1, 3),
        html_table_grid_target(false, text, &grid, &caret, Some(start), 2, 3),
    ] {
        assert_eq!(refused.expect_err("no target"), EditorDocumentError::InvalidTablePaste);
    }
    let plan = html_table_grid_plan(range(0, 4), "wxyz".to_owned(), Some(&grid), start, start)
        .expect("plan");
    assert_eq!((plan.anchor, plan.focus), (0, 0));
    assert!(html_table_grid_plan(range(0, 4), "wxyz".to_owned(), None, start, start).is_err());
    let all: Vec<EditorSelection> = spans
        .iter()
        .map(|span| {
            EditorSelection::range(
                text,
                ByteOffset::new(span.start as u64),
                ByteOffset::new(span.end as u64),
                CaretAffinity::Downstream,
            )
            .expect("range")
        })
        .collect();
    let whole = Selections::new(text, all, 0)
        .expect("selections")
        .with_table_slots(2, (0..4).map(Some).collect())
        .expect("cells");
    let table = SourceSpan::new(0, 4);
    assert_eq!(
        html_table_source_route(&whole, table, &spans, true).expect("route"),
        HtmlPasteRoute::Replace
    );
    assert_eq!(
        html_table_source_route(&caret, table, &spans, true).expect("route"),
        HtmlPasteRoute::Merge
    );
    assert!(html_table_source_route(&caret, table, &spans, false).is_err());
    assert!(markdown_table_accepts(&caret, &vec![Some(SourceSpan::new(0, 1))]).is_ok());
    assert!(markdown_table_accepts(&caret, &vec![None]).is_err());
    let read = ReadTable {
        source: table,
        columns: 2,
        rows: 2,
        contents: spans,
        footnotes_resolve: true,
    };
    let plan = html_table_replacement_plan(range(10, 14), text.to_owned(), &read).expect("plan");
    assert_eq!((plan.anchor, plan.focus), (10, 13));
}

#[test]
fn a_pasted_table_replaces_merges_or_converts() {
    let payload = "\n<table><tr><td>a</td></tr></table>\n";
    let cell = payload.find(">a<").expect("cell") + 1;
    let read = ReadTable {
        source: SourceSpan::new(1, payload.len() - 1),
        columns: 1,
        rows: 1,
        contents: vec![SourceSpan::new(cell, cell + 1)],
        footnotes_resolve: true,
    };
    assert!(read.is_valid(payload));
    let text = "xxcdxx";
    let target = |start: Option<TableCellAddress>| HtmlTarget {
        source: SourceSpan::new(2, 4),
        cells: vec![SourceSpan::new(2, 3), SourceSpan::new(3, 4)],
        start,
    };
    let caret = Selections::new(text, vec![caret_at(text, 2)], 0).expect("selection");
    let start = TableCellAddress::new(0, 0);
    let merge = || HtmlMerge {
        range: range(2, 4),
        pasted: "ad".to_owned(),
        grid: TableGrid::new(
            2,
            vec![SourceSpan::new(0, 1), SourceSpan::new(1, 2)],
            vec![Some(0), Some(1)],
        ),
    };

    let outside = html_table_source_plan(false, payload, Some(&read), true, &caret, None, None);
    assert!(matches!(outside, Ok(HtmlSourcePlan::Outside)));
    let pipe = html_table_source_plan(false, payload, Some(&read), false, &caret, None, None);
    assert!(matches!(pipe, Ok(HtmlSourcePlan::Markdown(made)) if made == payload.trim()));
    let merged = html_table_source_plan(
        false,
        payload,
        Some(&read),
        false,
        &caret,
        Some(&target(Some(start))),
        Some(merge()),
    );
    let Ok(HtmlSourcePlan::Plan(plan)) = merged else { panic!("merged") };
    assert_eq!((plan.range, plan.source.as_str()), (range(2, 4), "ad"));
    assert_eq!((plan.anchor, plan.focus), (2, 2));

    let both = ["c", "d"]
        .iter()
        .map(|content| {
            let at = text.find(content).expect("cell") as u64;
            EditorSelection::range(
                text,
                ByteOffset::new(at),
                ByteOffset::new(at + 1),
                CaretAffinity::Downstream,
            )
            .expect("range")
        })
        .collect();
    let whole = Selections::new(text, both, 0)
        .expect("selections")
        .with_table_slots(2, vec![Some(0), Some(1)])
        .expect("cells");
    let replaced = html_table_source_plan(
        false,
        payload,
        Some(&read),
        false,
        &whole,
        Some(&target(Some(start))),
        None,
    );
    let Ok(HtmlSourcePlan::Plan(plan)) = replaced else { panic!("replaced") };
    assert_eq!(plan.source, payload.trim());
    assert_eq!((plan.anchor, plan.focus), (cell + 1, cell + 1));

    let empty = ReadTable {
        source: read.source,
        columns: 0,
        rows: 0,
        contents: Vec::new(),
        footnotes_resolve: true,
    };
    let outside = html_table_source_plan(false, payload, Some(&empty), true, &caret, None, None);
    assert!(matches!(outside, Ok(HtmlSourcePlan::Outside)));
    let pipe = html_table_source_plan(false, payload, Some(&empty), false, &caret, None, None);
    assert!(matches!(pipe, Ok(HtmlSourcePlan::Markdown(made)) if made == payload.trim()));
    let into = target(Some(start));
    let replaced =
        html_table_source_plan(false, payload, Some(&empty), false, &whole, Some(&into), None);
    assert!(matches!(replaced, Err(EditorDocumentError::InvalidTablePaste)));
    let raw = html_table_source_plan(
        true,
        payload,
        Some(&read),
        false,
        &caret,
        Some(&target(Some(start))),
        Some(merge()),
    );
    assert!(matches!(raw, Ok(HtmlSourcePlan::Markdown(made)) if made == payload.trim()));

    for refused in [
        html_table_source_plan(false, "x", None, false, &caret, None, None),
        html_table_source_plan(false, payload, Some(&read), false, &caret, Some(&target(None)), None),
        html_table_source_plan(
            false,
            payload,
            Some(&read),
            false,
            &caret,
            Some(&target(Some(start))),
            None,
        ),
    ] {
        assert!(matches!(refused, Err(EditorDocumentError::InvalidTablePaste)));
    }
}

#[test]
fn a_pipe_table_becomes_an_html_table_for_a_pasted_one() {
    let document = "| a |\r\n| - |\r\n";
    let table = SourceSpan::new(0, document.len());
    let caret = Selections::new(document, vec![caret_at(document, 2)], 0).expect("selection");
    let cells = vec![Some(SourceSpan::new(2, 3))];
    let text = markdown_table_source_text(document, table, &caret, &cells, Some("<table>\n</table>"))
        .expect("text");
    assert_eq!(text, "<table>\r\n</table>\r\n");
    assert_eq!(
        markdown_table_source_text(document, table, &caret, &cells, None).expect_err("lossy"),
        EditorDocumentError::InvalidTablePaste
    );
    assert!(
        markdown_table_source_text(document, table, &caret, &vec![None], Some("<table>")).is_err()
    );
    let grid =
        TableGrid::new(1, vec![SourceSpan::new(7, 8)], vec![Some(0)]).expect("grid");
    let start = Some(TableCellAddress::new(0, 0));
    let plan = markdown_table_source_plan(
        SourceSpan::new(4, 10),
        "<table>x".to_owned(),
        Some(&grid),
        start,
        1,
        1,
    )
    .expect("plan");
    assert_eq!((plan.range, plan.anchor, plan.focus), (range(4, 10), 11, 11));
    assert_eq!(plan.source, "<table>x");
    let made = |read: Option<&TableGrid>, start: Option<TableCellAddress>, rows: usize| {
        markdown_table_source_plan(SourceSpan::new(4, 10), String::new(), read, start, rows, 1)
            .map(|_| ())
    };
    for refused in [made(None, start, 1), made(Some(&grid), None, 1), made(Some(&grid), start, 2)] {
        assert_eq!(refused, Err(EditorDocumentError::InvalidTablePaste));
    }
}

#[test]
fn images_enter_cells_as_elements_and_text_as_markdown() {
    let source = "<td>x</td>\n\ntext";
    let model = valid_model(source);
    let mut document = EditorDocument::new(source.to_owned());
    let targets = || {
        vec![
            ImageTarget {
                range: SourceSpan::new(5, 5),
                region: Some(0),
                inside_cells: true,
            },
            ImageTarget {
                range: SourceSpan::new(12, 16),
                region: None,
                inside_cells: false,
            },
        ]
    };
    let markdown = [Some("![](a)".to_owned())];
    let html = [Some("<img src=\"a\">".to_owned())];
    let regions = vec![model];
    let plain = |joined: &str, range: SourceSpan| format!("{}:{joined}", range.start);
    assert_eq!(
        document.insert_local_images(&regions, &targets(), &[], &[], plain).expect("nothing"),
        None
    );
    assert_eq!(
        document.insert_local_images(&regions, &targets(), &markdown, &[None], plain).expect_err("none"),
        EditorDocumentError::InvalidImageProperties
    );
    assert_eq!(document.buffer.as_str(), source);
    let mut raw = EditorDocument::new(source.to_owned());
    raw.source_mode = true;
    raw.insert_local_images(&regions, &targets(), &markdown, &html, plain).expect("images");
    assert_eq!(raw.buffer.as_str(), "<td>x5:![](a)</td>\n\n12:![](a)");
    let carets = document
        .insert_local_images(&regions, &targets(), &markdown, &html, plain)
        .expect("images")
        .expect("carets");
    let made = document.buffer.as_str();
    assert!(made.starts_with("<td>x") && made.contains("<img src=\"a\">"));
    assert!(made.ends_with("\n\n12:![](a)"));
    let ends: Vec<u64> = carets.iter().map(|caret| caret.get()).collect();
    assert_eq!(ends.len(), 2);
    assert_eq!(&made[..ends[0] as usize], "<td>x<img src=\"a\">");
    assert_eq!(ends[1] as usize, made.len());
    assert_eq!(document.history.stats().undo_entries(), 1);
    let overlap = vec![
        ImageTarget { range: SourceSpan::new(4, 6), region: None, inside_cells: false },
        ImageTarget { range: SourceSpan::new(5, 7), region: None, inside_cells: false },
    ];
    let before = document.buffer.as_str().to_owned();
    assert!(document.insert_local_images(&Vec::new(), &overlap, &markdown, &html, plain).is_err());
    assert_eq!(document.buffer.as_str(), before);
    document.composing = true;
    assert_eq!(
        document.insert_local_images(&regions, &targets(), &markdown, &html, plain).expect_err("composing"),
        EditorDocumentError::CompositionActive
    );
}
