//! Commands on a document, and what it shows.
use yu_editor::document::error::EditorDocumentError;
use yu_editor::document::html_disclosure::{
    disclosure_step, html_disclosure_region_at, relocate_folded_selections, AfterToggle,
    HtmlDisclosure, Toggled,
};
use yu_editor::document::image_edit::{
    image_template, markdown_destination, markdown_literal, ImageParts, ImageProperties, ImageTitle,
};
use yu_editor::block::{BlockKey, BlockKind};
use yu_editor::document::layout_context::LayoutStamp;
use yu_editor::document::layout_state::LayoutState;
use yu_editor::document::session::{join_images, EditorDocument};
use yu_editor::edit::{Edit, TextBuffer, Transaction, TransactionError};
use yu_editor::grid::SourceSpan;
use yu_editor::hidden::{read_visible, HiddenRanges};
use yu_editor::layout::LayoutCache;
use yu_editor::offset::{ByteOffset, Revision, TextRange};
use yu_editor::panel::TextPositionError;
use yu_editor::projection::ProjectionCache;
use yu_editor::segmentation::{find_cluster, grapheme_at, graphemes};
use yu_editor::selection::{
    projection_bias, Bias, CaretAffinity, EditorSelection, SelectionError, Selections,
};
use yu_editor::viewport::ViewportLayout;
use yu_editor::visual::{shift_for, SourceError, VisualOffset, VisualRange, VisualText, VisualTextError};

fn range(start: u64, end: u64) -> TextRange {
    TextRange::new(ByteOffset::new(start), ByteOffset::new(end)).expect("ordered")
}

fn at(value: u64) -> ByteOffset {
    ByteOffset::new(value)
}

fn undo(document: &mut EditorDocument) {
    for entry in &document.history.pop_undo_group().expect("undo") {
        let transaction = entry.transaction_for(document.buffer.revision());
        document.buffer.apply(&transaction).expect("inverse applies");
    }
}

#[test]
fn a_suggestion_replaces_a_word_as_one_step() {
    let mut document = EditorDocument::new("teh end".to_owned());
    let words = [range(0, 3), range(4, 7)];
    document.replace_spelling(range(0, 3), "the", &words).expect("replace").expect("changed");
    assert_eq!(document.buffer.as_str(), "the end");
    assert!(document.replace_spelling(range(0, 3), "the", &words).expect("same").is_none());
    undo(&mut document);
    assert_eq!(document.buffer.as_str(), "teh end");
    let invalid = EditorDocumentError::Selection(SelectionError::InvalidRange);
    for (place, text) in [
        (range(0, 0), "x"),
        (range(0, 3), ""),
        (range(0, 3), "a\nb"),
        (range(0, 4), "x"),
    ] {
        assert_eq!(
            document.replace_spelling(place, text, &words).expect_err("refused"),
            invalid
        );
    }
    let outside = [range(2, 90)];
    assert_eq!(
        document.replace_spelling(range(2, 90), "x", &outside).expect_err("outside"),
        EditorDocumentError::Transaction(TransactionError::InvalidEdit)
    );
    document.composing = true;
    assert_eq!(
        document.replace_spelling(range(0, 3), "the", &words).expect_err("composing"),
        EditorDocumentError::CompositionActive
    );
}

#[test]
fn commands_in_a_row_are_undone_one_at_a_time() {
    let mut document = EditorDocument::new("teh edn".to_owned());
    let words = [range(0, 3), range(4, 7)];
    let stats = document.history.stats();
    assert_eq!((stats.undo_entries(), stats.redo_entries()), (0, 0));
    assert_eq!(document.history.limit, 512);
    let changes =
        document.replace_spelling(range(0, 3), "the", &words).expect("replace").expect("changed");
    assert_eq!((changes.before.get(), changes.after.get()), (0, 1));
    assert_eq!(changes.changes.len(), 1);
    assert_eq!((changes.changes[0].old, changes.changes[0].new), (range(0, 3), range(0, 3)));
    document.replace_spelling(range(4, 7), "ending", &words).expect("replace").expect("changed");
    assert_eq!(document.buffer.as_str(), "the ending");
    assert_eq!(document.history.stats().undo_entries(), 2);
    undo(&mut document);
    assert_eq!(document.buffer.as_str(), "the edn");
    undo(&mut document);
    assert_eq!(document.buffer.as_str(), "teh edn");
    assert!(document.history.pop_undo_group().is_none());
}

#[test]
fn dropped_images_leave_the_caret_behind_them() {
    let mut document = EditorDocument::new("ab".to_owned());
    let parts = [Some("![](x)".to_owned()), Some("![](y)".to_owned())];
    let markup = join_images(false, &parts).expect("markup");
    assert_eq!(markup, "![](x) ![](y)");
    let caret = document.insert_prepared_image_at(at(1), markup).expect("insert");
    assert_eq!(document.buffer.as_str(), "a![](x) ![](y)b");
    assert_eq!(caret.focus(), at(14));
    undo(&mut document);
    assert_eq!(document.buffer.as_str(), "ab");
    assert_eq!(
        document.insert_prepared_image_at(at(9), "x".to_owned()).expect_err("outside"),
        EditorDocumentError::Transaction(TransactionError::InvalidEdit)
    );
    assert_eq!(
        document.insert_prepared_image_at(at(u64::MAX), "x".to_owned()).expect_err("far"),
        EditorDocumentError::Selection(SelectionError::InvalidRange)
    );
    assert_eq!(
        join_images(false, &[None]).expect_err("unwritable"),
        EditorDocumentError::InvalidImageProperties
    );
    assert_eq!(
        join_images(true, &parts).expect_err("composing"),
        EditorDocumentError::CompositionActive
    );
    let caret = document.apply_html_list_plan(range(0, 2), "xyz".to_owned(), 2).expect("list");
    assert_eq!(document.buffer.as_str(), "xyz");
    assert_eq!(caret.focus(), at(2));
}

const DETAILS: &str = "<details open><summary>s</summary>body</details>";

fn disclosure(open: bool, attribute: bool) -> HtmlDisclosure {
    HtmlDisclosure {
        opening: range(0, 14),
        open,
        open_attribute: attribute.then_some(range(8, 13)),
        summary_content: Some(range(23, 24)),
        body: range(34, 38),
    }
}

fn layout_state() -> LayoutState<u8> {
    let stamp = LayoutStamp {
        document: 1,
        revision: Revision::new(0),
        config: 0,
        selections: 0,
        composition: 0,
        search: 0,
        search_generation: 0,
        resources: 0,
        geometry: 3,
    };
    let mut state = LayoutState {
        stamp,
        published: None,
        decorations: ProjectionCache::new(),
        layouts: LayoutCache::new(),
        viewport: ViewportLayout::new(10),
        preferred_x: Some(7),
    };
    let key = BlockKey { range: range(0, 4), kind: BlockKind::Paragraph };
    state
        .decorations
        .get_or_build_block(Revision::new(0), key, || {
            Ok::<HiddenRanges, ()>(HiddenRanges { ranges: Vec::new() })
        })
        .expect("decorated");
    state.viewport.sync(Revision::new(0), &[key]);
    state.publish(5, Vec::new(), None);
    state
}

fn is_dropped(state: &LayoutState<u8>) -> bool {
    state.published.is_none()
        && state.decorations.entries.is_empty()
        && state.layouts.entries.is_empty()
        && state.viewport.entries.is_empty()
        && state.preferred_x.is_none()
}

fn carets(text: &str, offsets: &[u64]) -> Selections {
    let carets = offsets
        .iter()
        .map(|offset| {
            EditorSelection::cursor(text, at(*offset), CaretAffinity::Downstream).expect("caret")
        })
        .collect();
    Selections::new(text, carets, 0).expect("selections")
}

#[test]
fn revealing_hidden_text_drops_what_was_laid_out() {
    let mut document = EditorDocument::new(DETAILS.to_owned());
    let mut state = layout_state();
    assert_eq!(document.reveal_html_range(&mut state, false, 2, 4), Ok(false));
    assert!(state.published.is_some() && state.preferred_x == Some(7));
    document.composing = true;
    assert_eq!(
        document.reveal_html_range(&mut state, true, 2, 4),
        Err(EditorDocumentError::CompositionActive)
    );
    assert!(state.published.is_some());
    document.composing = false;
    assert_eq!(document.reveal_html_range(&mut state, true, 2, 4), Ok(true));
    assert!(is_dropped(&state));
    assert_eq!((state.stamp.document, state.stamp.geometry), (2, 4));
    assert_eq!(document.buffer.as_str(), DETAILS);
}

#[test]
fn folding_changes_the_opening_tag_alone() {
    let mut state = layout_state();
    let mut document = EditorDocument::new(DETAILS.to_owned());
    let selections = carets(DETAILS, &[36]);
    let shown = "<details><summary>s</summary>body</details>";
    let after = |text: &str| AfterToggle {
        selections: carets(text, &[31]),
        header: Some(HtmlDisclosure {
            opening: range(0, 9),
            summary_content: Some(range(18, 19)),
            body: range(29, 33),
            ..disclosure(false, false)
        }),
    };
    let closed = document
        .toggle_html_details(
            &mut state,
            &selections,
            Some(disclosure(true, true)),
            false,
            after,
            (2, 4),
        )
        .expect("close");
    assert_eq!(document.buffer.as_str(), shown);
    let Toggled::Edited(moved) = closed else { panic!("edited") };
    assert_eq!(moved.primary().focus(), at(19));
    assert!(state.published.is_some());
    undo(&mut document);
    assert_eq!(document.buffer.as_str(), DETAILS);

    let source = "<details>body</details>";
    let mut opened = EditorDocument::new(source.to_owned());
    let header = HtmlDisclosure { opening: range(0, 9), ..disclosure(false, false) };
    let open = opened
        .toggle_html_details(
            &mut state,
            &carets(source, &[10]),
            Some(header),
            false,
            |text| AfterToggle { selections: carets(text, &[15]), header: None },
            (2, 4),
        )
        .expect("open");
    assert_eq!(opened.buffer.as_str(), "<details open>body</details>");
    assert!(matches!(open, Toggled::Edited(kept) if kept.primary().focus() == at(15)));

    let untouched = |_: &str| panic!("the source is not edited");
    let toggle = |document: &mut EditorDocument,
                  state: &mut LayoutState<u8>,
                  header: Option<HtmlDisclosure>,
                  closed: bool| {
        document.toggle_html_details(state, &selections, header, closed, untouched, (2, 4))
    };
    let revealed = Some(disclosure(true, false));
    assert!(matches!(
        toggle(&mut document, &mut state, revealed, false),
        Ok(Toggled::Unchanged)
    ));
    assert!(state.published.is_some());
    assert!(matches!(
        toggle(&mut document, &mut state, revealed, true),
        Ok(Toggled::Folded(Some(_)))
    ));
    assert!(is_dropped(&state));
    assert!(matches!(toggle(&mut document, &mut state, None, true), Ok(Toggled::Unchanged)));
    document.source_mode = true;
    assert!(matches!(
        toggle(&mut document, &mut state, Some(disclosure(true, true)), true),
        Ok(Toggled::Unchanged)
    ));
    document.composing = true;
    assert_eq!(
        toggle(&mut document, &mut state, None, true).map(|_| ()).expect_err("composing"),
        EditorDocumentError::CompositionActive
    );
    assert_eq!(document.buffer.as_str(), DETAILS);
    assert!(disclosure_step(true, false, None).is_err());
    let regions = [range(0, 4), range(4, 9)];
    assert_eq!(html_disclosure_region_at(false, false, &regions, at(4)), Some(1));
    assert_eq!(html_disclosure_region_at(false, false, &regions, at(9)), None);
    assert_eq!(html_disclosure_region_at(true, false, &regions, at(4)), None);
    assert_eq!(html_disclosure_region_at(false, true, &regions, at(4)), None);
}

#[test]
fn folding_moves_hidden_selections_to_the_summary() {
    let caret = |offset: u64| {
        EditorSelection::cursor(DETAILS, at(offset), CaretAffinity::Upstream).expect("caret")
    };
    let across =
        EditorSelection::range(DETAILS, at(20), at(36), CaretAffinity::Downstream).expect("range");
    let selections =
        Selections::new(DETAILS, vec![caret(0), across, caret(38)], 2).expect("selections");
    let moved = relocate_folded_selections(DETAILS, &selections, disclosure(true, true))
        .expect("moved")
        .expect("hidden");
    assert_eq!(moved.primary_index(), 2);
    assert_eq!(moved.ranges[0], caret(0));
    assert_eq!(moved.ranges[1].focus(), at(24));
    assert_eq!(moved.ranges[2], caret(24));
    let outside = Selections::new(DETAILS, vec![caret(39)], 0).expect("selection");
    assert!(relocate_folded_selections(DETAILS, &outside, disclosure(true, true))
        .expect("kept")
        .is_none());
    let bad = HtmlDisclosure { summary_content: Some(range(0, 90)), ..disclosure(true, true) };
    assert_eq!(
        relocate_folded_selections(DETAILS, &selections, bad).expect_err("target"),
        EditorDocumentError::Selection(SelectionError::InvalidRange)
    );
}

#[test]
fn clusters_are_those_that_readers_see() {
    let text = "e\u{301}👨‍👩‍👧\r\nx";
    let family = "👨‍👩‍👧".len();
    assert_eq!(graphemes(text), ["e\u{301}", "👨‍👩‍👧", "\r\n", "x"]);
    assert!(graphemes("").is_empty());
    assert_eq!(grapheme_at(text, 0, true), Some((0, 3)));
    assert_eq!(grapheme_at(text, 3, false), Some((0, 3)));
    assert_eq!(grapheme_at(text, 3, true), Some((3, 3 + family)));
    assert_eq!(grapheme_at(text, 3 + family, true), Some((3 + family, 5 + family)));
    assert_eq!(grapheme_at(text, text.len(), true), None);
    assert_eq!(grapheme_at(text, 0, false), None);
    assert_eq!(find_cluster(&vec![0, 3, 5], 8, 3, true), Some((3, 5)));
    assert_eq!(find_cluster(&vec![0, 3, 5], 8, 8, false), Some((5, 8)));
}

fn visual(source: &str, hidden: Vec<TextRange>) -> VisualText {
    VisualText::new(
        source,
        Revision::new(0),
        range(0, source.len() as u64),
        HiddenRanges::new(source, hidden).expect("hidden"),
    )
    .expect("text")
}

#[test]
fn hidden_source_collapses_to_one_visible_offset() {
    let text = visual("a**羽**b", vec![range(1, 3), range(6, 8)]);
    assert_eq!(text.text(), "a羽b");
    assert_eq!(text.source_to_visual(at(2), Bias::After), Ok(VisualOffset::new(1)));
    assert_eq!(text.visual_to_source(VisualOffset::new(1), Bias::Before), Ok(at(1)));
    assert_eq!(text.visual_to_source(VisualOffset::new(1), Bias::After), Ok(at(3)));
    assert_eq!(
        text.source_to_visual(at(4), Bias::After),
        Err(VisualTextError::SourceNotCharBoundary { offset: at(4) })
    );
    assert_eq!(
        text.visual_to_source(VisualOffset::new(6), Bias::After),
        Err(VisualTextError::VisualOutOfBounds {
            offset: VisualOffset::new(6),
            len: VisualOffset::new(5)
        })
    );
    let hidden = HiddenRanges::new("a**羽**b", vec![range(1, 3)]).expect("hidden");
    assert_eq!(read_visible("a**羽**b", 0, 9, &hidden), "a羽**b");
    assert_eq!(read_visible("a**羽**b", 2, 6, &hidden), "羽");
    for bad in [vec![range(1, 1)], vec![range(2, 4), range(1, 3)], vec![range(3, 4)]] {
        assert!(HiddenRanges::new("a**羽**b", bad).is_none());
    }
}

#[test]
fn a_transient_text_covers_source_without_changing_it() {
    let text = visual("a**b**c", vec![range(1, 3), range(4, 6)])
        .with_composition(range(3, 4), "羽毛", range(3, 6))
        .expect("composition");
    assert_eq!(text.text(), "a羽毛c");
    assert_eq!(text.composition_text(), Some("羽毛"));
    assert_eq!(text.composition_range(), Some(range(3, 4)));
    let place = |start: u64, end: u64| VisualRange {
        start: VisualOffset::new(start),
        end: VisualOffset::new(end),
    };
    assert_eq!(text.composition_visual(), Some(place(1, 7)));
    assert_eq!(text.composition_selection_visual(), Some(place(4, 7)));
    assert_eq!(text.composition_selection_bytes(), Some(range(3, 6)));
    assert_eq!(text.source_to_visual(at(7), Bias::After), Ok(VisualOffset::new(8)));
    assert_eq!(text.source.as_str(), "a**b**c");
    let plain = || visual("abc", Vec::new());
    assert_eq!(
        plain().with_composition(range(1, 9), "x", range(0, 0)).map(|_| ()),
        Err(VisualTextError::CompositionOutsideRange {
            range: range(1, 9),
            visual: range(0, 3)
        })
    );
    assert_eq!(
        plain().with_composition(range(1, 2), "x", range(0, 2)).map(|_| ()),
        Err(VisualTextError::CompositionSelectionOutOfBounds {
            range: range(0, 2),
            text_len: at(1)
        })
    );
    assert_eq!(
        plain().with_composition(range(1, 2), "羽", range(0, 1)).map(|_| ()),
        Err(VisualTextError::CompositionSelectionNotUtf8Boundary { offset: at(1) })
    );
    let twice = plain()
        .with_composition(range(1, 2), "x", range(0, 1))
        .expect("first")
        .with_composition(range(1, 2), "y", range(0, 1));
    assert_eq!(twice.map(|_| ()), Err(VisualTextError::CompositionAlreadyActive));
}

#[test]
fn edits_elsewhere_move_a_projection_as_a_whole() {
    let mut buffer = TextBuffer::new("abcdef".to_owned());
    let applied = buffer
        .apply(&Transaction::new(
            buffer.revision(),
            vec![Edit::replace(0, 1, "xyz".to_owned())],
        ))
        .expect("edit");
    assert_eq!(shift_for(range(2, 4), &applied.changes), Ok(Some(2)));
    assert_eq!(shift_for(range(1, 4), &applied.changes), Ok(None));
    let text = visual("abcdef", Vec::new());
    assert_eq!(text.shift_through(&applied.changes), Ok(None));
    let later = VisualText::new(
        "abcdef",
        Revision::new(9),
        range(0, 6),
        HiddenRanges::new("abcdef", Vec::new()).expect("hidden"),
    )
    .expect("text");
    assert_eq!(
        later.shift_through(&applied.changes),
        Err(VisualTextError::Source(SourceError::StaleRevision))
    );
    let unreadable = VisualText::new(
        "羽",
        Revision::new(0),
        range(1, 3),
        HiddenRanges::new("羽", Vec::new()).expect("hidden"),
    );
    assert_eq!(
        unreadable.map(|_| ()),
        Err(VisualTextError::Source(SourceError::Position(
            TextPositionError::NotCharBoundary { offset: at(1) }
        )))
    );
}

#[test]
fn an_image_is_rewritten_in_place_or_refused() {
    assert_eq!(markdown_literal("a*b"), "a\\*b");
    assert_eq!(markdown_destination("a b(1).png"), "a%20b\\(1\\).png");
    let source = "![x](a.png)";
    let parts = ImageParts {
        source: SourceSpan::new(0, 11),
        label: SourceSpan::new(2, 3),
        destination: Some(SourceSpan::new(5, 10)),
    };
    assert!(parts.is_valid(source));
    assert!(!parts.is_valid("![x]"));
    let properties = |destination: &str, alternative: &str| ImageProperties {
        revision: Revision::new(0),
        source: range(0, 11),
        destination: destination.to_owned(),
        alternative: alternative.to_owned(),
        width: None,
        height: None,
        html: false,
    };
    let current = properties("a.png", "x");
    let title = ImageTitle { plain: Some("a \"t\""), escaped: Some("a &quot;t&quot;") };
    let update = |composing: bool, now: Option<&ImageProperties>, desired: &ImageProperties| {
        let mut document = EditorDocument::new(source.to_owned());
        document.composing = composing;
        let changed = document.update_image_properties(now, desired, parts, title, |template| {
            assert_eq!(template, "<img title=\"a &quot;t&quot;\">");
            Some(template.replace("<img", "<img src=\"b.png\""))
        });
        (changed, document.buffer.as_str().to_owned())
    };
    let sized = ImageProperties { width: Some(40), ..properties("b.png", "x") };
    assert_eq!(
        update(false, Some(&current), &sized),
        (Ok(true), "<img src=\"b.png\" title=\"a &quot;t&quot;\">".to_owned())
    );
    assert_eq!(
        update(false, Some(&current), &properties("b c.png", "y")),
        (Ok(true), "![y](b%20c.png)".to_owned())
    );
    let same = source.to_owned();
    assert_eq!(
        update(false, Some(&current), &properties("a.png", "x")),
        (Ok(false), same.clone())
    );
    assert!(current.same(&properties("a.png", "x")));
    assert_eq!(
        update(false, None, &properties("b.png", "x")),
        (Err(EditorDocumentError::InvalidImageProperties), same.clone())
    );
    assert_eq!(
        update(true, Some(&current), &properties("b.png", "x")),
        (Err(EditorDocumentError::CompositionActive), same.clone())
    );
    let stale = ImageProperties { revision: Revision::new(1), ..properties("b.png", "x") };
    assert_eq!(
        update(false, Some(&current), &stale),
        (Err(EditorDocumentError::InvalidImageProperties), same)
    );
    let mut document = EditorDocument::new(source.to_owned());
    assert_eq!(
        document.update_image_properties(Some(&current), &sized, parts, title, |_| None),
        Err(EditorDocumentError::InvalidImageProperties)
    );
    let nowhere = SourceSpan::new(90, 99);
    let lost = ImageParts { source: nowhere, label: nowhere, destination: None };
    assert!(!lost.is_valid(source));
    let far = ImageProperties { source: range(90, 99), ..properties("b.png", "x") };
    for (now, desired) in [(None, &far), (Some(&current), &stale), (None, &stale)] {
        assert_eq!(
            document.update_image_properties(now, desired, lost, title, |_| None),
            Err(EditorDocumentError::InvalidImageProperties)
        );
    }
    let unchanged = properties("a.png", "x");
    assert_eq!(
        document.update_image_properties(Some(&current), &unchanged, lost, title, |_| None),
        Ok(false)
    );
    assert_eq!(document.buffer.as_str(), source);
    assert_eq!(image_template(source, parts, true, None), source);
    assert_eq!(image_template(source, parts, false, None), "<img>");
}

#[test]
fn selections_are_checked_against_the_text() {
    let text = "羽x";
    assert_eq!(
        EditorSelection::cursor(text, at(1), CaretAffinity::Upstream),
        Err(SelectionError::InvalidRange)
    );
    let backward =
        EditorSelection::range(text, at(4), at(0), CaretAffinity::Upstream).expect("range");
    assert_eq!(backward.ordered_range(), range(0, 4));
    assert!(!backward.is_empty());
    assert_eq!(projection_bias(CaretAffinity::Upstream), Bias::Before);
    assert_eq!(projection_bias(CaretAffinity::Downstream), Bias::After);
    assert!(Selections::new(text, Vec::new(), 0).is_err());
    assert!(Selections::new(text, vec![backward], 1).is_err());
    let one = Selections::new(text, vec![backward], 0).expect("selection");
    assert!(one.with_table_slots(2, vec![Some(0)]).is_err());
    let one = Selections::new(text, vec![backward], 0).expect("selection");
    assert!(one.with_table_slots(1, vec![Some(1)]).is_err());
    let one = Selections::new(text, vec![backward], 0).expect("selection");
    assert!(one.with_table_slots(1, vec![None]).is_err());
}
