//! The outline and search panels, and the table of contents.
use yu_editor::document::error::EditorDocumentError;
use yu_editor::edit::TextBuffer;
use yu_editor::hidden::HiddenRanges;
use yu_editor::offset::{ByteOffset, Revision, TextRange};
use yu_editor::outline::{Heading, OutlineBlock, OutlineSnapshot};
use yu_editor::panel::{
    context_range, fold_lines, visible_source, OutlineTree, PanelBlock, PanelError, SearchResults,
    TextPositionError,
};
use yu_editor::search::SearchState;
use yu_editor::toc::{TocCache, TocHeading, TocProjection};
use yu_editor::visual::{SourceError, VisualOffset, VisualTextError};

fn range(start: u64, end: u64) -> TextRange {
    TextRange::new(ByteOffset::new(start), ByteOffset::new(end)).expect("ordered")
}

fn buffer(text: &str) -> TextBuffer {
    TextBuffer::new(text.to_owned())
}

#[test]
fn folding_a_single_line_changes_nothing() {
    assert_eq!(fold_lines("  留着首尾空白  "), "  留着首尾空白  ");
}

#[test]
fn folding_joins_lines_with_one_space() {
    assert_eq!(fold_lines("多行\n标题"), "多行 标题");
    assert_eq!(fold_lines("多行 \n\n 标题\n"), "多行 标题");
}

#[test]
fn folding_covers_the_other_unicode_line_breaks() {
    assert_eq!(fold_lines("a\u{2028}b\u{85}c"), "a b c");
}

#[test]
fn folding_blank_lines_leaves_nothing() {
    assert_eq!(fold_lines(" \n\r\n\u{3000}\u{2029}"), "");
    assert_eq!(fold_lines("a\u{0B}b\u{0C}c\rd"), "a b c d");
    assert_eq!(fold_lines(""), "");
}

#[test]
fn context_is_the_line_that_holds_the_hit() {
    let snapshot = buffer("第一行\n第二行\n第三行\n");
    assert_eq!(
        context_range(&snapshot, range(10, 13), range(0, 30)).expect("in bounds"),
        range(10, 20)
    );
}

#[test]
fn context_is_clipped_into_the_block() {
    let snapshot = buffer("abcdefghij");
    assert_eq!(
        context_range(&snapshot, range(4, 6), range(3, 7)).expect("in bounds"),
        range(3, 7)
    );
}

#[test]
fn a_block_disjoint_from_the_line_yields_an_empty_context() {
    let snapshot = buffer("abc\ndef\n");
    let context = context_range(&snapshot, range(0, 1), range(4, 8)).expect("in bounds");
    assert!(context.is_empty());
}

#[test]
fn a_hit_outside_the_text_has_no_context() {
    let snapshot = buffer("羽");
    assert_eq!(
        context_range(&snapshot, range(1, 3), range(0, 3)),
        Err(PanelError::Position(TextPositionError::NotCharBoundary {
            offset: ByteOffset::new(1)
        }))
    );
    assert_eq!(
        context_range(&snapshot, range(9, 9), range(0, 3)),
        Err(PanelError::Position(TextPositionError::OutOfBounds { offset: ByteOffset::new(9) }))
    );
    assert_eq!(context_range(&snapshot, range(3, 3), range(0, 3)), Ok(range(0, 3)));
}

/// The headings of a text whose lines start with `#`, one block for each line.
fn headings(text: &str) -> (Vec<OutlineBlock>, Vec<PanelBlock>) {
    let mut outline = Vec::new();
    let mut panel = Vec::new();
    let mut at = 0;
    for line in text.split_inclusive('\n') {
        let end = at + line.len() as u64;
        let level = line.chars().take_while(|c| *c == '#').count() as u64;
        let start = at + level + u64::from(level > 0);
        let body = range(start, start.max(at + line.trim_end().len() as u64));
        outline.push(OutlineBlock {
            range: range(at, end),
            heading: (level > 0).then_some(Heading { level: level as u8, label_range: body }),
        });
        let hidden: Vec<TextRange> = line
            .match_indices("**")
            .map(|(i, _)| range(at + i as u64, at + i as u64 + 2))
            .collect();
        panel.push(PanelBlock {
            range: range(at, end),
            hidden: HiddenRanges::new(text, hidden).expect("hidden"),
        });
        at = end;
    }
    (outline, panel)
}

const OUTLINE: &str = "### c\n# A\ntext\n### deep\n## b\n## b\n# **A**\n";

#[test]
fn headings_hang_under_the_nearest_smaller_level() {
    let (blocks, _) = headings(OUTLINE);
    let outline = OutlineSnapshot::from_document(Revision::new(4), &blocks);
    assert_eq!(outline.revision().get(), 4);
    assert_eq!(outline.len(), 6);
    let parents: Vec<Option<usize>> = outline.items().iter().map(|item| item.parent()).collect();
    assert_eq!(parents, [None, None, Some(1), Some(1), Some(1), None]);
    let levels: Vec<u8> = outline.items().iter().map(|item| item.level()).collect();
    assert_eq!(levels, [3, 1, 3, 2, 2, 1]);
    assert_eq!(outline.item(2).expect("item").block(), 3);
    assert_eq!(outline.item(2).expect("item").index(), 2);
    assert!(outline.item(6).is_none());
    assert!(OutlineSnapshot::from_document(Revision::new(0), &[]).is_empty());
}

#[test]
fn rows_have_visible_labels_distinct_identities_and_child_counts() {
    let (blocks, panel) = headings(OUTLINE);
    let snapshot = buffer(OUTLINE);
    let outline = OutlineSnapshot::from_document(snapshot.revision(), &blocks);
    let tree = OutlineTree::build(&snapshot, &outline, &panel).expect("tree");
    let labels: Vec<&str> = tree.rows().iter().map(|row| row.label()).collect();
    assert_eq!(labels, ["c", "A", "deep", "b", "b", "A"]);
    let counts: Vec<usize> = tree.rows().iter().map(|row| row.child_count()).collect();
    assert_eq!(counts, [0, 3, 0, 0, 0, 0]);
    let identities: Vec<&str> = tree.rows().iter().map(|row| row.identity()).collect();
    assert_eq!(identities[0], "\u{1F}c\u{1F}0");
    assert_eq!(identities[1], "\u{1F}A\u{1F}0");
    assert_eq!(identities[4], "\u{1F}A\u{1F}0\u{1F}b\u{1F}1");
    assert_eq!(identities[5], "\u{1F}A\u{1F}1");
    for i in 0..identities.len() {
        for j in 0..i {
            assert_ne!(identities[i], identities[j]);
        }
    }
    assert_eq!(
        OutlineTree::build(&snapshot, &outline, &panel[..2]).expect_err("block missing"),
        PanelError::Document(EditorDocumentError::BlockOutOfBounds { index: 3, blocks: 2 })
    );
}

#[test]
fn a_heading_before_does_not_change_identities() {
    let longer = format!("# first\n{OUTLINE}");
    let identities = |text: &str| {
        let (blocks, panel) = headings(text);
        let snapshot = buffer(text);
        let outline = OutlineSnapshot::from_document(snapshot.revision(), &blocks);
        let tree = OutlineTree::build(&snapshot, &outline, &panel).expect("tree");
        tree.rows().iter().map(|row| row.identity().to_owned()).collect::<Vec<_>>()
    };
    assert_eq!(identities(&longer)[2..], identities(OUTLINE)[1..]);
}

#[test]
fn every_match_is_a_row_with_its_line() {
    let text = "one **two**\n  two\n";
    let (_, panel) = headings(text);
    let snapshot = buffer(text);
    let search = SearchState::new(&snapshot, "two".to_owned());
    let results = SearchResults::build(&snapshot, Some(&search), &[Some(0), Some(1)], &panel)
        .expect("results");
    let labels: Vec<&str> = results.rows().iter().map(|row| row.label()).collect();
    assert_eq!(labels, ["one two", "two"]);
    assert_eq!(results.rows()[0].hit(), range(6, 9));
    assert_eq!(results.rows()[1].context(), range(12, 18));
    assert_eq!(results.rows()[1].block_range(), range(12, 18));
    assert_eq!(results.rows()[1].block(), 1);
    assert!(SearchResults::build(&snapshot, None, &[], &panel).expect("none").rows().is_empty());
    for owners in [vec![Some(0)], vec![Some(0), None], vec![Some(0), Some(7)]] {
        assert_eq!(
            SearchResults::build(&snapshot, Some(&search), &owners, &panel).expect_err("orphan"),
            PanelError::OrphanMatch(range(14, 17))
        );
    }
}

fn contents(text: &str) -> (TextBuffer, Vec<TocHeading>, Vec<PanelBlock>) {
    let (blocks, panel) = headings(text);
    let outline = OutlineSnapshot::from_document(Revision::new(0), &blocks);
    let list = outline
        .items()
        .iter()
        .map(|item| TocHeading {
            block: item.block(),
            parent: item.parent(),
            label: item.label_range(),
        })
        .collect();
    (buffer(text), list, panel)
}

#[test]
fn the_table_of_contents_indents_and_links_headings() {
    let (snapshot, list, panel) = contents("# 羽**毛**\n## b\n### \n# c\n");
    let table = TocProjection::build(&snapshot, &list, &panel).expect("table");
    assert_eq!(table.text, "羽毛\n  b\n    未命名标题\nc");
    assert_eq!(table.links.len(), 4);
    for link in &table.links {
        for at in [link.start, link.end - 1] {
            assert_eq!(table.target_at(at), Some(link.target));
        }
    }
    assert_eq!(table.target_at(6), None);
    assert_eq!(table.target_at(8), None);
    assert_eq!(table.target_at(table.text.len()), None);
    let marker = range(0, 1);
    let base = VisualOffset::new(10);
    let hit = |revision: u64, source: Option<TextRange>, at: u64| {
        table.target_for_hit(
            marker,
            Revision::new(revision),
            base,
            source,
            Some(VisualOffset::new(at)),
        )
    };
    assert_eq!(hit(0, Some(marker), 10), Some(list[0].label));
    assert_eq!(hit(1, Some(marker), 10), None);
    assert_eq!(hit(0, Some(range(0, 2)), 10), None);
    assert_eq!(hit(0, None, 10), None);
    assert_eq!(hit(0, Some(marker), 9), None);
    assert_eq!(
        table.target_for_hit(marker, Revision::new(0), base, Some(marker), None),
        None
    );
}

#[test]
fn a_table_of_contents_is_made_once_for_a_revision() {
    let (snapshot, list, panel) = contents("# a\n");
    let mut cache = TocCache::new();
    assert_eq!(cache.get(&snapshot, &list, &panel).expect("table").text, "a");
    assert_eq!(cache.get(&snapshot, &[], &panel).expect("kept").text, "a");
    cache.bind(Revision::new(1));
    assert!(cache.value.is_none());
    assert_eq!(cache.get(&snapshot, &[], &panel).expect("empty").text, "暂无标题");
    let broken = [TocHeading { block: 5, parent: None, label: range(0, 1) }];
    cache.bind(Revision::new(1));
    assert!(cache.get(&snapshot, &broken, &panel).is_err());
    assert!(cache.get(&snapshot, &list, &panel).is_err());
}

#[test]
fn folding_again_changes_nothing() {
    for text in ["", " a ", "a \n\n b\r\nc\u{2029}", "\n \n", "\u{85}羽\u{0B}"] {
        let folded = fold_lines(text);
        assert_eq!(fold_lines(&folded), folded);
        let inked = |text: &str| text.chars().filter(|c| !c.is_whitespace()).collect::<String>();
        assert_eq!(inked(&folded), inked(text));
    }
}

#[test]
fn source_is_read_up_to_its_end_and_from_whole_characters() {
    let text = "羽**b**";
    let hidden = HiddenRanges::new(text, vec![range(0, 3), range(3, 5)]).expect("hidden");
    let shown = HiddenRanges::new(text, Vec::new()).expect("hidden");
    let blocks = [
        PanelBlock { range: range(0, 8), hidden },
        PanelBlock { range: range(0, 8), hidden: shown },
    ];
    let read = |block: usize, from: u64, to: u64| {
        visible_source(text, &blocks, block, range(from, to))
    };
    assert_eq!(read(1, 3, 99), Ok("**b**".to_owned()));
    assert_eq!(read(0, 0, 99), Ok("b**".to_owned()));
    assert_eq!(read(0, 1, 6), Ok("b".to_owned()));
    assert_eq!(read(0, 0, 2), Ok(String::new()));
    let unreadable = |error: TextPositionError| {
        Err(PanelError::Visual(VisualTextError::Source(SourceError::Position(error))))
    };
    assert_eq!(
        read(1, 1, 3),
        unreadable(TextPositionError::NotCharBoundary { offset: ByteOffset::new(1) })
    );
    assert_eq!(
        read(1, 9, 9),
        unreadable(TextPositionError::OutOfBounds { offset: ByteOffset::new(9) })
    );
    assert_eq!(
        read(2, 0, 1),
        Err(PanelError::Document(EditorDocumentError::BlockOutOfBounds { index: 2, blocks: 2 }))
    );
}
