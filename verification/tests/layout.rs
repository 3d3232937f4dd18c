//! Caches of projections and layouts, and the heights of blocks.
use yu_editor::block::{BlockKey, BlockKind};
use yu_editor::document::error::EditorDocumentError;
use yu_editor::document::layout_context::{
    block_index_for_source, transient_blocks, BackgroundRun, BackgroundStep, BlockLayout,
    LayoutStamp, MeasureAction, VisibleMeasure, VisualRoute, BACKGROUND_LIMIT,
};
use yu_editor::document::layout_snapshot::SnapshotPlace;
use yu_editor::document::layout_state::{
    resize_of_block, Heights, LayoutQuery, LayoutState, Preparation, PublishedLayout, QueryFacts,
    WidthGeometry,
};
use yu_editor::document::table_widths::{
    SavedTableWidths, TableAnchor, TableWidths, WidthHistory,
};
use yu_editor::edit::{Edit, TextBuffer, Transaction};
use yu_editor::layout::{
    BaseDirection, BlockContext, BlockLayoutSource, LayoutBackend, LayoutCache, LayoutContent,
    LayoutKey, LayoutSettings, MadeLayout, RemappedLayout, MAX_ENTRIES,
};
use yu_editor::offset::{ByteOffset, Revision, TextRange};
use yu_editor::panel::TextPositionError;
use yu_editor::projection::{ProjectionCache, Remapped};
use yu_editor::table::{Pointer, TableResizeGesture, TableResizeTarget};
use yu_editor::viewport::{ViewportError, ViewportLayout, ViewportRange};
use yu_editor::visual::{VisualOffset, VisualRange};

fn range(start: u64, end: u64) -> TextRange {
    TextRange::new(ByteOffset::new(start), ByteOffset::new(end)).expect("ordered")
}

fn block(start: u64, end: u64) -> BlockKey {
    BlockKey { range: range(start, end), kind: BlockKind::Paragraph }
}

#[test]
fn a_projection_is_made_once_for_a_revision_and_key() {
    let mut cache: ProjectionCache<&str> = ProjectionCache::new();
    let now = Revision::new(1);
    let made = |text: &'static str| move || Ok::<&str, ()>(text);
    assert_eq!(cache.get_or_build(now, range(0, 4), made("a")), Ok(&"a"));
    assert_eq!(cache.get_or_build(now, range(0, 4), made("b")), Ok(&"a"));
    assert_eq!(cache.get_or_build_block(now, block(0, 4), made("c")), Ok(&"c"));
    let stats = cache.stats();
    assert_eq!((stats.entries(), stats.builds(), stats.hits()), (2, 2, 1));
    assert_eq!(cache.revision(), Some(now));
    assert_eq!(cache.get_or_build(now, range(5, 6), || Err::<&str, u8>(7)), Err(7));
    assert_eq!(cache.stats().entries(), 2);
    let next = Revision::new(2);
    assert_eq!(cache.get_or_build(next, range(0, 4), made("d")), Ok(&"d"));
    let stats = cache.stats();
    assert_eq!((stats.entries(), stats.invalidated()), (1, 2));
}

#[test]
fn projections_follow_edits_or_go() {
    let mut cache: ProjectionCache<u32> = ProjectionCache::new();
    let now = Revision::new(1);
    for (index, key) in [block(0, 4), block(4, 8), block(8, 12)].into_iter().enumerate() {
        cache.get_or_build_block(now, key, || Ok::<u32, ()>(index as u32)).expect("made");
    }
    let next = Revision::new(2);
    let failed = cache.map_through(next, |entry| {
        if entry.projection == 1 {
            Err("no")
        } else {
            Ok(None)
        }
    });
    assert_eq!(failed, Err("no"));
    assert_eq!(cache.stats().entries(), 3);
    cache
        .map_through(next, |entry| {
            Ok::<_, ()>(match entry.projection {
                0 => Some(Remapped { range: range(0, 4), projection: 10 }),
                1 => None,
                _ => Some(Remapped { range: range(9, 13), projection: 12 }),
            })
        })
        .expect("mapped");
    let stats = cache.stats();
    assert_eq!((stats.entries(), stats.remapped(), stats.invalidated()), (2, 2, 1));
    assert_eq!(cache.get_or_build_block(next, block(9, 13), || Err::<u32, ()>(())), Ok(&12));
    cache.retain_blocks(&[block(0, 4)]);
    assert_eq!(cache.stats().entries(), 1);
    cache.clear();
    assert_eq!(cache.stats().entries(), 0);
    assert_eq!(cache.stats().invalidated(), 3);
    assert_eq!(cache.revision(), None);
}

const SETTINGS: LayoutSettings = LayoutSettings {
    max_width: 400,
    line_height: 16,
    default_advance: 8,
    direction: BaseDirection::Auto,
    theme: 0,
};

fn key(start: u64, backend: LayoutBackend) -> LayoutKey {
    LayoutKey::new(block(start, start + 1), SETTINGS, backend, 0)
}

fn content(text: &str) -> LayoutContent {
    LayoutContent {
        text: text.to_owned(),
        composition_range: None,
        composition_visual: None,
        decorations: 0,
    }
}

fn made(view: u32, geometry: usize) -> Result<MadeLayout<u32>, ()> {
    Ok(MadeLayout { pending: Vec::new(), geometry, view })
}

#[test]
fn a_layout_is_found_by_key_and_content() {
    let mut cache: LayoutCache<u32> = LayoutCache::new();
    let now = Revision::new(0);
    let text = content("text");
    let source = BlockLayoutSource::new(&text, None, &[]);
    let plain = key(0, LayoutBackend::default());
    let shaped = key(0, LayoutBackend::Shaped);
    let place = cache.get_or_build_block(now, plain, source, || made(1, 3)).expect("made");
    assert_eq!(cache.entries[place].made.view, 1);
    cache.get_or_build_block(now, shaped, source, || made(2, 3)).expect("made");
    let place = cache.get_or_build_block(now, plain, source, || made(9, 3)).expect("kept");
    assert_eq!(cache.entries[place].made.view, 1);
    assert_eq!(place, 1);
    let stats = cache.stats();
    assert_eq!((stats.entries(), stats.builds(), stats.hits()), (2, 2, 1));
    let other = content("other");
    let changed = BlockLayoutSource::new(&other, None, &[]);
    let place = cache.get_or_build_block(now, plain, changed, || made(3, 3)).expect("made");
    assert_eq!(cache.entries[place].made.view, 3);
    assert_eq!(cache.stats().entries(), 2);
    let failed = cache.get_or_build_block(now, key(5, LayoutBackend::Shaped), source, || Err(4));
    assert_eq!(failed, Err(4));
    assert_eq!(cache.stats().entries(), 2);
}

#[test]
fn a_layout_for_the_moment_is_not_kept() {
    let now = Revision::new(0);
    let text = content("text");
    let source = BlockLayoutSource::new(&text, None, &[]);
    let mut cache: LayoutCache<u32> = LayoutCache::new();
    let plain = key(0, LayoutBackend::Metrics);
    for route in [VisualRoute::Composition, VisualRoute::Reveal] {
        match cache.layout_for_visual_state(route, now, plain, source, || made(7, 3)) {
            Ok(BlockLayout::Transient(layout)) => assert_eq!(layout.view, 7),
            other => panic!("{other:?}"),
        }
        let failed = cache.layout_for_visual_state(route, now, plain, source, || Err(4));
        assert!(matches!(failed, Err(4)));
        assert_eq!((cache.stats().entries(), cache.stats().builds()), (0, 0));
    }
    for (route, backend, entries) in [
        (VisualRoute::Canonical, LayoutBackend::Metrics, 1),
        (VisualRoute::Composition, LayoutBackend::Shaped, 2),
    ] {
        match cache.layout_for_visual_state(route, now, key(0, backend), source, || made(8, 3)) {
            Ok(BlockLayout::Kept(place)) => assert_eq!(cache.entries[place].made.view, 8),
            other => panic!("{other:?}"),
        }
        assert_eq!(cache.stats().entries(), entries);
    }
}

#[test]
fn an_image_that_became_known_has_its_layout_made_again() {
    let mut cache: LayoutCache<u32> = LayoutCache::new();
    let now = Revision::new(0);
    let text = content("text");
    let pending = || {
        Ok::<_, ()>(MadeLayout { pending: vec![range(2, 3)], geometry: 1, view: 1 })
    };
    let blank = BlockLayoutSource::new(&text, None, &[]);
    let k = key(0, LayoutBackend::Shaped);
    cache.get_or_build_block(now, k, blank, pending).expect("made");
    let unrelated = [range(7, 8)];
    let source = BlockLayoutSource::new(&text, None, &unrelated);
    let place = cache.get_or_build_block(now, k, source, || made(2, 1)).expect("kept");
    assert_eq!(cache.entries[place].made.view, 1);
    let known = [range(7, 8), range(2, 3)];
    let source = BlockLayoutSource::new(&text, None, &known);
    let place = cache.get_or_build_block(now, k, source, || made(3, 1)).expect("made");
    assert_eq!(cache.entries[place].made.view, 3);
    assert_eq!(cache.stats().invalidated(), 1);
    let caret = VisualRange { start: VisualOffset::new(1), end: VisualOffset::new(1) };
    let source = BlockLayoutSource::new(&text, Some(caret), &[]);
    let place = cache.get_or_build_block(now, k, source, || made(4, 1)).expect("kept");
    assert_eq!(cache.entries[place].selection, Some(caret));
    assert_eq!(cache.entries[place].made.view, 3);
}

#[test]
fn the_oldest_layouts_leave_a_full_cache() {
    let mut cache: LayoutCache<u32> = LayoutCache::new();
    let now = Revision::new(0);
    let text = content("");
    let source = BlockLayoutSource::new(&text, None, &[]);
    for index in 0..300_u64 {
        cache
            .get_or_build_block(now, key(index, LayoutBackend::Shaped), source, || made(1, 1))
            .expect("made");
        assert!(cache.stats().entries() <= MAX_ENTRIES);
    }
    assert_eq!(cache.stats().entries(), MAX_ENTRIES);
    assert_eq!(cache.stats().evicted(), 44);
    assert_eq!(cache.entries[0].key, key(44, LayoutBackend::Shaped));
    cache
        .get_or_build_block(now, key(900, LayoutBackend::Shaped), source, || made(1, 40_000))
        .expect("made");
    assert_eq!(cache.stats().entries(), 1);
    cache
        .get_or_build_block(now, key(901, LayoutBackend::Shaped), source, || made(1, 32_768))
        .expect("made");
    assert_eq!(cache.stats().entries(), 1);
    let long = content(&"x".repeat(262_144));
    let source = BlockLayoutSource::new(&long, None, &[]);
    cache
        .get_or_build_block(now, key(902, LayoutBackend::Shaped), source, || made(1, 0))
        .expect("made");
    assert_eq!(cache.stats().entries(), 2);
}

#[test]
fn layouts_are_adopted_carried_and_dropped() {
    let now = Revision::new(0);
    let text = content("");
    let source = BlockLayoutSource::new(&text, None, &[]);
    let mut ours: LayoutCache<u32> = LayoutCache::new();
    let mut theirs: LayoutCache<u32> = LayoutCache::new();
    for index in 0..3_u64 {
        ours.get_or_build_block(now, key(index, LayoutBackend::Shaped), source, || made(1, 1))
            .expect("made");
    }
    theirs
        .get_or_build_block(now, key(1, LayoutBackend::Shaped), source, || made(2, 1))
        .expect("made");
    ours.adopt_snapshot(theirs);
    let views: Vec<u32> = ours.entries.iter().map(|entry| entry.made.view).collect();
    assert_eq!(views, [1, 1, 2]);
    assert_eq!(ours.stats().builds(), 3);
    let next = Revision::new(1);
    ours.map_through(next, |entry| {
        Ok::<_, ()>(if entry.key.block.range.start().get() == 0 {
            None
        } else {
            Some(RemappedLayout {
                range: range(8, 9),
                content: content("moved"),
                selection: None,
                made: MadeLayout { pending: Vec::new(), geometry: 1, view: 5 },
            })
        })
    })
    .expect("mapped");
    assert_eq!(ours.stats().entries(), 2);
    assert_eq!(ours.revision(), Some(next));
    assert_eq!(ours.entries[0].key.block, block(8, 9));
    ours.retain_blocks(&[BlockContext { block: block(8, 9), context_key: 3 }]);
    assert_eq!(ours.stats().entries(), 0);
    ours.clear();
    assert_eq!(ours.stats().invalidated(), 3);
    assert_eq!(ours.stats().remapped(), 2);
}

#[test]
fn measured_heights_stay_with_their_blocks() {
    let mut layout = ViewportLayout::new(10);
    let now = Revision::new(0);
    let blocks = [block(0, 4), block(4, 8), block(8, 12)];
    layout.sync(now, &blocks);
    assert_eq!(layout.set_block_height(1, 33), Ok(true));
    assert_eq!(layout.set_block_height(1, 33), Ok(false));
    assert_eq!(
        layout.set_block_height(3, 1),
        Err(ViewportError::OutOfBounds { index: 3, len: 3 })
    );
    for height in [-1.0_f32, f32::NAN, f32::INFINITY, f32::NEG_INFINITY, -f32::NAN] {
        let bits = height.to_bits();
        for index in [1, 3] {
            assert_eq!(
                layout.set_block_height(index, bits),
                Err(ViewportError::InvalidHeight(bits))
            );
        }
    }
    assert_eq!(layout.entries[1].height, 33);
    assert_eq!(layout.set_block_height(1, f32::MAX.to_bits()), Ok(true));
    assert_eq!(layout.set_block_height(1, 0.0_f32.to_bits()), Ok(true));
    assert_eq!(layout.set_block_height(1, (-0.0_f32).to_bits()), Ok(false));
    assert_eq!(layout.set_block_height(1, 0.0_f32.to_bits()), Ok(false));
    assert_eq!(layout.set_block_height(1, 33), Ok(true));
    let stats = layout.stats();
    assert_eq!((stats.entries(), stats.measured()), (3, 1));
    layout.sync(now, &[block(4, 8), block(20, 24)]);
    assert_eq!(layout.entries[0].height, 33);
    assert!(layout.entries[0].measured);
    assert_eq!(layout.entries[1].height, 10);
    assert_eq!(layout.stats().invalidated(), 2);
    layout.set_backend(LayoutBackend::Shaped);
    assert_eq!(layout.stats().measured(), 0);
    assert_eq!(layout.backend(), LayoutBackend::Shaped);
    layout.clear();
    assert_eq!(layout.revision(), None);
    assert_eq!(layout.stats().invalidated(), 4);
}

#[test]
fn an_edit_gives_up_the_heights_it_meets_and_moves_the_others() {
    let mut buffer = TextBuffer::new("aaaabbbbccccdddd".to_owned());
    let mut layout = ViewportLayout::new(10);
    let blocks = [block(0, 4), block(4, 8), block(8, 12), block(12, 16)];
    layout.sync(buffer.revision(), &blocks);
    for index in 0..4 {
        layout.set_block_height(index, 20 + index as u32).expect("height");
    }
    let applied = buffer
        .apply(&Transaction::new(
            buffer.revision(),
            vec![Edit::replace(9, 10, "xyz".to_owned())],
        ))
        .expect("edit");
    let after = buffer.revision();
    let next = [block(0, 4), block(4, 8), block(8, 14), block(14, 18)];
    assert_eq!(
        layout.map_through(&applied.changes, Revision::new(7), after, &next),
        Err(ViewportError::RevisionMismatch { expected: after, actual: Revision::new(7) })
    );
    layout.map_through(&applied.changes, after, after, &next).expect("mapped");
    let heights: Vec<(u32, bool)> =
        layout.entries.iter().map(|entry| (entry.height, entry.measured)).collect();
    assert_eq!(heights, [(20, true), (21, true), (10, false), (23, true)]);
    assert_eq!(layout.stats().remapped(), 3);
    assert_eq!(
        layout.map_through(&applied.changes, after, after, &next),
        Err(ViewportError::RevisionMismatch { expected: Revision::new(0), actual: after })
    );
}

#[test]
fn visible_blocks_are_those_between_top_and_bottom() {
    let mut layout = ViewportLayout::new(10);
    let now = Revision::new(0);
    let empty = layout.visible_range(Some(3), Some(4));
    assert!(empty.is_empty());
    let blocks = [block(0, 4), block(4, 8), block(8, 12)];
    layout.sync(now, &blocks);
    let visible = layout.visible_range(Some(1), Some(9));
    assert_eq!((visible.start(), visible.end(), visible.len()), (1, 3, 2));
    let first = layout.visible_range(None, None);
    assert_eq!((first.start(), first.end()), (0, 1));
    assert_eq!(ViewportRange::new(2, 1), None);
    let shown = layout.snapshot(now, &blocks, visible).expect("snapshot");
    assert_eq!(shown.blocks.len(), 2);
    assert_eq!(shown.blocks[0].index, 1);
    assert_eq!(shown.blocks[0].block, block(4, 8));
    assert_eq!(
        layout.snapshot(Revision::new(5), &blocks, visible).expect_err("revision"),
        ViewportError::RevisionMismatch { expected: Revision::new(5), actual: now }
    );
    assert_eq!(
        layout.snapshot(now, &blocks[..2], visible).expect_err("bounds"),
        ViewportError::OutOfBounds { index: 3, len: 2 }
    );
}

fn blocks(start: usize, end: usize) -> ViewportRange {
    ViewportRange::new(start, end).expect("ordered")
}

#[test]
fn measuring_goes_on_until_the_visible_range_stays() {
    let mut layout = ViewportLayout::new(10);
    let keys: Vec<BlockKey> = (0..6).map(|at| block(at, at + 1)).collect();
    layout.sync(Revision::new(1), &keys);
    let mut work = VisibleMeasure::new(blocks(1, 3), Some(blocks(0, 2)));
    let mut asked = Vec::new();
    let mut located = 0;
    let shown = loop {
        match work.action(false).expect("goes on") {
            MeasureAction::Measure(index) => {
                asked.push(index);
                work.measured(&mut layout, 4).expect("block");
            }
            MeasureAction::Locate => {
                located += 1;
                work.located(blocks(1, 5));
            }
            MeasureAction::Finish(range) => break range,
        }
    };
    assert_eq!(asked, [0, 1, 2, 0, 1, 2, 3, 4]);
    assert_eq!(located, 2);
    assert_eq!(shown, blocks(1, 5));
    assert_eq!(layout.stats().measured(), 5);
}

#[test]
fn measuring_ends_though_the_range_keeps_moving() {
    let mut layout = ViewportLayout::new(10);
    let keys: Vec<BlockKey> = (0..2).map(|at| block(at, at + 1)).collect();
    layout.sync(Revision::new(1), &keys);
    let mut work = VisibleMeasure::new(blocks(0, 1), None);
    let mut height = 0;
    let mut rounds = 0;
    let shown = loop {
        match work.action(false).expect("goes on") {
            MeasureAction::Measure(_) => {
                height += 1;
                work.measured(&mut layout, height).expect("block");
            }
            MeasureAction::Locate => {
                rounds += 1;
                work.located(if rounds % 2 == 1 { blocks(1, 2) } else { blocks(0, 1) });
            }
            MeasureAction::Finish(range) => break range,
        }
    };
    assert_eq!(rounds, 8);
    assert_eq!(shown, blocks(0, 1));
}

#[test]
fn measuring_can_be_cancelled_before_each_block() {
    let mut layout = ViewportLayout::new(10);
    layout.sync(Revision::new(1), &[block(0, 1)]);
    let mut work = VisibleMeasure::new(blocks(0, 2), None);
    assert_eq!(work.action(true), Err(EditorDocumentError::Cancelled));
    work.measured(&mut layout, 3).expect("block");
    assert_eq!(
        work.measured(&mut layout, 3),
        Err(ViewportError::OutOfBounds { index: 1, len: 1 })
    );
    assert_eq!(transient_blocks(true, Some(blocks(2, 4)), Some(7)), Some(blocks(2, 4)));
    assert_eq!(transient_blocks(false, None, Some(7)), Some(blocks(7, 8)));
    assert_eq!(transient_blocks(false, None, None), None);
}

fn stamp() -> LayoutStamp {
    LayoutStamp {
        document: 1,
        revision: Revision::new(4),
        config: 2,
        selections: 3,
        composition: 0,
        search: 0,
        search_generation: 5,
        resources: 6,
        geometry: 7,
    }
}

fn state() -> LayoutState<u8> {
    LayoutState {
        stamp: stamp(),
        published: None,
        decorations: ProjectionCache::new(),
        layouts: LayoutCache::new(),
        viewport: ViewportLayout::new(10),
        preferred_x: None,
    }
}

fn heights(generation: u64) -> Option<Heights> {
    Some(Heights { viewport: ViewportLayout::new(11), generation })
}

fn facts() -> QueryFacts {
    QueryFacts { cancelled: false, covered: true, stale_images: false, block: Some(2), blocks: 3 }
}

fn drag(revision: u64) -> TableResizeGesture {
    let place = |bits: u32| Pointer { bits, finite: true };
    TableResizeGesture::begin(
        Revision::new(revision),
        2,
        TableResizeTarget::Column { index: 0 },
        place(1),
        place(2),
    )
    .expect("finite")
}

#[test]
fn a_published_layout_answers_until_its_state_changes() {
    let mut kept = state();
    assert!(kept.current_layout_snapshot().is_none());
    assert_eq!(kept.prepare_layout_snapshot(&facts(), None), Ok(Preparation::Measure));
    let place = SnapshotPlace { index: 2, source: range(5, 9) };
    kept.publish(31, vec![place], None);
    assert_eq!(kept.current_layout_snapshot().expect("current").id, 31);
    assert_eq!(kept.prepare_layout_snapshot(&facts(), None), Ok(Preparation::Reuse));
    for other in [
        QueryFacts { covered: false, ..facts() },
        QueryFacts { stale_images: true, ..facts() },
    ] {
        assert_eq!(kept.prepare_layout_snapshot(&other, None), Ok(Preparation::Measure));
    }
    let cancelled = QueryFacts { cancelled: true, ..facts() };
    assert_eq!(
        kept.prepare_layout_snapshot(&cancelled, None),
        Err(EditorDocumentError::Cancelled)
    );
    assert_eq!(
        kept.prepare_layout_snapshot(&facts(), Some(drag(4))),
        Ok(Preparation::Measure)
    );
    assert_eq!(
        kept.prepare_layout_snapshot(&facts(), Some(drag(3))),
        Err(EditorDocumentError::TableResizeRevision)
    );
    assert_eq!(resize_of_block(Some(drag(4)), 2), Some(drag(4)));
    assert_eq!(resize_of_block(Some(drag(4)), 1), None);
    let ask = |kept: &LayoutState<u8>, facts: QueryFacts, at: u64| {
        let query = LayoutQuery::Source(ByteOffset::new(at));
        kept.prepare_query_layout_snapshot(query, &facts, "0123456789", None)
    };
    assert_eq!(ask(&kept, facts(), 9), Ok(Preparation::Reuse));
    assert_eq!(ask(&kept, facts(), 10), Ok(Preparation::MeasureBlock(2)));
    assert_eq!(
        ask(&kept, facts(), 11),
        Err(EditorDocumentError::Position(TextPositionError::OutOfBounds {
            offset: ByteOffset::new(11)
        }))
    );
    assert_eq!(
        ask(&kept, QueryFacts { block: None, ..facts() }, 1),
        Err(EditorDocumentError::BlockOutOfBounds { index: 0, blocks: 3 })
    );
    let shown = LayoutQuery::Viewport { scroll_y: 0, height: 0 };
    assert_eq!(
        kept.prepare_query_layout_snapshot(shown, &facts(), "", None),
        Ok(Preparation::Reuse)
    );
    kept.set_resource_geometry_version(8);
    assert!(kept.current_layout_snapshot().is_none());
    kept.set_resource_geometry_version(6);
    assert!(kept.current_layout_snapshot().is_some());
    kept.finish_background(0, 7);
    assert!(kept.current_layout_snapshot().is_some());
    kept.finish_background(1, 8);
    assert!(kept.published.is_none());
}

#[test]
fn measurements_of_another_state_are_not_taken() {
    let mut kept = state();
    kept.publish(1, Vec::new(), None);
    let stale = LayoutStamp { revision: Revision::new(3), ..stamp() };
    assert!(!kept.adopt_measurements(&stale, heights(9), LayoutCache::new()));
    assert_eq!(kept.viewport.estimate, 10);
    assert!(kept.published.is_some());
    assert!(!kept.adopt_measurements(&stamp(), None, LayoutCache::new()));
    assert!(kept.published.is_none());
    assert!(kept.adopt_measurements(&stamp(), heights(9), LayoutCache::new()));
    assert_eq!((kept.viewport.estimate, kept.stamp.geometry), (11, 9));

    let finished = |geometry: u64, resources: u64| PublishedLayout {
        id: 2,
        stamp: LayoutStamp { geometry, resources, ..stamp() },
        places: Vec::new(),
        resize: None,
    };
    assert!(!kept.adopt_layout_snapshot(finished(9, 5), heights(9), LayoutCache::new()));
    assert!(kept.adopt_layout_snapshot(finished(9, 6), heights(9), LayoutCache::new()));
    assert!(kept.current_layout_snapshot().is_some());
    assert!(kept.adopt_layout_snapshot(finished(9, 6), heights(10), LayoutCache::new()));
    assert!(kept.published.is_some());
    assert!(kept.current_layout_snapshot().is_none());

    let own = stamp();
    let take = |kept: &mut LayoutState<u8>, unmoved: &[bool]| {
        kept.integrate_layout_measurements(&own, heights(12), LayoutCache::new(), unmoved)
    };
    assert!(take(&mut kept, &[true, true]));
    assert!(!take(&mut kept, &[true, false]));
    assert_eq!(kept.stamp.geometry, 12);
}

#[test]
fn a_worker_keeps_what_it_has_for_a_newer_state() {
    let mut kept = state();
    kept.publish(1, Vec::new(), None);
    let searched = LayoutStamp { search_generation: 6, ..stamp() };
    kept.merge_into_layout_context(&searched, heights(9), LayoutCache::new());
    assert_eq!((kept.viewport.estimate, kept.stamp.geometry), (10, 7));
    let scrolled = LayoutStamp { geometry: 8, ..stamp() };
    kept.merge_into_layout_context(&scrolled, None, LayoutCache::new());
    assert!(kept.published.is_some());
    kept.merge_into_layout_context(&scrolled, heights(9), LayoutCache::new());
    assert_eq!((kept.viewport.estimate, kept.stamp.geometry), (11, 9));
    assert!(kept.published.is_none());
    kept.viewport.sync(Revision::new(4), &[block(0, 1)]);
    kept.publish(2, Vec::new(), None);
    kept.clear_layout_state(10);
    assert_eq!(kept.viewport.stats().entries(), 0);
    assert_eq!(kept.viewport.stats().invalidated(), 1);
    assert_eq!(kept.stamp.geometry, 10);
    kept.publish(3, Vec::new(), None);
    kept.invalidate_html_presentation(2, 11);
    assert!(kept.published.is_none());
    assert!(!kept.adopt_measurements(&stamp(), heights(12), LayoutCache::new()));
}

const TABLE: &str = "| H | B |\n| --- | --- |\n| one | two |\n";

/// The blocks of a text whose blocks are parted by blank lines, and a table's number.
fn measured(source: &str, height: u32) -> (LayoutState<u8>, usize) {
    let mut keys = Vec::new();
    let mut table = 0;
    let mut at = 0;
    for line in source.split_inclusive('\n') {
        let end = at + line.len() as u64;
        let kind = match line {
            "\n" => BlockKind::BlankLine,
            _ if line.starts_with('#') => BlockKind::Heading { level: 1 },
            _ => BlockKind::Paragraph,
        };
        if line.starts_with('|') {
            table = keys.len();
            let end = at + TABLE.len() as u64;
            keys.push(block(at, end));
            at = end;
            break;
        }
        keys.push(BlockKey { range: range(at, end), kind });
        at = end;
    }
    if at < source.len() as u64 {
        keys.push(block(at, source.len() as u64));
    }
    let mut kept = state();
    kept.viewport.sync(Revision::new(4), &keys);
    for index in 0..keys.len() {
        kept.viewport
            .set_block_height(index, (height as f32 + index as f32).to_bits())
            .expect("measured height");
    }
    (kept, table)
}

fn total(kept: &LayoutState<u8>) -> f32 {
    kept.viewport.entries.iter().map(|entry| f32::from_bits(entry.height)).sum()
}

fn geometry(delimiter: TextRange, revision: u64) -> WidthGeometry {
    WidthGeometry {
        revision: Revision::new(revision),
        delimiter: Some(delimiter),
        proportions: vec![0.25_f32.to_bits(), 0.75_f32.to_bits()],
        sound: true,
    }
}

#[test]
fn confirming_widths_retains_measured_prefix_and_table_height_estimate() {
    let source = format!("# Heading\n\nA paragraph before the table.\n\n{TABLE}");
    let (mut kept, table) = measured(&source, 50);
    let count = kept.viewport.stats().entries();
    let height = total(&kept);
    let start = source.find("| ---").expect("delimiter") as u64;
    let delimiter = range(start, start + 13);
    let anchor = Some(TableAnchor { delimiter: Some(delimiter), columns: 2 });
    let mut widths = TableWidths { entries: Vec::new(), generation: 0 };
    for refused in [
        kept.confirm_table_column_widths(
            &mut widths,
            table,
            count,
            anchor,
            geometry(delimiter, 3),
            2,
            8,
        ),
        kept.confirm_table_column_widths(
            &mut widths,
            table,
            count,
            None,
            geometry(delimiter, 4),
            2,
            8,
        ),
        kept.confirm_table_column_widths(
            &mut widths,
            table,
            count,
            anchor,
            WidthGeometry { sound: false, ..geometry(delimiter, 4) },
            2,
            8,
        ),
    ] {
        assert_eq!(refused, Err(EditorDocumentError::InvalidTableWidths));
    }
    assert_eq!(
        kept.confirm_table_column_widths(
            &mut widths,
            count,
            count,
            anchor,
            geometry(delimiter, 4),
            2,
            8,
        ),
        Err(EditorDocumentError::BlockOutOfBounds { index: count, blocks: count })
    );
    assert!(widths.entries.is_empty());
    assert_eq!(kept.viewport.stats().measured(), count);
    kept.publish(1, Vec::new(), None);
    kept.confirm_table_column_widths(
        &mut widths,
        table,
        count,
        anchor,
        geometry(delimiter, 4),
        2,
        8,
    )
    .expect("confirm");
    assert_eq!(kept.viewport.stats().entries(), count);
    assert_eq!(kept.viewport.stats().measured(), count - 1);
    assert_eq!(total(&kept), height);
    assert!(!kept.viewport.entries[table].measured);
    assert!(kept.published.is_none());
    assert_eq!(widths.entries.len(), 1);
}

#[test]
fn history_width_restore_keeps_unrelated_measured_geometry() {
    let source = format!("# Intro\n\n{TABLE}\nTail paragraph.\n");
    let (mut kept, table) = measured(&source, 80);
    let start = source.find("| ---").expect("delimiter") as u64;
    let delimiter = range(start, start + 13);
    let mut widths = TableWidths { entries: Vec::new(), generation: 0 };
    widths.confirm_table_column_widths(delimiter, vec![1, 2]);
    let mut history = WidthHistory::new();
    history.capture(&widths.entries);
    widths
        .restore_table_column_width_records(Vec::new(), &Vec::new(), &Vec::new())
        .expect("remove widths");
    let count = kept.viewport.stats().entries();
    let height = total(&kept);
    let keys: Vec<BlockKey> = kept.viewport.entries.iter().map(|entry| entry.key).collect();
    let anchor = vec![Some(TableAnchor { delimiter: Some(delimiter), columns: 2 })];
    let checkpoint = &history.checkpoints[0].widths;
    kept.restore_width_history(&mut widths, checkpoint, &vec![None], &keys, (2, 8));
    assert_eq!(kept.viewport.stats().measured(), count);
    kept.restore_width_history(&mut widths, checkpoint, &anchor, &keys, (2, 8));
    assert!(!kept.viewport.entries[table].measured);
    assert_eq!(widths.table_column_width_records(&anchor).len(), 1);
    assert_eq!(kept.viewport.stats().entries(), count);
    assert_eq!(kept.viewport.stats().measured(), count - 1);
    assert_eq!(total(&kept), height);
}

#[test]
fn the_end_of_a_block_belongs_to_it_unless_another_begins_there() {
    let keys = [block(0, 4), block(4, 8), block(10, 12)];
    let at = |offset: u64| block_index_for_source(&keys, ByteOffset::new(offset));
    assert_eq!(at(0), Some(0));
    assert_eq!(at(4), Some(1));
    assert_eq!(at(8), Some(1));
    assert_eq!(at(9), None);
    assert_eq!(at(12), Some(2));
    assert_eq!(at(13), None);
    assert_eq!(block_index_for_source(&[], ByteOffset::new(0)), None);
}

#[test]
fn background_measuring_takes_up_the_blocks_that_wait() {
    let mut keys: Vec<BlockKey> = (0..4).map(|at| block(at * 2, at * 2 + 2)).collect();
    keys[1].kind = BlockKind::BlankLine;
    let mut layout = ViewportLayout::new(10);
    layout.sync(Revision::new(1), &keys);
    layout.set_block_height(0, 7).expect("block");
    assert_eq!(layout.unmeasured_sources(2), [ByteOffset::new(2), ByteOffset::new(4)]);
    let mut run = BackgroundRun::new(&layout);
    assert_eq!(run.waiting.len(), 3);
    assert_eq!(run.step(true, 0, &keys, None, None), Some(BackgroundStep::Cancel));
    assert_eq!(run.step(false, 99, &keys, Some(1), None), Some(BackgroundStep::Shape(1)));
    assert_eq!(
        run.step(false, 99, &keys, None, Some(blocks(0, 2))),
        Some(BackgroundStep::Shape(1))
    );
    assert_eq!(run.step(false, 99, &keys, None, None), Some(BackgroundStep::Blank(1)));
    assert_eq!(run.measured(&mut layout, 1, 0), Ok(true));
    assert_eq!(run.step(false, 8, &keys, None, None), Some(BackgroundStep::Stop));
    assert_eq!(run.step(false, 7, &keys[..1], None, None), Some(BackgroundStep::Skip));
    assert_eq!(run.step(false, 7, &keys, None, None), Some(BackgroundStep::Shape(3)));
    assert_eq!(
        run.measured(&mut layout, 9, 5),
        Err(ViewportError::OutOfBounds { index: 9, len: 4 })
    );
    assert_eq!(run.measured(&mut layout, 3, 5), Ok(true));
    assert_eq!(run.step(false, 0, &keys, None, None), None);
    assert_eq!(run.measured, 2);
    assert_eq!(layout.unmeasured_sources(9), [ByteOffset::new(4)]);
    let many: Vec<BlockKey> = (0..200).map(|at| block(at, at + 1)).collect();
    layout.sync(Revision::new(2), &many);
    assert_eq!(BackgroundRun::new(&layout).waiting.len(), BACKGROUND_LIMIT);
}

#[test]
fn restored_widths_have_their_table_measured_again() {
    let source = format!("# Intro\n\n{TABLE}\nUnchanged paragraph.\n");
    let (mut kept, table) = measured(&source, 80);
    let keys: Vec<BlockKey> = kept.viewport.entries.iter().map(|entry| entry.key).collect();
    let start = source.find("| ---").expect("delimiter") as u64;
    let delimiter = range(start, start + 13);
    let anchor = vec![Some(TableAnchor { delimiter: Some(delimiter), columns: 2 })];
    let mut widths = TableWidths { entries: Vec::new(), generation: 0 };
    let records = |first: f32| {
        vec![SavedTableWidths {
            delimiter,
            proportions: vec![first.to_bits(), (1.0 - first).to_bits()],
        }]
    };
    let count = kept.viewport.stats().entries();
    let height = total(&kept);
    let whole = vec![true];
    assert_eq!(
        kept.restore_table_column_width_records(
            &mut widths,
            records(1.5),
            &whole,
            &anchor,
            &keys,
            (2, 8),
        ),
        Err(EditorDocumentError::InvalidTableWidths)
    );
    assert_eq!(kept.viewport.stats().measured(), count);
    for measured in [count - 1, count] {
        kept.restore_table_column_width_records(
            &mut widths,
            records(0.4),
            &whole,
            &anchor,
            &keys,
            (2, 8),
        )
        .expect("restore");
        assert_eq!(kept.viewport.stats().measured(), measured);
        assert_eq!(total(&kept), height);
        let bits = kept.viewport.entries[table].height;
        kept.viewport.set_block_height(table, bits).expect("measured again");
    }
}
