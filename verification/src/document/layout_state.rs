//! The layouts and heights that a document keeps between frames, and the finished layout
//! that answers questions.
use crate::block::BlockKey;
use crate::cache::counted;
use crate::document::error::EditorDocumentError;
use crate::document::layout_context::{
    block_found, block_index_for_source, holds_offset, validate_table_resize_commit, LayoutStamp,
};
use crate::document::layout_snapshot::{block_for_source, last_before, places_wf, SnapshotPlace};
use crate::document::table_widths::{
    current_records, differing, restorable, restored_records, sound_records, width_views,
    without_delimiter, SavedTableWidths, TableAnchor, TableWidths, WidthsView,
};
use crate::hidden::HiddenRanges;
use crate::layout::{after_budget, unmatched_layouts, LayoutCache, LayoutCacheStats};
use crate::offset::{ByteOffset, Revision, TextRange};
use crate::panel::{check_position, position_error};
use crate::projection::{ProjectionCache, ProjectionCacheStats};
use crate::table::TableResizeGesture;
use crate::viewport::{ViewportEntry, ViewportLayout};
use vstd::prelude::*;

verus! {

/// Whose geometry is asked for: what a viewport shows, or what stands at an offset. The
/// viewport's scroll position and height are given by their bits.
#[derive(Clone, Copy, Debug, PartialEq, Eq, Structural)]
pub enum LayoutQuery {
    Viewport { scroll_y: u32, height: u32 },
    Source(ByteOffset),
}

/// A finished layout: what it belongs to, the blocks it shows, and the drag of a table
/// divider that it shows.
#[derive(Debug)]
pub struct PublishedLayout {
    pub id: u64,
    pub stamp: LayoutStamp,
    pub places: Vec<SnapshotPlace>,
    pub resize: Option<TableResizeGesture>,
}

impl PublishedLayout {
    /// Whether the block at `source` is among those shown.
    pub open spec fn shows(self, source: ByteOffset) -> bool {
        exists|k: int|
            #[trigger] last_before(self.places@, k, source) && source.value
                <= self.places@[k].source.end.value
    }
}

/// What a document keeps between frames.
#[derive(Debug)]
pub struct LayoutState<V> {
    /// The state that the document is in.
    pub stamp: LayoutStamp,
    pub published: Option<PublishedLayout>,
    /// What is hidden of each block.
    pub decorations: ProjectionCache<HiddenRanges>,
    pub layouts: LayoutCache<V>,
    pub viewport: ViewportLayout,
    /// Where the caret aims at when it moves up or down, by its bits.
    pub preferred_x: Option<u32>,
}

/// Heights, and the number of their state.
#[derive(Debug)]
pub struct Heights {
    pub viewport: ViewportLayout,
    pub generation: u64,
}

/// Whether the layouts of a cache were taken over.
pub open spec fn took_over<V>(
    before: LayoutCache<V>,
    incoming: LayoutCache<V>,
    after: LayoutCache<V>,
) -> bool {
    after_budget(
        before,
        unmatched_layouts(before.entries@, incoming.entries@) + incoming.entries@,
        after,
    )
}

/// What is left of a state that took measurements: `heights` are those of both, or `None`
/// where they do not fit together.
pub open spec fn measurements_taken<V>(
    before: LayoutState<V>,
    after: LayoutState<V>,
    heights: Option<Heights>,
    layouts: LayoutCache<V>,
) -> bool {
    &&& after.published is None
    &&& after.decorations == before.decorations
    &&& after.preferred_x == before.preferred_x
    &&& match heights {
        Some(merged) => {
            &&& after.viewport == merged.viewport
            &&& after.stamp == (LayoutStamp { geometry: merged.generation, ..before.stamp })
            &&& took_over(before.layouts, layouts, after.layouts)
        },
        None => {
            &&& after.viewport == before.viewport
            &&& after.stamp == before.stamp
            &&& after.layouts == before.layouts
        },
    }
}

/// Whether `after` is `before` with everything dropped that was laid out. `document` and
/// `generation` are the numbers of the new state.
pub open spec fn presentation_dropped<V>(
    before: LayoutState<V>,
    after: LayoutState<V>,
    document: u64,
    generation: u64,
) -> bool {
    &&& after.stamp == (LayoutStamp { document, geometry: generation, ..before.stamp })
    &&& after.published is None
    &&& after.preferred_x is None
    &&& after.decorations.entries@.len() == 0
    &&& after.decorations.stats == (ProjectionCacheStats {
        invalidated: counted(
            before.decorations.stats.invalidated,
            before.decorations.entries@.len() as int,
        ),
        ..before.decorations.stats
    })
    &&& after.layouts.entries@.len() == 0
    &&& after.layouts.stats == (LayoutCacheStats {
        invalidated: counted(
            before.layouts.stats.invalidated,
            before.layouts.entries@.len() as int,
        ),
        ..before.layouts.stats
    })
    &&& after.viewport.entries@.len() == 0
    &&& after.viewport.revision is None
    &&& after.viewport.invalidated == counted(
        before.viewport.invalidated,
        before.viewport.entries@.len() as int,
    )
    &&& after.viewport.remapped == before.viewport.remapped
    &&& after.viewport.estimate == before.viewport.estimate
    &&& after.viewport.backend == before.viewport.backend
}

/// How a finished layout is come by.
#[derive(Clone, Copy, Debug, PartialEq, Eq, Structural)]
pub enum Preparation {
    /// The one that was published last still holds.
    Reuse,
    /// The visible blocks are measured and laid out.
    Measure,
    /// This block is measured and laid out, and no other.
    MeasureBlock(usize),
}

/// What is known when a layout is asked for.
#[derive(Clone, Copy, Debug, PartialEq, Eq, Structural)]
pub struct QueryFacts {
    pub cancelled: bool,
    /// Whether the published layout covers the viewport.
    pub covered: bool,
    /// Whether the published layout holds a placeholder of an image that is ready now.
    pub stale_images: bool,
    /// The block at the offset that is asked for.
    pub block: Option<usize>,
    /// The number of blocks.
    pub blocks: usize,
}

impl<V> LayoutState<V> {
    /// Whether the published layout holds in the present state.
    pub open spec fn published_is_current(self) -> bool {
        self.published matches Some(layout) && self.stamp.spec_accepts_measurements(layout.stamp)
            && self.stamp.resources == layout.stamp.resources && self.stamp.geometry
            == layout.stamp.geometry
    }

    /// The published layout, where it may answer questions: source, selections, width,
    /// images and heights are still those it was made for.
    pub fn current_layout_snapshot(&self) -> (r: Option<&PublishedLayout>)
        ensures
            self.published_is_current() ==> r == Some(&self.published->Some_0),
            !self.published_is_current() ==> r is None,
    {
        match &self.published {
            Some(layout) => {
                if self.stamp.is_current(&layout.stamp) {
                    Some(layout)
                } else {
                    None
                }
            },
            None => None,
        }
    }

    /// Other images are ready. What was published before does not hold any more.
    pub fn set_resource_geometry_version(&mut self, version: u64)
        ensures
            *final(self) == (LayoutState {
                stamp: LayoutStamp { resources: version, ..old(self).stamp },
                ..*old(self)
            }),
    {
        self.stamp.resources = version;
    }

    /// Drops all layouts and heights, as when fonts change. `generation` is the number of
    /// the heights' new state.
    pub fn clear_layout_state(&mut self, generation: u64)
        ensures
            final(self).layouts.entries@.len() == 0,
            final(self).layouts.stats == (LayoutCacheStats {
                invalidated: counted(
                    old(self).layouts.stats.invalidated,
                    old(self).layouts.entries@.len() as int,
                ),
                ..old(self).layouts.stats
            }),
            final(self).viewport.entries@.len() == 0,
            final(self).viewport.revision is None,
            final(self).viewport.invalidated == counted(
                old(self).viewport.invalidated,
                old(self).viewport.entries@.len() as int,
            ),
            final(self).viewport.remapped == old(self).viewport.remapped,
            final(self).viewport.estimate == old(self).viewport.estimate,
            final(self).viewport.backend == old(self).viewport.backend,
            final(self).stamp == (LayoutStamp { geometry: generation, ..old(self).stamp }),
            final(self).published == old(self).published,
            final(self).decorations == old(self).decorations,
            final(self).preferred_x == old(self).preferred_x,
    {
        self.layouts.clear();
        self.viewport.clear();
        self.stamp.geometry = generation;
    }

    /// Drops everything that was laid out, as when a part is folded away without an edit.
    /// `document` is a number that no earlier state had, so that work in progress for
    /// those is not taken over; `generation` is the number of the heights' new state.
    pub fn invalidate_html_presentation(&mut self, document: u64, generation: u64)
        ensures
            presentation_dropped(*old(self), *final(self), document, generation),
    {
        self.clear_layout_state(generation);
        self.decorations.clear();
        self.stamp.document = document;
        self.published = None;
        self.preferred_x = None;
    }

    /// Takes over what was measured elsewhere in the state `stamp`, and says whether it
    /// was taken. `heights` are those measured there with those of here where there are
    /// none; `None` where the two are of different blocks.
    pub fn adopt_measurements(
        &mut self,
        stamp: &LayoutStamp,
        heights: Option<Heights>,
        layouts: LayoutCache<V>,
    ) -> (r: bool)
        requires
            old(self).layouts.entries@.len() + layouts.entries@.len() <= usize::MAX,
        ensures
            ({
                let accepted = old(self).stamp.spec_accepts_measurements(*stamp);
                &&& r == (accepted && heights is Some)
                &&& if accepted {
                    measurements_taken(*old(self), *final(self), heights, layouts)
                } else {
                    *final(self) == *old(self)
                }
            }),
    {
        if !self.stamp.accepts_measurements(stamp) {
            return false;
        }
        self.published = None;
        match heights {
            Some(merged) => {
                self.viewport = merged.viewport;
                self.stamp.geometry = merged.generation;
                self.layouts.adopt_snapshot(layouts);
                true
            },
            None => false,
        }
    }

    /// Takes over what was measured for a finished layout, before it is shown. Says
    /// whether it can be shown: not where a height of here moved one of its blocks.
    /// `unmoved` says of each block whether it begins where it was drawn.
    pub fn integrate_layout_measurements(
        &mut self,
        stamp: &LayoutStamp,
        heights: Option<Heights>,
        layouts: LayoutCache<V>,
        unmoved: &[bool],
    ) -> (r: bool)
        requires
            old(self).layouts.entries@.len() + layouts.entries@.len() <= usize::MAX,
        ensures
            ({
                let accepted = old(self).stamp.spec_accepts_measurements(*stamp)
                    && old(self).stamp.resources == stamp.resources;
                &&& r == (accepted && heights is Some && forall|k: int|
                    0 <= k < unmoved@.len() ==> #[trigger] unmoved@[k])
                &&& if accepted {
                    measurements_taken(*old(self), *final(self), heights, layouts)
                } else {
                    *final(self) == *old(self)
                }
            }),
    {
        if !self.stamp.accepts_layout_snapshot(stamp) {
            return false;
        }
        if !self.adopt_measurements(stamp, heights, layouts) {
            return false;
        }
        all_set(unmoved)
    }

    /// Publishes a finished layout that was made elsewhere, where it holds here, and
    /// takes over what was measured for it. Says whether it was published.
    pub fn adopt_layout_snapshot(
        &mut self,
        layout: PublishedLayout,
        heights: Option<Heights>,
        layouts: LayoutCache<V>,
    ) -> (r: bool)
        requires
            old(self).layouts.entries@.len() + layouts.entries@.len() <= usize::MAX,
        ensures
            ({
                let accepted = old(self).stamp.spec_accepts_measurements(layout.stamp)
                    && old(self).stamp.resources == layout.stamp.resources;
                &&& r == (accepted && heights is Some)
                &&& if accepted {
                    &&& measurements_taken(
                        *old(self),
                        LayoutState { published: None, ..*final(self) },
                        heights,
                        layouts,
                    )
                    &&& final(self).published == (if heights is Some {
                        Some(layout)
                    } else {
                        None
                    })
                } else {
                    *final(self) == *old(self)
                }
            }),
    {
        if !self.stamp.accepts_layout_snapshot(&layout.stamp) {
            return false;
        }
        let adopted = self.adopt_measurements(&layout.stamp, heights, layouts);
        if adopted {
            self.published = Some(layout);
        }
        adopted
    }

    /// Brings what a worker kept up to a newer state of the same document, where it can
    /// be kept: the newer layouts replace its own, and the heights are put together.
    pub fn merge_into_layout_context(
        &mut self,
        newer: &LayoutStamp,
        heights: Option<Heights>,
        layouts: LayoutCache<V>,
    )
        requires
            old(self).layouts.entries@.len() + layouts.entries@.len() <= usize::MAX,
        ensures
            ({
                let reused = newer.spec_accepts_measurements(old(self).stamp) && newer.search
                    == old(self).stamp.search && newer.search_generation
                    == old(self).stamp.search_generation && newer.resources
                    == old(self).stamp.resources;
                if reused {
                    &&& took_over(old(self).layouts, layouts, final(self).layouts)
                    &&& final(self).decorations == old(self).decorations
                    &&& final(self).preferred_x == old(self).preferred_x
                    &&& match heights {
                        Some(merged) => {
                            &&& final(self).viewport == merged.viewport
                            &&& final(self).stamp == (LayoutStamp {
                                geometry: merged.generation,
                                ..old(self).stamp
                            })
                            &&& final(self).published is None
                        },
                        None => {
                            &&& final(self).viewport == old(self).viewport
                            &&& final(self).stamp == old(self).stamp
                            &&& final(self).published == old(self).published
                        },
                    }
                } else {
                    *final(self) == *old(self)
                }
            }),
    {
        if newer.can_reuse_layout_context(&self.stamp) {
            self.layouts.adopt_snapshot(layouts);
            if let Some(merged) = heights {
                self.viewport = merged.viewport;
                self.stamp.geometry = merged.generation;
                self.published = None;
            }
        }
    }

    /// Ends a run of background measuring that took the heights of `measured` blocks.
    /// What was published before stands on other heights.
    pub fn finish_background(&mut self, measured: usize, generation: u64)
        ensures
            final(self).decorations == old(self).decorations,
            final(self).preferred_x == old(self).preferred_x,
            final(self).layouts == old(self).layouts,
            final(self).viewport == old(self).viewport,
            final(self).stamp == (LayoutStamp { geometry: generation, ..old(self).stamp }),
            final(self).published == (if measured > 0 {
                None
            } else {
                old(self).published
            }),
    {
        if measured > 0 {
            self.published = None;
        }
        self.stamp.geometry = generation;
    }

    /// Whether the published layout can be used again for a drag `resize`, where it shows
    /// what is asked for and no image has come in since.
    pub open spec fn can_reuse(
        self,
        resize: Option<TableResizeGesture>,
        shown: bool,
        stale_images: bool,
    ) -> bool {
        self.published_is_current() && self.published->Some_0.resize == resize && shown
            && !stale_images
    }

    /// How the layout of a viewport is come by.
    pub open spec fn viewport_preparation(
        self,
        facts: QueryFacts,
        resize: Option<TableResizeGesture>,
    ) -> Result<Preparation, EditorDocumentError> {
        if facts.cancelled {
            Err(EditorDocumentError::Cancelled)
        } else if self.can_reuse(resize, facts.covered, facts.stale_images) {
            Ok(Preparation::Reuse)
        } else if resize is Some && resize->Some_0.revision != self.stamp.revision {
            Err(EditorDocumentError::TableResizeRevision)
        } else {
            Ok(Preparation::Measure)
        }
    }

    /// How the layout of a viewport is come by: the published one where it still holds
    /// and covers the viewport, else a new one. A drag has to be one of this revision.
    pub fn prepare_layout_snapshot(
        &self,
        facts: &QueryFacts,
        resize: Option<TableResizeGesture>,
    ) -> (r: Result<Preparation, EditorDocumentError>)
        ensures
            r == self.viewport_preparation(*facts, resize),
    {
        if facts.cancelled {
            return Err(EditorDocumentError::Cancelled);
        }
        if let Some(layout) = self.current_layout_snapshot() {
            if layout.resize == resize && facts.covered && !facts.stale_images {
                return Ok(Preparation::Reuse);
            }
        }
        if let Some(drag) = resize {
            if let Err(error) = validate_table_resize_commit(
                drag.block_index,
                self.stamp.revision,
                drag.block_index,
                drag.revision,
            ) {
                return Err(error);
            }
        }
        Ok(Preparation::Measure)
    }

    /// How the layout around an offset is come by.
    pub open spec fn source_preparation(
        self,
        facts: QueryFacts,
        text: Seq<char>,
        source: ByteOffset,
        resize: Option<TableResizeGesture>,
    ) -> Result<Preparation, EditorDocumentError> {
        if facts.cancelled {
            Err(EditorDocumentError::Cancelled)
        } else if self.published is Some && self.can_reuse(
            resize,
            self.published->Some_0.shows(source),
            facts.stale_images,
        ) {
            Ok(Preparation::Reuse)
        } else if position_error(text, source) is Some {
            Err(EditorDocumentError::Position(position_error(text, source)->Some_0))
        } else {
            match facts.block {
                Some(index) => Ok(Preparation::MeasureBlock(index)),
                None => Err(
                    EditorDocumentError::BlockOutOfBounds { index: 0, blocks: facts.blocks },
                ),
            }
        }
    }

    /// How the layout around an offset is come by. The block at the offset is measured
    /// alone: a question about the caret does not wait for the rest of the viewport.
    pub fn layout_snapshot_for_source(
        &self,
        facts: &QueryFacts,
        text: &str,
        source: ByteOffset,
        resize: Option<TableResizeGesture>,
    ) -> (r: Result<Preparation, EditorDocumentError>)
        requires
            self.published matches Some(layout) ==> places_wf(layout.places@),
        ensures
            r == self.source_preparation(*facts, text@, source, resize),
    {
        if facts.cancelled {
            return Err(EditorDocumentError::Cancelled);
        }
        if let Some(layout) = self.current_layout_snapshot() {
            let place = block_for_source(layout.places.as_slice(), source);
            if layout.resize == resize && place.is_some() && !facts.stale_images {
                return Ok(Preparation::Reuse);
            }
        }
        if let Some(error) = check_position(text, source) {
            return Err(EditorDocumentError::Position(error));
        }
        match facts.block {
            Some(index) => Ok(Preparation::MeasureBlock(index)),
            None => Err(EditorDocumentError::BlockOutOfBounds { index: 0, blocks: facts.blocks }),
        }
    }

    /// How an answer to a query is come by.
    pub fn prepare_query_layout_snapshot(
        &self,
        query: LayoutQuery,
        facts: &QueryFacts,
        text: &str,
        resize: Option<TableResizeGesture>,
    ) -> (r: Result<Preparation, EditorDocumentError>)
        requires
            self.published matches Some(layout) ==> places_wf(layout.places@),
        ensures
            r == (match query {
                LayoutQuery::Viewport { .. } => self.viewport_preparation(*facts, resize),
                LayoutQuery::Source(source) => self.source_preparation(
                    *facts,
                    text@,
                    source,
                    resize,
                ),
            }),
    {
        match query {
            LayoutQuery::Viewport { .. } => self.prepare_layout_snapshot(facts, resize),
            LayoutQuery::Source(source) => self.layout_snapshot_for_source(
                facts,
                text,
                source,
                resize,
            ),
        }
    }

    /// Publishes a layout of the present state.
    pub fn publish(
        &mut self,
        id: u64,
        places: Vec<SnapshotPlace>,
        resize: Option<TableResizeGesture>,
    )
        ensures
            *final(self) == (LayoutState {
                published: Some(
                    PublishedLayout { id, stamp: old(self).stamp, places, resize },
                ),
                ..*old(self)
            }),
            final(self).published_is_current(),
    {
        self.published = Some(PublishedLayout { id, stamp: self.stamp, places, resize });
    }
}

/// The column widths of a laid out table: what it was laid out from, and its columns'
/// parts of its width, by their bits.
#[derive(Debug)]
pub struct WidthGeometry {
    pub revision: Revision,
    pub delimiter: Option<TextRange>,
    pub proportions: Vec<u32>,
    /// Whether all widths, and their sum, are positive numbers.
    pub sound: bool,
}

impl WidthGeometry {
    /// Whether the widths are those of `table`.
    pub open spec fn fits(self, revision: Revision, table: TableAnchor) -> bool {
        &&& table.delimiter is Some
        &&& self.revision == revision
        &&& self.delimiter == table.delimiter
        &&& self.proportions@.len() == table.columns
        &&& self.sound
    }
}

/// Whether `after` is `before` with the heights of `blocks` to be measured again. They
/// keep their heights until then, and nothing laid out before is shown again.
pub open spec fn remeasured<V>(
    before: LayoutState<V>,
    after: LayoutState<V>,
    blocks: Seq<usize>,
    document: u64,
    generation: u64,
) -> bool {
    let entries = before.viewport.entries@;
    &&& after.published is None
    &&& after.decorations == before.decorations
    &&& after.preferred_x == before.preferred_x
    &&& after.layouts == before.layouts
    &&& after.stamp == (LayoutStamp { document, geometry: generation, ..before.stamp })
    &&& after.viewport.entries@ == Seq::new(
        entries.len(),
        |k: int|
            ViewportEntry {
                measured: entries[k].measured && !blocks.contains(k as usize),
                ..entries[k]
            },
    )
    &&& after.viewport.estimate == before.viewport.estimate
    &&& after.viewport.backend == before.viewport.backend
    &&& after.viewport.revision == before.viewport.revision
    &&& after.viewport.remapped == before.viewport.remapped
    &&& after.viewport.invalidated == before.viewport.invalidated
}

impl<V> LayoutState<V> {
    /// Takes note that the column widths of the tables in `blocks` changed: those are
    /// measured again. `document` and `generation` are as for any other invalidation.
    pub fn table_widths_changed(&mut self, blocks: &[usize], document: u64, generation: u64)
        ensures
            remeasured(*old(self), *final(self), blocks@, document, generation),
    {
        let ghost entries = self.viewport.entries@;
        assert(self.viewport.entries@.len() == self.viewport.entries.len());
        let mut i: usize = 0;
        while i < blocks.len()
            invariant
                i <= blocks@.len(),
                entries == old(self).viewport.entries@,
                entries.len() <= usize::MAX,
                self.stamp == old(self).stamp,
                self.layouts == old(self).layouts,
                self.decorations == old(self).decorations,
                self.preferred_x == old(self).preferred_x,
                self.viewport.entries@.len() == entries.len(),
                forall|k: int|
                    0 <= k < entries.len() ==> (#[trigger] self.viewport.entries@[k])
                        == (ViewportEntry {
                        measured: entries[k].measured && !blocks@.take(i as int).contains(
                            k as usize,
                        ),
                        ..entries[k]
                    }),
                self.viewport.estimate == old(self).viewport.estimate,
                self.viewport.backend == old(self).viewport.backend,
                self.viewport.revision == old(self).viewport.revision,
                self.viewport.remapped == old(self).viewport.remapped,
                self.viewport.invalidated == old(self).viewport.invalidated,
            decreases blocks@.len() - i,
        {
            let ghost before = self.viewport.entries@;
            self.viewport.invalidate_block_measurement(blocks[i]);
            proof {
                let now = blocks@.take(i + 1);
                let earlier = blocks@.take(i as int);
                assert(now =~= earlier.push(blocks@[i as int]));
                assert forall|k: int| 0 <= k < entries.len() implies (
                #[trigger] self.viewport.entries@[k]) == (ViewportEntry {
                    measured: entries[k].measured && !now.contains(k as usize),
                    ..entries[k]
                }) by {
                    let old_entry = before[k];
                    if earlier.contains(k as usize) {
                        let j = earlier.index_of(k as usize);
                        assert(now[j] == k as usize);
                    }
                    if now.contains(k as usize) {
                        let j = now.index_of(k as usize);
                        if j < i {
                            assert(earlier[j] == k as usize);
                        }
                    }
                    if blocks@[i as int] == k {
                        assert(now[i as int] == k as usize);
                    }
                }
            }
            i += 1;
        }
        assert(blocks@.take(blocks@.len() as int) =~= blocks@);
        self.published = None;
        self.stamp.document = document;
        self.stamp.geometry = generation;
        assert(self.viewport.entries@ =~= Seq::new(
            entries.len(),
            |k: int|
                ViewportEntry {
                    measured: entries[k].measured && !blocks@.contains(k as usize),
                    ..entries[k]
                },
        ));
    }

    /// Confirms the column widths of the table in block number `index` of `blocks`.
    /// `table` is the table that the source has there. Widths of another revision or
    /// another table are refused.
    pub fn confirm_table_column_widths(
        &mut self,
        widths: &mut TableWidths,
        index: usize,
        blocks: usize,
        table: Option<TableAnchor>,
        geometry: WidthGeometry,
        document: u64,
        generation: u64,
    ) -> (r: Result<(), EditorDocumentError>)
        ensures
            if index < blocks && table is Some && geometry.fits(
                old(self).stamp.revision,
                table->Some_0,
            ) {
                &&& r is Ok
                &&& remeasured(*old(self), *final(self), seq![index], document, generation)
                &&& final(widths).records() == without_delimiter(
                    old(widths).records(),
                    geometry.delimiter->Some_0,
                ).push(
                    WidthsView {
                        delimiter: geometry.delimiter->Some_0,
                        proportions: geometry.proportions@,
                    },
                )
                &&& final(widths).generation == old(widths).next_generation()
            } else {
                &&& r == Err::<(), EditorDocumentError>(
                    if index < blocks {
                        EditorDocumentError::InvalidTableWidths
                    } else {
                        EditorDocumentError::BlockOutOfBounds { index, blocks }
                    },
                )
                &&& *final(self) == *old(self)
                &&& *final(widths) == *old(widths)
            },
    {
        if index >= blocks {
            return Err(EditorDocumentError::BlockOutOfBounds { index, blocks });
        }
        let (delimiter, columns) = match table {
            Some(TableAnchor { delimiter: Some(delimiter), columns }) => (delimiter, columns),
            _ => return Err(EditorDocumentError::InvalidTableWidths),
        };
        if geometry.revision != self.stamp.revision || geometry.delimiter != Some(delimiter)
            || geometry.proportions.len() != columns || !geometry.sound {
            return Err(EditorDocumentError::InvalidTableWidths);
        }
        widths.confirm_table_column_widths(delimiter, geometry.proportions);
        let mut changed: Vec<usize> = Vec::new();
        changed.push(index);
        assert(changed@ =~= seq![index]);
        self.table_widths_changed(changed.as_slice(), document, generation);
        Ok(())
    }
}

/// Whether `found` are the blocks in which the delimiter lines begin.
pub open spec fn blocks_of(
    blocks: Seq<BlockKey>,
    lines: Seq<TextRange>,
    found: Seq<usize>,
) -> bool {
    forall|index: usize|
        #[trigger] found.contains(index) <==> exists|k: int|
            0 <= k < lines.len() && block_found(blocks, (#[trigger] lines[k]).start, Some(index))
}

fn find_blocks(blocks: &[BlockKey], lines: &Vec<TextRange>) -> (r: Vec<usize>)
    ensures
        blocks_of(blocks@, lines@, r@),
{
    let mut out: Vec<usize> = Vec::new();
    let mut i: usize = 0;
    while i < lines.len()
        invariant
            i <= lines@.len(),
            blocks_of(blocks@, lines@.take(i as int), out@),
        decreases lines@.len() - i,
    {
        let ghost before = out@;
        let found = block_index_for_source(blocks, lines[i].start);
        if let Some(index) = found {
            out.push(index);
        }
        proof {
            let earlier = lines@.take(i as int);
            let now = lines@.take(i + 1);
            assert(now =~= earlier.push(lines@[i as int]));
            assert forall|index: usize|
                #[trigger] out@.contains(index) <==> exists|k: int|
                    0 <= k < now.len() && block_found(
                        blocks@,
                        (#[trigger] now[k]).start,
                        Some(index),
                    ) by {
                if out@.contains(index) {
                    let j = out@.index_of(index);
                    if j < before.len() {
                        assert(before[j] == index);
                        assert(before.contains(index));
                        let k = choose|k: int|
                            0 <= k < earlier.len() && block_found(
                                blocks@,
                                (#[trigger] earlier[k]).start,
                                Some(index),
                            );
                        assert(now[k] == earlier[k]);
                    } else {
                        assert(now[i as int] == lines@[i as int]);
                    }
                }
                if exists|k: int|
                    0 <= k < now.len() && block_found(
                        blocks@,
                        (#[trigger] now[k]).start,
                        Some(index),
                    ) {
                    let k = choose|k: int|
                        0 <= k < now.len() && block_found(
                            blocks@,
                            (#[trigger] now[k]).start,
                            Some(index),
                        );
                    if k < i {
                        assert(earlier[k] == now[k]);
                        assert(before.contains(index));
                        let j = before.index_of(index);
                        assert(out@[j] == index);
                    } else {
                        lemma_block_is_one(blocks@, now[k].start, found, index);
                        assert(out@[out@.len() - 1] == index);
                    }
                }
            }
        }
        i += 1;
    }
    assert(lines@.take(lines@.len() as int) =~= lines@);
    out
}

/// There is one block at an offset.
proof fn lemma_block_is_one(
    blocks: Seq<BlockKey>,
    offset: ByteOffset,
    found: Option<usize>,
    index: usize,
)
    requires
        block_found(blocks, offset, found),
        block_found(blocks, offset, Some(index)),
    ensures
        found == Some(index),
{
    if found is None {
        assert(!holds_offset(blocks[index as int], offset));
        assert(blocks[index as int].range.end != offset);
    } else {
        let other = found->Some_0;
        if other < index {
            assert(!holds_offset(blocks[index as int], offset) || !holds_offset(
                blocks[other as int],
                offset,
            ));
        }
    }
}

impl<V> LayoutState<V> {
    /// Restores saved column widths, and has the tables measured again whose widths
    /// changed. `blocks` are the document's blocks.
    pub fn restore_table_column_width_records(
        &mut self,
        widths: &mut TableWidths,
        records: Vec<SavedTableWidths>,
        whole: &Vec<bool>,
        tables: &Vec<Option<TableAnchor>>,
        blocks: &[BlockKey],
        numbers: (u64, u64),
    ) -> (r: Result<(), EditorDocumentError>)
        requires
            whole@.len() == records@.len(),
            tables@.len() == records@.len(),
        ensures
            ({
                let saved = width_views(records@);
                let before = old(widths).records();
                if !restorable(saved, sound_records(saved, whole@, tables@)) {
                    &&& r == Err::<(), EditorDocumentError>(
                        EditorDocumentError::InvalidTableWidths,
                    )
                    &&& *final(self) == *old(self)
                    &&& *final(widths) == *old(widths)
                } else {
                    &&& r is Ok
                    &&& final(widths).records() == saved
                    &&& if before == saved {
                        &&& final(widths).generation == old(widths).generation
                        &&& *final(self) == *old(self)
                    } else {
                        &&& final(widths).generation == old(widths).next_generation()
                        &&& exists|lines: Seq<TextRange>, found: Seq<usize>|
                            #![trigger differing(before, saved, lines), blocks_of(blocks@, lines, found)]
                            differing(before, saved, lines) && blocks_of(blocks@, lines, found)
                                && remeasured(
                                *old(self),
                                *final(self),
                                found,
                                numbers.0,
                                numbers.1,
                            )
                    }
                }
            }),
    {
        let unchanged = widths.holds(&records);
        let lines = match widths.restore_table_column_width_records(records, whole, tables) {
            Ok(lines) => lines,
            Err(error) => return Err(error),
        };
        if unchanged {
            return Ok(());
        }
        let found = find_blocks(blocks, &lines);
        self.table_widths_changed(found.as_slice(), numbers.0, numbers.1);
        proof {
            assert(differing(old(widths).records(), width_views(records@), lines@));
            assert(blocks_of(blocks@, lines@, found@));
        }
        Ok(())
    }

    /// Brings column widths back after undo or redo, and has their tables measured again.
    pub fn restore_width_history(
        &mut self,
        widths: &mut TableWidths,
        saved: &Vec<SavedTableWidths>,
        tables: &Vec<Option<TableAnchor>>,
        blocks: &[BlockKey],
        numbers: (u64, u64),
    )
        requires
            tables@.len() == saved@.len(),
        ensures
            ({
                let views = width_views(saved@);
                let back = restored_records(
                    old(widths).records(),
                    views,
                    current_records(views, tables@),
                    saved@.len() as int,
                );
                let lines = back.map_values(|w: WidthsView| w.delimiter);
                &&& final(widths).records() == old(widths).records() + back
                &&& if back.len() == 0 {
                    &&& final(widths).generation == old(widths).generation
                    &&& *final(self) == *old(self)
                } else {
                    &&& final(widths).generation == old(widths).next_generation()
                    &&& exists|found: Seq<usize>| #[trigger]
                        blocks_of(blocks@, lines, found) && remeasured(
                            *old(self),
                            *final(self),
                            found,
                            numbers.0,
                            numbers.1,
                        )
                }
            }),
    {
        let lines = widths.restore_width_history(saved, tables);
        if lines.len() == 0 {
            return ;
        }
        let found = find_blocks(blocks, &lines);
        self.table_widths_changed(found.as_slice(), numbers.0, numbers.1);
        assert(blocks_of(blocks@, lines@, found@));
    }
}

/// New column widths move nothing until their table is measured: every block keeps its
/// height, and all others stay measured.
pub proof fn law_new_widths_move_nothing<V>(
    before: LayoutState<V>,
    after: LayoutState<V>,
    blocks: Seq<usize>,
    document: u64,
    generation: u64,
    k: int,
)
    requires
        remeasured(before, after, blocks, document, generation),
        0 <= k < before.viewport.entries@.len(),
    ensures
        after.viewport.entries@.len() == before.viewport.entries@.len(),
        after.viewport.entries@[k].key == before.viewport.entries@[k].key,
        after.viewport.entries@[k].height == before.viewport.entries@[k].height,
        !blocks.contains(k as usize) ==> after.viewport.entries@[k] == before.viewport.entries@[k],
{
}

/// Whether every flag is set.
fn all_set(flags: &[bool]) -> (r: bool)
    ensures
        r == (forall|k: int| 0 <= k < flags@.len() ==> #[trigger] flags@[k]),
{
    let mut i: usize = 0;
    while i < flags.len()
        invariant
            i <= flags@.len(),
            forall|k: int| 0 <= k < i ==> #[trigger] flags@[k],
        decreases flags@.len() - i,
    {
        if !flags[i] {
            assert(!flags@[i as int]);
            return false;
        }
        i += 1;
    }
    true
}

/// A drag is applied to its own block alone.
pub fn resize_of_block(resize: Option<TableResizeGesture>, index: usize) -> (r: Option<
    TableResizeGesture,
>)
    ensures
        r == (if resize is Some && resize->Some_0.block_index == index {
            resize
        } else {
            None
        }),
{
    match resize {
        Some(drag) => {
            if drag.block_index == index {
                Some(drag)
            } else {
                None
            }
        },
        None => None,
    }
}

/// A layout that was made elsewhere and published answers questions only where the
/// heights, once put together, are those it was made with. Else the work is kept, and a
/// new layout is made.
pub proof fn law_adopted_layout_answers<V>(
    before: LayoutState<V>,
    after: LayoutState<V>,
    layout: PublishedLayout,
    heights: Heights,
    layouts: LayoutCache<V>,
)
    requires
        before.stamp.spec_accepts_measurements(layout.stamp),
        before.stamp.resources == layout.stamp.resources,
        measurements_taken(
            before,
            LayoutState { published: None, ..after },
            Some(heights),
            layouts,
        ),
        after.published == Some(layout),
    ensures
        after.published_is_current() == (heights.generation == layout.stamp.geometry),
{
}

} // verus!
