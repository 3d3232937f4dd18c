# yu_editor

The platform-independent core of a Markdown editor: source and edits, selections, history,
lists and tables in Markdown and in HTML, projections of the source, search, outline,
caches and the rules of layout.

The functions under `src/` carry contracts that Verus proves. What parsers and layout
engines find out comes in as arguments: block ranges, the tags and nodes of HTML regions,
the cells of tables, measured heights. Lengths are kept by their bits and compared, never
added; `app/` does the arithmetic on them.

- `src/text.rs`, `src/offset.rs`, `src/segmentation.rs`: text in bytes, and its clusters.
- `src/edit.rs`, `src/history.rs`, `src/selection.rs`: edits, undoing them, selections.
- `src/hidden.rs`, `src/visual.rs`, `src/marks.rs`, `src/projection.rs`: what is shown of
  the source, and where.
- `src/grid.rs`, `src/table.rs`, `src/html.rs`: tables and HTML regions.
- `src/layout.rs`, `src/viewport.rs`, `src/presentation.rs`, `src/widget.rs`: layouts that
  are kept, heights, and the distances that count.
- `src/search.rs`, `src/outline.rs`, `src/panel.rs`, `src/toc.rs`: what panels list.
- `src/document/`: commands on a document, and the state of its layout.
- `app/`: geometry in logical points, for a host.

The one outside crate is `unicode-segmentation`: `src/segmentation.rs` takes the starts of
grapheme clusters from it. That call, and appending to a `String`, are described by
contracts that are taken on trust; everything else is proved.
