//! Tab-separated text on the clipboard. Quoted line breaks are cell data, never
//! row boundaries.
use crate::document::error::EditorDocumentError;
use crate::offset::TextRange;
use crate::selection::{EditorSelection, Selections};
use crate::text::{
    ascii_punctuation, chars_of, contains_char, decimal, is_ascii_punctuation, is_white_space,
    lemma_decimal_digits, lemma_tidy, push_decimal, trimmed, white_space,
};
use vstd::prelude::*;

verus! {

/// How the current field is read.
#[derive(Clone, Copy, Debug, PartialEq, Eq, Structural)]
pub enum TsvMode {
    /// As it stands.
    Plain,
    /// Inside quotes.
    Quoted,
    /// Behind the closing quote: the field must end here.
    Closed,
}

/// The rows that `rest` completes. `row` and `cell` are what was read of the
/// current row and field; `ended` says that the last row was just closed. `None`
/// where a quoted field is not closed, or goes on behind its closing quote.
pub open spec fn tsv_rows(
    rows: Seq<Seq<Seq<char>>>,
    row: Seq<Seq<char>>,
    cell: Seq<char>,
    mode: TsvMode,
    ended: bool,
    rest: Seq<char>,
) -> Option<Seq<Seq<Seq<char>>>>
    decreases rest.len(),
{
    let empty = Seq::<char>::empty();
    if rest.len() == 0 {
        if mode == TsvMode::Quoted {
            None
        } else if ended {
            Some(rows)
        } else {
            Some(rows.push(row.push(cell)))
        }
    } else if mode == TsvMode::Quoted {
        if rest[0] != '"' {
            tsv_rows(rows, row, cell.push(rest[0]), mode, false, rest.skip(1))
        } else if rest.len() > 1 && rest[1] == '"' {
            tsv_rows(rows, row, cell.push('"'), mode, false, rest.skip(2))
        } else {
            tsv_rows(rows, row, cell, TsvMode::Closed, false, rest.skip(1))
        }
    } else if rest[0] == '\t' {
        tsv_rows(rows, row.push(cell), empty, TsvMode::Plain, false, rest.skip(1))
    } else if rest[0] == '\r' && rest.len() > 1 && rest[1] == '\n' {
        tsv_rows(
            rows.push(row.push(cell)),
            Seq::empty(),
            empty,
            TsvMode::Plain,
            true,
            rest.skip(2),
        )
    } else if rest[0] == '\r' || rest[0] == '\n' {
        tsv_rows(
            rows.push(row.push(cell)),
            Seq::empty(),
            empty,
            TsvMode::Plain,
            true,
            rest.skip(1),
        )
    } else if mode == TsvMode::Closed {
        None
    } else if rest[0] == '"' && cell.len() == 0 {
        tsv_rows(rows, row, cell, TsvMode::Quoted, false, rest.skip(1))
    } else {
        tsv_rows(rows, row, cell.push(rest[0]), mode, false, rest.skip(1))
    }
}

/// The rows of a text.
pub open spec fn tsv_parsed(source: Seq<char>) -> Option<Seq<Seq<Seq<char>>>> {
    tsv_rows(Seq::empty(), Seq::empty(), Seq::empty(), TsvMode::Plain, false, source)
}

/// The length of the longest row.
pub open spec fn widest(rows: Seq<Seq<Seq<char>>>) -> nat
    decreases rows.len(),
{
    if rows.len() == 0 {
        0
    } else {
        let before = widest(rows.drop_last());
        if before < rows.last().len() {
            rows.last().len()
        } else {
            before
        }
    }
}

/// A row filled up with empty cells.
pub open spec fn filled(row: Seq<Seq<char>>, columns: nat) -> Seq<Seq<char>> {
    Seq::new(
        columns,
        |i: int|
            if i < row.len() {
                row[i]
            } else {
                Seq::<char>::empty()
            },
    )
}

/// The cells of all rows in turn, each row filled up.
pub open spec fn flattened(rows: Seq<Seq<Seq<char>>>, columns: nat) -> Seq<Seq<char>>
    decreases rows.len(),
{
    if rows.len() == 0 {
        Seq::empty()
    } else {
        flattened(rows.drop_last(), columns) + filled(rows.last(), columns)
    }
}

/// The characters of each string.
pub open spec fn texts(cells: Seq<String>) -> Seq<Seq<char>> {
    cells.map_values(|s: String| s@)
}

/// The characters of each string of each row.
pub open spec fn row_texts(rows: Seq<Vec<String>>) -> Seq<Seq<Seq<char>>> {
    rows.map_values(|row: Vec<String>| texts(row@))
}

/// Reads tab-separated text: the number of columns, and the cells of a grid in
/// row-major order. Short rows are filled up with empty cells.
pub fn parse_tsv(source: &str) -> (r: Result<(usize, Vec<String>), EditorDocumentError>)
    ensures
        match r {
            Ok((columns, cells)) => {
                &&& tsv_parsed(source@) matches Some(rows)
                &&& columns == widest(rows)
                &&& texts(cells@) == flattened(rows, widest(rows))
            },
            Err(e) => tsv_parsed(source@) is None && e == EditorDocumentError::InvalidTablePaste,
        },
{
    let rows = match read_rows(source) {
        Some(rows) => rows,
        None => {
            return Err(EditorDocumentError::InvalidTablePaste);
        },
    };
    let ghost views = row_texts(rows@);
    let mut columns: usize = 0;
    let mut i: usize = 0;
    assert(views.take(0) =~= Seq::empty());
    while i < rows.len()
        invariant
            views == row_texts(rows@),
            i <= rows@.len(),
            columns == widest(views.take(i as int)),
        decreases rows@.len() - i,
    {
        assert(views.take(i + 1).drop_last() =~= views.take(i as int));
        assert(views.take(i + 1).last() == texts(rows@[i as int]@));
        if columns < rows[i].len() {
            columns = rows[i].len();
        }
        i += 1;
    }
    assert(views.take(i as int) =~= views);
    let mut cells: Vec<String> = Vec::new();
    let mut k: usize = 0;
    assert(texts(cells@) =~= Seq::empty());
    while k < rows.len()
        invariant
            views == row_texts(rows@),
            k <= rows@.len(),
            texts(cells@) == flattened(views.take(k as int), columns as nat),
        decreases rows@.len() - k,
    {
        let row = &rows[k];
        let ghost before = texts(cells@);
        assert(views.take(k + 1).drop_last() =~= views.take(k as int));
        assert(views.take(k + 1).last() == texts(row@));
        let mut c: usize = 0;
        assert(before + filled(texts(row@), columns as nat).take(0) =~= before);
        while c < columns
            invariant
                c <= columns,
                texts(cells@) == before + filled(texts(row@), columns as nat).take(c as int),
            decreases columns - c,
        {
            let ghost so_far = cells@;
            if c < row.len() {
                cells.push(row[c].clone());
            } else {
                cells.push(String::new());
            }
            c += 1;
            assert(texts(cells@) =~= texts(so_far).push(cells@[so_far.len() as int]@));
            assert(texts(cells@) =~= before + filled(texts(row@), columns as nat).take(c as int));
        }
        assert(filled(texts(row@), columns as nat).take(c as int) =~= filled(
            texts(row@),
            columns as nat,
        ));
        k += 1;
    }
    assert(views.take(k as int) =~= views);
    Ok((columns, cells))
}

/// Reads the rows of a text.
fn read_rows(source: &str) -> (r: Option<Vec<Vec<String>>>)
    ensures
        match r {
            Some(rows) => tsv_parsed(source@) == Some(row_texts(rows@)),
            None => tsv_parsed(source@) is None,
        },
{
    let chars = chars_of(source);
    let ghost all = source@;
    let mut rows: Vec<Vec<String>> = Vec::new();
    let mut row: Vec<String> = Vec::new();
    let mut cell = String::new();
    let mut mode = TsvMode::Plain;
    let mut ended = false;
    let mut i: usize = 0;
    proof {
        assert(all.skip(0) =~= all);
        assert(row_texts(rows@) =~= Seq::empty());
        assert(texts(row@) =~= Seq::empty());
        assert(cell@ =~= Seq::empty());
    }
    while i < chars.len()
        invariant
            chars@ == all,
            all == source@,
            i <= all.len(),
            tsv_rows(
                row_texts(rows@),
                texts(row@),
                cell@,
                mode,
                ended,
                all.skip(i as int),
            ) == tsv_parsed(all),
        decreases all.len() - i,
    {
        let ghost rest = all.skip(i as int);
        let ch = chars[i];
        proof {
            assert(rest[0] == ch);
            assert(rest.len() > 1 ==> rest[1] == all[i + 1]);
            assert(rest.skip(1) =~= all.skip(i + 1));
            if rest.len() > 1 {
                assert(rest.skip(2) =~= all.skip(i + 2));
            }
        }
        ended = false;
        if mode == TsvMode::Quoted {
            if ch != '"' {
                cell.push(ch);
                i += 1;
            } else if i + 1 < chars.len() && chars[i + 1] == '"' {
                cell.push('"');
                i += 2;
            } else {
                mode = TsvMode::Closed;
                i += 1;
            }
            continue;
        }
        if ch == '\t' || ch == '\r' || ch == '\n' {
            let ghost row_before = texts(row@);
            row.push(cell);
            assert(texts(row@) =~= row_before.push(cell@));
            cell = String::new();
            mode = TsvMode::Plain;
            if ch != '\t' {
                let ghost rows_before = row_texts(rows@);
                let ghost finished = row;
                rows.push(row);
                assert(row_texts(rows@) =~= rows_before.push(texts(finished@)));
                row = Vec::new();
                assert(texts(row@) =~= Seq::empty());
                ended = true;
                if ch == '\r' && i + 1 < chars.len() && chars[i + 1] == '\n' {
                    i += 1;
                }
            }
            i += 1;
            continue;
        }
        if mode == TsvMode::Closed {
            return None;
        }
        if ch == '"' && cell.as_str().is_empty() {
            mode = TsvMode::Quoted;
        } else {
            cell.push(ch);
        }
        i += 1;
    }
    assert(all.skip(i as int) =~= Seq::empty());
    if mode == TsvMode::Quoted {
        return None;
    }
    if !ended {
        let ghost row_before = texts(row@);
        row.push(cell);
        assert(texts(row@) =~= row_before.push(cell@));
        let ghost rows_before = row_texts(rows@);
        let ghost finished = row;
        rows.push(row);
        assert(row_texts(rows@) =~= rows_before.push(texts(finished@)));
    }
    Some(rows)
}

/// Whether a field must be quoted.
pub open spec fn needs_quotes(text: Seq<char>) -> bool {
    text.contains('\t') || text.contains('\r') || text.contains('\n') || text.contains('"')
}

/// `text` with every quote doubled.
pub open spec fn doubled_quotes(text: Seq<char>) -> Seq<char>
    decreases text.len(),
{
    if text.len() == 0 {
        Seq::empty()
    } else if text[0] == '"' {
        seq!['"', '"'] + doubled_quotes(text.drop_first())
    } else {
        seq![text[0]] + doubled_quotes(text.drop_first())
    }
}

/// One field of tab-separated text.
pub open spec fn tsv_field(text: Seq<char>) -> Seq<char> {
    if needs_quotes(text) {
        seq!['"'] + doubled_quotes(text) + seq!['"']
    } else {
        text
    }
}

/// The first `count` cells as tab-separated text.
pub open spec fn tsv_text(columns: int, cells: Seq<Seq<char>>, count: int) -> Seq<char>
    decreases count,
{
    if count <= 0 {
        Seq::empty()
    } else {
        tsv_text(columns, cells, count - 1) + (if count == 1 {
            Seq::empty()
        } else if (count - 1) % columns == 0 {
            seq!['\n']
        } else {
            seq!['\t']
        }) + tsv_field(cells[count - 1])
    }
}

fn push_field(out: &mut String, text: &str)
    ensures
        final(out)@ == old(out)@ + tsv_field(text@),
{
    if !(contains_char(text, '\t') || contains_char(text, '\r') || contains_char(text, '\n')
        || contains_char(text, '"')) {
        out.push_str(text);
        return ;
    }
    let ghost before = out@;
    out.push('"');
    let chars = chars_of(text);
    let ghost all = text@;
    let mut i: usize = 0;
    assert(all.skip(0) =~= all);
    assert(out@ + doubled_quotes(all) =~= before + seq!['"'] + doubled_quotes(all));
    while i < chars.len()
        invariant
            chars@ == all,
            i <= all.len(),
            out@ + doubled_quotes(all.skip(i as int)) == before + seq!['"'] + doubled_quotes(all),
        decreases all.len() - i,
    {
        let ghost so_far = out@;
        assert(all.skip(i as int)[0] == all[i as int]);
        assert(all.skip(i as int).drop_first() =~= all.skip(i + 1));
        if chars[i] == '"' {
            out.push('"');
        }
        out.push(chars[i]);
        assert(out@ + doubled_quotes(all.skip(i + 1)) =~= so_far + doubled_quotes(
            all.skip(i as int),
        ));
        i += 1;
    }
    assert(all.skip(i as int) =~= Seq::empty());
    assert(out@ + Seq::<char>::empty() =~= out@);
    out.push('"');
    assert(out@ =~= before + tsv_field(text@));
}

/// Writes the visible texts of selected cells as tab-separated text. `columns` is
/// the width of the selected rectangle.
pub fn tsv_of_cells(columns: usize, cells: &Vec<String>) -> (r: String)
    requires
        columns > 0,
    ensures
        r@ == tsv_text(columns as int, texts(cells@), cells@.len() as int),
{
    let ghost all = texts(cells@);
    let mut out = String::new();
    let mut i: usize = 0;
    while i < cells.len()
        invariant
            columns > 0,
            all == texts(cells@),
            i <= cells@.len(),
            out@ == tsv_text(columns as int, all, i as int),
        decreases cells@.len() - i,
    {
        let ghost before = out@;
        if i > 0 {
            out.push(
                if i % columns == 0 {
                    '\n'
                } else {
                    '\t'
                },
            );
        }
        let ghost separated = out@;
        assert(separated =~= before + (if i == 0 {
            Seq::empty()
        } else if (i as int) % (columns as int) == 0 {
            seq!['\n']
        } else {
            seq!['\t']
        }));
        push_field(&mut out, cells[i].as_str());
        assert(all[i as int] == cells@[i as int]@);
        i += 1;
    }
    out
}

/// Whether every selection lies in a block.
pub open spec fn all_inside(ranges: Seq<EditorSelection>, block: TextRange) -> bool {
    forall|i: int|
        0 <= i < ranges.len() ==> block.start.value <= (
        #[trigger] ranges[i]).ordered().start.value && ranges[i].ordered().end.value
            <= block.end.value
}

fn lies_inside(ranges: &Vec<EditorSelection>, block: TextRange) -> (r: bool)
    ensures
        r == all_inside(ranges@, block),
{
    let mut i: usize = 0;
    while i < ranges.len()
        invariant
            i <= ranges@.len(),
            forall|k: int|
                0 <= k < i ==> block.start.value <= (
                #[trigger] ranges@[k]).ordered().start.value && ranges@[k].ordered().end.value
                    <= block.end.value,
        decreases ranges@.len() - i,
    {
        let range = ranges[i].ordered_range();
        if range.start.value < block.start.value || range.end.value > block.end.value {
            assert(!(block.start.value <= ranges@[i as int].ordered().start.value
                && ranges@[i as int].ordered().end.value <= block.end.value));
            return false;
        }
        i += 1;
    }
    true
}

/// Copies the selected cells as tab-separated text. `block` is the block that the first
/// selection starts in, and `visible` holds the visible text of each selection. `Ok(None)`
/// where no cells are selected; refused where a cell lies outside of the block.
pub fn copy_table_tsv(
    selections: &Selections,
    block: Option<TextRange>,
    visible: &Vec<String>,
) -> (r: Result<Option<String>, EditorDocumentError>)
    requires
        selections.columns() matches Some(columns) ==> columns > 0,
        visible@.len() == selections.ranges@.len(),
    ensures
        match selections.columns() {
            None => r == Ok::<Option<String>, EditorDocumentError>(None),
            Some(columns) => if selections.ranges@.len() > 0 && block is Some && all_inside(
                selections.ranges@,
                block->Some_0,
            ) {
                r matches Ok(Some(text)) && text@ == tsv_text(
                    columns as int,
                    texts(visible@),
                    visible@.len() as int,
                )
            } else {
                r == Err::<Option<String>, EditorDocumentError>(
                    EditorDocumentError::InvalidTablePaste,
                )
            },
        },
{
    let columns = match selections.table_columns() {
        Some(columns) => columns,
        None => {
            return Ok(None);
        },
    };
    if selections.ranges.len() == 0 {
        return Err(EditorDocumentError::InvalidTablePaste);
    }
    match block {
        Some(block) => {
            if !lies_inside(&selections.ranges, block) {
                return Err(EditorDocumentError::InvalidTablePaste);
            }
            Ok(Some(tsv_of_cells(columns, visible)))
        },
        None => Err(EditorDocumentError::InvalidTablePaste),
    }
}

/// Whether a field ends where `rest` starts.
spec fn field_ends(rest: Seq<char>) -> bool {
    rest.len() == 0 || rest[0] == '\t' || rest[0] == '\n' || rest[0] == '\r'
}

proof fn lemma_plain_field(
    rows: Seq<Seq<Seq<char>>>,
    row: Seq<Seq<char>>,
    cell: Seq<char>,
    ended: bool,
    text: Seq<char>,
    rest: Seq<char>,
)
    requires
        !needs_quotes(text),
    ensures
        tsv_rows(rows, row, cell, TsvMode::Plain, ended, text + rest) == tsv_rows(
            rows,
            row,
            cell + text,
            TsvMode::Plain,
            ended && text.len() == 0,
            rest,
        ),
    decreases text.len(),
{
    if text.len() == 0 {
        assert(text + rest =~= rest);
        assert(cell + text =~= cell);
    } else {
        let tail = text.drop_first();
        let whole = text + rest;
        assert(whole[0] == text[0]);
        assert(whole.skip(1) =~= tail + rest);
        assert(text.contains(text[0]));
        assert(!needs_quotes(tail)) by {
            assert forall|c: char| tail.contains(c) implies text.contains(c) by {
                let k = choose|k: int| 0 <= k < tail.len() && tail[k] == c;
                assert(text[k + 1] == c);
            }
        }
        lemma_plain_field(rows, row, cell.push(text[0]), false, tail, rest);
        assert(cell.push(text[0]) + tail =~= cell + text);
    }
}

proof fn lemma_quoted_field(
    rows: Seq<Seq<Seq<char>>>,
    row: Seq<Seq<char>>,
    cell: Seq<char>,
    ended: bool,
    text: Seq<char>,
    rest: Seq<char>,
)
    requires
        field_ends(rest),
    ensures
        tsv_rows(
            rows,
            row,
            cell,
            TsvMode::Quoted,
            ended,
            doubled_quotes(text) + seq!['"'] + rest,
        ) == tsv_rows(rows, row, cell + text, TsvMode::Closed, false, rest),
    decreases text.len(),
{
    let whole = doubled_quotes(text) + seq!['"'] + rest;
    if text.len() == 0 {
        assert(whole =~= seq!['"'] + rest);
        assert(whole.skip(1) =~= rest);
        assert(whole.len() > 1 ==> whole[1] == rest[0]);
        assert(cell + text =~= cell);
    } else {
        let tail = text.drop_first();
        let inner = doubled_quotes(tail) + seq!['"'] + rest;
        lemma_quoted_field(rows, row, cell.push(text[0]), false, tail, rest);
        assert(cell.push(text[0]) + tail =~= cell + text);
        if text[0] == '"' {
            assert(whole =~= seq!['"', '"'] + inner);
            assert(whole.skip(2) =~= inner);
        } else {
            assert(whole =~= seq![text[0]] + inner);
            assert(whole.skip(1) =~= inner);
        }
    }
}

/// Reading a written field gives the field back.
proof fn lemma_field(
    rows: Seq<Seq<Seq<char>>>,
    row: Seq<Seq<char>>,
    ended: bool,
    text: Seq<char>,
    rest: Seq<char>,
)
    requires
        field_ends(rest),
    ensures
        ({
            let mode = if needs_quotes(text) {
                TsvMode::Closed
            } else {
                TsvMode::Plain
            };
            tsv_rows(
                rows,
                row,
                Seq::empty(),
                TsvMode::Plain,
                ended,
                tsv_field(text) + rest,
            ) == tsv_rows(rows, row, text, mode, ended && text.len() == 0, rest)
        }),
{
    let empty = Seq::<char>::empty();
    assert(empty + text =~= text);
    if needs_quotes(text) {
        let whole = tsv_field(text) + rest;
        assert(whole[0] == '"');
        assert(whole.skip(1) =~= doubled_quotes(text) + seq!['"'] + rest);
        lemma_quoted_field(rows, row, empty, false, text, rest);
        assert(text.len() > 0);
    } else {
        lemma_plain_field(rows, row, empty, ended, text, rest);
    }
}

/// What separates cell `k` from the one before it.
spec fn separator(columns: int, k: int) -> Seq<char> {
    if k % columns == 0 {
        seq!['\n']
    } else {
        seq!['\t']
    }
}

/// The written cells from `k` on.
spec fn tsv_rest(columns: int, cells: Seq<Seq<char>>, k: int) -> Seq<char>
    decreases cells.len() - k,
{
    if k >= cells.len() {
        Seq::empty()
    } else if k + 1 == cells.len() {
        tsv_field(cells[k])
    } else {
        tsv_field(cells[k]) + separator(columns, k + 1) + tsv_rest(columns, cells, k + 1)
    }
}

proof fn lemma_tsv_rest(columns: int, cells: Seq<Seq<char>>, k: int)
    requires
        columns > 0,
        0 < k <= cells.len(),
    ensures
        tsv_text(columns, cells, cells.len() as int) == (if k == cells.len() {
            tsv_text(columns, cells, k)
        } else {
            tsv_text(columns, cells, k) + separator(columns, k) + tsv_rest(columns, cells, k)
        }),
    decreases cells.len() - k,
{
    if k < cells.len() {
        lemma_tsv_rest(columns, cells, k + 1);
        let here = tsv_text(columns, cells, k + 1);
        assert(here =~= tsv_text(columns, cells, k) + separator(columns, k) + tsv_field(cells[k]));
        assert(tsv_text(columns, cells, cells.len() as int) =~= tsv_text(columns, cells, k)
            + separator(columns, k) + tsv_rest(columns, cells, k));
    }
}

/// The rows of a grid of cells.
pub open spec fn grid_rows_of(columns: int, cells: Seq<Seq<char>>, rows: nat) -> Seq<Seq<Seq<char>>> {
    Seq::new(rows, |r: int| cells.subrange(r * columns, r * columns + columns))
}

proof fn lemma_read_rest(columns: int, cells: Seq<Seq<char>>, rows: nat, r: int, c: int)
    requires
        columns > 0,
        cells.len() == rows * columns,
        0 <= r < rows,
        0 <= c < columns,
        columns > 1 || rows == 1 || cells.last().len() > 0,
    ensures
        ({
            let k = r * columns + c;
            tsv_rows(
                grid_rows_of(columns, cells, r as nat),
                cells.subrange(r * columns, k),
                Seq::empty(),
                TsvMode::Plain,
                k > 0 && c == 0,
                tsv_rest(columns, cells, k),
            ) == Some(grid_rows_of(columns, cells, rows))
        }),
    decreases cells.len() - (r * columns + c),
{
    let k = r * columns + c;
    let done = grid_rows_of(columns, cells, r as nat);
    let row = cells.subrange(r * columns, k);
    let ended = k > 0 && c == 0;
    assert(0 <= r * columns && k < rows * columns && (r + 1) * columns == r * columns + columns && (r
        + 1) * columns <= rows * columns) by (nonlinear_arith)
        requires
            k == r * columns + c,
            0 <= r < rows,
            0 <= c < columns,
    ;
    let text = cells[k];
    assert(row.push(text) =~= cells.subrange(r * columns, k + 1));
    vstd::arithmetic::div_mod::lemma_fundamental_div_mod_converse(k, columns, r, c);
    if k + 1 == cells.len() {
        // The last cell of the last row.
        assert(r + 1 == rows && c + 1 == columns) by (nonlinear_arith)
            requires
                r * columns + c + 1 == rows * columns,
                0 <= r < rows,
                0 <= c < columns,
        ;
        let rest = Seq::<char>::empty();
        assert(tsv_field(text) + rest =~= tsv_field(text));
        lemma_field(done, row, ended, text, rest);
        if ended && text.len() == 0 {
            assert(c == 0 && columns == 1);
            assert(rows == 1);
            assert(r * columns == 0) by (nonlinear_arith)
                requires
                    r == 0,
            ;
        }
        assert(done.push(row.push(text)) =~= grid_rows_of(columns, cells, rows)) by {
            assert forall|i: int| 0 <= i < rows implies done.push(row.push(text))[i]
                == #[trigger] grid_rows_of(columns, cells, rows)[i] by {
                if i == r {
                    assert(k + 1 == r * columns + columns);
                }
            }
        }
    } else {
        let after = tsv_rest(columns, cells, k + 1);
        let rest = separator(columns, k + 1) + after;
        assert(tsv_rest(columns, cells, k) =~= tsv_field(text) + rest);
        lemma_field(done, row, ended, text, rest);
        assert(rest.skip(1) =~= after);
        if c + 1 < columns {
            vstd::arithmetic::div_mod::lemma_fundamental_div_mod_converse(k + 1, columns, r, c + 1);
            assert(rest[0] == '\t');
            lemma_read_rest(columns, cells, rows, r, c + 1);
        } else {
            vstd::arithmetic::div_mod::lemma_fundamental_div_mod_converse(k + 1, columns, r + 1, 0);
            assert(rest[0] == '\n');
            assert(r + 1 < rows) by (nonlinear_arith)
                requires
                    (r + 1) * columns < rows * columns,
                    0 < columns,
            ;
            lemma_read_rest(columns, cells, rows, r + 1, 0);
            assert(done.push(row.push(text)) =~= grid_rows_of(columns, cells, (r + 1) as nat)) by {
                assert forall|i: int| 0 <= i < r + 1 implies done.push(row.push(text))[i]
                    == #[trigger] grid_rows_of(columns, cells, (r + 1) as nat)[i] by {
                    if i == r {
                        assert(k + 1 == r * columns + columns);
                    }
                }
            }
            assert(cells.subrange((r + 1) * columns, k + 1) =~= Seq::empty());
        }
    }
}

proof fn lemma_grid_flattens(columns: int, cells: Seq<Seq<char>>, rows: nat)
    requires
        columns > 0,
        rows * columns <= cells.len(),
    ensures
        flattened(grid_rows_of(columns, cells, rows), columns as nat) == cells.take(rows * columns),
        rows > 0 ==> widest(grid_rows_of(columns, cells, rows)) == columns,
    decreases rows,
{
    let all = grid_rows_of(columns, cells, rows);
    if rows > 0 {
        let fewer = (rows - 1) as nat;
        assert(fewer * columns + columns == rows * columns) by (nonlinear_arith)
            requires
                fewer == rows - 1,
        ;
        assert(fewer * columns >= 0) by (nonlinear_arith)
            requires
                columns > 0,
                fewer >= 0,
        ;
        lemma_grid_flattens(columns, cells, fewer);
        assert(all.drop_last() =~= grid_rows_of(columns, cells, fewer));
        let row = all.last();
        assert(row == cells.subrange(fewer * columns, fewer * columns + columns));
        assert(filled(row, columns as nat) =~= row);
        assert(cells.take(fewer * columns) + row =~= cells.take(rows * columns));
        if fewer == 0 {
            assert(all.drop_last() =~= Seq::empty());
        }
    } else {
        assert(rows * columns == 0) by (nonlinear_arith)
            requires
                rows == 0,
        ;
        assert(cells.take(0) =~= Seq::empty());
        assert(all =~= Seq::empty());
    }
}

/// Copied cells are read back as they were: what a selected rectangle is written
/// as reads as the same grid. A column of several cells whose last one is empty
/// is left out: its text ends in a line break that closes the row before.
pub proof fn law_copied_cells_read_back(columns: int, cells: Seq<Seq<char>>, rows: nat)
    requires
        columns > 0,
        rows > 0,
        cells.len() == rows * columns,
        columns > 1 || rows == 1 || cells.last().len() > 0,
    ensures
        ({
            let copied = tsv_text(columns, cells, cells.len() as int);
            &&& tsv_parsed(copied) matches Some(read)
            &&& widest(read) == columns
            &&& flattened(read, widest(read)) == cells
        }),
{
    assert(rows * columns > 0) by (nonlinear_arith)
        requires
            rows > 0,
            columns > 0,
    ;
    let copied = tsv_text(columns, cells, cells.len() as int);
    lemma_tsv_rest(columns, cells, 1);
    assert(tsv_text(columns, cells, 1) =~= tsv_field(cells[0])) by {
        assert(tsv_text(columns, cells, 0) =~= Seq::empty());
    }
    assert(copied =~= tsv_rest(columns, cells, 0));
    assert(0 * columns == 0) by (nonlinear_arith);
    lemma_read_rest(columns, cells, rows, 0, 0);
    assert(grid_rows_of(columns, cells, 0) =~= Seq::empty());
    assert(cells.subrange(0, 0) =~= Seq::empty());
    lemma_grid_flattens(columns, cells, rows);
    assert(cells.take(rows * columns) =~= cells);
}

/// A field in quotes, those inside of it doubled.
pub open spec fn quoted_field(text: Seq<char>) -> Seq<char> {
    seq!['"'] + doubled_quotes(text) + seq!['"']
}

/// Whether a text is one of the three line breaks.
pub open spec fn row_break(text: Seq<char>) -> bool {
    text == seq!['\n'] || text == seq!['\r'] || text == seq!['\r', '\n']
}

/// What separates cell `k` from the one before it: a tab inside of a row, else the break
/// behind the row.
pub open spec fn quoted_separator(columns: int, breaks: Seq<Seq<char>>, k: int) -> Seq<char> {
    if k % columns == 0 {
        breaks[k / columns - 1]
    } else {
        seq!['\t']
    }
}

/// The cells from `k` on, each in quotes.
pub open spec fn quoted_cells(
    columns: int,
    cells: Seq<Seq<char>>,
    breaks: Seq<Seq<char>>,
    k: int,
) -> Seq<char>
    decreases cells.len() - k,
{
    if k >= cells.len() {
        Seq::empty()
    } else if k + 1 == cells.len() {
        quoted_field(cells[k])
    } else {
        quoted_field(cells[k]) + quoted_separator(columns, breaks, k + 1) + quoted_cells(
            columns,
            cells,
            breaks,
            k + 1,
        )
    }
}

proof fn lemma_whole_quoted_field(
    rows: Seq<Seq<Seq<char>>>,
    row: Seq<Seq<char>>,
    ended: bool,
    text: Seq<char>,
    rest: Seq<char>,
)
    requires
        field_ends(rest),
    ensures
        tsv_rows(
            rows,
            row,
            Seq::empty(),
            TsvMode::Plain,
            ended,
            quoted_field(text) + rest,
        ) == tsv_rows(rows, row, text, TsvMode::Closed, false, rest),
{
    let empty = Seq::<char>::empty();
    assert(empty + text =~= text);
    let whole = quoted_field(text) + rest;
    assert(whole[0] == '"');
    assert(whole.skip(1) =~= doubled_quotes(text) + seq!['"'] + rest);
    lemma_quoted_field(rows, row, empty, false, text, rest);
}

proof fn lemma_read_quoted(
    columns: int,
    cells: Seq<Seq<char>>,
    breaks: Seq<Seq<char>>,
    rows: nat,
    r: int,
    c: int,
)
    requires
        columns > 0,
        cells.len() == rows * columns,
        breaks.len() + 1 >= rows,
        forall|i: int| 0 <= i < breaks.len() ==> row_break(#[trigger] breaks[i]),
        0 <= r < rows,
        0 <= c < columns,
    ensures
        ({
            let k = r * columns + c;
            tsv_rows(
                grid_rows_of(columns, cells, r as nat),
                cells.subrange(r * columns, k),
                Seq::empty(),
                TsvMode::Plain,
                k > 0 && c == 0,
                quoted_cells(columns, cells, breaks, k),
            ) == Some(grid_rows_of(columns, cells, rows))
        }),
    decreases cells.len() - (r * columns + c),
{
    let k = r * columns + c;
    let done = grid_rows_of(columns, cells, r as nat);
    let row = cells.subrange(r * columns, k);
    let ended = k > 0 && c == 0;
    assert(0 <= r * columns && k < rows * columns && (r + 1) * columns == r * columns + columns && (r
        + 1) * columns <= rows * columns) by (nonlinear_arith)
        requires
            k == r * columns + c,
            0 <= r < rows,
            0 <= c < columns,
    ;
    let text = cells[k];
    assert(row.push(text) =~= cells.subrange(r * columns, k + 1));
    if k + 1 == cells.len() {
        assert(r + 1 == rows && c + 1 == columns) by (nonlinear_arith)
            requires
                r * columns + c + 1 == rows * columns,
                0 <= r < rows,
                0 <= c < columns,
        ;
        let rest = Seq::<char>::empty();
        assert(quoted_field(text) + rest =~= quoted_field(text));
        lemma_whole_quoted_field(done, row, ended, text, rest);
        assert(done.push(row.push(text)) =~= grid_rows_of(columns, cells, rows)) by {
            assert forall|i: int| 0 <= i < rows implies done.push(row.push(text))[i]
                == #[trigger] grid_rows_of(columns, cells, rows)[i] by {
                if i == r {
                    assert(k + 1 == r * columns + columns);
                }
            }
        }
    } else {
        let after = quoted_cells(columns, cells, breaks, k + 1);
        let between = quoted_separator(columns, breaks, k + 1);
        let rest = between + after;
        assert(quoted_cells(columns, cells, breaks, k) =~= quoted_field(text) + rest);
        assert(after[0] == '"');
        if c + 1 < columns {
            vstd::arithmetic::div_mod::lemma_fundamental_div_mod_converse(k + 1, columns, r, c + 1);
            assert(rest[0] == '\t');
            lemma_whole_quoted_field(done, row, ended, text, rest);
            assert(rest.skip(1) =~= after);
            lemma_read_quoted(columns, cells, breaks, rows, r, c + 1);
        } else {
            vstd::arithmetic::div_mod::lemma_fundamental_div_mod_converse(k + 1, columns, r + 1, 0);
            assert(r + 1 < rows) by (nonlinear_arith)
                requires
                    (r + 1) * columns < rows * columns,
                    0 < columns,
            ;
            assert(between == breaks[r]);
            assert(row_break(breaks[r]));
            assert(rest[0] == '\n' || rest[0] == '\r');
            lemma_whole_quoted_field(done, row, ended, text, rest);
            assert(rest[1] == (if between.len() == 2 {
                '\n'
            } else {
                '"'
            }));
            assert(rest.skip(between.len() as int) =~= after);
            lemma_read_quoted(columns, cells, breaks, rows, r + 1, 0);
            assert(done.push(row.push(text)) =~= grid_rows_of(columns, cells, (r + 1) as nat)) by {
                assert forall|i: int| 0 <= i < r + 1 implies done.push(row.push(text))[i]
                    == #[trigger] grid_rows_of(columns, cells, (r + 1) as nat)[i] by {
                    if i == r {
                        assert(k + 1 == r * columns + columns);
                    }
                }
            }
            assert(cells.subrange((r + 1) * columns, k + 1) =~= Seq::empty());
        }
    }
}

/// A grid whose cells are all in quotes is read back as it was, whichever breaks part its
/// rows: tabs, breaks and quotes inside of a cell never begin a field or a row.
pub proof fn law_quoted_cells_read_back(
    columns: int,
    cells: Seq<Seq<char>>,
    breaks: Seq<Seq<char>>,
    rows: nat,
)
    requires
        columns > 0,
        rows > 0,
        cells.len() == rows * columns,
        breaks.len() + 1 == rows,
        forall|i: int| 0 <= i < breaks.len() ==> row_break(#[trigger] breaks[i]),
    ensures
        ({
            let source = quoted_cells(columns, cells, breaks, 0);
            &&& tsv_parsed(source) matches Some(read)
            &&& widest(read) == columns
            &&& flattened(read, widest(read)) == cells
        }),
{
    assert(0 * columns == 0) by (nonlinear_arith);
    lemma_read_quoted(columns, cells, breaks, rows, 0, 0);
    assert(grid_rows_of(columns, cells, 0) =~= Seq::empty());
    assert(cells.subrange(0, 0) =~= Seq::empty());
    lemma_grid_flattens(columns, cells, rows);
    assert(cells.take(rows * columns) =~= cells);
}

/// Whether a text fits on one line of a pipe table: no line break and no tab.
pub open spec fn one_line(text: Seq<char>) -> bool {
    forall|k: int|
        0 <= k < text.len() ==> (#[trigger] text[k]) != '\n' && text[k] != '\r' && text[k] != '\t'
}

proof fn lemma_markdown_char(cell: Seq<char>, i: int)
    requires
        0 <= i < cell.len(),
        cell[i] != '\n',
        cell[i] != '\r',
    ensures
        ({
            let made = markdown_char(cell, i);
            &&& made.len() > 0
            &&& one_line(made)
            &&& i == 0 ==> !white_space(made[0])
            &&& i + 1 == cell.len() ==> !white_space(made.last())
        }),
{
    let c = cell[i];
    let made = markdown_char(cell, i);
    reveal_strlit("&#");
    reveal_strlit(";");
    if c == '\t' || (white_space(c) && (leads_blank(cell, i) || trails_blank(cell, i))) {
        let digits = decimal(c as u32 as nat);
        assert forall|k: int| 0 <= k < made.len() implies (#[trigger] made[k]) != '\n' && made[k]
            != '\r' && made[k] != '\t' by {
            if 2 <= k < 2 + digits.len() {
                lemma_decimal_digits(c as u32 as nat, k - 2);
                assert(made[k] == digits[k - 2]);
            }
        }
        assert(made.last() == ';');
        assert(made[0] == '&');
    } else if white_space(c) {
        assert(!leads_blank(cell, i) && !trails_blank(cell, i));
        if i == 0 {
            assert(leads_blank(cell, 0));
        }
        if i + 1 == cell.len() {
            assert(trails_blank(cell, i));
        }
    }
}

proof fn lemma_markdown_cell(cell: Seq<char>, i: int)
    requires
        0 <= i <= cell.len(),
    ensures
        one_line(markdown_cell(cell, i)),
        i < cell.len() ==> markdown_cell(cell, i).len() > 0,
        i < cell.len() ==> !white_space(markdown_cell(cell, i).last()),
        i == 0 && cell.len() > 0 ==> !white_space(markdown_cell(cell, i)[0]),
    decreases cell.len() - i,
{
    if i < cell.len() {
        reveal_strlit("<br>");
        let step: int = if cell[i] == '\r' && i + 1 < cell.len() && cell[i + 1] == '\n' {
            2
        } else {
            1
        };
        let tail = markdown_cell(cell, i + step);
        lemma_markdown_cell(cell, i + step);
        let head = if cell[i] == '\r' || cell[i] == '\n' {
            "<br>"@
        } else {
            markdown_char(cell, i)
        };
        if !(cell[i] == '\r' || cell[i] == '\n') {
            lemma_markdown_char(cell, i);
        }
        let all = head + tail;
        assert(all == markdown_cell(cell, i));
        assert forall|k: int| 0 <= k < all.len() implies (#[trigger] all[k]) != '\n' && all[k]
            != '\r' && all[k] != '\t' by {
            if k < head.len() {
                assert(all[k] == head[k]);
            } else {
                assert(all[k] == tail[k - head.len()]);
            }
        }
        assert(all[0] == head[0]);
        if tail.len() > 0 {
            assert(all.last() == tail.last());
        } else {
            assert(all.last() == head.last());
        }
    }
}

/// Every cell that is read from tab-separated text fits on one line of a pipe table, has no
/// white space at its ends, and is empty only where its field was.
pub proof fn law_pasted_cells_fit_one_line(source: Seq<char>, i: int)
    requires
        tsv_parsed(source) matches Some(rows) && 0 <= i < flattened(rows, widest(rows)).len(),
    ensures
        ({
            let rows = tsv_parsed(source)->Some_0;
            let field = flattened(rows, widest(rows))[i];
            let cell = markdown_cell(field, 0);
            &&& one_line(cell)
            &&& trimmed(cell) == cell
            &&& cell.len() == 0 ==> field.len() == 0
        }),
{
    let rows = tsv_parsed(source)->Some_0;
    let field = flattened(rows, widest(rows))[i];
    lemma_markdown_cell(field, 0);
    lemma_tidy(markdown_cell(field, 0));
}

/// Whether everything up to and including character `i` is white space.
pub open spec fn leads_blank(cell: Seq<char>, i: int) -> bool {
    forall|k: int| 0 <= k <= i ==> white_space(#[trigger] cell[k])
}

/// Whether everything from character `i` on is white space.
pub open spec fn trails_blank(cell: Seq<char>, i: int) -> bool {
    forall|k: int| i <= k < cell.len() ==> white_space(#[trigger] cell[k])
}

/// The source of plain character `i` of a cell in a pipe table: tabs and white
/// space at the edges as references, punctuation escaped.
pub open spec fn markdown_char(cell: Seq<char>, i: int) -> Seq<char> {
    let c = cell[i];
    if c == '\t' || (white_space(c) && (leads_blank(cell, i) || trails_blank(cell, i))) {
        "&#"@ + decimal(c as u32 as nat) + ";"@
    } else if ascii_punctuation(c) {
        seq!['\\', c]
    } else {
        seq![c]
    }
}

/// The source of a cell from character `i` on. Each line break becomes a tag.
pub open spec fn markdown_cell(cell: Seq<char>, i: int) -> Seq<char>
    decreases cell.len() - i,
{
    if i >= cell.len() {
        Seq::empty()
    } else if cell[i] == '\r' && i + 1 < cell.len() && cell[i + 1] == '\n' {
        "<br>"@ + markdown_cell(cell, i + 2)
    } else if cell[i] == '\r' || cell[i] == '\n' {
        "<br>"@ + markdown_cell(cell, i + 1)
    } else {
        markdown_char(cell, i) + markdown_cell(cell, i + 1)
    }
}

/// Writes a field's text so that a pipe table shows it literally.
fn encode_cell(cell: &str) -> (r: String)
    ensures
        r@ == markdown_cell(cell@, 0),
{
    let chars = chars_of(cell);
    let ghost all = cell@;
    let mut lead: usize = 0;
    while lead < chars.len() && is_white_space(chars[lead])
        invariant
            chars@ == all,
            lead <= all.len(),
            forall|k: int| 0 <= k < lead ==> white_space(#[trigger] all[k]),
        decreases all.len() - lead,
    {
        lead += 1;
    }
    let mut trail: usize = chars.len();
    while trail > 0 && is_white_space(chars[trail - 1])
        invariant
            chars@ == all,
            trail <= all.len(),
            forall|k: int| trail <= k < all.len() ==> white_space(#[trigger] all[k]),
        decreases trail,
    {
        trail -= 1;
    }
    let mut out = String::new();
    let mut i: usize = 0;
    assert(out@ + markdown_cell(all, 0) =~= markdown_cell(all, 0));
    while i < chars.len()
        invariant
            chars@ == all,
            lead <= all.len(),
            trail <= all.len(),
            forall|k: int| 0 <= k < lead ==> white_space(#[trigger] all[k]),
            lead < all.len() ==> !white_space(all[lead as int]),
            forall|k: int| trail <= k < all.len() ==> white_space(#[trigger] all[k]),
            trail > 0 ==> !white_space(all[trail - 1]),
            i <= all.len(),
            out@ + markdown_cell(all, i as int) == markdown_cell(all, 0),
        decreases all.len() - i,
    {
        let ghost before = out@;
        let c = chars[i];
        if c == '\r' || c == '\n' {
            out.push_str("<br>");
            let two = c == '\r' && i + 1 < chars.len() && chars[i + 1] == '\n';
            assert(out@ + markdown_cell(all, i + (if two {
                2int
            } else {
                1int
            })) =~= before + markdown_cell(all, i as int));
            if two {
                i += 1;
            }
            i += 1;
            continue;
        }
        proof {
            assert(leads_blank(all, i as int) <==> i < lead) by {
                if i >= lead && leads_blank(all, i as int) {
                    assert(white_space(all[lead as int]));
                }
            }
            assert(trails_blank(all, i as int) <==> i >= trail) by {
                if i < trail && trails_blank(all, i as int) {
                    assert(white_space(all[trail - 1]));
                }
            }
        }
        if c == '\t' || (is_white_space(c) && (i < lead || i >= trail)) {
            out.push_str("&#");
            push_decimal(&mut out, c as u32 as u64);
            out.push_str(";");
            assert(out@ =~= before + markdown_char(all, i as int));
        } else {
            if is_ascii_punctuation(c) {
                out.push('\\');
            }
            out.push(c);
            assert(out@ =~= before + markdown_char(all, i as int));
        }
        assert(out@ + markdown_cell(all, i + 1) =~= before + markdown_cell(all, i as int));
        i += 1;
    }
    assert(out@ + Seq::<char>::empty() =~= out@);
    out
}

/// Reads tab-separated text as cells of a pipe table that show it literally.
pub fn tsv_grid(source: &str) -> (r: Result<(usize, Vec<String>), EditorDocumentError>)
    ensures
        match r {
            Ok((columns, cells)) => {
                &&& tsv_parsed(source@) matches Some(rows)
                &&& columns == widest(rows)
                &&& texts(cells@) == flattened(rows, widest(rows)).map_values(
                    |cell: Seq<char>| markdown_cell(cell, 0),
                )
            },
            Err(e) => tsv_parsed(source@) is None && e == EditorDocumentError::InvalidTablePaste,
        },
{
    let (columns, cells) = match parse_tsv(source) {
        Ok(grid) => grid,
        Err(error) => {
            return Err(error);
        },
    };
    let mut out: Vec<String> = Vec::new();
    let mut i: usize = 0;
    while i < cells.len()
        invariant
            i <= cells@.len(),
            out@.len() == i,
            forall|k: int| 0 <= k < i ==> (#[trigger] out@[k])@ == markdown_cell(cells@[k]@, 0),
        decreases cells@.len() - i,
    {
        out.push(encode_cell(cells[i].as_str()));
        i += 1;
    }
    assert(texts(out@) =~= texts(cells@).map_values(|cell: Seq<char>| markdown_cell(cell, 0)));
    Ok((columns, out))
}

/// Whether `c` is a mark of ASCII, which may have a meaning in Markdown: neither a letter,
/// nor a digit, nor a blank, nor a control character.
pub open spec fn markdown_mark(c: char) -> bool {
    '!' <= c <= '~' && !('0' <= c <= '9') && !('A' <= c <= 'Z') && !('a' <= c <= 'z')
}

/// Where the digits that start at `from` end.
pub open spec fn reference_digits(source: Seq<char>, from: int) -> int
    decreases source.len() - from,
{
    if 0 <= from < source.len() && '0' <= source[from] <= '9' {
        reference_digits(source, from + 1)
    } else {
        from
    }
}

/// Whether Markdown starts with a reference to a character by its number.
pub open spec fn starts_reference(source: Seq<char>) -> bool {
    let end = reference_digits(source, 2);
    source.len() > 2 && source[0] == '&' && source[1] == '#' && 2 < end < source.len()
        && source[end] == ';'
}

/// Whether Markdown starts with a mark that a backslash makes a plain character.
pub open spec fn starts_escape(source: Seq<char>) -> bool {
    source.len() > 1 && source[0] == '\\' && markdown_mark(source[1])
}

/// Whether Markdown starts with the tag of a line break.
pub open spec fn starts_break(source: Seq<char>) -> bool {
    source.len() > 3 && source[0] == '<' && source[1] == 'b' && source[2] == 'r' && source[3]
        == '>'
}

/// How many characters the first character that Markdown shows is written with.
pub open spec fn unit_len(source: Seq<char>) -> int {
    if starts_escape(source) {
        2
    } else if starts_break(source) {
        4
    } else if starts_reference(source) {
        reference_digits(source, 2) + 1
    } else {
        1
    }
}

/// Whether `number` is the number of a character.
pub open spec fn has_number(c: char, number: nat) -> bool {
    c as u32 as nat == number
}

/// The first character that Markdown shows.
pub open spec fn unit_shows(source: Seq<char>) -> char {
    if starts_escape(source) {
        source[1]
    } else if starts_break(source) {
        '\n'
    } else if starts_reference(source) {
        let number = crate::list::number_of(source.subrange(2, reference_digits(source, 2)));
        choose|c: char| #[trigger] has_number(c, number)
    } else {
        source[0]
    }
}

/// What the source of a cell shows: escaped marks, referenced characters and line breaks
/// stand for what they name, and every other character for itself.
pub open spec fn shown(source: Seq<char>) -> Seq<char>
    decreases source.len(),
{
    if source.len() == 0 {
        Seq::empty()
    } else if 0 < unit_len(source) <= source.len() {
        seq![unit_shows(source)] + shown(source.skip(unit_len(source)))
    } else {
        source
    }
}

/// Whether a cell's source is literal: no mark stands for itself, so that none has a meaning.
pub open spec fn literal(source: Seq<char>) -> bool
    decreases source.len(),
{
    if source.len() == 0 {
        true
    } else if 0 < unit_len(source) <= source.len() {
        (unit_len(source) == 1 ==> !markdown_mark(source[0])) && literal(
            source.skip(unit_len(source)),
        )
    } else {
        false
    }
}

/// A text in which every line break is a line feed.
pub open spec fn with_line_feeds(text: Seq<char>) -> Seq<char>
    decreases text.len(),
{
    if text.len() == 0 {
        Seq::empty()
    } else if text.len() > 1 && text[0] == '\r' && text[1] == '\n' {
        seq!['\n'] + with_line_feeds(text.skip(2))
    } else if text[0] == '\r' {
        seq!['\n'] + with_line_feeds(text.skip(1))
    } else {
        seq![text[0]] + with_line_feeds(text.skip(1))
    }
}

/// The digits of a reference end at its semicolon.
proof fn lemma_reference(value: nat, tail: Seq<char>, from: int)
    requires
        0 <= from <= decimal(value).len(),
    ensures
        reference_digits("&#"@ + decimal(value) + ";"@ + tail, 2 + from) == 2 + decimal(value).len(),
    decreases decimal(value).len() - from,
{
    reveal_strlit("&#");
    reveal_strlit(";");
    let digits = decimal(value);
    let source = "&#"@ + digits + ";"@ + tail;
    if from < digits.len() {
        lemma_decimal_digits(value, from);
        assert(source[2 + from] == digits[from]);
        lemma_reference(value, tail, from + 1);
    } else {
        assert(source[2 + from] == ';');
    }
}

/// What one plain character is written as shows that character, and nothing else.
proof fn lemma_shown_char(cell: Seq<char>, i: int, tail: Seq<char>)
    requires
        0 <= i < cell.len(),
        cell[i] != '\n',
        cell[i] != '\r',
    ensures
        ({
            let made = markdown_char(cell, i);
            let source = made + tail;
            &&& unit_len(source) == made.len()
            &&& unit_shows(source) == cell[i]
            &&& source.skip(unit_len(source)) == tail
            &&& made.len() == 1 ==> !markdown_mark(made[0])
            &&& made.len() > 0
        }),
{
    let c = cell[i];
    let made = markdown_char(cell, i);
    let source = made + tail;
    reveal_strlit("&#");
    reveal_strlit(";");
    assert(source.skip(made.len() as int) =~= tail);
    assert(markdown_mark('\\') && markdown_mark('<') && markdown_mark('&'));
    if c == '\t' || (white_space(c) && (leads_blank(cell, i) || trails_blank(cell, i))) {
        let value = c as u32 as nat;
        let digits = decimal(value);
        lemma_reference(value, tail, 0);
        crate::list::lemma_number_reads_back(value);
        assert(source =~= "&#"@ + digits + ";"@ + tail);
        assert(source[0] == '&' && source[1] == '#');
        assert(source[digits.len() + 2int] == ';');
        assert(source.subrange(2, digits.len() + 2int) =~= digits);
        assert(has_number(c, value));
    } else if ascii_punctuation(c) {
        assert(source[0] == '\\' && source[1] == c);
        assert(markdown_mark(c));
    } else {
        assert(source[0] == c);
        assert(!markdown_mark(c));
    }
}

proof fn lemma_shown_cell(cell: Seq<char>, i: int)
    requires
        0 <= i <= cell.len(),
    ensures
        shown(markdown_cell(cell, i)) == with_line_feeds(cell.skip(i)),
        literal(markdown_cell(cell, i)),
    decreases cell.len() - i,
{
    let source = markdown_cell(cell, i);
    let rest = cell.skip(i);
    if i < cell.len() {
        assert(rest[0] == cell[i]);
        assert(rest.len() > 1 ==> rest[1] == cell[i + 1]);
        assert(rest.skip(1) =~= cell.skip(i + 1));
        if cell[i] == '\r' || cell[i] == '\n' {
            reveal_strlit("<br>");
            let two = cell[i] == '\r' && i + 1 < cell.len() && cell[i + 1] == '\n';
            let next = if two {
                i + 2
            } else {
                i + 1
            };
            if two {
                assert(rest.skip(2) =~= cell.skip(i + 2));
            }
            let tail = markdown_cell(cell, next);
            lemma_shown_cell(cell, next);
            assert(source == "<br>"@ + tail);
            assert(source.skip(4) =~= tail);
            assert(source[0] == '<' && source[1] == 'b' && source[2] == 'r' && source[3] == '>');
        } else {
            let tail = markdown_cell(cell, i + 1);
            lemma_shown_cell(cell, i + 1);
            lemma_shown_char(cell, i, tail);
            assert(source == markdown_char(cell, i) + tail);
        }
    }
}

/// A field that is pasted into a table shows as it was: reading the cell's source back gives
/// the field's text, with a line feed for each of its line breaks, and no mark of the field
/// stands in the source without a backslash before it.
pub proof fn law_pasted_cells_show_their_fields(source: Seq<char>, i: int)
    requires
        tsv_parsed(source) matches Some(rows) && 0 <= i < flattened(rows, widest(rows)).len(),
    ensures
        ({
            let rows = tsv_parsed(source)->Some_0;
            let field = flattened(rows, widest(rows))[i];
            let cell = markdown_cell(field, 0);
            &&& shown(cell) == with_line_feeds(field)
            &&& literal(cell)
        }),
{
    let rows = tsv_parsed(source)->Some_0;
    law_encoded_text_is_literal(flattened(rows, widest(rows))[i]);
}

/// What a text is written as in a cell shows the text, with a line feed for each line break,
/// and gives none of its marks a meaning.
pub proof fn law_encoded_text_is_literal(field: Seq<char>)
    ensures
        shown(markdown_cell(field, 0)) == with_line_feeds(field),
        literal(markdown_cell(field, 0)),
{
    lemma_shown_cell(field, 0);
    assert(field.skip(0) =~= field);
}

/// How clipboard text is pasted.
#[derive(Clone, Copy, Debug, PartialEq, Eq, Structural)]
pub enum ClipboardRoute {
    /// As the cells of a grid.
    Grid,
    /// As it is.
    Plain,
}

/// Decides how clipboard text is pasted: as a grid where it is known to be one,
/// and inside a table also where it holds a tab.
pub fn paste_clipboard_text(text: &str, tabular: bool, outside_table: bool) -> (r: ClipboardRoute)
    ensures
        r == (if tabular || (!outside_table && text@.contains('\t')) {
            ClipboardRoute::Grid
        } else {
            ClipboardRoute::Plain
        }),
{
    if tabular || (!outside_table && contains_char(text, '\t')) {
        ClipboardRoute::Grid
    } else {
        ClipboardRoute::Plain
    }
}

/// The rows of a read table all get as many cells as the longest row has: a cell keeps its
/// row and its place in it, and a short row is filled up with empty cells at its end. `row`
/// and `column` name a slot.
pub proof fn law_short_rows_are_filled_up(
    rows: Seq<Seq<Seq<char>>>,
    columns: nat,
    row: int,
    column: int,
)
    requires
        0 <= row < rows.len(),
        0 <= column < columns,
    ensures
        flattened(rows, columns).len() == rows.len() * columns,
        0 <= row * columns + column < rows.len() * columns,
        column < rows[row].len() ==> flattened(rows, columns)[row * columns + column]
            == rows[row][column],
        column >= rows[row].len() ==> flattened(rows, columns)[row * columns + column].len() == 0,
        rows[row].len() <= widest(rows),
        exists|k: int| 0 <= k < rows.len() && (#[trigger] rows[k]).len() == widest(rows),
    decreases rows.len(),
{
    let front = rows.drop_last();
    let last = rows.len() - 1;
    let n = columns as int;
    assert((last + 1) * n == last * n + n) by (nonlinear_arith);
    assert(0 <= row * n) by (nonlinear_arith)
        requires
            0 <= row,
            0 <= n,
    ;
    if last > 0 {
        law_short_rows_are_filled_up(
            front,
            columns,
            if row < last {
                row
            } else {
                0
            },
            column,
        );
    }
    assert(flattened(front, columns).len() == last * n) by {
        if last == 0 {
            assert(flattened(front, columns).len() == 0);
            assert(last * n == 0) by (nonlinear_arith)
                requires
                    last == 0,
            ;
        }
    }
    if row < last {
        assert(row * n + n <= last * n) by (nonlinear_arith)
            requires
                row + 1 <= last,
                0 <= n,
        ;
        assert(front[row] == rows[row]);
    }
    assert(rows[last] == rows.last());
    if last > 0 {
        let k = choose|k: int| 0 <= k < front.len() && (#[trigger] front[k]).len() == widest(front);
        assert(rows[k] == front[k]);
        assert(widest(rows) == rows[last].len() || widest(rows) == rows[k].len());
    } else {
        assert(widest(front) == 0);
        assert(widest(rows) == rows[last].len());
    }
}

} // verus!
