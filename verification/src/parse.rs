//! The matrix parser and its inverse: a buffer is rows separated by the row
//! separator, each row cells separated by the cell separator, each cell a
//! signed decimal numeral. A space keystroke is stored as the cell separator
//! character, so the separator itself never occurs inside a cell.

use vstd::prelude::*;

use crate::buffer::{join_with, lemma_split_join, lemma_split_on_len, split_chars, split_on};
use crate::cell::{
    cell_int, cell_valid, lemma_render_cell_value, parse_cell, render_cell, render_int,
};
use crate::matrix::{is_valid, spec_cols, Matrix};

verus! {

broadcast use {crate::matrix::lemma_row_deep_view, crate::matrix::lemma_text_deep_view};

/// The character that separates cells within a row.
pub const CELL_SEP: char = '_';

/// The character that separates rows.
pub const ROW_SEP: char = '\n';

/// Why a buffer failed to parse.
#[derive(Clone, Copy, Debug, PartialEq, Eq, Structural)]
pub enum ParseError {
    /// The cell at this (row, column) is not a signed 64-bit numeral; all
    /// cells before it in row-major order are.
    InvalidCell(usize, usize),
    /// Some row has a different cell count than the first row.
    RaggedMatrix,
    /// The buffer has no rows, or some row is empty.
    EmptyMatrix,
}

/// The rows of a buffer: split on the row separator, then drop exactly one
/// trailing empty row when present (tolerating a final separator).
pub open spec fn buffer_rows(s: Seq<char>) -> Seq<Seq<char>> {
    let rows = split_on(s, ROW_SEP);
    if rows.len() >= 1 && rows.last().len() == 0 {
        rows.drop_last()
    } else {
        rows
    }
}

/// The cell strings of one row: an empty row has no cells, any other row is
/// split on the cell separator.
pub open spec fn row_cells(row: Seq<char>) -> Seq<Seq<char>> {
    if row.len() == 0 {
        Seq::empty()
    } else {
        split_on(row, CELL_SEP)
    }
}

/// There is at least one row and no row is empty.
pub open spec fn rows_nonempty(s: Seq<char>) -> bool {
    &&& buffer_rows(s).len() >= 1
    &&& forall|i: int| 0 <= i < buffer_rows(s).len() ==> (#[trigger] buffer_rows(s)[i]).len() > 0
}

/// Every row splits into as many cells as the first row.
pub open spec fn rows_uniform(s: Seq<char>) -> bool {
    forall|i: int|
        0 <= i < buffer_rows(s).len() ==> (#[trigger] row_cells(buffer_rows(s)[i])).len()
            == row_cells(buffer_rows(s)[0]).len()
}

/// The cell text at row `i`, column `j` of a buffer.
pub open spec fn cell_text(s: Seq<char>, i: int, j: int) -> Seq<char> {
    row_cells(buffer_rows(s)[i])[j]
}

/// Every cell of the buffer is a well-formed signed numeral.
pub open spec fn cells_valid(s: Seq<char>) -> bool {
    forall|i: int, j: int|
        0 <= i < buffer_rows(s).len() && 0 <= j < row_cells(buffer_rows(s)[i]).len()
            ==> cell_valid(#[trigger] cell_text(s, i, j))
}

/// The buffer parses into a matrix.
pub open spec fn parse_ok(s: Seq<char>) -> bool {
    rows_nonempty(s) && rows_uniform(s) && cells_valid(s)
}

/// The matrix a well-formed buffer denotes.
pub open spec fn parsed_cells(s: Seq<char>) -> Seq<Seq<i64>> {
    Seq::new(
        buffer_rows(s).len(),
        |i: int|
            Seq::new(
                row_cells(buffer_rows(s)[i]).len(),
                |j: int| cell_int(cell_text(s, i, j)) as i64,
            ),
    )
}

/// `e` is exactly the error that parsing `s` yields: missing or empty rows
/// first, then ragged rows, then the first cell in row-major order that is
/// not a signed 64-bit numeral.
pub open spec fn parse_error_matches(s: Seq<char>, e: ParseError) -> bool {
    match e {
        ParseError::EmptyMatrix => !rows_nonempty(s),
        ParseError::RaggedMatrix => rows_nonempty(s) && !rows_uniform(s),
        ParseError::InvalidCell(rr, cc) => {
            &&& rows_nonempty(s)
            &&& rows_uniform(s)
            &&& rr < buffer_rows(s).len()
            &&& cc < row_cells(buffer_rows(s)[rr as int]).len()
            &&& !cell_valid(cell_text(s, rr as int, cc as int))
            &&& forall|i: int, j: int|
                0 <= i < buffer_rows(s).len() && 0 <= j < row_cells(buffer_rows(s)[i]).len() && (i
                    < rr || (i == rr && j < cc)) ==> cell_valid(#[trigger] cell_text(s, i, j))
        },
    }
}

/// Parse a buffer into a matrix, or say exactly why it does not parse.
#[verifier::loop_isolation(false)]
pub fn parse_matrix(buf: &Vec<char>) -> (r: Result<Matrix, ParseError>)
    ensures
        match r {
            Ok(m) => parse_ok(buf@) && m.deep_view() == parsed_cells(buf@) && is_valid(
                m.deep_view(),
            ),
            Err(e) => !parse_ok(buf@) && parse_error_matches(buf@, e),
        },
{
    let ghost s = buf@;
    let mut rows = split_chars(buf, ROW_SEP);
    proof {
        lemma_split_on_len(s, ROW_SEP);
    }
    if rows[rows.len() - 1].len() == 0 {
        rows.pop();
        proof {
            assert(rows.deep_view() =~= split_on(s, ROW_SEP).drop_last());
        }
    }
    proof {
        assert(rows.deep_view() == buffer_rows(s));
    }
    let n_rows = rows.len();
    if n_rows == 0 {
        return Err(ParseError::EmptyMatrix);
    }
    let mut i: usize = 0;
    while i < n_rows
        invariant
            i <= n_rows,
            forall|q: int| 0 <= q < i ==> (#[trigger] buffer_rows(s)[q]).len() > 0,
        decreases n_rows - i,
    {
        if rows[i].len() == 0 {
            proof {
                assert(buffer_rows(s)[i as int].len() == 0);
                assert(!rows_nonempty(s));
            }
            return Err(ParseError::EmptyMatrix);
        }
        i += 1;
    }
    assert(rows_nonempty(s));
    let mut cellss: Vec<Vec<Vec<char>>> = Vec::new();
    let mut i: usize = 0;
    while i < n_rows
        invariant
            i <= n_rows,
            cellss@.len() == i,
            forall|q: int|
                0 <= q < i ==> (#[trigger] cellss@[q]).deep_view() == row_cells(
                    buffer_rows(s)[q],
                ),
        decreases n_rows - i,
    {
        let rc = split_chars(&rows[i], CELL_SEP);
        proof {
            assert(rows@[i as int]@ == buffer_rows(s)[i as int]);
        }
        cellss.push(rc);
        i += 1;
    }
    let cols0 = cellss[0].len();
    let mut i: usize = 0;
    while i < n_rows
        invariant
            i <= n_rows,
            forall|q: int| 0 <= q < i ==> row_cells(#[trigger] buffer_rows(s)[q]).len() == cols0,
        decreases n_rows - i,
    {
        if cellss[i].len() != cols0 {
            return Err(ParseError::RaggedMatrix);
        }
        i += 1;
    }
    assert(rows_uniform(s));
    let mut grid: Vec<Vec<i64>> = Vec::new();
    let mut i: usize = 0;
    while i < n_rows
        invariant
            i <= n_rows,
            grid@.len() == i,
            forall|q: int| 0 <= q < i ==> (#[trigger] grid@[q]).deep_view() == parsed_cells(s)[q],
            forall|q: int, j: int|
                0 <= q < i && 0 <= j < row_cells(buffer_rows(s)[q]).len() ==> cell_valid(
                    #[trigger] cell_text(s, q, j),
                ),
        decreases n_rows - i,
    {
        let mut out_row: Vec<i64> = Vec::new();
        let row_len = cellss[i].len();
        let mut j: usize = 0;
        while j < row_len
            invariant
                j <= row_len,
                out_row@.len() == j,
                forall|q: int|
                    0 <= q < j ==> out_row@[q] as int == cell_int(#[trigger] cell_text(
                        s,
                        i as int,
                        q,
                    )),
                forall|q: int| 0 <= q < j ==> cell_valid(#[trigger] cell_text(s, i as int, q)),
            decreases row_len - j,
        {
            proof {
                assert(cellss@[i as int].deep_view()[j as int] == cell_text(s, i as int, j as int));
            }
            match parse_cell(&cellss[i][j]) {
                Some(v) => {
                    out_row.push(v);
                },
                None => {
                    proof {
                        assert(!cell_valid(cell_text(s, i as int, j as int)));
                        assert(!cells_valid(s));
                    }
                    return Err(ParseError::InvalidCell(i, j));
                },
            }
            j += 1;
        }
        proof {
            assert(out_row.deep_view() =~= parsed_cells(s)[i as int]);
        }
        grid.push(out_row);
        i += 1;
    }
    proof {
        assert(grid.deep_view() =~= parsed_cells(s));
        assert(spec_cols(parsed_cells(s)) == cols0);
        lemma_split_on_len(buffer_rows(s)[0], CELL_SEP);
        assert(is_valid(parsed_cells(s)));
    }
    Ok(grid)
}

/// The rendered cell texts of row `i` of a matrix.
pub open spec fn rendered_cells(m: Seq<Seq<i64>>, i: int) -> Seq<Seq<char>> {
    Seq::new(m[i].len(), |j: int| render_int(m[i][j]))
}

/// The rendered text of row `i` of a matrix, cells joined with `csep`.
pub open spec fn rendered_row(m: Seq<Seq<i64>>, i: int, csep: char) -> Seq<char> {
    join_with(rendered_cells(m, i), csep)
}

/// The rendered texts of all rows of a matrix.
pub open spec fn rendered_rows(m: Seq<Seq<i64>>, csep: char) -> Seq<Seq<char>> {
    Seq::new(m.len(), |i: int| rendered_row(m, i, csep))
}

/// The text of a matrix: cells joined with `csep` within a row, rows joined
/// with `rsep`.
pub open spec fn spec_render_with(m: Seq<Seq<i64>>, csep: char, rsep: char) -> Seq<char> {
    join_with(rendered_rows(m, csep), rsep)
}

/// The canonical buffer text of a matrix: cells joined with the cell
/// separator within a row, rows joined with the row separator.
pub open spec fn spec_render(m: Seq<Seq<i64>>) -> Seq<char> {
    spec_render_with(m, CELL_SEP, ROW_SEP)
}

/// Render a matrix as its canonical buffer text.
pub fn render_matrix(m: &Matrix) -> (r: Vec<char>)
    ensures
        r@ == spec_render(m.deep_view()),
{
    render_with(m, CELL_SEP, ROW_SEP)
}

/// Render a matrix for display: integers separated by spaces within a row,
/// rows separated by line breaks.
pub fn render_result(m: &Matrix) -> (r: Vec<char>)
    ensures
        r@ == spec_render_with(m.deep_view(), ' ', '\n'),
{
    render_with(m, ' ', '\n')
}

/// Render a matrix with the given cell and row separators.
#[verifier::loop_isolation(false)]
pub fn render_with(m: &Matrix, csep: char, rsep: char) -> (r: Vec<char>)
    ensures
        r@ == spec_render_with(m.deep_view(), csep, rsep),
{
    let ghost mv = m.deep_view();
    let mut out: Vec<char> = Vec::new();
    let mut i: usize = 0;
    proof {
        assert(rendered_rows(mv, csep).subrange(0, 0) =~= Seq::<Seq<char>>::empty());
    }
    while i < m.len()
        invariant
            i <= mv.len(),
            out@ == join_with(rendered_rows(mv, csep).subrange(0, i as int), rsep),
        decreases mv.len() - i,
    {
        if i > 0 {
            out.push(rsep);
        }
        let ghost row_start = out@;
        let row = &m[i];
        let mut j: usize = 0;
        proof {
            assert(rendered_cells(mv, i as int).subrange(0, 0) =~= Seq::<Seq<char>>::empty());
        }
        while j < row.len()
            invariant
                j <= row@.len(),
                row@ == mv[i as int],
                i < mv.len(),
                out@ == row_start + join_with(
                    rendered_cells(mv, i as int).subrange(0, j as int),
                    csep,
                ),
            decreases row@.len() - j,
        {
            if j > 0 {
                out.push(csep);
            }
            let mut cell = render_cell(row[j]);
            let ghost cells_pre = rendered_cells(mv, i as int).subrange(0, j as int);
            out.append(&mut cell);
            j += 1;
            proof {
                let cells_now = rendered_cells(mv, i as int).subrange(0, j as int);
                assert(cells_now.drop_last() =~= cells_pre);
                assert(cells_now.last() == render_int(mv[i as int][j - 1]));
                if j == 1 {
                    assert(join_with(cells_now, csep) == cells_now[0]);
                    assert(out@ =~= row_start + join_with(cells_now, csep));
                } else {
                    assert(join_with(cells_now, csep) == join_with(cells_pre, csep).push(csep)
                        + cells_now.last());
                    assert(out@ =~= row_start + join_with(cells_now, csep));
                }
            }
        }
        i += 1;
        proof {
            assert(rendered_cells(mv, i - 1).subrange(
                0,
                rendered_cells(mv, i - 1).len() as int,
            ) =~= rendered_cells(mv, i - 1));
            let rows_now = rendered_rows(mv, csep).subrange(0, i as int);
            assert(rows_now.drop_last() =~= rendered_rows(mv, csep).subrange(0, i - 1));
            assert(rows_now.last() == rendered_row(mv, i - 1, csep));
            if i == 1 {
                assert(join_with(rows_now, rsep) == rows_now[0]);
                assert(out@ =~= join_with(rows_now, rsep));
            } else {
                assert(join_with(rows_now, rsep) == join_with(rows_now.drop_last(), rsep).push(
                    rsep,
                ) + rows_now.last());
                assert(out@ =~= join_with(rows_now, rsep));
            }
        }
    }
    proof {
        assert(rendered_rows(mv, csep).subrange(0, mv.len() as int) =~= rendered_rows(mv, csep));
    }
    out
}

/// A join avoids any character that its pieces avoid and that is not the
/// separator.
proof fn lemma_join_avoids(pieces: Seq<Seq<char>>, sep: char, c: char)
    requires
        forall|i: int, k: int|
            0 <= i < pieces.len() && 0 <= k < pieces[i].len() ==> #[trigger] pieces[i][k] != c,
        sep != c,
    ensures
        forall|k: int|
            0 <= k < join_with(pieces, sep).len() ==> #[trigger] join_with(pieces, sep)[k] != c,
    decreases pieces.len(),
{
    if pieces.len() > 1 {
        assert(forall|i: int, k: int|
            0 <= i < pieces.drop_last().len() && 0 <= k < pieces.drop_last()[i].len()
                ==> #[trigger] pieces.drop_last()[i][k] == pieces[i][k]);
        lemma_join_avoids(pieces.drop_last(), sep, c);
        let jd = join_with(pieces.drop_last(), sep);
        let full = jd.push(sep) + pieces.last();
        assert forall|k: int| 0 <= k < full.len() implies full[k] != c by {
            if k < jd.len() {
                assert(full[k] == jd[k]);
            } else if k == jd.len() {
                assert(full[k] == sep);
            } else {
                assert(full[k] == pieces.last()[k - jd.len() - 1]);
                assert(pieces[pieces.len() - 1][k - jd.len() - 1] != c);
            }
        }
    }
}

/// A rendered row is nonempty, contains no row separator, and splits on the
/// cell separator back into the rendered cells.
proof fn lemma_rendered_row(m: Seq<Seq<i64>>, i: int)
    requires
        is_valid(m),
        0 <= i < m.len(),
    ensures
        rendered_row(m, i, CELL_SEP).len() > 0,
        forall|k: int|
            0 <= k < rendered_row(m, i, CELL_SEP).len() ==> #[trigger] rendered_row(
                m,
                i,
                CELL_SEP,
            )[k] != ROW_SEP,
        split_on(rendered_row(m, i, CELL_SEP), CELL_SEP) == rendered_cells(m, i),
{
    let cells = rendered_cells(m, i);
    assert(m[i].len() == spec_cols(m));
    assert forall|j: int, k: int|
        0 <= j < cells.len() && 0 <= k < cells[j].len() implies #[trigger] cells[j][k] != CELL_SEP
        && cells[j][k] != ROW_SEP by {
        lemma_render_cell_value(m[i][j]);
    }
    lemma_split_join(cells, CELL_SEP);
    lemma_join_avoids(cells, CELL_SEP, ROW_SEP);
    if cells.len() == 1 {
        lemma_render_cell_value(m[i][0]);
        assert(join_with(cells, CELL_SEP) == cells[0]);
        assert(cells[0].len() > 0);
    }
}

/// Parsing is a left inverse of rendering: the canonical text of a valid
/// matrix parses back to exactly that matrix.
pub proof fn lemma_parse_render_inverse(m: Seq<Seq<i64>>)
    requires
        is_valid(m),
    ensures
        parse_ok(spec_render(m)),
        parsed_cells(spec_render(m)) == m,
{
    let s = spec_render(m);
    let rrows = rendered_rows(m, CELL_SEP);
    assert forall|i: int| 0 <= i < rrows.len() implies (#[trigger] rrows[i]).len() > 0 by {
        lemma_rendered_row(m, i);
    }
    assert forall|i: int, k: int|
        0 <= i < rrows.len() && 0 <= k < rrows[i].len() implies #[trigger] rrows[i][k]
        != ROW_SEP by {
        lemma_rendered_row(m, i);
        assert(rrows[i] == rendered_row(m, i, CELL_SEP));
    }
    lemma_split_join(rrows, ROW_SEP);
    assert(split_on(s, ROW_SEP) == rrows);
    assert(rrows.last().len() > 0);
    assert(buffer_rows(s) == rrows);
    assert(rows_nonempty(s));
    assert forall|i: int| 0 <= i < rrows.len() implies #[trigger] row_cells(buffer_rows(s)[i])
        == rendered_cells(m, i) by {
        lemma_rendered_row(m, i);
    }
    assert(rows_uniform(s));
    assert forall|i: int, j: int|
        0 <= i < buffer_rows(s).len() && 0 <= j < row_cells(
            buffer_rows(s)[i],
        ).len() implies cell_valid(#[trigger] cell_text(s, i, j)) && cell_int(cell_text(s, i, j))
        == m[i][j] by {
        assert(cell_text(s, i, j) == rendered_cells(m, i)[j]);
        assert(rendered_cells(m, i)[j] == render_int(m[i][j]));
        lemma_render_cell_value(m[i][j]);
    }
    assert(cells_valid(s));
    assert forall|i: int| 0 <= i < m.len() implies parsed_cells(s)[i] == m[i] by {
        assert(row_cells(buffer_rows(s)[i]) == rendered_cells(m, i));
        assert(parsed_cells(s)[i] =~= m[i]);
    }
    assert(parsed_cells(s) =~= m);
}

} // verus!
