//! Rendering sampled rows as delimited text: cells joined by the configured
//! delimiter, one `\n` after the last cell of each row, no quoting and no
//! escaping.

use vstd::prelude::*;
use vstd::string::StringExecFns;
use crate::columns::Cell;
use crate::numfmt::{int_string, spec_dec};
use crate::strutil::push_char;

verus! {

/// Whether a cell is finished text or a finished integer, rather than a raw
/// draw still owed a floating-point finish.
pub open spec fn cell_final(c: Cell) -> bool {
    c matches Cell::Int(_) || c matches Cell::Str(_)
}

/// The canonical text of a finished cell.
pub open spec fn spec_cell_text(c: Cell) -> Seq<char>
    recommends
        cell_final(c),
{
    match c {
        Cell::Int(v) => spec_dec(v as int),
        Cell::Str(s) => s@,
        _ => Seq::empty(),
    }
}

/// The text of one row: cells joined by `delim`, closed by `\n`.  A row
/// with no cells renders as nothing.
pub open spec fn spec_row_text(cells: Seq<Cell>, delim: Seq<char>) -> Seq<char>
    decreases cells.len(),
{
    if cells.len() == 0 {
        Seq::empty()
    } else if cells.len() == 1 {
        spec_cell_text(cells[0]).push('\n')
    } else {
        spec_cell_text(cells[0]) + delim + spec_row_text(cells.drop_first(), delim)
    }
}

/// The text of a run of rows, in order.
pub open spec fn spec_rows_text(rows: Seq<Seq<Cell>>, delim: Seq<char>) -> Seq<char>
    decreases rows.len(),
{
    if rows.len() == 0 {
        Seq::empty()
    } else {
        spec_row_text(rows[0], delim) + spec_rows_text(rows.drop_first(), delim)
    }
}

/// Appending one more row extends the text at its end.
pub proof fn lemma_rows_text_push(rows: Seq<Seq<Cell>>, row: Seq<Cell>, delim: Seq<char>)
    ensures
        spec_rows_text(rows.push(row), delim) == spec_rows_text(rows, delim) + spec_row_text(
            row,
            delim,
        ),
    decreases rows.len(),
{
    if rows.len() == 0 {
        assert(rows.push(row).drop_first() =~= Seq::<Seq<Cell>>::empty());
        assert(rows.push(row)[0] == row);
        assert(spec_rows_text(Seq::<Seq<Cell>>::empty(), delim) == Seq::<char>::empty());
        assert(spec_rows_text(rows.push(row), delim) =~= spec_rows_text(rows, delim)
            + spec_row_text(row, delim));
    } else {
        assert(rows.push(row).drop_first() =~= rows.drop_first().push(row));
        assert(rows.push(row)[0] == rows[0]);
        lemma_rows_text_push(rows.drop_first(), row, delim);
        assert(spec_rows_text(rows.push(row), delim) =~= spec_rows_text(rows, delim)
            + spec_row_text(row, delim));
    }
}

/// Number of occurrences of `c` in `s`.
pub open spec fn spec_char_count(s: Seq<char>, c: char) -> nat
    decreases s.len(),
{
    if s.len() == 0 {
        0
    } else {
        spec_char_count(s.drop_last(), c) + if s.last() == c {
            1nat
        } else {
            0nat
        }
    }
}

/// Counting distributes over concatenation.
pub proof fn lemma_char_count_concat(a: Seq<char>, b: Seq<char>, c: char)
    ensures
        spec_char_count(a + b, c) == spec_char_count(a, c) + spec_char_count(b, c),
    decreases b.len(),
{
    if b.len() == 0 {
        assert(a + b =~= a);
    } else {
        assert((a + b).drop_last() =~= a + b.drop_last());
        assert((a + b).last() == b.last());
        lemma_char_count_concat(a, b.drop_last(), c);
    }
}

/// Delimiter placement: a rendered row of cells none of which contain the
/// single-character delimiter holds exactly `cells - 1` occurrences of it.
pub proof fn lemma_row_delimiter_count(cells: Seq<Cell>, c: char)
    requires
        cells.len() >= 1,
        c != '\n',
        forall|i: int|
            0 <= i < cells.len() ==> spec_char_count(spec_cell_text(#[trigger] cells[i]), c)
                == 0,
    ensures
        spec_char_count(spec_row_text(cells, seq![c]), c) == cells.len() - 1,
    decreases cells.len(),
{
    let delim = seq![c];
    if cells.len() == 1 {
        let t = spec_cell_text(cells[0]);
        assert(t.push('\n').drop_last() =~= t);
        assert(t.push('\n').last() == '\n');
    } else {
        let t = spec_cell_text(cells[0]);
        let rest = spec_row_text(cells.drop_first(), delim);
        assert(spec_char_count(delim, c) == 1) by {
            assert(spec_char_count(Seq::<char>::empty(), c) == 0);
            assert(delim.drop_last() =~= Seq::<char>::empty());
            assert(delim.last() == c);
        }
        lemma_char_count_concat(t, delim, c);
        lemma_char_count_concat(t + delim, rest, c);
        assert(spec_row_text(cells, delim) == t + delim + rest);
        assert forall|i: int| 0 <= i < cells.drop_first().len() implies spec_char_count(
            spec_cell_text(#[trigger] cells.drop_first()[i]),
            c,
        ) == 0 by {
            assert(cells.drop_first()[i] == cells[i + 1]);
        }
        lemma_row_delimiter_count(cells.drop_first(), c);
    }
}

fn cell_string(c: &Cell) -> (s: String)
    requires
        cell_final(*c),
    ensures
        s@ == spec_cell_text(*c),
{
    match c {
        Cell::Int(v) => int_string(*v),
        Cell::Str(t) => t.clone(),
        _ => String::new(),
    }
}

fn render_cells_from(cells: &Vec<Cell>, from: usize, delimiter: &str) -> (s: String)
    requires
        from <= cells.len(),
        forall|i: int| 0 <= i < cells@.len() ==> cell_final(#[trigger] cells@[i]),
    ensures
        s@ == spec_row_text(cells@.skip(from as int), delimiter@),
    decreases cells.len() - from,
{
    let n = cells.len();
    if from >= n {
        proof {
            assert(cells@.skip(from as int).len() == 0);
        }
        String::new()
    } else if from == n - 1 {
        let mut s = cell_string(&cells[from]);
        push_char(&mut s, '\n');
        proof {
            let tail = cells@.skip(from as int);
            assert(tail.len() == 1);
            assert(tail[0] == cells@[from as int]);
        }
        s
    } else {
        let mut s = cell_string(&cells[from]);
        s.append(delimiter);
        let rest = render_cells_from(cells, from + 1, delimiter);
        s.append(rest.as_str());
        proof {
            let tail = cells@.skip(from as int);
            assert(tail.len() >= 2);
            assert(tail[0] == cells@[from as int]);
            assert(tail.drop_first() =~= cells@.skip(from as int + 1));
        }
        s
    }
}

/// Renders one row of finished cells.
pub fn render_row(cells: &Vec<Cell>, delimiter: &str) -> (s: String)
    requires
        forall|i: int| 0 <= i < cells@.len() ==> cell_final(#[trigger] cells@[i]),
    ensures
        s@ == spec_row_text(cells@, delimiter@),
{
    let s = render_cells_from(cells, 0, delimiter);
    proof {
        assert(cells@.skip(0) =~= cells@);
    }
    s
}

/// Renders a run of rows of finished cells, in order.
pub fn render_rows(rows: &Vec<Vec<Cell>>, delimiter: &str) -> (s: String)
    requires
        forall|i: int, j: int|
            0 <= i < rows@.len() && 0 <= j < rows@[i]@.len() ==> cell_final(
                #[trigger] rows@[i]@[j],
            ),
    ensures
        s@ == spec_rows_text(rows@.map_values(|r: Vec<Cell>| r@), delimiter@),
{
    let mut s = String::new();
    let mut i: usize = 0;
    while i < rows.len()
        invariant
            0 <= i <= rows@.len(),
            forall|a: int, j: int|
                0 <= a < rows@.len() && 0 <= j < rows@[a]@.len() ==> cell_final(
                    #[trigger] rows@[a]@[j],
                ),
            s@ == spec_rows_text(rows@.map_values(|r: Vec<Cell>| r@).take(i as int), delimiter@),
        decreases rows@.len() - i,
    {
        let row_text = render_row(&rows[i], delimiter);
        s.append(row_text.as_str());
        proof {
            let mapped = rows@.map_values(|r: Vec<Cell>| r@);
            assert(mapped.take(i as int).push(mapped[i as int]) =~= mapped.take(i as int + 1));
            lemma_rows_text_push(mapped.take(i as int), mapped[i as int], delimiter@);
        }
        i = i + 1;
    }
    proof {
        let mapped = rows@.map_values(|r: Vec<Cell>| r@);
        assert(mapped.take(rows@.len() as int) =~= mapped);
    }
    s
}

} // verus!
