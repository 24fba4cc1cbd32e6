//! The generation driver: positions the primary stream at the chunk
//! boundary, samples the chunk's rows in row-index order, and renders them.
//!
//! Every contract here is stated over the stream model of `rng`: the rows
//! of a chunk are pinned as functions of the seed, the chunk index and the
//! column attributes, which is what makes two runs byte-identical and
//! chunked runs line up with the sequential one.

use vstd::prelude::*;
use crate::chunking::{
    ChunkError, chunk_bounds, chunk_params_ok, spec_chunk_end, spec_chunk_start,
};
use crate::columns::{
    Cell, Column, cell_ok, cell_sampled, col_next_state, column_wf, spec_count,
};
use crate::render::{cell_final, render_rows, spec_rows_text};
use crate::rng::{GenRng, next_raw, pcg_state_of_seed, pcg_step, rng_from_seed};

verus! {

/// An immutable table description: a row count and the columns in output
/// order.
pub struct TableDefinition {
    pub rows: u64,
    pub columns: Vec<Column>,
}

/// Every column of the table is well formed.
pub open spec fn table_wf(t: TableDefinition) -> bool {
    forall|i: int| 0 <= i < t.columns@.len() ==> column_wf(#[trigger] t.columns@[i])
}

/// Primary draws one full row consumes: the sum of the columns' counts.
pub open spec fn spec_row_draws(cols: Seq<Column>) -> nat
    decreases cols.len(),
{
    if cols.len() == 0 {
        0
    } else {
        spec_row_draws(cols.drop_last()) + spec_count(cols.last())
    }
}

/// The stream state after `n` single outputs.
pub open spec fn pcg_steps(state: int, n: nat) -> int
    decreases n,
{
    if n == 0 {
        state
    } else {
        pcg_steps(pcg_step(state), (n - 1) as nat)
    }
}

/// Stepping once more steps the final state.
pub proof fn lemma_pcg_steps_snoc(state: int, n: nat)
    ensures
        pcg_steps(state, n + 1) == pcg_step(pcg_steps(state, n)),
    decreases n,
{
    if n == 0 {
        assert(pcg_steps(state, 1) == pcg_steps(pcg_step(state), 0));
        assert(pcg_steps(state, 0) == state);
    } else {
        lemma_pcg_steps_snoc(pcg_step(state), (n - 1) as nat);
        assert(pcg_steps(state, n + 1) == pcg_steps(pcg_step(state), n));
        assert(pcg_steps(state, n) == pcg_steps(pcg_step(state), (n - 1) as nat));
        assert(pcg_steps(pcg_step(state), ((n - 1) as nat) + 1) == pcg_step(
            pcg_steps(pcg_step(state), (n - 1) as nat),
        ));
    }
}

/// The primary-stream state after sampling a full row at `state`.
pub open spec fn row_next_state(cols: Seq<Column>, state: int) -> int
    decreases cols.len(),
{
    if cols.len() == 0 {
        state
    } else {
        row_next_state(cols.drop_first(), col_next_state(cols[0], state))
    }
}

/// The cells of one row, pinned: the `j`-th cell is the one its column
/// samples at the state the earlier columns leave.
pub open spec fn row_sampled(cols: Seq<Column>, row: int, state: int, cells: Seq<Cell>) -> bool
    decreases cols.len(),
{
    if cols.len() == 0 {
        cells.len() == 0
    } else {
        &&& cells.len() == cols.len()
        &&& cell_sampled(cols[0], row, state, cells[0])
        &&& row_sampled(cols.drop_first(), row, col_next_state(cols[0], state), cells.drop_first())
    }
}

proof fn lemma_row_next_snoc(cols: Seq<Column>, state: int, c: Column)
    ensures
        row_next_state(cols.push(c), state) == col_next_state(c, row_next_state(cols, state)),
    decreases cols.len(),
{
    if cols.len() == 0 {
        assert(cols.push(c).drop_first() =~= Seq::<Column>::empty());
        assert(cols.push(c)[0] == c);
        assert(row_next_state(cols.push(c), state) == row_next_state(
            Seq::<Column>::empty(),
            col_next_state(c, state),
        ));
        assert(row_next_state(cols, state) == state);
    } else {
        assert(cols.push(c).drop_first() =~= cols.drop_first().push(c));
        assert(cols.push(c)[0] == cols[0]);
        lemma_row_next_snoc(cols.drop_first(), col_next_state(cols[0], state), c);
        assert(row_next_state(cols.push(c), state) == row_next_state(
            cols.drop_first().push(c),
            col_next_state(cols[0], state),
        ));
        assert(row_next_state(cols, state) == row_next_state(
            cols.drop_first(),
            col_next_state(cols[0], state),
        ));
    }
}

proof fn lemma_row_sampled_snoc(
    cols: Seq<Column>,
    row: int,
    state: int,
    cells: Seq<Cell>,
    c: Column,
    cell: Cell,
)
    requires
        row_sampled(cols, row, state, cells),
        cell_sampled(c, row, row_next_state(cols, state), cell),
    ensures
        row_sampled(cols.push(c), row, state, cells.push(cell)),
    decreases cols.len(),
{
    if cols.len() == 0 {
        assert(cols.push(c)[0] == c);
        assert(cells.push(cell)[0] == cell);
        assert(cols.push(c).drop_first() =~= Seq::<Column>::empty());
        assert(cells.push(cell).drop_first() =~= Seq::<Cell>::empty());
        assert(row_next_state(cols, state) == state);
        assert(row_sampled(Seq::<Column>::empty(), row, col_next_state(c, state), Seq::<
            Cell,
        >::empty()));
    } else {
        assert(cols.push(c)[0] == cols[0]);
        assert(cells.push(cell)[0] == cells[0]);
        assert(cols.push(c).drop_first() =~= cols.drop_first().push(c));
        assert(cells.push(cell).drop_first() =~= cells.drop_first().push(cell));
        assert(row_next_state(cols, state) == row_next_state(
            cols.drop_first(),
            col_next_state(cols[0], state),
        ));
        lemma_row_sampled_snoc(
            cols.drop_first(),
            row,
            col_next_state(cols[0], state),
            cells.drop_first(),
            c,
            cell,
        );
        assert(row_sampled(cols.drop_first().push(c), row, col_next_state(cols[0], state),
            cells.drop_first().push(cell)));
    }
}

/// The draw count splits off its first column.
pub proof fn lemma_row_draws_cons(cols: Seq<Column>)
    requires
        cols.len() >= 1,
    ensures
        spec_row_draws(cols) == spec_count(cols[0]) + spec_row_draws(cols.drop_first()),
    decreases cols.len(),
{
    if cols.len() == 1 {
        assert(cols.drop_last() =~= Seq::<Column>::empty());
        assert(cols.drop_first() =~= Seq::<Column>::empty());
    } else {
        assert(cols.drop_last()[0] == cols[0]);
        assert(cols.drop_last().drop_first() =~= cols.drop_first().drop_last());
        assert(cols.drop_first().last() == cols.last());
        lemma_row_draws_cons(cols.drop_last());
    }
}

/// Fast-forward correctness, the constant-draw discipline as a law:
/// sampling a full row moves the primary stream by exactly the row's draw
/// count, whatever the attribute values and the row index.  So discarding
/// `spec_row_draws` outputs per skipped row puts a chunked run exactly
/// where the sequential run would stand.
pub proof fn lemma_row_state_is_steps(cols: Seq<Column>, state: int)
    ensures
        row_next_state(cols, state) == pcg_steps(state, spec_row_draws(cols)),
    decreases cols.len(),
{
    if cols.len() == 0 {
    } else {
        lemma_row_draws_cons(cols);
        lemma_row_state_is_steps(cols.drop_first(), col_next_state(cols[0], state));
        match cols[0] {
            Column::Sequence { .. } => {
                assert(spec_count(cols[0]) == 0);
            },
            _ => {
                assert(spec_count(cols[0]) == 1);
                assert(pcg_steps(state, spec_row_draws(cols)) == pcg_steps(
                    pcg_step(state),
                    spec_row_draws(cols.drop_first()),
                ));
            },
        }
    }
}

/// Stepping `a + b` times is stepping `a` times, then `b`.
pub proof fn lemma_pcg_steps_add(state: int, a: nat, b: nat)
    ensures
        pcg_steps(state, a + b) == pcg_steps(pcg_steps(state, a), b),
    decreases a,
{
    if a > 0 {
        lemma_pcg_steps_add(pcg_step(state), (a - 1) as nat, b);
        assert(pcg_steps(state, a + b) == pcg_steps(pcg_step(state), (a + b - 1) as nat));
        assert(pcg_steps(state, a) == pcg_steps(pcg_step(state), (a - 1) as nat));
    }
}

/// The stream state after sampling `k` full rows.
pub open spec fn rows_next_state(cols: Seq<Column>, state: int, k: nat) -> int
    decreases k,
{
    if k == 0 {
        state
    } else {
        rows_next_state(cols, row_next_state(cols, state), (k - 1) as nat)
    }
}

proof fn lemma_rows_next_snoc(cols: Seq<Column>, state: int, k: nat)
    ensures
        rows_next_state(cols, state, k + 1) == row_next_state(
            cols,
            rows_next_state(cols, state, k),
        ),
    decreases k,
{
    if k == 0 {
        assert(rows_next_state(cols, state, 1) == rows_next_state(
            cols,
            row_next_state(cols, state),
            0,
        ));
        assert(rows_next_state(cols, state, 0) == state);
    } else {
        lemma_rows_next_snoc(cols, row_next_state(cols, state), (k - 1) as nat);
        assert(rows_next_state(cols, state, k + 1) == rows_next_state(
            cols,
            row_next_state(cols, state),
            k,
        ));
        assert(rows_next_state(cols, state, k) == rows_next_state(
            cols,
            row_next_state(cols, state),
            (k - 1) as nat,
        ));
        assert(rows_next_state(cols, row_next_state(cols, state), ((k - 1) as nat) + 1)
            == row_next_state(cols, rows_next_state(cols, row_next_state(cols, state), (k
            - 1) as nat)));
    }
}

/// Chunk equivalence of the stream, the headline law: discarding
/// `spec_row_draws(cols) * start` outputs — what `generate_cells` does to
/// fast-forward to row `start` — reaches exactly the state the unchunked
/// sequential run holds when it begins sampling row `start`.  Together
/// with `rows_sampled`, which pins every later cell as a function of that
/// state, the rows a chunk emits are the same rows the single run emits at
/// the same indices, so concatenating the chunks in order reproduces the
/// single run.
pub proof fn lemma_fast_forward_is_sequential(cols: Seq<Column>, state: int, start: nat)
    ensures
        pcg_steps(state, spec_row_draws(cols) * start) == rows_next_state(cols, state, start),
    decreases start,
{
    let d = spec_row_draws(cols);
    if start == 0 {
        assert(d * 0 == 0) by (nonlinear_arith);
    } else {
        lemma_fast_forward_is_sequential(cols, row_next_state(cols, state), (start - 1) as nat);
        lemma_row_state_is_steps(cols, state);
        lemma_pcg_steps_add(state, d, (d * ((start - 1) as nat)) as nat);
        assert(d + d * (start - 1) == d * start) by (nonlinear_arith);
        assert(rows_next_state(cols, state, start) == rows_next_state(
            cols,
            row_next_state(cols, state),
            (start - 1) as nat,
        ));
    }
}

/// A run of rows, pinned: the `i`-th row is sampled at the state the
/// earlier rows leave, for consecutive row indices from `row0`.
pub open spec fn rows_sampled(
    cols: Seq<Column>,
    row0: int,
    state: int,
    rows: Seq<Seq<Cell>>,
) -> bool
    decreases rows.len(),
{
    if rows.len() == 0 {
        true
    } else {
        &&& row_sampled(cols, row0, state, rows[0])
        &&& rows_sampled(cols, row0 + 1, row_next_state(cols, state), rows.drop_first())
    }
}

proof fn lemma_rows_sampled_snoc(
    cols: Seq<Column>,
    row0: int,
    state: int,
    rows: Seq<Seq<Cell>>,
    cells: Seq<Cell>,
)
    requires
        rows_sampled(cols, row0, state, rows),
        row_sampled(cols, row0 + rows.len(), rows_next_state(cols, state, rows.len() as nat), cells),
    ensures
        rows_sampled(cols, row0, state, rows.push(cells)),
    decreases rows.len(),
{
    if rows.len() == 0 {
        assert(rows.push(cells)[0] == cells);
        assert(rows.push(cells).drop_first() =~= Seq::<Seq<Cell>>::empty());
        assert(rows_next_state(cols, state, 0) == state);
        assert(rows_sampled(cols, row0 + 1, row_next_state(cols, state), Seq::<Seq<
            Cell,
        >>::empty()));
    } else {
        assert(rows.push(cells)[0] == rows[0]);
        assert(rows.push(cells).drop_first() =~= rows.drop_first().push(cells));
        lemma_rows_next_snoc(cols, state, (rows.len() - 1) as nat);
        lemma_rows_sampled_snoc(
            cols,
            row0 + 1,
            row_next_state(cols, state),
            rows.drop_first(),
            cells,
        );
    }
}

/// One sampled row: a cell per column, each as its column promises at this
/// row index.
pub open spec fn row_cells_ok(cols: Seq<Column>, row: int, cells: Seq<Cell>) -> bool {
    cells.len() == cols.len() && forall|j: int|
        0 <= j < cols.len() ==> cell_ok(cols[j], row, #[trigger] cells[j])
}

/// A run of sampled rows for consecutive row indices starting at `start`.
pub open spec fn rows_ok(cols: Seq<Column>, start: int, rows: Seq<Seq<Cell>>) -> bool {
    forall|i: int| 0 <= i < rows.len() ==> row_cells_ok(cols, start + i, #[trigger] rows[i])
}

/// Sums the columns' per-row draw counts.
pub fn per_row_draws(columns: &Vec<Column>) -> (n: u64)
    ensures
        n == spec_row_draws(columns@),
{
    let n_cols: usize = columns.len();
    let mut n: u64 = 0;
    let mut i: usize = 0;
    while i < n_cols
        invariant
            0 <= i <= columns@.len(),
            n_cols == columns@.len(),
            n == spec_row_draws(columns@.take(i as int)),
            n <= i,
        decreases columns@.len() - i,
    {
        proof {
            assert(columns@.take(i as int + 1).drop_last() =~= columns@.take(i as int));
            assert(columns@.take(i as int + 1).last() == columns@[i as int]);
        }
        n = n + columns[i].count();
        i = i + 1;
    }
    proof {
        assert(columns@.take(columns@.len() as int) =~= columns@);
    }
    n
}

/// Samples one full row in column order: the cells are pinned by
/// `row_sampled` for the stream state at entry, and the stream advances by
/// exactly `spec_row_draws` outputs — the constant-draw discipline.
pub fn sample_row(columns: &Vec<Column>, rng: &mut GenRng, row_index: u64) -> (cells: Vec<Cell>)
    requires
        forall|i: int| 0 <= i < columns@.len() ==> column_wf(#[trigger] columns@[i]),
    ensures
        row_cells_ok(columns@, row_index as int, cells@),
        row_sampled(columns@, row_index as int, old(rng).state@, cells@),
        final(rng).state@ == row_next_state(columns@, old(rng).state@),
        final(rng).draws@ == old(rng).draws@ + spec_row_draws(columns@),
{
    let ghost d0 = rng.draws@;
    let ghost st0 = rng.state@;
    let mut cells: Vec<Cell> = Vec::new();
    let mut i: usize = 0;
    while i < columns.len()
        invariant
            0 <= i <= columns@.len(),
            forall|j: int| 0 <= j < columns@.len() ==> column_wf(#[trigger] columns@[j]),
            cells@.len() == i,
            forall|j: int|
                0 <= j < i ==> cell_ok(columns@[j], row_index as int, #[trigger] cells@[j]),
            row_sampled(columns@.take(i as int), row_index as int, st0, cells@),
            rng.state@ == row_next_state(columns@.take(i as int), st0),
            rng.draws@ == d0 + spec_row_draws(columns@.take(i as int)),
        decreases columns@.len() - i,
    {
        proof {
            assert(columns@.take(i as int + 1).drop_last() =~= columns@.take(i as int));
            assert(columns@.take(i as int + 1).last() == columns@[i as int]);
        }
        let ghost cells_before = cells@;
        let cell = columns[i].sample(rng, row_index);
        proof {
            lemma_row_next_snoc(columns@.take(i as int), st0, columns@[i as int]);
            lemma_row_sampled_snoc(
                columns@.take(i as int),
                row_index as int,
                st0,
                cells_before,
                columns@[i as int],
                cell,
            );
            assert(columns@.take(i as int).push(columns@[i as int]) =~= columns@.take(
                i as int + 1,
            ));
        }
        cells.push(cell);
        i = i + 1;
    }
    proof {
        assert(columns@.take(columns@.len() as int) =~= columns@);
    }
    cells
}

/// Samples the rows of one chunk: fast-forwards the primary stream over the
/// earlier chunks' draws, then samples rows `chunk_start .. chunk_end` in
/// order.  On success the result holds exactly `chunk_end - chunk_start`
/// rows, pinned by `rows_sampled` at the fast-forwarded state — a pure
/// function of the seed, the chunk parameters and the table.
pub fn generate_cells(table: &TableDefinition, chunks: u64, chunk: u64, seed: u64) -> (r: Result<
    Vec<Vec<Cell>>,
    ChunkError,
>)
    requires
        table_wf(*table),
    ensures
        r matches Ok(rows) ==> {
            &&& chunk_params_ok(table.rows, chunks, chunk)
            &&& rows@.len() == spec_chunk_end(table.rows, chunks, chunk) - spec_chunk_start(
                table.rows,
                chunks,
                chunk,
            )
            &&& rows_ok(
                table.columns@,
                spec_chunk_start(table.rows, chunks, chunk),
                rows@.map_values(|row: Vec<Cell>| row@),
            )
            &&& rows_sampled(
                table.columns@,
                spec_chunk_start(table.rows, chunks, chunk),
                pcg_steps(
                    pcg_state_of_seed(seed),
                    (spec_row_draws(table.columns@) * spec_chunk_start(
                        table.rows,
                        chunks,
                        chunk,
                    )) as nat,
                ),
                rows@.map_values(|row: Vec<Cell>| row@),
            )
        },
        r matches Err(e) ==> !chunk_params_ok(table.rows, chunks, chunk) && e.rows == table.rows
            && e.chunks == chunks && e.chunk == chunk,
{
    let (start, end) = match chunk_bounds(table.rows, chunks, chunk) {
        Ok(bounds) => bounds,
        Err(e) => {
            return Err(e);
        },
    };
    let mut rng = rng_from_seed(seed);
    let ghost s0 = rng.state@;
    let per_row = per_row_draws(&table.columns);

    // Move the stream past the draws the earlier chunks would have taken.
    let mut row: u64 = 0;
    while row < start
        invariant
            row <= start,
            per_row == spec_row_draws(table.columns@),
            rng.state@ == pcg_steps(s0, (per_row as int * row as int) as nat),
        decreases start - row,
    {
        let mut j: u64 = 0;
        while j < per_row
            invariant
                j <= per_row,
                rng.state@ == pcg_steps(s0, (per_row as int * row as int + j as int) as nat),
            decreases per_row - j,
        {
            proof {
                lemma_pcg_steps_snoc(s0, (per_row as int * row as int + j as int) as nat);
            }
            let _ = next_raw(&mut rng);
            j = j + 1;
        }
        proof {
            assert(per_row as int * (row as int + 1) == per_row as int * row as int
                + per_row as int) by (nonlinear_arith);
        }
        row = row + 1;
    }

    let ghost ff = rng.state@;
    let mut rows: Vec<Vec<Cell>> = Vec::new();
    let mut r_i: u64 = start;
    while r_i < end
        invariant
            start <= r_i <= end,
            forall|i: int| 0 <= i < table.columns@.len() ==> column_wf(#[trigger] table.columns@[i]),
            rows@.len() == r_i - start,
            rows_ok(table.columns@, start as int, rows@.map_values(|r2: Vec<Cell>| r2@)),
            rows_sampled(table.columns@, start as int, ff, rows@.map_values(|r2: Vec<Cell>| r2@)),
            rng.state@ == rows_next_state(table.columns@, ff, (r_i - start) as nat),
        decreases end - r_i,
    {
        let ghost rows_before = rows@.map_values(|r2: Vec<Cell>| r2@);
        let cells = sample_row(&table.columns, &mut rng, r_i);
        proof {
            lemma_rows_sampled_snoc(table.columns@, start as int, ff, rows_before, cells@);
            lemma_rows_next_snoc(table.columns@, ff, (r_i - start) as nat);
            assert(rows@.push(cells).map_values(|r2: Vec<Cell>| r2@) =~= rows@.map_values(
                |r2: Vec<Cell>| r2@,
            ).push(cells@));
        }
        rows.push(cells);
        r_i = r_i + 1;
    }
    Ok(rows)
}

/// Two cells sampled by the same direct column at the same state render
/// the same text.
proof fn lemma_cell_text_agree(c: Column, row: int, state: int, x: Cell, y: Cell)
    requires
        column_direct(c),
        cell_sampled(c, row, state, x),
        cell_sampled(c, row, state, y),
    ensures
        crate::render::spec_cell_text(x) == crate::render::spec_cell_text(y),
{
}

/// Two rows sampled by the same direct columns at the same state render
/// the same text.
proof fn lemma_row_text_agree(
    cols: Seq<Column>,
    row: int,
    state: int,
    delim: Seq<char>,
    a: Seq<Cell>,
    b: Seq<Cell>,
)
    requires
        forall|i: int| 0 <= i < cols.len() ==> column_direct(#[trigger] cols[i]),
        row_sampled(cols, row, state, a),
        row_sampled(cols, row, state, b),
    ensures
        crate::render::spec_row_text(a, delim) == crate::render::spec_row_text(b, delim),
    decreases cols.len(),
{
    if cols.len() == 0 {
    } else {
        lemma_cell_text_agree(cols[0], row, state, a[0], b[0]);
        if cols.len() > 1 {
            assert(forall|i: int|
                0 <= i < cols.drop_first().len() ==> column_direct(
                    #[trigger] cols.drop_first()[i],
                ));
            lemma_row_text_agree(
                cols.drop_first(),
                row,
                col_next_state(cols[0], state),
                delim,
                a.drop_first(),
                b.drop_first(),
            );
        }
    }
}

/// Seed determinism as a law: two runs of equally many rows pinned at the
/// same stream state — in particular two runs with the same seed, table,
/// delimiter and chunk parameters — render byte-identical text.
pub proof fn lemma_generation_deterministic(
    cols: Seq<Column>,
    row0: int,
    state: int,
    delim: Seq<char>,
    rows_a: Seq<Seq<Cell>>,
    rows_b: Seq<Seq<Cell>>,
)
    requires
        forall|i: int| 0 <= i < cols.len() ==> column_direct(#[trigger] cols[i]),
        rows_sampled(cols, row0, state, rows_a),
        rows_sampled(cols, row0, state, rows_b),
        rows_a.len() == rows_b.len(),
    ensures
        spec_rows_text(rows_a, delim) == spec_rows_text(rows_b, delim),
    decreases rows_a.len(),
{
    if rows_a.len() > 0 {
        lemma_row_text_agree(cols, row0, state, delim, rows_a[0], rows_b[0]);
        lemma_generation_deterministic(
            cols,
            row0 + 1,
            row_next_state(cols, state),
            delim,
            rows_a.drop_first(),
            rows_b.drop_first(),
        );
    }
}

/// A column whose sampled cell is already finished text or a finished
/// integer, with no floating-point work left to the caller.
pub open spec fn column_direct(c: Column) -> bool {
    match c {
        Column::Exponential { .. } => false,
        Column::Gaussian { .. } => false,
        Column::Poisson { .. } => false,
        _ => true,
    }
}

/// Every column of the table is direct.
pub open spec fn table_direct(t: TableDefinition) -> bool {
    forall|i: int| 0 <= i < t.columns@.len() ==> column_direct(#[trigger] t.columns@[i])
}

/// A direct column's sampled cell is always finished.
pub proof fn lemma_direct_cell_final(c: Column, row: int, cell: Cell)
    requires
        column_direct(c),
        cell_ok(c, row, cell),
    ensures
        cell_final(cell),
{
}

/// Generates and renders one chunk of a table whose columns are all direct:
/// the emitted text is exactly the rendering of the `rows_sampled`-pinned
/// rows of this chunk, joined in row-index order — a pure function of the
/// seed, the chunk parameters, the delimiter and the table.
pub fn generate_chunk(table: &TableDefinition, delimiter: &str, chunks: u64, chunk: u64, seed: u64)
    -> (r: Result<String, ChunkError>)
    requires
        table_wf(*table),
        table_direct(*table),
    ensures
        r matches Ok(out) ==> {
            &&& chunk_params_ok(table.rows, chunks, chunk)
            &&& exists|cells: Seq<Seq<Cell>>|
                {
                    &&& cells.len() == spec_chunk_end(table.rows, chunks, chunk)
                        - spec_chunk_start(table.rows, chunks, chunk)
                    &&& rows_ok(
                        table.columns@,
                        spec_chunk_start(table.rows, chunks, chunk),
                        cells,
                    )
                    &&& #[trigger] rows_sampled(
                        table.columns@,
                        spec_chunk_start(table.rows, chunks, chunk),
                        pcg_steps(
                            pcg_state_of_seed(seed),
                            (spec_row_draws(table.columns@) * spec_chunk_start(
                                table.rows,
                                chunks,
                                chunk,
                            )) as nat,
                        ),
                        cells,
                    )
                    &&& out@ == spec_rows_text(cells, delimiter@)
                }
        },
        r matches Err(e) ==> !chunk_params_ok(table.rows, chunks, chunk) && e.rows == table.rows
            && e.chunks == chunks && e.chunk == chunk,
{
    let rows = match generate_cells(table, chunks, chunk, seed) {
        Ok(rows) => rows,
        Err(e) => {
            return Err(e);
        },
    };
    proof {
        let mapped = rows@.map_values(|r2: Vec<Cell>| r2@);
        assert forall|i: int, j: int|
            0 <= i < rows@.len() && 0 <= j < rows@[i]@.len() implies cell_final(
            #[trigger] rows@[i]@[j],
        ) by {
            assert(row_cells_ok(
                table.columns@,
                spec_chunk_start(table.rows, chunks, chunk) + i,
                mapped[i],
            ));
            lemma_direct_cell_final(
                table.columns@[j],
                spec_chunk_start(table.rows, chunks, chunk) + i,
                rows@[i]@[j],
            );
        }
    }
    let out = render_rows(&rows, delimiter);
    proof {
        let mapped = rows@.map_values(|r2: Vec<Cell>| r2@);
        assert(out@ == spec_rows_text(mapped, delimiter@));
    }
    Ok(out)
}

} // verus!
