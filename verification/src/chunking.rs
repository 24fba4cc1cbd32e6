//! Chunk boundary arithmetic.
//!
//! A run over `rows` rows may be split into `chunks` parts; the part with
//! 1-based index `chunk` covers the half-open row range
//! `[chunk_start, chunk_end)`.  Every chunk but the last holds exactly
//! `rows / chunks` rows; the remainder goes to the last chunk.

use vstd::prelude::*;

verus! {

/// Rows in every chunk but the last.
pub open spec fn spec_chunk_size(rows: u64, chunks: u64) -> int
    recommends
        chunks >= 1,
{
    rows as int / chunks as int
}

/// First row (zero-based, inclusive) of the chunk.
pub open spec fn spec_chunk_start(rows: u64, chunks: u64, chunk: u64) -> int
    recommends
        chunks >= 1,
        chunk >= 1,
{
    (chunk - 1) * spec_chunk_size(rows, chunks)
}

/// One past the last row of the chunk; the last chunk always ends at `rows`.
pub open spec fn spec_chunk_end(rows: u64, chunks: u64, chunk: u64) -> int
    recommends
        chunks >= 1,
        chunk >= 1,
{
    if chunk == chunks {
        rows as int
    } else {
        spec_chunk_start(rows, chunks, chunk) + spec_chunk_size(rows, chunks)
    }
}

/// The chunking parameters under which generation is defined: a chunk index
/// within `[1, chunks]` whose row range stays inside the table.
pub open spec fn chunk_params_ok(rows: u64, chunks: u64, chunk: u64) -> bool {
    &&& chunks >= 1
    &&& 1 <= chunk <= chunks
    &&& spec_chunk_size(rows, chunks) <= rows
    &&& spec_chunk_end(rows, chunks, chunk) <= rows
}

/// For any chunk index within range, the row range is well formed on its own:
/// the size and end bounds hold automatically.
pub proof fn lemma_params_in_range_ok(rows: u64, chunks: u64, chunk: u64)
    requires
        chunks >= 1,
        1 <= chunk <= chunks,
    ensures
        chunk_params_ok(rows, chunks, chunk),
        0 <= spec_chunk_start(rows, chunks, chunk) <= spec_chunk_end(rows, chunks, chunk)
            <= rows,
{
    let size = spec_chunk_size(rows, chunks);
    assert(0 <= size <= rows) by (nonlinear_arith)
        requires
            chunks >= 1,
            size == rows as int / chunks as int,
    ;
    assert(chunks * size <= rows) by (nonlinear_arith)
        requires
            chunks >= 1,
            size == rows as int / chunks as int,
    ;
    assert((chunk - 1) * size <= chunks * size && (chunk - 1) * size >= 0 && chunk * size
        <= chunks * size && (chunk - 1) * size + size == chunk * size) by (nonlinear_arith)
        requires
            1 <= chunk <= chunks,
            size >= 0,
    ;
}

/// Adjacent chunks meet exactly: chunk `k` ends where chunk `k + 1` starts.
/// Together with `lemma_first_chunk_starts_at_zero` and
/// `lemma_last_chunk_ends_at_rows`, this says that the chunks `1..=chunks`
/// partition the row range `[0, rows)` in order, which is what makes the
/// concatenation of all chunk outputs equal to the unchunked run.
pub proof fn lemma_chunks_adjacent(rows: u64, chunks: u64, k: u64)
    requires
        chunks >= 1,
        1 <= k < chunks,
    ensures
        spec_chunk_end(rows, chunks, k) == spec_chunk_start(rows, chunks, (k + 1) as u64),
{
    let size = spec_chunk_size(rows, chunks);
    assert((k - 1) * size + size == ((k + 1) - 1) * size) by (nonlinear_arith);
}

/// The first chunk starts at row 0.
pub proof fn lemma_first_chunk_starts_at_zero(rows: u64, chunks: u64)
    requires
        chunks >= 1,
    ensures
        spec_chunk_start(rows, chunks, 1) == 0,
{
}

/// The last chunk ends at `rows`, so no row is lost to the remainder.
pub proof fn lemma_last_chunk_ends_at_rows(rows: u64, chunks: u64)
    requires
        chunks >= 1,
    ensures
        spec_chunk_end(rows, chunks, chunks) == rows,
{
}

/// Sum of the lengths of chunks `1..=k`.
pub open spec fn spec_chunk_len_sum(rows: u64, chunks: u64, k: u64) -> int
    recommends
        chunks >= 1,
    decreases k,
{
    if k == 0 {
        0
    } else {
        spec_chunk_len_sum(rows, chunks, (k - 1) as u64) + spec_chunk_end(rows, chunks, k)
            - spec_chunk_start(rows, chunks, k)
    }
}

/// The chunk lengths add up: chunks `1..=k` together cover exactly the rows
/// up to the end of chunk `k`, and all `chunks` of them cover all `rows`.
pub proof fn lemma_chunk_rows_total(rows: u64, chunks: u64, k: u64)
    requires
        chunks >= 1,
        1 <= k <= chunks,
    ensures
        spec_chunk_len_sum(rows, chunks, k) == spec_chunk_end(rows, chunks, k),
        k == chunks ==> spec_chunk_len_sum(rows, chunks, k) == rows,
    decreases k,
{
    if k == 1 {
        assert(spec_chunk_len_sum(rows, chunks, 0) == 0);
        assert(spec_chunk_start(rows, chunks, 1) == 0);
    } else {
        lemma_chunk_rows_total(rows, chunks, (k - 1) as u64);
        lemma_chunks_adjacent(rows, chunks, (k - 1) as u64);
        assert(((k - 1) as u64 + 1) as u64 == k);
    }
}

/// The partition law behind chunked generation: chunk 1 starts at row 0,
/// every chunk ends where the next one starts, and the last chunk ends at
/// `rows`.  So the chunk row ranges `[start, end)`, taken in ascending
/// chunk order, cover `[0, rows)` exactly once each and in order — which,
/// together with the constant-draw discipline of the samplers, makes the
/// concatenation of all chunk outputs equal to the single unchunked run.
pub proof fn lemma_chunks_partition_rows(rows: u64, chunks: u64)
    requires
        chunks >= 1,
    ensures
        spec_chunk_start(rows, chunks, 1) == 0,
        spec_chunk_end(rows, chunks, chunks) == rows,
        forall|k: u64|
            1 <= k < chunks ==> spec_chunk_end(rows, chunks, k) == spec_chunk_start(
                rows,
                chunks,
                #[trigger] ((k + 1) as u64),
            ),
        spec_chunk_len_sum(rows, chunks, chunks) == rows,
{
    lemma_first_chunk_starts_at_zero(rows, chunks);
    lemma_last_chunk_ends_at_rows(rows, chunks);
    assert forall|k: u64| 1 <= k < chunks implies spec_chunk_end(rows, chunks, k)
        == spec_chunk_start(rows, chunks, ((k + 1) as u64)) by {
        lemma_chunks_adjacent(rows, chunks, k);
    }
    lemma_chunk_rows_total(rows, chunks, chunks);
}

/// A chunk-parameter error, carrying the values named by the diagnostic.
#[derive(Debug)]
pub struct ChunkError {
    pub rows: u64,
    pub chunks: u64,
    pub chunk: u64,
}

/// Computes the row range `[start, end)` of the requested chunk, or reports
/// the parameters when they do not make sense for the row count.
pub fn chunk_bounds(rows: u64, chunks: u64, chunk: u64) -> (r: Result<(u64, u64), ChunkError>)
    ensures
        r matches Ok(bounds) ==> {
            &&& chunk_params_ok(rows, chunks, chunk)
            &&& bounds.0 == spec_chunk_start(rows, chunks, chunk)
            &&& bounds.1 == spec_chunk_end(rows, chunks, chunk)
            &&& bounds.0 <= bounds.1 <= rows
        },
        r matches Err(e) ==> !chunk_params_ok(rows, chunks, chunk) && e.rows == rows && e.chunks
            == chunks && e.chunk == chunk,
{
    if chunks < 1 || chunk < 1 || chunk > chunks {
        return Err(ChunkError { rows, chunks, chunk });
    }
    let size: u64 = rows / chunks;
    proof {
        lemma_params_in_range_ok(rows, chunks, chunk);
    }
    let start: u64 = (chunk - 1) * size;
    let end: u64 = if chunk == chunks {
        rows
    } else {
        start + size
    };
    Ok((start, end))
}

} // verus!
