//! The column samplers and their per-row sampling contract.
//!
//! Each column draws a fixed number of values (0 or 1) from the primary
//! random stream per row, whatever its attributes and the row index; a
//! sampler that needs more randomness internally (Text) seeds a
//! sub-generator from its single primary draw.  This constant-draw
//! discipline is what makes chunked generation line up with a sequential
//! run.
//!
//! The Exponential, Gaussian and Poisson samplers finish with
//! floating-point formulas that the verified library cannot hold; their
//! cells carry the raw primary draw and the column attributes, and the
//! caller turns them into integers outside the library.

use vstd::prelude::*;
use crate::dates::{TS_MIN, TS_MAX, ymd_of, ymd_string_of_ts};
use crate::rng::{
    GenRng, MAX_SPAN, draw_mapped, draw_range, next_raw, pcg_out, pcg_range, pcg_range_step,
    pcg_state_of_seed, pcg_step, rng_from_seed, spec_mapped,
};
use crate::strutil::{is_alpha_char, letter_char, push_char, spec_letter};

verus! {

/// The largest sequence start: leaves room to add any `u64` row index.
pub const SEQ_START_MAX: i128 = i128::MAX - 0xFFFF_FFFF_FFFF_FFFF;

/// A column sampler.  Bounds named `min`/`max` are inclusive.
pub enum Column {
    /// A calendar day between the two midnights, rendered `YYYY-MM-DD`.
    Date { start_ts: i64, end_ts: i64 },
    /// A truncated-exponential integer in `[min, max]`.
    Exponential { min: i128, max: i128, probability: i128 },
    /// A rejection-bounded Gaussian integer in `[min, max]`.  The width is
    /// kept as its schema text and handed on verbatim.
    Gaussian { min: i128, max: i128, probability: String },
    /// A uniform integer in `[min, max]`.
    Integer { min: i128, max: i128 },
    /// One string out of a fixed non-empty list.
    List { items: Vec<String> },
    /// A non-negative integer: `trunc(-ln(u) * center + 0.5)`.
    Poisson { center: i128 },
    /// `start + row_index`; consumes no draw.
    Sequence { start: i128 },
    /// A string of `A-Z a-z` letters with length in `[min, max]`.
    Text { min: i128, max: i128 },
}

/// Digits only.
pub open spec fn all_digits(s: Seq<char>) -> bool {
    forall|i: int| 0 <= i < s.len() ==> '0' <= #[trigger] s[i] <= '9'
}

/// At least one digit other than `0`.
pub open spec fn has_nonzero_digit(s: Seq<char>) -> bool {
    exists|i: int| 0 <= i < s.len() && '1' <= #[trigger] s[i] <= '9'
}

/// The texts accepted as a Gaussian width: a plain decimal number, at most
/// 15 integer digits and at most 30 fraction digits, with some digit other
/// than zero.  Every such text names a finite value greater than zero, so a
/// sampler working from it terminates.
pub open spec fn is_valid_width(s: Seq<char>) -> bool {
    ||| (1 <= s.len() <= 15 && all_digits(s) && has_nonzero_digit(s))
    ||| (exists|k: int|
        {
            &&& 1 <= k <= 15
            &&& k < s.len()
            &&& 1 <= s.len() - k - 1 <= 30
            &&& #[trigger] s[k] == '.'
            &&& all_digits(s.subrange(0, k))
            &&& all_digits(s.subrange(k + 1, s.len() as int))
            &&& (has_nonzero_digit(s.subrange(0, k)) || has_nonzero_digit(
                s.subrange(k + 1, s.len() as int),
            ))
        })
}

/// Well-formedness of a column: the bounds a schema must satisfy, plus the
/// span cap that keeps a 53-bit uniform draw exact.
pub open spec fn column_wf(c: Column) -> bool {
    match c {
        Column::Date { start_ts, end_ts } => TS_MIN <= start_ts <= end_ts <= TS_MAX,
        Column::Exponential { min, max, probability } => min <= max && max - min < MAX_SPAN
            && probability >= 1,
        Column::Gaussian { min, max, probability } => min <= max && max - min < MAX_SPAN
            && is_valid_width(probability@),
        Column::Integer { min, max } => min <= max && max - min < MAX_SPAN,
        Column::List { items } => 1 <= items.len() && items.len() <= MAX_SPAN,
        Column::Poisson { center } => center >= 1,
        Column::Sequence { start } => start <= SEQ_START_MAX,
        Column::Text { min, max } => 0 <= min <= max && max - min < MAX_SPAN,
    }
}

/// One sampled value: a finished integer or text, or a raw draw that the
/// caller finishes with the column's floating-point formula.
pub enum Cell {
    Int(i128),
    Str(String),
    ExpDraw { raw: u64, min: i128, max: i128, probability: i128 },
    GaussDraw { raw: u64, min: i128, max: i128, probability: String },
    PoissonDraw { raw: u64, center: i128 },
}

/// Whether `s` is one of the listed items.
pub open spec fn in_items(items: Seq<String>, s: Seq<char>) -> bool {
    exists|i: int| 0 <= i < items.len() && #[trigger] items[i]@ == s
}

/// What a sampled cell of column `c` at row `row` is guaranteed to be.
pub open spec fn cell_ok(c: Column, row: int, cell: Cell) -> bool {
    match c {
        Column::Date { start_ts, end_ts } => cell matches Cell::Str(s) && exists|t: int|
            start_ts <= t <= end_ts && s@ == ymd_of(t),
        Column::Exponential { min, max, probability } => cell matches Cell::ExpDraw {
            raw: _,
            min: m0,
            max: m1,
            probability: p,
        } && m0 == min && m1 == max && p == probability,
        Column::Gaussian { min, max, probability } => cell matches Cell::GaussDraw {
            raw: _,
            min: m0,
            max: m1,
            probability: p,
        } && m0 == min && m1 == max && p@ == probability@,
        Column::Integer { min, max } => cell matches Cell::Int(v) && min <= v <= max,
        Column::List { items } => cell matches Cell::Str(s) && in_items(items@, s@),
        Column::Poisson { center } => cell matches Cell::PoissonDraw { raw: _, center: c0 }
            && c0 == center,
        Column::Sequence { start } => cell == Cell::Int((start + row) as i128),
        Column::Text { min, max } => cell matches Cell::Str(s) && min <= s@.len() <= max
            && forall|i: int| 0 <= i < s@.len() ==> is_alpha_char(#[trigger] s@[i]),
    }
}

/// The text a text column builds from a sub-generator at `state`: `len`
/// letters, each drawn by one range draw over the 52-letter alphabet.
pub open spec fn spec_text_chars(state: int, len: int) -> Seq<char>
    decreases len,
{
    if len <= 0 {
        Seq::empty()
    } else {
        seq![spec_letter(pcg_range(state, 52))] + spec_text_chars(
            pcg_range_step(state, 52),
            len - 1,
        )
    }
}

/// The primary-stream state after sampling column `c` at `state`: one
/// `next_u64` step for every column but Sequence, which draws nothing.
pub open spec fn col_next_state(c: Column, state: int) -> int {
    match c {
        Column::Sequence { .. } => state,
        _ => pcg_step(state),
    }
}

/// The one cell that sampling column `c` at row `row` produces when the
/// primary stream stands at `state`: each variant's value is a pure
/// function of its single drawn output (Sequence draws none).
pub open spec fn cell_sampled(c: Column, row: int, state: int, cell: Cell) -> bool {
    match c {
        Column::Date { start_ts, end_ts } => cell matches Cell::Str(s) && s@ == ymd_of(
            spec_mapped(pcg_out(state), start_ts as int, end_ts as int),
        ),
        Column::Exponential { min, max, probability } => cell == (Cell::ExpDraw {
            raw: pcg_out(state),
            min,
            max,
            probability,
        }),
        Column::Gaussian { min, max, probability } => cell matches Cell::GaussDraw {
            raw,
            min: m0,
            max: m1,
            probability: p,
        } && raw == pcg_out(state) && m0 == min && m1 == max && p@ == probability@,
        Column::Integer { min, max } => cell matches Cell::Int(v) && v == spec_mapped(
            pcg_out(state),
            min as int,
            max as int,
        ),
        Column::List { items } => cell matches Cell::Str(s) && s@ == items[spec_mapped(
            pcg_out(state),
            0,
            items.len() - 1,
        )]@,
        Column::Poisson { center } => cell == (Cell::PoissonDraw {
            raw: pcg_out(state),
            center,
        }),
        Column::Sequence { start } => cell == Cell::Int((start + row) as i128),
        Column::Text { min, max } => {
            let sub0 = pcg_state_of_seed(pcg_out(state));
            let len = spec_mapped(pcg_out(sub0), min as int, max as int);
            cell matches Cell::Str(s) && s@ == spec_text_chars(pcg_step(sub0), len)
        },
    }
}

/// The type tag of a column, as the schema grammar writes it.
pub open spec fn spec_column_type(c: Column) -> char {
    match c {
        Column::Date { .. } => 'd',
        Column::Exponential { .. } => 'e',
        Column::Gaussian { .. } => 'g',
        Column::Integer { .. } => 'i',
        Column::List { .. } => 'l',
        Column::Poisson { .. } => 'p',
        Column::Sequence { .. } => 's',
        Column::Text { .. } => 't',
    }
}

/// Primary draws a column consumes per row: 0 for Sequence, 1 otherwise.
pub open spec fn spec_count(c: Column) -> nat {
    match c {
        Column::Sequence { .. } => 0,
        _ => 1,
    }
}

/// Two columns of the same variant whose attributes hold the same values
/// (texts and item lists compared by content).
pub open spec fn column_matches(a: Column, b: Column) -> bool {
    match (a, b) {
        (
            Column::Date { start_ts: a1, end_ts: a2 },
            Column::Date { start_ts: b1, end_ts: b2 },
        ) => a1 == b1 && a2 == b2,
        (
            Column::Exponential { min: a1, max: a2, probability: a3 },
            Column::Exponential { min: b1, max: b2, probability: b3 },
        ) => a1 == b1 && a2 == b2 && a3 == b3,
        (
            Column::Gaussian { min: a1, max: a2, probability: a3 },
            Column::Gaussian { min: b1, max: b2, probability: b3 },
        ) => a1 == b1 && a2 == b2 && a3@ == b3@,
        (Column::Integer { min: a1, max: a2 }, Column::Integer { min: b1, max: b2 }) => a1 == b1
            && a2 == b2,
        (Column::List { items: a1 }, Column::List { items: b1 }) => a1@ == b1@,
        (Column::Poisson { center: a1 }, Column::Poisson { center: b1 }) => a1 == b1,
        (Column::Sequence { start: a1 }, Column::Sequence { start: b1 }) => a1 == b1,
        (Column::Text { min: a1, max: a2 }, Column::Text { min: b1, max: b2 }) => a1 == b1 && a2
            == b2,
        _ => false,
    }
}

/// Clones a vector of strings, keeping every element's text.
pub fn clone_string_vec(v: &Vec<String>) -> (r: Vec<String>)
    ensures
        r@ == v@,
{
    let mut r: Vec<String> = Vec::new();
    let mut i: usize = 0;
    while i < v.len()
        invariant
            0 <= i <= v@.len(),
            r@ == v@.take(i as int),
        decreases v@.len() - i,
    {
        r.push(v[i].clone());
        proof {
            assert(v@.take(i as int + 1) =~= v@.take(i as int).push(v@[i as int]));
        }
        i = i + 1;
    }
    proof {
        assert(v@.take(v@.len() as int) =~= v@);
    }
    r
}

impl Clone for Column {
    /// A field-for-field copy: the clone matches the original, so
    /// well-formedness and the draw count carry over.
    fn clone(&self) -> (r: Self)
        ensures
            column_matches(r, *self),
            column_wf(*self) ==> column_wf(r),
            spec_count(r) == spec_count(*self),
    {
        match self {
            Column::Date { start_ts, end_ts } => Column::Date {
                start_ts: *start_ts,
                end_ts: *end_ts,
            },
            Column::Exponential { min, max, probability } => Column::Exponential {
                min: *min,
                max: *max,
                probability: *probability,
            },
            Column::Gaussian { min, max, probability } => Column::Gaussian {
                min: *min,
                max: *max,
                probability: probability.clone(),
            },
            Column::Integer { min, max } => Column::Integer { min: *min, max: *max },
            Column::List { items } => Column::List { items: clone_string_vec(items) },
            Column::Poisson { center } => Column::Poisson { center: *center },
            Column::Sequence { start } => Column::Sequence { start: *start },
            Column::Text { min, max } => Column::Text { min: *min, max: *max },
        }
    }
}

impl Column {
    /// The type tag this column answers to in the driver's dispatch.
    pub fn column_type(&self) -> (c: char)
        ensures
            c == spec_column_type(*self),
    {
        match self {
            Column::Date { .. } => 'd',
            Column::Exponential { .. } => 'e',
            Column::Gaussian { .. } => 'g',
            Column::Integer { .. } => 'i',
            Column::List { .. } => 'l',
            Column::Poisson { .. } => 'p',
            Column::Sequence { .. } => 's',
            Column::Text { .. } => 't',
        }
    }

    /// The number of primary draws this column takes per row, independent of
    /// its attributes and of the row index.
    pub fn count(&self) -> (n: u64)
        ensures
            n == spec_count(*self),
    {
        match self {
            Column::Sequence { .. } => 0,
            _ => 1,
        }
    }

    /// Samples one value for row `row_index`, consuming exactly
    /// `spec_count(self)` primary draws: the cell is the one `cell_sampled`
    /// pins for the stream state at entry, and the stream leaves at
    /// `col_next_state`.
    pub fn sample(&self, rng: &mut GenRng, row_index: u64) -> (cell: Cell)
        requires
            column_wf(*self),
        ensures
            cell_ok(*self, row_index as int, cell),
            cell_sampled(*self, row_index as int, old(rng).state@, cell),
            final(rng).state@ == col_next_state(*self, old(rng).state@),
            final(rng).draws@ == old(rng).draws@ + spec_count(*self),
    {
        match self {
            Column::Date { start_ts, end_ts } => {
                let t = draw_mapped(rng, *start_ts as i128, *end_ts as i128);
                let t64: i64 = t as i64;
                Cell::Str(ymd_string_of_ts(t64))
            },
            Column::Exponential { min, max, probability } => {
                let raw = next_raw(rng);
                Cell::ExpDraw { raw, min: *min, max: *max, probability: *probability }
            },
            Column::Gaussian { min, max, probability } => {
                let raw = next_raw(rng);
                Cell::GaussDraw { raw, min: *min, max: *max, probability: probability.clone() }
            },
            Column::Integer { min, max } => Cell::Int(draw_mapped(rng, *min, *max)),
            Column::List { items } => {
                let i = draw_mapped(rng, 0, (items.len() - 1) as i128);
                Cell::Str(items[i as usize].clone())
            },
            Column::Poisson { center } => {
                let raw = next_raw(rng);
                Cell::PoissonDraw { raw, center: *center }
            },
            Column::Sequence { start } => Cell::Int(*start + row_index as i128),
            Column::Text { min, max } => {
                let seed = next_raw(rng);
                let mut sub = rng_from_seed(seed);
                let len = draw_mapped(&mut sub, *min, *max);
                let ghost st0 = sub.state@;
                let mut s = String::new();
                let mut i: i128 = 0;
                while i < len
                    invariant
                        0 <= i <= len,
                        s@.len() == i,
                        forall|j: int| 0 <= j < s@.len() ==> is_alpha_char(#[trigger] s@[j]),
                        s@ + spec_text_chars(sub.state@, len - i) == spec_text_chars(
                            st0,
                            len as int,
                        ),
                    decreases len - i,
                {
                    let ghost cur = sub.state@;
                    let ghost s_before = s@;
                    let idx = draw_range(&mut sub, 52);
                    push_char(&mut s, letter_char(idx));
                    proof {
                        assert(spec_text_chars(cur, len - i) == seq![
                            spec_letter(pcg_range(cur, 52)),
                        ] + spec_text_chars(pcg_range_step(cur, 52), len - i - 1));
                        assert(s@ == s_before.push(spec_letter(pcg_range(cur, 52))));
                        assert(s@ + spec_text_chars(sub.state@, len - (i + 1)) =~= s_before
                            + spec_text_chars(cur, len - i));
                    }
                    i = i + 1;
                }
                proof {
                    assert(spec_text_chars(sub.state@, 0) =~= Seq::<char>::empty());
                    assert(s@ =~= spec_text_chars(st0, len as int));
                }
                Cell::Str(s)
            },
        }
    }
}

} // verus!
