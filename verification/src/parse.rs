//! The schema reader's parsing logic.
//!
//! The first line of a definition file is the row count; each further
//! non-empty line is a column definition whose first character is the type
//! tag.  List columns name a file of items; loading that file is the
//! caller's, and the loaded items are handed back to `resolve_table`.

use vstd::prelude::*;
use crate::columns::{Column, all_digits, has_nonzero_digit, is_valid_width, SEQ_START_MAX};
use crate::dates::ts_of_ymd;
use crate::generate::{TableDefinition, table_wf};
use crate::rng::MAX_SPAN;
use crate::strutil::{chars_of, push_char};

verus! {

/// A schema error, carrying the offending line (or list file path).
#[derive(Debug)]
pub enum SchemaError {
    /// The row-count line is not an unsigned decimal that fits.
    BadRowCount { line: String },
    /// A column line whose first character is no known type tag.
    UnknownTag { line: String },
    /// A column line that does not match its tag's grammar.
    Malformed { line: String },
    /// Bounds that no sampler accepts (`min > max`, a width of zero, a date
    /// that does not exist, or a span beyond the draw's 53 bits).
    BadBounds { line: String },
    /// A list file with no items.
    EmptyList { path: String },
    /// The loaded item lists do not line up with the list columns.
    ListMismatch,
}

/// A parsed column line: a finished column, or a list column still waiting
/// for the items of its file.
pub enum ColumnSpec {
    Ready { column: Column },
    NeedsList { path: String },
}

/// Well-formedness of a parsed column line: a finished column is well
/// formed; a pending list column names a non-empty path.
pub open spec fn column_spec_wf(s: ColumnSpec) -> bool {
    match s {
        ColumnSpec::Ready { column } => crate::columns::column_wf(column),
        ColumnSpec::NeedsList { path } => path@.len() >= 1,
    }
}

/// Whether `c` is a decimal digit.
pub open spec fn is_digit(c: char) -> bool {
    '0' <= c && c <= '9'
}

/// The value of a run of decimal digits.
pub open spec fn digits_val(s: Seq<char>) -> int
    recommends
        all_digits(s),
    decreases s.len(),
{
    if s.len() == 0 {
        0
    } else {
        digits_val(s.drop_last()) * 10 + (s.last() as int - 48)
    }
}

/// Whitespace stripped from line ends.
pub open spec fn is_ws(c: char) -> bool {
    c == ' ' || c == '\t' || c == '\r' || c == '\n'
}

/// `s` without its leading whitespace.
pub open spec fn spec_trim_front(s: Seq<char>) -> Seq<char>
    decreases s.len(),
{
    if s.len() > 0 && is_ws(s[0]) {
        spec_trim_front(s.drop_first())
    } else {
        s
    }
}

/// `s` without its trailing whitespace.
pub open spec fn spec_trim_back(s: Seq<char>) -> Seq<char>
    decreases s.len(),
{
    if s.len() > 0 && is_ws(s.last()) {
        spec_trim_back(s.drop_last())
    } else {
        s
    }
}

/// `s` without leading and trailing whitespace: what a line means to the
/// schema reader.
pub open spec fn spec_trim(s: Seq<char>) -> Seq<char> {
    spec_trim_back(spec_trim_front(s))
}

/// A digit run's value is non-negative.
pub proof fn lemma_digits_val_nonneg(s: Seq<char>)
    requires
        all_digits(s),
    ensures
        digits_val(s) >= 0,
    decreases s.len(),
{
    if s.len() > 0 {
        assert(forall|i: int| 0 <= i < s.drop_last().len() ==> s.drop_last()[i] == s[i]);
        lemma_digits_val_nonneg(s.drop_last());
        assert('0' <= s.last() <= '9');
    }
}

/// Extending a digit run never shrinks its value.
pub proof fn lemma_digits_val_prefix(s: Seq<char>, e: int)
    requires
        all_digits(s),
        0 <= e <= s.len(),
    ensures
        digits_val(s.subrange(0, e)) <= digits_val(s),
    decreases s.len(),
{
    if e == s.len() {
        assert(s.subrange(0, e) =~= s);
    } else {
        assert(forall|i: int| 0 <= i < s.drop_last().len() ==> s.drop_last()[i] == s[i]);
        assert(s.drop_last().subrange(0, e) =~= s.subrange(0, e));
        lemma_digits_val_prefix(s.drop_last(), e);
        lemma_digits_val_nonneg(s.drop_last());
        assert('0' <= s.last() <= '9');
        assert(digits_val(s) == digits_val(s.drop_last()) * 10 + (s.last() as int - 48));
        assert(digits_val(s.drop_last()) * 10 >= digits_val(s.drop_last())) by (nonlinear_arith)
            requires
                digits_val(s.drop_last()) >= 0,
        ;
    }
}

/// Some digit run starting at `from` exceeds what an `i128` holds.
pub open spec fn digits_exceed(s: Seq<char>, from: int) -> bool {
    exists|e: int|
        from < e <= s.len() && all_digits(#[trigger] s.subrange(from, e)) && digits_val(
            s.subrange(from, e),
        ) > i128::MAX
}

/// A digit run's front part is all digits and never worth more.
pub proof fn lemma_digits_prefix_from(s: Seq<char>, from: int, e: int, to: int)
    requires
        0 <= from <= e <= to <= s.len(),
        all_digits(s.subrange(from, to)),
    ensures
        all_digits(s.subrange(from, e)),
        digits_val(s.subrange(from, e)) <= digits_val(s.subrange(from, to)),
{
    let w = s.subrange(from, to);
    assert(s.subrange(from, e) =~= w.subrange(0, e - from));
    assert forall|i: int| 0 <= i < e - from implies '0' <= #[trigger] w.subrange(0, e - from)[i]
        <= '9' by {
        assert(w.subrange(0, e - from)[i] == w[i]);
    }
    lemma_digits_val_prefix(w, e - from);
}

/// `val` is the value of the all-digit run `[a, b)` of `s`.
pub open spec fn digit_run_val(s: Seq<char>, a: int, b: int, val: int) -> bool {
    0 <= a <= b <= s.len() && all_digits(s.subrange(a, b)) && val == digits_val(s.subrange(a, b))
}

/// `val` is the value of some digit run of `s`: how a parsed attribute
/// relates to the line it was read from.
pub open spec fn some_digit_run(s: Seq<char>, val: int) -> bool {
    exists|a: int, b: int| digit_run_val(s, a, b, val)
}

/// `val` is the value of some digit run between `lo` and `hi`.
pub open spec fn run_within(s: Seq<char>, lo: int, hi: int, val: int) -> bool {
    exists|a: int, b: int| lo <= a <= b <= hi && digit_run_val(s, a, b, val)
}

/// A digit run of a trimmed line is a digit run of the whole line, shifted
/// by the trim offset.
proof fn lemma_run_in_line(line: Seq<char>, t: Seq<char>, off: int, x: int, y: int, val: int)
    requires
        0 <= off,
        off + t.len() <= line.len(),
        t == line.subrange(off, off + t.len()),
        0 <= x <= y <= t.len(),
        all_digits(t.subrange(x, y)),
        val == digits_val(t.subrange(x, y)),
    ensures
        digit_run_val(line, off + x, off + y, val),
{
    assert(line.subrange(off + x, off + y) =~= t.subrange(x, y));
}

/// Lifts `run_within` on a trimmed line to `some_digit_run` on the line.
proof fn lemma_some_run_lifted(line: Seq<char>, t: Seq<char>, off: int, lo: int, hi: int, val: int)
    requires
        0 <= off,
        off + t.len() <= line.len(),
        t == line.subrange(off, off + t.len()),
        run_within(t, lo, hi, val),
    ensures
        some_digit_run(line, val),
{
    let (a, b) = choose|a: int, b: int| lo <= a <= b <= hi && digit_run_val(t, a, b, val);
    lemma_run_in_line(line, t, off, a, b, val);
    assert(digit_run_val(line, off + a, off + b, val));
}

fn digit_of(c: char) -> (r: Option<u8>)
    ensures
        r matches Some(d) ==> is_digit(c) && d < 10 && d == c as int - 48,
        r is None ==> !is_digit(c),
{
    if '0' <= c && c <= '9' {
        Some((c as u8) - 48)
    } else {
        None
    }
}

/// Scans a run of digits starting at `from` and returns its value and the
/// index just past it.  Returns nothing when no digit starts at `from` or
/// the value would not fit.
fn scan_digits(v: &Vec<char>, from: usize) -> (r: Option<(i128, usize)>)
    requires
        from <= v@.len(),
    ensures
        r matches Some(p) ==> {
            &&& from < p.1 <= v@.len()
            &&& all_digits(v@.subrange(from as int, p.1 as int))
            &&& (p.1 == v@.len() || !is_digit(v@[p.1 as int]))
            &&& p.0 == digits_val(v@.subrange(from as int, p.1 as int))
            &&& 0 <= p.0
        },
        r is None ==> from == v@.len() || !is_digit(v@[from as int]) || digits_exceed(
            v@,
            from as int,
        ),
{
    let n = v.len();
    if from >= n {
        return None;
    }
    let mut val: i128 = 0;
    let mut i: usize = from;
    while i < n
        invariant
            from <= i <= n,
            n == v@.len(),
            all_digits(v@.subrange(from as int, i as int)),
            val == digits_val(v@.subrange(from as int, i as int)),
            0 <= val,
        ensures
            from <= i <= n,
            n == v@.len(),
            all_digits(v@.subrange(from as int, i as int)),
            val == digits_val(v@.subrange(from as int, i as int)),
            0 <= val,
            i == n || !is_digit(v@[i as int]),
        decreases n - i,
    {
        match digit_of(v[i]) {
            Some(d) => {
                proof {
                    let pre = v@.subrange(from as int, i as int);
                    let nxt = v@.subrange(from as int, i as int + 1);
                    assert(nxt.drop_last() =~= pre);
                    assert(nxt.last() == v@[i as int]);
                }
                if val > (i128::MAX - (d as i128)) / 10 {
                    proof {
                        let x = i128::MAX - d as int;
                        let q = x / 10;
                        vstd::arithmetic::div_mod::lemma_fundamental_div_mod(x, 10);
                        vstd::arithmetic::div_mod::lemma_mod_bound(x, 10);
                        assert(x == 10 * q + x % 10 && 0 <= x % 10 < 10);
                        assert(val as int * 10 >= (q + 1) * 10) by (nonlinear_arith)
                            requires
                                val as int >= q + 1,
                        ;
                        assert(digits_val(v@.subrange(from as int, i as int + 1)) > i128::MAX);
                        assert(digits_exceed(v@, from as int));
                    }
                    return None;
                }
                val = val * 10 + (d as i128);
                i = i + 1;
            },
            None => {
                break ;
            },
        }
    }
    if i == from {
        return None;
    }
    Some((val, i))
}

/// Builds the text between two indices.
fn string_from_range(v: &Vec<char>, from: usize, to: usize) -> (s: String)
    requires
        from <= to <= v@.len(),
    ensures
        s@ == v@.subrange(from as int, to as int),
    decreases to - from,
{
    let mut s = String::new();
    let mut i: usize = from;
    while i < to
        invariant
            from <= i <= to <= v@.len(),
            s@ == v@.subrange(from as int, i as int),
        decreases to - i,
    {
        push_char(&mut s, v[i]);
        proof {
            assert(v@.subrange(from as int, i as int + 1) =~= v@.subrange(from as int, i as int)
                .push(v@[i as int]));
        }
        i = i + 1;
    }
    s
}

/// Strips leading and trailing whitespace from a line's characters.
fn trim_chars(v: &Vec<char>) -> (r: Vec<char>)
    ensures
        r@ == spec_trim(v@),
        r@.len() <= v@.len(),
        r@.len() > 0 ==> !is_ws(r@[0]) && !is_ws(r@[r@.len() - 1]),
        exists|a: int, b: int| 0 <= a <= b <= v@.len() && r@ == v@.subrange(a, b),
{
    let n = v.len();
    proof {
        assert(v@.skip(0) =~= v@);
    }
    let mut a: usize = 0;
    while a < n && (v[a] == ' ' || v[a] == '\t' || v[a] == '\r' || v[a] == '\n')
        invariant
            0 <= a <= n,
            n == v@.len(),
            spec_trim_front(v@) == spec_trim_front(v@.skip(a as int)),
        decreases n - a,
    {
        proof {
            assert(v@.skip(a as int)[0] == v@[a as int]);
            assert(v@.skip(a as int).drop_first() =~= v@.skip(a as int + 1));
        }
        a = a + 1;
    }
    proof {
        assert(v@.skip(a as int) =~= v@.subrange(a as int, n as int));
        if a < n {
            assert(!is_ws(v@.skip(a as int)[0]));
        }
        assert(spec_trim_front(v@.skip(a as int)) == v@.skip(a as int));
        assert(spec_trim_front(v@) == v@.subrange(a as int, n as int));
    }
    let mut b: usize = n;
    while b > a && (v[b - 1] == ' ' || v[b - 1] == '\t' || v[b - 1] == '\r' || v[b - 1] == '\n')
        invariant
            a <= b <= n,
            n == v@.len(),
            spec_trim_back(v@.subrange(a as int, n as int)) == spec_trim_back(
                v@.subrange(a as int, b as int),
            ),
        decreases b,
    {
        proof {
            assert(v@.subrange(a as int, b as int).last() == v@[b - 1]);
            assert(v@.subrange(a as int, b as int).drop_last() =~= v@.subrange(
                a as int,
                b as int - 1,
            ));
        }
        b = b - 1;
    }
    proof {
        if b > a {
            assert(!is_ws(v@.subrange(a as int, b as int).last()));
        }
        assert(spec_trim_back(v@.subrange(a as int, b as int)) == v@.subrange(a as int, b as int));
        assert(spec_trim(v@) == v@.subrange(a as int, b as int));
    }
    let mut r: Vec<char> = Vec::new();
    let mut i: usize = a;
    while i < b
        invariant
            a <= i <= b <= v@.len(),
            r@ == v@.subrange(a as int, i as int),
        decreases b - i,
    {
        r.push(v[i]);
        proof {
            assert(v@.subrange(a as int, i as int + 1) =~= v@.subrange(a as int, i as int).push(
                v@[i as int],
            ));
        }
        i = i + 1;
    }
    proof {
        assert(r@ == v@.subrange(a as int, b as int));
    }
    r
}

/// Checks that the text from `from` on is a width the Gaussian sampler
/// accepts; accepting implies `is_valid_width` of that text.
fn check_width(v: &Vec<char>, from: usize) -> (b: bool)
    requires
        from <= v@.len(),
    ensures
        b ==> is_valid_width(v@.subrange(from as int, v@.len() as int)),
{
    let n = v.len();
    let len = n - from;
    let ghost s = v@.subrange(from as int, v@.len() as int);
    // Find the first dot, if any.
    let mut dot: usize = 0;
    let mut has_dot = false;
    let mut i: usize = from;
    while i < n
        invariant_except_break
            !has_dot,
        invariant
            from <= i <= n,
            n == v@.len(),
        ensures
            n == v@.len(),
            has_dot ==> from <= dot < n && v@[dot as int] == '.',
        decreases n - i,
    {
        if v[i] == '.' {
            has_dot = true;
            dot = i;
            break ;
        }
        i = i + 1;
    }
    if !has_dot {
        if len < 1 || len > 15 {
            return false;
        }
        let digits = check_digits_range(v, from, n);
        let nonzero = check_nonzero_range(v, from, n);
        proof {
            assert(s.len() == len);
            if digits && nonzero {
                assert(s =~= v@.subrange(from as int, n as int));
            }
        }
        digits && nonzero
    } else {
        let k = dot - from;
        if k < 1 || k > 15 {
            return false;
        }
        let frac = n - dot - 1;
        if frac < 1 || frac > 30 {
            return false;
        }
        let d1 = check_digits_range(v, from, dot);
        let d2 = check_digits_range(v, dot + 1, n);
        let nz = check_nonzero_range(v, from, dot) || check_nonzero_range(v, dot + 1, n);
        if d1 && d2 && nz {
            proof {
                assert(s[k as int] == v@[dot as int]);
                assert(s.subrange(0, k as int) =~= v@.subrange(from as int, dot as int));
                assert(s.subrange(k as int + 1, s.len() as int) =~= v@.subrange(
                    dot as int + 1,
                    n as int,
                ));
            }
            true
        } else {
            false
        }
    }
}

fn check_digits_range(v: &Vec<char>, from: usize, to: usize) -> (b: bool)
    requires
        from <= to <= v@.len(),
    ensures
        b == all_digits(v@.subrange(from as int, to as int)),
{
    let mut i: usize = from;
    while i < to
        invariant
            from <= i <= to <= v@.len(),
            forall|j: int| from <= j < i ==> '0' <= #[trigger] v@[j] <= '9',
        decreases to - i,
    {
        if !('0' <= v[i] && v[i] <= '9') {
            proof {
                assert(v@.subrange(from as int, to as int)[i - from] == v@[i as int]);
            }
            return false;
        }
        i = i + 1;
    }
    proof {
        let sub = v@.subrange(from as int, to as int);
        assert forall|j: int| 0 <= j < sub.len() implies '0' <= #[trigger] sub[j] <= '9' by {
            assert(sub[j] == v@[j + from]);
        }
    }
    true
}

fn check_nonzero_range(v: &Vec<char>, from: usize, to: usize) -> (b: bool)
    requires
        from <= to <= v@.len(),
    ensures
        b ==> has_nonzero_digit(v@.subrange(from as int, to as int)),
{
    let mut i: usize = from;
    while i < to
        invariant
            from <= i <= to <= v@.len(),
        decreases to - i,
    {
        if '1' <= v[i] && v[i] <= '9' {
            proof {
                assert(v@.subrange(from as int, to as int)[i - from] == v@[i as int]);
            }
            return true;
        }
        i = i + 1;
    }
    false
}

} // verus!

verus! {

/// A parsed definition file: the row count and one entry per column line.
pub struct TablePlan {
    pub rows: u64,
    pub specs: Vec<ColumnSpec>,
}

/// Every parsed column line is well formed.
pub open spec fn plan_wf(p: TablePlan) -> bool {
    forall|i: int| 0 <= i < p.specs@.len() ==> column_spec_wf(#[trigger] p.specs@[i])
}

fn line_string(line: &str) -> (s: String)
    ensures
        s@ == line@,
{
    String::from_str(line)
}

/// The row-count lines the reader accepts: trimmed, one non-empty digit
/// run whose value fits a `u64`.
pub open spec fn row_count_ok(line: Seq<char>) -> bool {
    let t = spec_trim(line);
    t.len() >= 1 && all_digits(t) && digits_val(t) <= u64::MAX
}

/// Parses the row-count line: an unsigned decimal, surrounded by optional
/// whitespace.  Succeeds exactly on the lines `row_count_ok` accepts, and
/// then returns the value of the whole trimmed line.
pub fn parse_row_count(line: &str) -> (r: Result<u64, SchemaError>)
    ensures
        r matches Ok(v) ==> row_count_ok(line@) && v == digits_val(spec_trim(line@)),
        r is Err <==> !row_count_ok(line@),
{
    let v = chars_of(line);
    let t = trim_chars(&v);
    match scan_digits(&t, 0) {
        Some((val, end)) => {
            if end == t.len() && val <= 0xFFFF_FFFF_FFFF_FFFF {
                proof {
                    assert(t@.subrange(0, end as int) =~= t@);
                }
                Ok(val as u64)
            } else {
                proof {
                    if end < t.len() {
                        if all_digits(t@) {
                            assert('0' <= t@[end as int] <= '9');
                            assert(false);
                        }
                    } else {
                        assert(t@.subrange(0, end as int) =~= t@);
                    }
                }
                Err(SchemaError::BadRowCount { line: line_string(line) })
            }
        },
        None => {
            proof {
                if t@.len() >= 1 && all_digits(t@) && digits_val(t@) <= u64::MAX {
                    assert('0' <= t@[0] <= '9');
                    assert(digits_exceed(t@, 0));
                    let e = choose|e: int|
                        0 < e <= t@.len() && all_digits(t@.subrange(0, e)) && digits_val(
                            t@.subrange(0, e),
                        ) > i128::MAX;
                    lemma_digits_prefix_from(t@, 0, e, t@.len() as int);
                    assert(t@.subrange(0, t@.len() as int) =~= t@);
                    assert(false);
                }
            }
            Err(SchemaError::BadRowCount { line: line_string(line) })
        },
    }
}

/// Scans `<digits> , <digits>` starting at `from`; used by the two-number
/// grammars.
fn scan_pair(v: &Vec<char>, from: usize) -> (r: Option<(i128, i128, usize)>)
    requires
        from <= v@.len(),
    ensures
        r matches Some(p) ==> {
            &&& from < p.2 <= v@.len()
            &&& 0 <= p.0
            &&& 0 <= p.1
            &&& run_within(v@, from as int, p.2 as int, p.0 as int)
            &&& run_within(v@, from as int, p.2 as int, p.1 as int)
        },
{
    let (a, i) = match scan_digits(v, from) {
        Some(p) => p,
        None => {
            return None;
        },
    };
    if i >= v.len() {
        return None;
    }
    if v[i] != ',' {
        return None;
    }
    let (b, j) = match scan_digits(v, i + 1) {
        Some(p) => p,
        None => {
            return None;
        },
    };
    proof {
        assert(digit_run_val(v@, from as int, i as int, a as int));
        assert(digit_run_val(v@, i as int + 1, j as int, b as int));
    }
    Some((a, b, j))
}

/// Scans `<digits> - <digits> - <digits>` starting at `from`: one date.
fn scan_ymd(v: &Vec<char>, from: usize) -> (r: Option<(i128, i128, i128, usize)>)
    requires
        from <= v@.len(),
    ensures
        r matches Some(p) ==> {
            &&& from < p.3 <= v@.len()
            &&& 0 <= p.0
            &&& 0 <= p.1
            &&& 0 <= p.2
            &&& run_within(v@, from as int, p.3 as int, p.0 as int)
            &&& run_within(v@, from as int, p.3 as int, p.1 as int)
            &&& run_within(v@, from as int, p.3 as int, p.2 as int)
        },
{
    let (y, i) = match scan_digits(v, from) {
        Some(p) => p,
        None => {
            return None;
        },
    };
    if i >= v.len() || v[i] != '-' {
        return None;
    }
    let (m, j) = match scan_digits(v, i + 1) {
        Some(p) => p,
        None => {
            return None;
        },
    };
    if j >= v.len() || v[j] != '-' {
        return None;
    }
    let (d, k) = match scan_digits(v, j + 1) {
        Some(p) => p,
        None => {
            return None;
        },
    };
    proof {
        assert(digit_run_val(v@, from as int, i as int, y as int));
        assert(digit_run_val(v@, i as int + 1, j as int, m as int));
        assert(digit_run_val(v@, j as int + 1, k as int, d as int));
    }
    Some((y, m, d, k))
}

/// A line whose whole tail after the tag is one digit run of value at
/// most `i128::MAX` holds no overlong digit run there.
proof fn lemma_single_run_refuted(t: Seq<char>)
    requires
        t.len() > 1,
        all_digits(t.subrange(1, t.len() as int)),
        digits_val(t.subrange(1, t.len() as int)) <= i128::MAX,
    ensures
        !digits_exceed(t, 1),
{
    assert forall|e: int|
        1 < e <= t.len() && all_digits(#[trigger] t.subrange(1, e)) implies digits_val(
        t.subrange(1, e),
    ) <= i128::MAX by {
        lemma_digits_prefix_from(t, 1, e, t.len() as int);
    }
}

/// A two-number line body: after the tag, a digit run, the comma at `k`,
/// and a digit run to the end, both values fitting an `i128`.
pub open spec fn pair_line_at(t: Seq<char>, k: int) -> bool {
    &&& 2 <= k < t.len() - 1
    &&& t[k] == ','
    &&& all_digits(t.subrange(1, k))
    &&& all_digits(t.subrange(k + 1, t.len() as int))
    &&& digits_val(t.subrange(1, k)) <= i128::MAX
    &&& digits_val(t.subrange(k + 1, t.len() as int)) <= i128::MAX
}

/// A maximal digit run from `from` stops exactly at the comma.
proof fn lemma_scan_hits_comma(t: Seq<char>, from: int, k: int, i1: int)
    requires
        0 < from < k < t.len(),
        t[k] == ',',
        all_digits(t.subrange(from, k)),
        from < i1 <= t.len(),
        all_digits(t.subrange(from, i1)),
        i1 == t.len() || !is_digit(t[i1]),
    ensures
        i1 == k,
{
    if i1 < k {
        assert(t.subrange(from, k)[i1 - from] == t[i1]);
        assert(false);
    } else if i1 > k {
        assert(t.subrange(from, i1)[k - from] == t[k]);
        assert(false);
    }
}

/// A maximal digit run over an all-digit tail stops at the end.
proof fn lemma_scan_hits_end(t: Seq<char>, from: int, i2: int)
    requires
        0 <= from,
        all_digits(t.subrange(from, t.len() as int)),
        from < i2 <= t.len(),
        all_digits(t.subrange(from, i2)),
        i2 == t.len() || !is_digit(t[i2]),
    ensures
        i2 == t.len(),
{
    if i2 < t.len() {
        assert(t.subrange(from, t.len() as int)[i2 - from] == t[i2]);
        assert(false);
    }
}

/// A digit run bounded by a non-digit stop with a fitting value leaves no
/// overlong run at `from`.
proof fn lemma_no_exceed(t: Seq<char>, from: int, stop: int)
    requires
        0 < from < stop <= t.len(),
        all_digits(t.subrange(from, stop)),
        digits_val(t.subrange(from, stop)) <= i128::MAX,
        stop == t.len() || !is_digit(t[stop]),
    ensures
        !digits_exceed(t, from),
{
    assert forall|e: int|
        from < e <= t.len() && all_digits(#[trigger] t.subrange(from, e)) implies digits_val(
        t.subrange(from, e),
    ) <= i128::MAX by {
        if e <= stop {
            lemma_digits_prefix_from(t, from, e, stop);
        } else {
            assert(t.subrange(from, e)[stop - from] == t[stop]);
        }
    }
}

/// A three-number line body: after the tag, digit runs separated by the
/// commas at `k1` and `k2`, all three values fitting an `i128`.
pub open spec fn triple_line_at(t: Seq<char>, k1: int, k2: int) -> bool {
    &&& 2 <= k1
    &&& k1 + 1 < k2 < t.len() - 1
    &&& t[k1] == ','
    &&& t[k2] == ','
    &&& all_digits(t.subrange(1, k1))
    &&& all_digits(t.subrange(k1 + 1, k2))
    &&& all_digits(t.subrange(k2 + 1, t.len() as int))
    &&& digits_val(t.subrange(1, k1)) <= i128::MAX
    &&& digits_val(t.subrange(k1 + 1, k2)) <= i128::MAX
    &&& digits_val(t.subrange(k2 + 1, t.len() as int)) <= i128::MAX
}

/// A list line body: blanks after the tag, then the path the reader takes
/// — its first non-blank stretch, ending at a blank or at the line's end.
pub open spec fn list_path_at(t: Seq<char>, a: int, b: int) -> bool {
    &&& 1 <= a < b <= t.len()
    &&& (forall|j: int| 1 <= j < a ==> (#[trigger] t[j]) == ' ' || t[j] == '\t')
    &&& (forall|j: int| a <= j < b ==> !((#[trigger] t[j]) == ' ' || t[j] == '\t'))
    &&& (b == t.len() || t[b] == ' ' || t[b] == '\t')
}

/// The schema type tags.
pub open spec fn is_tag_char(c: char) -> bool {
    c == 'd' || c == 'e' || c == 'g' || c == 'i' || c == 'l' || c == 'p' || c == 's' || c == 't'
}

/// The sequence lines the reader accepts: the tag, then one digit run
/// whose value fits a sequence start.
pub open spec fn sequence_line_ok(t: Seq<char>) -> bool {
    t.len() >= 2 && t[0] == 's' && all_digits(t.subrange(1, t.len() as int)) && digits_val(
        t.subrange(1, t.len() as int),
    ) <= SEQ_START_MAX
}

/// The poisson lines the reader accepts: the tag, then one digit run with
/// a positive value that fits.
pub open spec fn poisson_line_ok(t: Seq<char>) -> bool {
    t.len() >= 2 && t[0] == 'p' && all_digits(t.subrange(1, t.len() as int)) && 1 <= digits_val(
        t.subrange(1, t.len() as int),
    ) <= i128::MAX
}

/// Parses one column definition line: the grammar the schema file
/// documents, tag first.  On success the parsed column is well formed, and
/// each numeric attribute is the value of a digit run of the line; a
/// Gaussian width and a list path are pieces of the line.
pub fn parse_column_line(line: &str) -> (r: Result<ColumnSpec, SchemaError>)
    ensures
        r matches Ok(spec0) ==> column_spec_wf(spec0),
        r matches Ok(ColumnSpec::Ready { column }) ==> match column {
            Column::Date { start_ts, end_ts } => {
                &&& exists|y: int, m: int, d: int|
                    {
                        &&& crate::dates::spec_valid_ymd(y, m, d)
                        &&& start_ts == #[trigger] crate::dates::date_ts(y, m, d)
                        &&& some_digit_run(line@, y)
                        &&& some_digit_run(line@, m)
                        &&& some_digit_run(line@, d)
                    }
                &&& exists|y: int, m: int, d: int|
                    {
                        &&& crate::dates::spec_valid_ymd(y, m, d)
                        &&& end_ts == #[trigger] crate::dates::date_ts(y, m, d)
                        &&& some_digit_run(line@, y)
                        &&& some_digit_run(line@, m)
                        &&& some_digit_run(line@, d)
                    }
            },
            Column::Exponential { min, max, probability } => some_digit_run(line@, min as int)
                && some_digit_run(line@, max as int) && some_digit_run(line@, probability as int),
            Column::Gaussian { min, max, probability } => some_digit_run(line@, min as int)
                && some_digit_run(line@, max as int) && exists|x: int, y: int|
                0 <= x <= y <= line@.len() && probability@ == #[trigger] line@.subrange(x, y),
            Column::Integer { min, max } => some_digit_run(line@, min as int) && some_digit_run(
                line@,
                max as int,
            ),
            Column::List { items } => true,
            Column::Poisson { center } => some_digit_run(line@, center as int),
            Column::Sequence { start } => some_digit_run(line@, start as int),
            Column::Text { min, max } => some_digit_run(line@, min as int) && some_digit_run(
                line@,
                max as int,
            ),
        },
        r matches Ok(ColumnSpec::NeedsList { path }) ==> exists|x: int, y: int|
            0 <= x <= y <= line@.len() && path@ == #[trigger] line@.subrange(x, y),
        r matches Ok(ColumnSpec::Ready { column }) ==> spec_trim(line@).len() >= 1 && spec_trim(
            line@,
        )[0] == crate::columns::spec_column_type(column),
        r matches Ok(ColumnSpec::NeedsList { .. }) ==> spec_trim(line@).len() >= 1 && spec_trim(
            line@,
        )[0] == 'l',
        spec_trim(line@).len() == 0 ==> r is Err,
        spec_trim(line@).len() >= 1 && !is_tag_char(spec_trim(line@)[0]) ==> r matches Err(
            SchemaError::UnknownTag { .. },
        ),
        sequence_line_ok(spec_trim(line@)) ==> r == Result::<ColumnSpec, SchemaError>::Ok(
            ColumnSpec::Ready {
                column: Column::Sequence {
                    start: digits_val(
                        spec_trim(line@).subrange(1, spec_trim(line@).len() as int),
                    ) as i128,
                },
            },
        ),
        forall|k: int|
            #[trigger] pair_line_at(spec_trim(line@), k) && spec_trim(line@)[0] == 'i' ==> {
                let t = spec_trim(line@);
                let lo = digits_val(t.subrange(1, k));
                let hi = digits_val(t.subrange(k + 1, t.len() as int));
                if lo <= hi && hi - lo < MAX_SPAN {
                    r == Result::<ColumnSpec, SchemaError>::Ok(
                        ColumnSpec::Ready {
                            column: Column::Integer { min: lo as i128, max: hi as i128 },
                        },
                    )
                } else {
                    r matches Err(SchemaError::BadBounds { .. })
                }
            },
        forall|k: int|
            #[trigger] pair_line_at(spec_trim(line@), k) && spec_trim(line@)[0] == 't' ==> {
                let t = spec_trim(line@);
                let lo = digits_val(t.subrange(1, k));
                let hi = digits_val(t.subrange(k + 1, t.len() as int));
                if lo <= hi && hi - lo < MAX_SPAN {
                    r == Result::<ColumnSpec, SchemaError>::Ok(
                        ColumnSpec::Ready {
                            column: Column::Text { min: lo as i128, max: hi as i128 },
                        },
                    )
                } else {
                    r matches Err(SchemaError::BadBounds { .. })
                }
            },
        forall|k1: int, k2: int|
            #[trigger] triple_line_at(spec_trim(line@), k1, k2) && spec_trim(line@)[0] == 'e'
                ==> {
                let t = spec_trim(line@);
                let lo = digits_val(t.subrange(1, k1));
                let hi = digits_val(t.subrange(k1 + 1, k2));
                let wd = digits_val(t.subrange(k2 + 1, t.len() as int));
                if lo <= hi && hi - lo < MAX_SPAN && wd >= 1 {
                    r == Result::<ColumnSpec, SchemaError>::Ok(
                        ColumnSpec::Ready {
                            column: Column::Exponential {
                                min: lo as i128,
                                max: hi as i128,
                                probability: wd as i128,
                            },
                        },
                    )
                } else {
                    r matches Err(SchemaError::BadBounds { .. })
                }
            },
        forall|a: int, b: int|
            #[trigger] list_path_at(spec_trim(line@), a, b) && spec_trim(line@)[0] == 'l' ==> (
            r matches Ok(ColumnSpec::NeedsList { path }) && path@ == spec_trim(line@).subrange(
                a,
                b,
            )),
        poisson_line_ok(spec_trim(line@)) ==> r == Result::<ColumnSpec, SchemaError>::Ok(
            ColumnSpec::Ready {
                column: Column::Poisson {
                    center: digits_val(
                        spec_trim(line@).subrange(1, spec_trim(line@).len() as int),
                    ) as i128,
                },
            },
        ),
{
    let v0 = chars_of(line);
    let v = trim_chars(&v0);
    let ghost off = choose|a: int, b: int|
        0 <= a <= b <= v0@.len() && v@ == v0@.subrange(a, b);
    let n = v.len();
    if n == 0 {
        return Err(SchemaError::Malformed { line: line_string(line) });
    }
    let tag = v[0];
    if tag == 'd' {
        let (y1, m1, d1, i) = match scan_ymd(&v, 1) {
            Some(p) => p,
            None => {
                return Err(SchemaError::Malformed { line: line_string(line) });
            },
        };
        if i >= n || v[i] != ',' {
            return Err(SchemaError::Malformed { line: line_string(line) });
        }
        let (y2, m2, d2, j) = match scan_ymd(&v, i + 1) {
            Some(p) => p,
            None => {
                return Err(SchemaError::Malformed { line: line_string(line) });
            },
        };
        if j != n {
            return Err(SchemaError::Malformed { line: line_string(line) });
        }
        if y1 > 262142 || m1 > 12 || d1 > 31 || y2 > 262142 || m2 > 12 || d2 > 31 {
            return Err(SchemaError::BadBounds { line: line_string(line) });
        }
        let start_ts = match ts_of_ymd(y1 as i32, m1 as u32, d1 as u32) {
            Some(t) => t,
            None => {
                return Err(SchemaError::BadBounds { line: line_string(line) });
            },
        };
        let end_ts = match ts_of_ymd(y2 as i32, m2 as u32, d2 as u32) {
            Some(t) => t,
            None => {
                return Err(SchemaError::BadBounds { line: line_string(line) });
            },
        };
        if start_ts > end_ts {
            return Err(SchemaError::BadBounds { line: line_string(line) });
        }
        proof {
            lemma_some_run_lifted(line@, v@, off.0, 1, i as int, y1 as int);
            lemma_some_run_lifted(line@, v@, off.0, 1, i as int, m1 as int);
            lemma_some_run_lifted(line@, v@, off.0, 1, i as int, d1 as int);
            lemma_some_run_lifted(line@, v@, off.0, i as int + 1, j as int, y2 as int);
            lemma_some_run_lifted(line@, v@, off.0, i as int + 1, j as int, m2 as int);
            lemma_some_run_lifted(line@, v@, off.0, i as int + 1, j as int, d2 as int);
        }
        Ok(ColumnSpec::Ready { column: Column::Date { start_ts, end_ts } })
    } else if tag == 'e' {
        let (min, i1) = match scan_digits(&v, 1) {
            Some(p) => p,
            None => {
                proof {
                    assert forall|k1: int, k2: int| !triple_line_at(v@, k1, k2) by {
                        if triple_line_at(v@, k1, k2) {
                            assert(v@.subrange(1, k1)[0] == v@[1]);
                            lemma_no_exceed(v@, 1, k1);
                        }
                    }
                }
                return Err(SchemaError::Malformed { line: line_string(line) });
            },
        };
        if i1 >= n || v[i1] != ',' {
            proof {
                assert forall|k1: int, k2: int| !triple_line_at(v@, k1, k2) by {
                    if triple_line_at(v@, k1, k2) {
                        lemma_scan_hits_comma(v@, 1, k1, i1 as int);
                    }
                }
            }
            return Err(SchemaError::Malformed { line: line_string(line) });
        }
        let (max, i2) = match scan_digits(&v, i1 + 1) {
            Some(p) => p,
            None => {
                proof {
                    assert forall|k1: int, k2: int| !triple_line_at(v@, k1, k2) by {
                        if triple_line_at(v@, k1, k2) {
                            lemma_scan_hits_comma(v@, 1, k1, i1 as int);
                            assert(v@.subrange(k1 + 1, k2)[0] == v@[k1 + 1]);
                            lemma_no_exceed(v@, k1 + 1, k2);
                        }
                    }
                }
                return Err(SchemaError::Malformed { line: line_string(line) });
            },
        };
        if i2 >= n || v[i2] != ',' {
            proof {
                assert forall|k1: int, k2: int| !triple_line_at(v@, k1, k2) by {
                    if triple_line_at(v@, k1, k2) {
                        lemma_scan_hits_comma(v@, 1, k1, i1 as int);
                        lemma_scan_hits_comma(v@, i1 as int + 1, k2, i2 as int);
                    }
                }
            }
            return Err(SchemaError::Malformed { line: line_string(line) });
        }
        let (p, i3) = match scan_digits(&v, i2 + 1) {
            Some(p) => p,
            None => {
                proof {
                    assert forall|k1: int, k2: int| !triple_line_at(v@, k1, k2) by {
                        if triple_line_at(v@, k1, k2) {
                            lemma_scan_hits_comma(v@, 1, k1, i1 as int);
                            lemma_scan_hits_comma(v@, i1 as int + 1, k2, i2 as int);
                            assert(v@.subrange(k2 + 1, n as int)[0] == v@[k2 + 1]);
                            lemma_no_exceed(v@, k2 + 1, n as int);
                        }
                    }
                }
                return Err(SchemaError::Malformed { line: line_string(line) });
            },
        };
        if i3 != n {
            proof {
                assert forall|k1: int, k2: int| !triple_line_at(v@, k1, k2) by {
                    if triple_line_at(v@, k1, k2) {
                        lemma_scan_hits_comma(v@, 1, k1, i1 as int);
                        lemma_scan_hits_comma(v@, i1 as int + 1, k2, i2 as int);
                        lemma_scan_hits_end(v@, i2 as int + 1, i3 as int);
                    }
                }
            }
            return Err(SchemaError::Malformed { line: line_string(line) });
        }
        proof {
            assert forall|k1: int, k2: int| #[trigger] triple_line_at(v@, k1, k2) implies k1
                == i1 as int && k2 == i2 as int && min == digits_val(v@.subrange(1, k1)) && max
                == digits_val(v@.subrange(k1 + 1, k2)) && p == digits_val(
                v@.subrange(k2 + 1, v@.len() as int),
            ) by {
                lemma_scan_hits_comma(v@, 1, k1, i1 as int);
                lemma_scan_hits_comma(v@, i1 as int + 1, k2, i2 as int);
            }
        }
        if min > max || max - min >= MAX_SPAN || p < 1 {
            return Err(SchemaError::BadBounds { line: line_string(line) });
        }
        proof {
            assert(digit_run_val(v@, 1, i1 as int, min as int));
            assert(run_within(v@, 1, i3 as int, min as int));
            assert(digit_run_val(v@, i1 as int + 1, i2 as int, max as int));
            assert(run_within(v@, 1, i3 as int, max as int));
            assert(digit_run_val(v@, i2 as int + 1, i3 as int, p as int));
            assert(run_within(v@, 1, i3 as int, p as int));
            lemma_some_run_lifted(line@, v@, off.0, 1, i3 as int, min as int);
            lemma_some_run_lifted(line@, v@, off.0, 1, i3 as int, max as int);
            lemma_some_run_lifted(line@, v@, off.0, 1, i3 as int, p as int);
        }
        Ok(ColumnSpec::Ready { column: Column::Exponential { min, max, probability: p } })
    } else if tag == 'g' {
        let (min, max, i) = match scan_pair(&v, 1) {
            Some(p) => p,
            None => {
                return Err(SchemaError::Malformed { line: line_string(line) });
            },
        };
        if i >= n || v[i] != ',' {
            return Err(SchemaError::Malformed { line: line_string(line) });
        }
        if !check_width(&v, i + 1) {
            return Err(SchemaError::BadBounds { line: line_string(line) });
        }
        if min > max || max - min >= MAX_SPAN {
            return Err(SchemaError::BadBounds { line: line_string(line) });
        }
        let probability = string_from_range(&v, i + 1, n);
        proof {
            lemma_some_run_lifted(line@, v@, off.0, 1, i as int, min as int);
            lemma_some_run_lifted(line@, v@, off.0, 1, i as int, max as int);
            assert(line@.subrange(off.0 + i + 1, off.0 + n) =~= v@.subrange(
                i as int + 1,
                n as int,
            ));
        }
        Ok(ColumnSpec::Ready { column: Column::Gaussian { min, max, probability } })
    } else if tag == 'i' {
        let (min, i1) = match scan_digits(&v, 1) {
            Some(p) => p,
            None => {
                proof {
                    assert forall|k: int| !pair_line_at(v@, k) by {
                        if pair_line_at(v@, k) {
                            assert(v@.subrange(1, k)[0] == v@[1]);
                            lemma_no_exceed(v@, 1, k);
                        }
                    }
                }
                return Err(SchemaError::Malformed { line: line_string(line) });
            },
        };
        if i1 >= n || v[i1] != ',' {
            proof {
                assert forall|k: int| !pair_line_at(v@, k) by {
                    if pair_line_at(v@, k) {
                        lemma_scan_hits_comma(v@, 1, k, i1 as int);
                    }
                }
            }
            return Err(SchemaError::Malformed { line: line_string(line) });
        }
        let (max, i2) = match scan_digits(&v, i1 + 1) {
            Some(p) => p,
            None => {
                proof {
                    assert forall|k: int| !pair_line_at(v@, k) by {
                        if pair_line_at(v@, k) {
                            lemma_scan_hits_comma(v@, 1, k, i1 as int);
                            assert(v@.subrange(k + 1, n as int)[0] == v@[k + 1]);
                            lemma_no_exceed(v@, k + 1, n as int);
                        }
                    }
                }
                return Err(SchemaError::Malformed { line: line_string(line) });
            },
        };
        if i2 != n {
            proof {
                assert forall|k: int| !pair_line_at(v@, k) by {
                    if pair_line_at(v@, k) {
                        lemma_scan_hits_comma(v@, 1, k, i1 as int);
                        lemma_scan_hits_end(v@, i1 as int + 1, i2 as int);
                    }
                }
            }
            return Err(SchemaError::Malformed { line: line_string(line) });
        }
        proof {
            assert forall|k: int| #[trigger] pair_line_at(v@, k) implies k == i1 as int && min
                == digits_val(v@.subrange(1, k)) && max == digits_val(
                v@.subrange(k + 1, v@.len() as int),
            ) by {
                lemma_scan_hits_comma(v@, 1, k, i1 as int);
            }
        }
        if min > max || max - min >= MAX_SPAN {
            return Err(SchemaError::BadBounds { line: line_string(line) });
        }
        proof {
            assert(digit_run_val(v@, 1, i1 as int, min as int));
            assert(run_within(v@, 1, i2 as int, min as int));
            assert(digit_run_val(v@, i1 as int + 1, i2 as int, max as int));
            assert(run_within(v@, 1, i2 as int, max as int));
            lemma_some_run_lifted(line@, v@, off.0, 1, i2 as int, min as int);
            lemma_some_run_lifted(line@, v@, off.0, 1, i2 as int, max as int);
        }
        Ok(ColumnSpec::Ready { column: Column::Integer { min, max } })
    } else if tag == 'l' {
        let mut a: usize = 1;
        while a < n && (v[a] == ' ' || v[a] == '\t')
            invariant
                1 <= a <= n,
                n == v@.len(),
                forall|j: int| 1 <= j < a ==> (#[trigger] v@[j]) == ' ' || v@[j] == '\t',
            decreases n - a,
        {
            a = a + 1;
        }
        let mut b: usize = a;
        while b < n && v[b] != ' ' && v[b] != '\t'
            invariant
                a <= b <= n,
                n == v@.len(),
                forall|j: int| a <= j < b ==> !((#[trigger] v@[j]) == ' ' || v@[j] == '\t'),
            decreases n - b,
        {
            b = b + 1;
        }
        proof {
            assert forall|a2: int, b2: int| #[trigger] list_path_at(v@, a2, b2) implies a2
                == a as int && b2 == b as int by {
                if a2 < a {
                    assert(!(v@[a2] == ' ' || v@[a2] == '\t'));
                    assert(false);
                } else if a2 > a {
                    assert(v@[a as int] == ' ' || v@[a as int] == '\t');
                    assert(false);
                }
                if b2 < b {
                    assert(v@[b2] == ' ' || v@[b2] == '\t');
                    assert(false);
                } else if b2 > b {
                    assert(!(v@[b as int] == ' ' || v@[b as int] == '\t'));
                    assert(false);
                }
            }
        }
        if b == a {
            return Err(SchemaError::Malformed { line: line_string(line) });
        }
        let path = string_from_range(&v, a, b);
        proof {
            assert(line@.subrange(off.0 + a, off.0 + b) =~= v@.subrange(a as int, b as int));
        }
        Ok(ColumnSpec::NeedsList { path })
    } else if tag == 'p' {
        let (center, i) = match scan_digits(&v, 1) {
            Some(p) => p,
            None => {
                proof {
                    if poisson_line_ok(v@) {
                        assert(v@.subrange(1, n as int)[0] == v@[1]);
                        lemma_single_run_refuted(v@);
                        assert(false);
                    }
                }
                return Err(SchemaError::Malformed { line: line_string(line) });
            },
        };
        if i != n {
            proof {
                if poisson_line_ok(v@) {
                    assert(v@.subrange(1, n as int)[i - 1] == v@[i as int]);
                    assert(false);
                }
            }
            return Err(SchemaError::Malformed { line: line_string(line) });
        }
        proof {
            assert(v@.subrange(1, n as int) == v@.subrange(1, i as int));
        }
        if center < 1 {
            return Err(SchemaError::BadBounds { line: line_string(line) });
        }
        proof {
            assert(digit_run_val(v@, 1, i as int, center as int));
            assert(run_within(v@, 1, i as int, center as int));
            lemma_some_run_lifted(line@, v@, off.0, 1, i as int, center as int);
        }
        Ok(ColumnSpec::Ready { column: Column::Poisson { center } })
    } else if tag == 's' {
        let (start, i) = match scan_digits(&v, 1) {
            Some(p) => p,
            None => {
                proof {
                    if sequence_line_ok(v@) {
                        assert(v@.subrange(1, n as int)[0] == v@[1]);
                        lemma_single_run_refuted(v@);
                        assert(false);
                    }
                }
                return Err(SchemaError::Malformed { line: line_string(line) });
            },
        };
        if i != n {
            proof {
                if sequence_line_ok(v@) {
                    assert(v@.subrange(1, n as int)[i - 1] == v@[i as int]);
                    assert(false);
                }
            }
            return Err(SchemaError::Malformed { line: line_string(line) });
        }
        proof {
            assert(v@.subrange(1, n as int) == v@.subrange(1, i as int));
        }
        if start > SEQ_START_MAX {
            return Err(SchemaError::BadBounds { line: line_string(line) });
        }
        proof {
            assert(digit_run_val(v@, 1, i as int, start as int));
            assert(run_within(v@, 1, i as int, start as int));
            lemma_some_run_lifted(line@, v@, off.0, 1, i as int, start as int);
        }
        Ok(ColumnSpec::Ready { column: Column::Sequence { start } })
    } else if tag == 't' {
        let (min, i1) = match scan_digits(&v, 1) {
            Some(p) => p,
            None => {
                proof {
                    assert forall|k: int| !pair_line_at(v@, k) by {
                        if pair_line_at(v@, k) {
                            assert(v@.subrange(1, k)[0] == v@[1]);
                            lemma_no_exceed(v@, 1, k);
                        }
                    }
                }
                return Err(SchemaError::Malformed { line: line_string(line) });
            },
        };
        if i1 >= n || v[i1] != ',' {
            proof {
                assert forall|k: int| !pair_line_at(v@, k) by {
                    if pair_line_at(v@, k) {
                        lemma_scan_hits_comma(v@, 1, k, i1 as int);
                    }
                }
            }
            return Err(SchemaError::Malformed { line: line_string(line) });
        }
        let (max, i2) = match scan_digits(&v, i1 + 1) {
            Some(p) => p,
            None => {
                proof {
                    assert forall|k: int| !pair_line_at(v@, k) by {
                        if pair_line_at(v@, k) {
                            lemma_scan_hits_comma(v@, 1, k, i1 as int);
                            assert(v@.subrange(k + 1, n as int)[0] == v@[k + 1]);
                            lemma_no_exceed(v@, k + 1, n as int);
                        }
                    }
                }
                return Err(SchemaError::Malformed { line: line_string(line) });
            },
        };
        if i2 != n {
            proof {
                assert forall|k: int| !pair_line_at(v@, k) by {
                    if pair_line_at(v@, k) {
                        lemma_scan_hits_comma(v@, 1, k, i1 as int);
                        lemma_scan_hits_end(v@, i1 as int + 1, i2 as int);
                    }
                }
            }
            return Err(SchemaError::Malformed { line: line_string(line) });
        }
        proof {
            assert forall|k: int| #[trigger] pair_line_at(v@, k) implies k == i1 as int && min
                == digits_val(v@.subrange(1, k)) && max == digits_val(
                v@.subrange(k + 1, v@.len() as int),
            ) by {
                lemma_scan_hits_comma(v@, 1, k, i1 as int);
            }
        }
        if min > max || max - min >= MAX_SPAN {
            return Err(SchemaError::BadBounds { line: line_string(line) });
        }
        proof {
            assert(digit_run_val(v@, 1, i1 as int, min as int));
            assert(run_within(v@, 1, i2 as int, min as int));
            assert(digit_run_val(v@, i1 as int + 1, i2 as int, max as int));
            assert(run_within(v@, 1, i2 as int, max as int));
            lemma_some_run_lifted(line@, v@, off.0, 1, i2 as int, min as int);
            lemma_some_run_lifted(line@, v@, off.0, 1, i2 as int, max as int);
        }
        Ok(ColumnSpec::Ready { column: Column::Text { min, max } })
    } else {
        Err(SchemaError::UnknownTag { line: line_string(line) })
    }
}

/// Parses a whole definition file, given as its lines: the first line is
/// the row count, every further non-empty line one column definition.
pub fn parse_table(lines: &Vec<String>) -> (r: Result<TablePlan, SchemaError>)
    ensures
        r matches Ok(plan) ==> {
            &&& plan_wf(plan)
            &&& lines@.len() >= 1
            &&& row_count_ok(lines@[0]@)
            &&& plan.rows == digits_val(spec_trim(lines@[0]@))
            &&& plan.specs@.len() <= lines@.len() - 1
        },
        (lines@.len() >= 1 && row_count_ok(lines@[0]@) && forall|i: int|
            1 <= i < lines@.len() ==> spec_trim((#[trigger] lines@[i])@).len() == 0) ==> r is Ok,
{
    if lines.len() == 0 {
        return Err(SchemaError::BadRowCount { line: String::new() });
    }
    let rows = match parse_row_count(lines[0].as_str()) {
        Ok(rws) => rws,
        Err(e) => {
            return Err(e);
        },
    };
    let mut specs: Vec<ColumnSpec> = Vec::new();
    let mut i: usize = 1;
    while i < lines.len()
        invariant
            1 <= i <= lines@.len(),
            specs@.len() <= i - 1,
            forall|j: int| 0 <= j < specs@.len() ==> column_spec_wf(#[trigger] specs@[j]),
        decreases lines@.len() - i,
    {
        let raw = chars_of(lines[i].as_str());
        let t = trim_chars(&raw);
        if t.len() > 0 {
            match parse_column_line(lines[i].as_str()) {
                Ok(spec0) => specs.push(spec0),
                Err(e) => {
                    return Err(e);
                },
            }
        }
        i = i + 1;
    }
    Ok(TablePlan { rows, specs })
}

/// The list-file paths of the plan's pending list columns, in column
/// order.
pub open spec fn spec_list_paths(specs: Seq<ColumnSpec>) -> Seq<Seq<char>>
    decreases specs.len(),
{
    if specs.len() == 0 {
        Seq::empty()
    } else {
        let rest = spec_list_paths(specs.drop_last());
        match specs.last() {
            ColumnSpec::NeedsList { path } => rest.push(path@),
            _ => rest,
        }
    }
}

/// How many of the first `j` column lines are pending list columns.
pub open spec fn spec_list_count(specs: Seq<ColumnSpec>, j: int) -> int
    decreases j,
{
    if j <= 0 {
        0
    } else {
        spec_list_count(specs, j - 1) + if specs[j - 1] matches ColumnSpec::NeedsList { .. } {
            1int
        } else {
            0int
        }
    }
}

/// The list-file paths of the plan, in column order.
pub fn list_paths(plan: &TablePlan) -> (r: Vec<String>)
    ensures
        r@.map_values(|s: String| s@) == spec_list_paths(plan.specs@),
{
    let mut r: Vec<String> = Vec::new();
    let mut i: usize = 0;
    while i < plan.specs.len()
        invariant
            0 <= i <= plan.specs@.len(),
            r@.map_values(|s: String| s@) == spec_list_paths(plan.specs@.take(i as int)),
        decreases plan.specs@.len() - i,
    {
        proof {
            assert(plan.specs@.take(i as int + 1).drop_last() =~= plan.specs@.take(i as int));
            assert(plan.specs@.take(i as int + 1).last() == plan.specs@[i as int]);
        }
        match &plan.specs[i] {
            ColumnSpec::NeedsList { path } => {
                let ghost before = r@;
                r.push(path.clone());
                proof {
                    assert(r@.map_values(|s: String| s@) =~= before.map_values(|s: String| s@)
                        .push(plan.specs@[i as int]->NeedsList_path@));
                }
            },
            _ => {},
        }
        i = i + 1;
    }
    proof {
        assert(plan.specs@.take(plan.specs@.len() as int) =~= plan.specs@);
    }
    r
}

/// What the `j`-th resolved column must be: a finished column matching its
/// parsed line, or a list column holding the `k`-th loaded item list
/// verbatim.
pub open spec fn resolved_col(s: ColumnSpec, lists: Seq<Vec<String>>, k: int, col: Column) -> bool {
    match s {
        ColumnSpec::Ready { column } => crate::columns::column_matches(col, column),
        ColumnSpec::NeedsList { .. } => 0 <= k < lists.len() && (col matches Column::List { items }
            && items@ == lists[k]@),
    }
}

/// Counting list columns never decreases with more lines.
proof fn lemma_list_count_mono(specs: Seq<ColumnSpec>, j: int, j2: int)
    requires
        0 <= j <= j2,
    ensures
        spec_list_count(specs, j) <= spec_list_count(specs, j2),
    decreases j2 - j,
{
    if j < j2 {
        lemma_list_count_mono(specs, j, j2 - 1);
    }
}

/// Finishes a plan into a table: the `k`-th loaded item list becomes the
/// items of the `k`-th list column, verbatim and in order.  An empty item
/// list, an oversized one, or a count that does not line up is refused —
/// and success is owed whenever the lists line up and each is usable.
pub fn resolve_table(plan: &TablePlan, list_items: Vec<Vec<String>>) -> (r: Result<
    TableDefinition,
    SchemaError,
>)
    requires
        plan_wf(*plan),
    ensures
        r matches Ok(t) ==> {
            &&& table_wf(t)
            &&& t.rows == plan.rows
            &&& t.columns@.len() == plan.specs@.len()
            &&& forall|j: int|
                0 <= j < plan.specs@.len() ==> resolved_col(
                    #[trigger] plan.specs@[j],
                    list_items@,
                    spec_list_count(plan.specs@, j),
                    t.columns@[j],
                )
        },
        (list_items@.len() == spec_list_count(plan.specs@, plan.specs@.len() as int) && forall|
            m: int,
        | 0 <= m < list_items@.len() ==> 1 <= (#[trigger] list_items@[m])@.len() <= MAX_SPAN)
            ==> r is Ok,
{
    let mut columns: Vec<Column> = Vec::new();
    let mut k: usize = 0;
    let n = plan.specs.len();
    let mut i: usize = 0;
    while i < n
        invariant
            0 <= i <= n,
            n == plan.specs@.len(),
            k <= list_items@.len(),
            k == spec_list_count(plan.specs@, i as int),
            columns@.len() == i,
            forall|j: int| 0 <= j < plan.specs@.len() ==> column_spec_wf(#[trigger] plan.specs@[j]),
            forall|j: int| 0 <= j < columns@.len() ==> crate::columns::column_wf(
                #[trigger] columns@[j],
            ),
            forall|j: int|
                0 <= j < i ==> resolved_col(
                    #[trigger] plan.specs@[j],
                    list_items@,
                    spec_list_count(plan.specs@, j),
                    columns@[j],
                ),
        decreases n - i,
    {
        match &plan.specs[i] {
            ColumnSpec::Ready { column } => {
                columns.push(column.clone());
            },
            ColumnSpec::NeedsList { path } => {
                if k >= list_items.len() {
                    proof {
                        assert(plan.specs@[i as int] matches ColumnSpec::NeedsList { .. });
                        assert(spec_list_count(plan.specs@, i as int + 1) == k + 1);
                        lemma_list_count_mono(plan.specs@, i as int + 1, n as int);
                    }
                    return Err(SchemaError::ListMismatch);
                }
                let items = crate::columns::clone_string_vec(&list_items[k]);
                if items.len() == 0 {
                    return Err(SchemaError::EmptyList { path: path.clone() });
                }
                if items.len() as u64 > MAX_SPAN as u64 {
                    return Err(SchemaError::EmptyList { path: path.clone() });
                }
                columns.push(Column::List { items });
                k = k + 1;
            },
        }
        i = i + 1;
    }
    if k != list_items.len() {
        return Err(SchemaError::ListMismatch);
    }
    Ok(TableDefinition { rows: plan.rows, columns })
}

} // verus!
