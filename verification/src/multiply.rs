//! The multiplication engine: the product of two rectangular matrices of
//! signed 64-bit cells, computed with checked arithmetic, either in one
//! sequential pass or as contiguous row ranges that are reassembled in order.

use vstd::arithmetic::div_mod::{lemma_div_is_ordered, lemma_div_multiples_vanish};
use vstd::arithmetic::mul::{lemma_mul_inequality, lemma_mul_nonnegative, lemma_mul_upper_bound};
use vstd::prelude::*;

use crate::matrix::{cols, is_rect, lemma_row_deep_view, spec_cols, Matrix};

verus! {

broadcast use lemma_row_deep_view;

/// Why a multiplication request was rejected.
#[derive(Clone, Copy, Debug, PartialEq, Eq, Structural)]
pub enum ComputeError {
    /// The left operand's column count differs from the right operand's row
    /// count; the fields record the two counts.
    DimensionMismatch { a_cols: usize, b_rows: usize },
    /// A term or a running sum of some product cell does not fit in an i64.
    Overflow,
    /// An operand has no rows or no columns.
    EmptyInput,
}

/// The k-th term of the inner product for product cell (i, j): the
/// mathematical product of `a[i][k]` and `b[k][j]`.
pub open spec fn prod_term(a: Seq<Seq<i64>>, b: Seq<Seq<i64>>, i: int, j: int, k: int) -> int {
    a[i][k] * b[k][j]
}

/// The mathematical sum of the first `k` terms of the inner product for
/// product cell (i, j).
pub open spec fn cell_sum(a: Seq<Seq<i64>>, b: Seq<Seq<i64>>, i: int, j: int, k: int) -> int
    decreases k,
{
    if k <= 0 {
        0
    } else {
        cell_sum(a, b, i, j, k - 1) + prod_term(a, b, i, j, k - 1)
    }
}

/// Evaluating product cell (i, j) left to right with 64-bit checked
/// arithmetic never leaves the i64 range: every term fits, and every
/// running sum fits.
pub open spec fn cell_in_range(a: Seq<Seq<i64>>, b: Seq<Seq<i64>>, i: int, j: int) -> bool {
    &&& forall|k: int|
        0 <= k < b.len() ==> i64::MIN <= #[trigger] prod_term(a, b, i, j, k) <= i64::MAX
    &&& forall|k: int|
        1 <= k <= b.len() ==> i64::MIN <= #[trigger] cell_sum(a, b, i, j, k) <= i64::MAX
}

/// Every cell of rows [start, end) of the product stays in range.
pub open spec fn rows_in_range(a: Seq<Seq<i64>>, b: Seq<Seq<i64>>, start: int, end: int) -> bool {
    forall|i: int, j: int|
        start <= i < end && 0 <= j < spec_cols(b) ==> #[trigger] cell_in_range(a, b, i, j)
}

/// The full product grid: cell (i, j) is the inner product of row i of `a`
/// with column j of `b`.
pub open spec fn product_cells(a: Seq<Seq<i64>>, b: Seq<Seq<i64>>) -> Seq<Seq<i64>> {
    Seq::new(
        a.len(),
        |i: int|
            Seq::new(
                spec_cols(b) as nat,
                |j: int| cell_sum(a, b, i, j, b.len() as int) as i64,
            ),
    )
}

/// What multiplying `a` by `b` returns: the dimension check comes first,
/// then the emptiness check, then overflow, and otherwise the product grid.
pub open spec fn spec_multiply(a: Seq<Seq<i64>>, b: Seq<Seq<i64>>) -> Result<
    Seq<Seq<i64>>,
    ComputeError,
> {
    if spec_cols(a) != b.len() {
        Err(
            ComputeError::DimensionMismatch {
                a_cols: spec_cols(a) as usize,
                b_rows: b.len() as usize,
            },
        )
    } else if a.len() == 0 || spec_cols(a) == 0 || spec_cols(b) == 0 {
        Err(ComputeError::EmptyInput)
    } else if !rows_in_range(a, b, 0, a.len() as int) {
        Err(ComputeError::Overflow)
    } else {
        Ok(product_cells(a, b))
    }
}

/// A multiplication result seen at the level of matrix views.
pub open spec fn result_view(r: Result<Matrix, ComputeError>) -> Result<
    Seq<Seq<i64>>,
    ComputeError,
> {
    match r {
        Ok(m) => Ok(m.deep_view()),
        Err(e) => Err(e),
    }
}

/// Mismatched inner dimensions always yield `DimensionMismatch`, never a
/// product.
pub proof fn lemma_multiply_dimension_mismatch(a: Seq<Seq<i64>>, b: Seq<Seq<i64>>)
    requires
        spec_cols(a) != b.len(),
    ensures
        spec_multiply(a, b) == Err::<Seq<Seq<i64>>, ComputeError>(
            ComputeError::DimensionMismatch {
                a_cols: spec_cols(a) as usize,
                b_rows: b.len() as usize,
            },
        ),
{
}

/// Compute rows [start, end) of the product of `m1` and `m2` with checked
/// 64-bit arithmetic: exactly those rows of the product grid, or `Overflow`
/// when and only when some cell of that range leaves the i64 range.
pub fn multiply_row_range(m1: &Matrix, m2: &Matrix, start: usize, end: usize) -> (r: Result<
    Vec<Vec<i64>>,
    ComputeError,
>)
    requires
        is_rect(m1.deep_view()),
        is_rect(m2.deep_view()),
        spec_cols(m1.deep_view()) == m2.deep_view().len(),
        m2.deep_view().len() >= 1,
        spec_cols(m2.deep_view()) >= 1,
        start <= end <= m1.deep_view().len(),
    ensures
        match r {
            Ok(rows) => rows_in_range(m1.deep_view(), m2.deep_view(), start as int, end as int)
                && rows.deep_view() == product_cells(m1.deep_view(), m2.deep_view()).subrange(
                start as int,
                end as int,
            ),
            Err(e) => e == ComputeError::Overflow && !rows_in_range(
                m1.deep_view(),
                m2.deep_view(),
                start as int,
                end as int,
            ),
        },
{
    let ghost a = m1.deep_view();
    let ghost b = m2.deep_view();
    let b_cols = cols(m2);
    let n = m2.len();
    let mut rows: Vec<Vec<i64>> = Vec::new();
    let mut i = start;
    while i < end
        invariant
            is_rect(a),
            is_rect(b),
            a == m1.deep_view(),
            b == m2.deep_view(),
            spec_cols(a) == b.len(),
            b.len() >= 1,
            spec_cols(b) >= 1,
            start <= i <= end <= a.len(),
            b_cols == spec_cols(b),
            n == b.len(),
            rows_in_range(a, b, start as int, i as int),
            rows.deep_view() == product_cells(a, b).subrange(start as int, i as int),
        decreases end - i,
    {
        let mut row: Vec<i64> = Vec::new();
        let mut j: usize = 0;
        while j < b_cols
            invariant
                is_rect(a),
                is_rect(b),
                a == m1.deep_view(),
                b == m2.deep_view(),
                spec_cols(a) == b.len(),
                b.len() >= 1,
                spec_cols(b) >= 1,
                start <= i < end <= a.len(),
                b_cols == spec_cols(b),
                n == b.len(),
                0 <= j <= b_cols,
                row@.len() == j,
                forall|jj: int| 0 <= jj < j ==> #[trigger] cell_in_range(a, b, i as int, jj),
                forall|jj: int|
                    0 <= jj < j ==> row@[jj] == cell_sum(a, b, i as int, jj, b.len() as int) as i64,
            decreases b_cols - j,
        {
            let mut acc: i64 = 0;
            let mut k: usize = 0;
            while k < n
                invariant
                    is_rect(a),
                    is_rect(b),
                    a == m1.deep_view(),
                    b == m2.deep_view(),
                    spec_cols(a) == b.len(),
                    b.len() >= 1,
                    spec_cols(b) >= 1,
                    start <= i < end <= a.len(),
                    b_cols == spec_cols(b),
                    0 <= j < b_cols,
                    n == b.len(),
                    0 <= k <= n,
                    acc == cell_sum(a, b, i as int, j as int, k as int),
                    forall|kk: int|
                        0 <= kk < k ==> i64::MIN <= #[trigger] prod_term(
                            a,
                            b,
                            i as int,
                            j as int,
                            kk,
                        ) <= i64::MAX,
                    forall|kk: int|
                        1 <= kk <= k ==> i64::MIN <= #[trigger] cell_sum(
                            a,
                            b,
                            i as int,
                            j as int,
                            kk,
                        ) <= i64::MAX,
                decreases n - k,
            {
                assert(a[i as int].len() == b.len());
                assert(b[k as int].len() == spec_cols(b));
                let x = m1[i][k];
                let y = m2[k][j];
                assert(x == a[i as int][k as int]);
                assert(y == b[k as int][j as int]);
                let prod = match x.checked_mul(y) {
                    Some(p) => p,
                    None => {
                        assert(prod_term(a, b, i as int, j as int, k as int) == x * y);
                        assert(!cell_in_range(a, b, i as int, j as int));
                        assert(!rows_in_range(a, b, start as int, end as int));
                        return Err(ComputeError::Overflow);
                    },
                };
                assert(prod == prod_term(a, b, i as int, j as int, k as int));
                acc = match acc.checked_add(prod) {
                    Some(s) => s,
                    None => {
                        assert(cell_sum(a, b, i as int, j as int, k as int + 1) == acc
                            + prod_term(a, b, i as int, j as int, k as int));
                        assert(!cell_in_range(a, b, i as int, j as int));
                        assert(!rows_in_range(a, b, start as int, end as int));
                        return Err(ComputeError::Overflow);
                    },
                };
                k += 1;
            }
            assert(cell_in_range(a, b, i as int, j as int));
            row.push(acc);
            j += 1;
        }
        assert(row.deep_view() =~= product_cells(a, b)[i as int]);
        let ghost rows_before = rows.deep_view();
        rows.push(row);
        proof {
            assert(rows.deep_view() =~= rows_before.push(product_cells(a, b)[i as int]));
            assert(rows.deep_view() =~= product_cells(a, b).subrange(start as int, i as int + 1));
        }
        i += 1;
    }
    Ok(rows)
}

/// Sequential multiplication: row-major, then column, then inner product,
/// with checked 64-bit arithmetic.
pub fn multiply_matrices(m1: &Matrix, m2: &Matrix) -> (r: Result<Matrix, ComputeError>)
    requires
        is_rect(m1.deep_view()),
        is_rect(m2.deep_view()),
    ensures
        result_view(r) == spec_multiply(m1.deep_view(), m2.deep_view()),
{
    let ghost a = m1.deep_view();
    let ghost b = m2.deep_view();
    let a_cols = cols(m1);
    let b_rows = m2.len();
    if a_cols != b_rows {
        return Err(ComputeError::DimensionMismatch { a_cols, b_rows });
    }
    if m1.len() == 0 || a_cols == 0 || cols(m2) == 0 {
        return Err(ComputeError::EmptyInput);
    }
    match multiply_row_range(m1, m2, 0, m1.len()) {
        Ok(rows) => {
            proof {
                assert(rows.deep_view() =~= product_cells(a, b));
            }
            Ok(rows)
        },
        Err(e) => Err(e),
    }
}

/// The worker partition tiles the row space: each worker's range is within
/// bounds and ordered, consecutive workers' ranges meet (worker `t` ends
/// where worker `t + 1` starts, by the same formula), the first worker
/// starts at row 0, and the last worker ends at `rows`. This is why every
/// row of the product is computed by exactly one worker, for every worker
/// count.
pub proof fn lemma_partition_tiles(rows: int, thread_count: int, t: int)
    requires
        0 <= rows,
        1 <= thread_count,
        0 <= t < thread_count,
    ensures
        0 <= (t * rows) / thread_count,
        (t * rows) / thread_count <= ((t + 1) * rows) / thread_count,
        ((t + 1) * rows) / thread_count <= rows,
        t == 0 ==> (t * rows) / thread_count == 0,
        t == thread_count - 1 ==> ((t + 1) * rows) / thread_count == rows,
{
    lemma_mul_nonnegative(t, rows);
    lemma_mul_inequality(t, t + 1, rows);
    lemma_mul_inequality(t + 1, thread_count, rows);
    lemma_div_is_ordered(0, t * rows, thread_count);
    lemma_div_is_ordered(t * rows, (t + 1) * rows, thread_count);
    lemma_div_is_ordered((t + 1) * rows, thread_count * rows, thread_count);
    lemma_div_multiples_vanish(rows, thread_count);
    assert(thread_count * rows == rows * thread_count);
    lemma_div_multiples_vanish(0, thread_count);
}

/// Partitioned multiplication: worker `t` of `thread_count` owns product
/// rows `[(t * rows) / thread_count, ((t + 1) * rows) / thread_count)`; the
/// ranges tile the row space in order, a worker with an empty range
/// contributes nothing, and the assembled result is exactly what sequential
/// multiplication returns, for every worker count.
pub fn multiply_matrices_partitioned(m1: &Matrix, m2: &Matrix, thread_count: usize) -> (r: Result<
    Matrix,
    ComputeError,
>)
    requires
        is_rect(m1.deep_view()),
        is_rect(m2.deep_view()),
        thread_count >= 1,
    ensures
        result_view(r) == spec_multiply(m1.deep_view(), m2.deep_view()),
{
    let ghost a = m1.deep_view();
    let ghost b = m2.deep_view();
    let a_cols = cols(m1);
    let b_rows = m2.len();
    if a_cols != b_rows {
        return Err(ComputeError::DimensionMismatch { a_cols, b_rows });
    }
    if m1.len() == 0 || a_cols == 0 || cols(m2) == 0 {
        return Err(ComputeError::EmptyInput);
    }
    let rows_n = m1.len();
    let mut result: Vec<Vec<i64>> = Vec::new();
    let mut t: usize = 0;
    proof {
        lemma_div_multiples_vanish(0, thread_count as int);
        assert(result.deep_view() =~= product_cells(a, b).subrange(0, 0));
    }
    while t < thread_count
        invariant
            is_rect(a),
            is_rect(b),
            a == m1.deep_view(),
            b == m2.deep_view(),
            spec_cols(a) == b.len(),
            b.len() >= 1,
            spec_cols(b) >= 1,
            a.len() >= 1,
            rows_n == a.len(),
            thread_count >= 1,
            0 <= t <= thread_count,
            0 <= (t as int * rows_n as int) / (thread_count as int) <= rows_n,
            rows_in_range(a, b, 0, (t as int * rows_n as int) / (thread_count as int)),
            result.deep_view() == product_cells(a, b).subrange(
                0,
                (t as int * rows_n as int) / (thread_count as int),
            ),
        decreases thread_count - t,
    {
        proof {
            let ti = t as int;
            let ri = rows_n as int;
            let tc = thread_count as int;
            lemma_partition_tiles(ri, tc, ti);
            lemma_mul_upper_bound(ti, usize::MAX as int, ri, usize::MAX as int);
            lemma_mul_upper_bound(ti + 1, usize::MAX as int + 1, ri, usize::MAX as int);
        }
        let start = ((t as u128 * rows_n as u128) / (thread_count as u128)) as usize;
        let end = (((t as u128 + 1) * rows_n as u128) / (thread_count as u128)) as usize;
        if start < end {
            match multiply_row_range(m1, m2, start, end) {
                Ok(mut part) => {
                    let ghost part_rows = part.deep_view();
                    let ghost result_before = result.deep_view();
                    result.append(&mut part);
                    proof {
                        assert(result.deep_view() =~= result_before + part_rows);
                        assert(result.deep_view() =~= product_cells(a, b).subrange(
                            0,
                            end as int,
                        ));
                        assert(rows_in_range(a, b, 0, end as int));
                    }
                },
                Err(_) => {
                    proof {
                        assert(!rows_in_range(a, b, 0, rows_n as int)) by {
                            if rows_in_range(a, b, 0, rows_n as int) {
                                assert forall|i: int, j: int|
                                    start <= i < end && 0 <= j < spec_cols(
                                        b,
                                    ) implies #[trigger] cell_in_range(a, b, i, j) by {
                                    assert(cell_in_range(a, b, i, j));
                                }
                            }
                        }
                    }
                    return Err(ComputeError::Overflow);
                },
            }
        } else {
            proof {
                assert(rows_in_range(a, b, 0, end as int));
            }
        }
        t += 1;
    }
    proof {
        lemma_div_multiples_vanish(rows_n as int, thread_count as int);
        assert(thread_count as int * rows_n as int == rows_n as int * thread_count as int);
        assert((t as int * rows_n as int) / (thread_count as int) == rows_n as int);
        assert(result.deep_view() =~= product_cells(a, b));
    }
    Ok(result)
}

/// A worker's report: the contiguous product row range it owned and the rows
/// it computed for that range.
pub struct Report {
    pub start: usize,
    pub end: usize,
    pub rows: Vec<Vec<i64>>,
}

/// Index of the first report whose range starts at row `next` (the
/// sequence's length when there is none).
pub open spec fn first_report_at(reports: Seq<Report>, next: int) -> int
    decreases reports.len(),
{
    if reports.len() == 0 {
        0
    } else if reports[0].start == next {
        0
    } else {
        1 + first_report_at(reports.drop_first(), next)
    }
}

proof fn lemma_first_report_at(reports: Seq<Report>, next: int)
    ensures
        0 <= first_report_at(reports, next) <= reports.len(),
        first_report_at(reports, next) < reports.len() ==> reports[first_report_at(
            reports,
            next,
        )].start == next,
        forall|q: int| 0 <= q < first_report_at(reports, next) ==> reports[q].start != next,
    decreases reports.len(),
{
    if reports.len() > 0 && reports[0].start != next {
        lemma_first_report_at(reports.drop_first(), next);
        assert forall|q: int| 0 <= q < first_report_at(reports, next) implies reports[q].start
            != next by {
            if q > 0 {
                assert(reports.drop_first()[q - 1] == reports[q]);
                assert(reports.drop_first()[q - 1].start != next);
            }
        }
    }
}

/// What reassembling worker reports yields: starting at row `next`,
/// repeatedly take the first report whose range starts there, append its
/// rows, and continue at that report's end; every report must be used
/// exactly once and the ranges must exactly tile `[next, total)`.
pub open spec fn spec_assemble(reports: Seq<Report>, next: int, total: int) -> Option<
    Seq<Seq<i64>>,
>
    decreases reports.len(),
{
    if next == total {
        if reports.len() == 0 {
            Some(Seq::empty())
        } else {
            None
        }
    } else {
        let idx = first_report_at(reports, next);
        if 0 <= idx < reports.len() && next < reports[idx].end <= total && reports[idx].rows@.len()
            == reports[idx].end - reports[idx].start {
            match spec_assemble(reports.remove(idx), reports[idx].end as int, total) {
                Some(rest) => Some(reports[idx].rows.deep_view() + rest),
                None => None,
            }
        } else {
            None
        }
    }
}

/// The coordinator's reassembly step: succeeds exactly when the reports'
/// ranges tile `[0, total)`, each report used exactly once, and then returns
/// their rows in row order.
#[verifier::loop_isolation(false)]
pub fn assemble_reports(reports: Vec<Report>, total: usize) -> (r: Option<Matrix>)
    ensures
        match r {
            Some(m) => spec_assemble(reports@, 0, total as int) == Some(m.deep_view()),
            None => spec_assemble(reports@, 0, total as int) is None,
        },
{
    let ghost orig = reports@;
    let mut remaining = reports;
    let mut result: Vec<Vec<i64>> = Vec::new();
    let mut next: usize = 0;
    proof {
        if let Some(rest) = spec_assemble(orig, 0, total as int) {
            assert(result.deep_view() + rest =~= rest);
        }
    }
    while next < total
        invariant
            next <= total,
            assemble_inv(orig, remaining@, result.deep_view(), next as int, total as int),
        decreases total - next,
    {
        let ghost rem_before = remaining@;
        let n = remaining.len();
        let mut idx: usize = 0;
        while idx < n && remaining[idx].start != next
            invariant
                idx <= n,
                n == remaining@.len(),
                forall|q: int| 0 <= q < idx ==> remaining@[q].start != next,
            decreases n - idx,
        {
            idx += 1;
        }
        proof {
            lemma_first_report_at(rem_before, next as int);
            assert(idx == first_report_at(rem_before, next as int));
        }
        if idx == n {
            proof {
                assert(spec_assemble(rem_before, next as int, total as int) is None);
            }
            return None;
        }
        let rep = remaining.remove(idx);
        if rep.end <= next || rep.end > total {
            proof {
                assert(spec_assemble(rem_before, next as int, total as int) is None);
            }
            return None;
        }
        if rep.rows.len() != rep.end - rep.start {
            proof {
                assert(spec_assemble(rem_before, next as int, total as int) is None);
            }
            return None;
        }
        let new_next = rep.end;
        let ghost acc_before = result.deep_view();
        let mut rep_rows = rep.rows;
        let ghost rep_rows_view = rep_rows.deep_view();
        result.append(&mut rep_rows);
        next = new_next;
        proof {
            assert(result.deep_view() =~= acc_before + rep_rows_view);
            if let Some(rest2) = spec_assemble(remaining@, next as int, total as int) {
                assert(acc_before + (rep_rows_view + rest2) =~= (acc_before + rep_rows_view)
                    + rest2);
            }
        }
    }
    if remaining.len() == 0 {
        proof {
            assert(result.deep_view() + Seq::<Seq<i64>>::empty() =~= result.deep_view());
        }
        Some(result)
    } else {
        None
    }
}

/// The reassembly invariant: what assembling the remaining reports from row
/// `next` on yields, prefixed by the rows assembled so far, is what
/// assembling the whole report sequence from row 0 yields.
spec fn assemble_inv(
    orig: Seq<Report>,
    remaining: Seq<Report>,
    acc: Seq<Seq<i64>>,
    next: int,
    total: int,
) -> bool {
    match spec_assemble(remaining, next, total) {
        Some(rest) => spec_assemble(orig, 0, total) == Some(acc + rest),
        None => spec_assemble(orig, 0, total) is None,
    }
}

} // verus!
