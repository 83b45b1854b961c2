//! The matrix data model: a row-major grid of signed 64-bit cells, with the
//! well-formedness notions the parser establishes and the multiplication
//! engine relies on.

use vstd::prelude::*;

verus! {

/// A matrix is a row-major grid of signed 64-bit cells.
pub type Matrix = Vec<Vec<i64>>;

/// Column count of a matrix view: the width of its first row (0 if it has no
/// rows).
pub open spec fn spec_cols(m: Seq<Seq<i64>>) -> int {
    if m.len() == 0 {
        0
    } else {
        m[0].len() as int
    }
}

/// A matrix view is rectangular: every row has the width of the first.
pub open spec fn is_rect(m: Seq<Seq<i64>>) -> bool {
    forall|i: int| 0 <= i < m.len() ==> #[trigger] m[i].len() == spec_cols(m)
}

/// A valid matrix is rectangular with at least one row and one column.
pub open spec fn is_valid(m: Seq<Seq<i64>>) -> bool {
    is_rect(m) && m.len() >= 1 && spec_cols(m) >= 1
}

/// The deep view of a row of cells is its plain view.
pub broadcast proof fn lemma_row_deep_view(v: Vec<i64>)
    ensures
        #[trigger] v.deep_view() == v@,
{
    assert(v.deep_view() =~= v@);
}

/// The deep view of a piece of buffer text is its plain view.
pub broadcast proof fn lemma_text_deep_view(v: Vec<char>)
    ensures
        #[trigger] v.deep_view() == v@,
{
    assert(v.deep_view() =~= v@);
}

/// Column count of a matrix.
pub fn cols(m: &Matrix) -> (n: usize)
    ensures
        n == spec_cols(m.deep_view()),
{
    if m.len() == 0 {
        0
    } else {
        m[0].len()
    }
}

} // verus!
