//! A 0/1 linear program as plain data: binary columns with bounds and
//! objective coefficients, and rows that compare a weighted sum of columns
//! with zero.

use crate::graph::Cost;
use vstd::prelude::*;

verus! {

/// The number of a column.
pub type Col = usize;

/// How a row's weighted sum must compare with zero.
#[derive(Clone, Copy, PartialEq, Eq, Structural, Debug)]
pub enum RowKind {
    /// The sum is zero.
    Equal,
    /// The sum is at most zero.
    AtMost,
}

/// A binary column: its bounds, and what it adds to the objective when it
/// is 1.
#[derive(Clone, Copy, Debug)]
pub struct Column {
    /// The column must be 1.
    pub forced_on: bool,
    /// The column must be 0.
    pub forced_off: bool,
    pub objective: Cost,
}

/// A constraint on a weighted sum of columns.
pub struct Row {
    pub kind: RowKind,
    /// The columns of the sum with their weights.
    pub weights: Vec<(Col, i8)>,
}

/// A 0/1 linear program whose objective is to be minimized.
pub struct Model {
    pub columns: Vec<Column>,
    pub rows: Vec<Row>,
}

/// The weighted sum of a row under the assignment `x`; a column that `x`
/// does not reach counts as 0.
pub open spec fn row_value(weights: Seq<(Col, i8)>, x: Seq<bool>) -> int
    decreases weights.len(),
{
    if weights.len() == 0 {
        0
    } else {
        row_value(weights.drop_last(), x) + if weights.last().0 < x.len() && x[weights.last().0 as int] {
            weights.last().1 as int
        } else {
            0
        }
    }
}

/// The row's constraint holds under `x`.
pub open spec fn row_holds(row: &Row, x: Seq<bool>) -> bool {
    match row.kind {
        RowKind::Equal => row_value(row.weights@, x) == 0,
        RowKind::AtMost => row_value(row.weights@, x) <= 0,
    }
}

/// All rows hold under `x`.
pub open spec fn rows_hold(rows: Seq<Row>, x: Seq<bool>) -> bool {
    forall|r: int| 0 <= r < rows.len() ==> row_holds(#[trigger] &rows[r], x)
}

/// `x` respects the bounds of all columns.
pub open spec fn bounds_hold(columns: Seq<Column>, x: Seq<bool>) -> bool {
    &&& x.len() == columns.len()
    &&& forall|c: int|
        0 <= c < columns.len() ==> ((#[trigger] columns[c]).forced_on ==> x[c]) && (
        columns[c].forced_off ==> !x[c])
}

/// A weighted sum lies within the number of its terms times 128.
pub proof fn lemma_row_value_bound(weights: Seq<(Col, i8)>, x: Seq<bool>)
    ensures
        -128 * weights.len() <= row_value(weights, x) <= 128 * weights.len(),
    decreases weights.len(),
{
    if weights.len() > 0 {
        lemma_row_value_bound(weights.drop_last(), x);
    }
}

/// What the first `k` columns add to the objective under `x`: the charge
/// of each column that is 1.
pub open spec fn objective_upto(columns: Seq<Column>, x: Seq<bool>, k: nat) -> int
    decreases k,
{
    if k == 0 {
        0
    } else {
        objective_upto(columns, x, (k - 1) as nat) + if k - 1 < x.len() && x[k - 1] {
            columns[k - 1].objective as int
        } else {
            0
        }
    }
}

/// The value of the objective under `x`.
pub open spec fn objective_value(columns: Seq<Column>, x: Seq<bool>) -> int {
    objective_upto(columns, x, columns.len())
}

/// The charges of `k` columns add up to at most `k` times the largest
/// charge.
pub proof fn lemma_objective_bound(columns: Seq<Column>, x: Seq<bool>, k: nat)
    ensures
        0 <= objective_upto(columns, x, k) <= k * u64::MAX,
    decreases k,
{
    if k > 0 {
        lemma_objective_bound(columns, x, (k - 1) as nat);
        assert(k * u64::MAX == (k - 1) * u64::MAX + u64::MAX) by (nonlinear_arith);
    }
}

impl Model {
    /// The value of the objective under `x`.
    pub fn objective_value(&self, x: &[bool]) -> (value: u128)
        ensures
            value == objective_value(self.columns@, x@),
    {
        let mut value: u128 = 0;
        let mut k: usize = 0;
        while k < self.columns.len()
            invariant
                k <= self.columns@.len(),
                value == objective_upto(self.columns@, x@, k as nat),
            decreases self.columns@.len() - k,
        {
            proof {
                lemma_objective_bound(self.columns@, x@, k as nat);
                assert(k * u64::MAX + u64::MAX <= u128::MAX) by (nonlinear_arith)
                    requires
                        k < usize::MAX,
                        usize::MAX <= u64::MAX,
                ;
            }
            if k < x.len() && x[k] {
                value = value + self.columns[k].objective as u128;
            }
            k += 1;
        }
        value
    }

    /// `x` is a solution: it gives every column a value within its bounds
    /// and makes every row hold.
    pub open spec fn holds(&self, x: Seq<bool>) -> bool {
        bounds_hold(self.columns@, x) && rows_hold(self.rows@, x)
    }

    /// Whether `x` is a solution.
    pub fn is_solution(&self, x: &[bool]) -> (ok: bool)
        ensures
            ok == self.holds(x@),
    {
        if x.len() != self.columns.len() {
            return false;
        }
        let mut c: usize = 0;
        while c < self.columns.len()
            invariant
                c <= self.columns@.len(),
                x@.len() == self.columns@.len(),
                forall|d: int|
                    0 <= d < c ==> ((#[trigger] self.columns@[d]).forced_on ==> x@[d]) && (
                    self.columns@[d].forced_off ==> !x@[d]),
            decreases self.columns@.len() - c,
        {
            if (self.columns[c].forced_on && !x[c]) || (self.columns[c].forced_off && x[c]) {
                return false;
            }
            c += 1;
        }
        let mut r: usize = 0;
        while r < self.rows.len()
            invariant
                r <= self.rows@.len(),
                bounds_hold(self.columns@, x@),
                forall|q: int| 0 <= q < r ==> row_holds(#[trigger] &self.rows@[q], x@),
            decreases self.rows@.len() - r,
        {
            let row: &Row = &self.rows[r];
            let mut sum: i128 = 0;
            let mut t: usize = 0;
            while t < row.weights.len()
                invariant
                    t <= row.weights@.len(),
                    sum == row_value(row.weights@.take(t as int), x@),
                decreases row.weights@.len() - t,
            {
                proof {
                    assert(row.weights@.take(t + 1).drop_last() =~= row.weights@.take(t as int));
                    lemma_row_value_bound(row.weights@.take(t as int), x@);
                }
                let (col, weight) = row.weights[t];
                if col < x.len() && x[col] {
                    sum = sum + weight as i128;
                }
                t += 1;
            }
            assert(row.weights@.take(t as int) =~= row.weights@);
            let ok: bool = match row.kind {
                RowKind::Equal => sum == 0,
                RowKind::AtMost => sum <= 0,
            };
            if !ok {
                return false;
            }
            r += 1;
        }
        true
    }
}

} // verus!
