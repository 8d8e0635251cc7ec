//! Pivot selection for Gauss–Jordan inversion of a 4×4 matrix.
//!
//! Elimination works through the columns from left to right. In column `c`
//! it needs a nonzero element on the diagonal. When the diagonal element is
//! zero, row `c` is exchanged with every lower row that has a nonzero element
//! in that column, one after the other from the top down, so the last such
//! row ends up as the pivot row. When there is none, the matrix is singular.
//!
//! Which rows are exchanged depends only on *which* elements of the column
//! are zero, not on their other values. The elements arrive as the bit
//! patterns of double-precision numbers; an element is zero if it is `+0.0`
//! or `-0.0`.
use crate::numerics::{is_nonzero, magnitude};
use vstd::prelude::*;

verus! {

/// A column has no nonzero element on or below the diagonal: the matrix has
/// no inverse.
#[derive(Clone, Copy, Debug, PartialEq, Eq, Structural)]
pub struct SingularMatrix;

impl SingularMatrix {
    /// What to tell the user.
    pub fn message(&self) -> (message: &'static str)
        ensures
            message@ == "Matrix is singular and not invertible"@,
    {
        "Matrix is singular and not invertible"
    }
}

/// Whether the column has a nonzero element in row `column` or below.
pub open spec fn has_pivot(nonzero: Seq<bool>, column: int) -> bool {
    exists|row: int| column <= row < 4 && #[trigger] nonzero[row]
}

/// The rows from `from` down that hold a nonzero element, top to bottom.
pub open spec fn nonzero_rows_from(nonzero: Seq<bool>, from: int) -> Seq<usize>
    decreases 4 - from,
{
    if from >= 4 || from < 0 {
        Seq::empty()
    } else if nonzero[from] {
        seq![from as usize] + nonzero_rows_from(nonzero, from + 1)
    } else {
        nonzero_rows_from(nonzero, from + 1)
    }
}

/// The rows that row `column` is exchanged with, in order: none when the
/// diagonal element is nonzero already, else every lower row with a nonzero
/// element in this column.
pub open spec fn pivot_exchanges(nonzero: Seq<bool>, column: int) -> Seq<usize> {
    if nonzero[column] {
        Seq::empty()
    } else {
        nonzero_rows_from(nonzero, column + 1)
    }
}

/// `rows` after row `column` has been exchanged with each row of
/// `exchanges` in turn.
pub open spec fn after_exchanges<T>(rows: Seq<T>, column: int, exchanges: Seq<usize>) -> Seq<T>
    decreases exchanges.len(),
{
    if exchanges.len() == 0 {
        rows
    } else {
        let with = exchanges[0] as int;
        after_exchanges(
            rows.update(column, rows[with]).update(with, rows[column]),
            column,
            exchanges.drop_first(),
        )
    }
}

/// Which elements of a column differ from zero.
pub open spec fn nonzero_pattern(elements: Seq<u64>) -> Seq<bool> {
    Seq::new(elements.len(), |row: int| magnitude(elements[row]) != 0)
}

/// Decides the row exchanges for column `column`, whose four elements are
/// given from the top row down.
///
/// The result lists the rows to exchange row `column` with, in order, or
/// reports that the matrix is singular: that the column has no element
/// different from zero in row `column` or below.
pub fn pivot_swaps(column: usize, elements: &[u64; 4]) -> (swaps: Result<Vec<usize>, SingularMatrix>)
    requires
        column < 4,
    ensures
        swaps is Ok <==> has_pivot(nonzero_pattern(elements@), column as int),
        swaps matches Ok(rows) ==> rows@ == pivot_exchanges(
            nonzero_pattern(elements@),
            column as int,
        ),
        swaps matches Ok(rows) ==> forall|k: int|
            0 <= k < rows@.len() ==> column < (#[trigger] rows@[k]) < 4,
{
    let ghost nonzero = nonzero_pattern(elements@);
    let mut rows: Vec<usize> = Vec::new();
    if is_nonzero(elements[column]) {
        assert(nonzero[column as int]);
        return Ok(rows);
    }
    let mut row: usize = 4;
    while row > column + 1
        invariant
            column < row <= 4,
            nonzero == nonzero_pattern(elements@),
            !nonzero[column as int],
            rows@ == nonzero_rows_from(nonzero, row as int),
        decreases row,
    {
        row -= 1;
        if is_nonzero(elements[row]) {
            rows.insert(0, row);
            assert(rows@ =~= seq![row] + nonzero_rows_from(nonzero, row as int + 1));
        }
    }
    if rows.len() == 0 {
        proof {
            lemma_no_rows_no_pivot(nonzero, column as int + 1);
        }
        Err(SingularMatrix)
    } else {
        proof {
            lemma_rows_are_nonzero(nonzero, column as int + 1);
            let witness = rows@[0] as int;
            assert(nonzero[witness]);
        }
        Ok(rows)
    }
}

/// Every listed row lies at or below `from` and holds a nonzero element, and
/// the rows are listed top to bottom.
pub proof fn lemma_rows_are_nonzero(nonzero: Seq<bool>, from: int)
    requires
        nonzero.len() == 4,
        0 <= from <= 4,
    ensures
        ({
            let rows = nonzero_rows_from(nonzero, from);
            &&& forall|k: int|
                0 <= k < rows.len() ==> from <= (#[trigger] rows[k]) < 4 && nonzero[rows[k] as int]
            &&& forall|j: int, k: int| 0 <= j < k < rows.len() ==> rows[j] < rows[k]
        }),
    decreases 4 - from,
{
    if from < 4 {
        lemma_rows_are_nonzero(nonzero, from + 1);
        let rows = nonzero_rows_from(nonzero, from);
        let rest = nonzero_rows_from(nonzero, from + 1);
        if nonzero[from] {
            assert(rows == seq![from as usize] + rest);
            assert forall|k: int| 0 <= k < rows.len() implies from <= (#[trigger] rows[k]) < 4
                && nonzero[rows[k] as int] by {
                if k > 0 {
                    assert(rows[k] == rest[k - 1]);
                }
            }
            assert forall|j: int, k: int| 0 <= j < k < rows.len() implies rows[j] < rows[k] by {
                assert(rows[k] == rest[k - 1]);
                if j > 0 {
                    assert(rows[j] == rest[j - 1]);
                }
            }
        }
    }
}

/// An empty list means that no row from `from` down holds a nonzero element.
pub proof fn lemma_no_rows_no_pivot(nonzero: Seq<bool>, from: int)
    requires
        nonzero.len() == 4,
        0 <= from <= 4,
        nonzero_rows_from(nonzero, from).len() == 0,
    ensures
        forall|row: int| from <= row < 4 ==> !#[trigger] nonzero[row],
    decreases 4 - from,
{
    if from < 4 {
        if nonzero[from] {
            assert((seq![from as usize] + nonzero_rows_from(nonzero, from + 1)).len() > 0);
        } else {
            lemma_no_rows_no_pivot(nonzero, from + 1);
        }
    }
}

proof fn lemma_exchanges_from(flags: Seq<bool>, nonzero: Seq<bool>, column: int, from: int)
    requires
        flags.len() == 4,
        nonzero.len() == 4,
        0 <= column < from <= 4,
        forall|row: int| from <= row < 4 ==> flags[row] == nonzero[row],
    ensures
        ({
            let exchanges = nonzero_rows_from(nonzero, from);
            let after = after_exchanges(flags, column, exchanges);
            &&& after.len() == 4
            &&& after[column] == (flags[column] || exchanges.len() > 0)
            &&& forall|row: int| 0 <= row < column ==> after[row] == flags[row]
        }),
    decreases 4 - from,
{
    if from < 4 {
        let exchanges = nonzero_rows_from(nonzero, from);
        let rest = nonzero_rows_from(nonzero, from + 1);
        if nonzero[from] {
            assert(exchanges == seq![from as usize] + rest);
            assert(exchanges.drop_first() =~= rest);
            let exchanged = flags.update(column, flags[from]).update(from, flags[column]);
            lemma_exchanges_from(exchanged, nonzero, column, from + 1);
        } else {
            lemma_exchanges_from(flags, nonzero, column, from + 1);
        }
    }
}

/// The exchanges do their job: whenever the column has a usable pivot at all,
/// then after the listed exchanges the diagonal element is nonzero, and the
/// rows above the diagonal, which hold the pivots of earlier columns, have
/// not moved.
pub proof fn lemma_exchanges_give_pivot(nonzero: Seq<bool>, column: int)
    requires
        nonzero.len() == 4,
        0 <= column < 4,
        has_pivot(nonzero, column),
    ensures
        ({
            let after = after_exchanges(nonzero, column, pivot_exchanges(nonzero, column));
            &&& after.len() == 4
            &&& after[column]
            &&& forall|row: int| 0 <= row < column ==> after[row] == nonzero[row]
        }),
{
    if !nonzero[column] {
        lemma_exchanges_from(nonzero, nonzero, column, column + 1);
        if nonzero_rows_from(nonzero, column + 1).len() == 0 {
            lemma_no_rows_no_pivot(nonzero, column + 1);
        }
    }
}

/// Exchanging rows and then looking at one property of each row gives the
/// same as looking first and exchanging then.
pub proof fn lemma_exchanges_commute_with_map<T, U>(
    rows: Seq<T>,
    column: int,
    exchanges: Seq<usize>,
    property: spec_fn(T) -> U,
)
    requires
        0 <= column < rows.len(),
        forall|k: int| 0 <= k < exchanges.len() ==> (#[trigger] exchanges[k]) < rows.len(),
    ensures
        after_exchanges(rows, column, exchanges).map_values(property) == after_exchanges(
            rows.map_values(property),
            column,
            exchanges,
        ),
    decreases exchanges.len(),
{
    if exchanges.len() > 0 {
        let with = exchanges[0] as int;
        let exchanged = rows.update(column, rows[with]).update(with, rows[column]);
        let mapped = rows.map_values(property);
        assert(exchanged.map_values(property) =~= mapped.update(column, mapped[with]).update(
            with,
            mapped[column],
        ));
        let rest = exchanges.drop_first();
        assert forall|k: int| 0 <= k < rest.len() implies (#[trigger] rest[k])
            < exchanged.len() by {
            assert(rest[k] == exchanges[k + 1]);
        }
        lemma_exchanges_commute_with_map(exchanged, column, rest, property);
    }
}

/// Exchanges of a row with lower rows leave the rows above it alone, and
/// keep the number of rows.
pub proof fn lemma_exchanges_leave_upper_rows<T>(rows: Seq<T>, column: int, exchanges: Seq<usize>)
    requires
        0 <= column < rows.len(),
        forall|k: int|
            0 <= k < exchanges.len() ==> column < (#[trigger] exchanges[k]) < rows.len(),
    ensures
        after_exchanges(rows, column, exchanges).len() == rows.len(),
        forall|row: int|
            0 <= row < column ==> after_exchanges(rows, column, exchanges)[row] == rows[row],
    decreases exchanges.len(),
{
    if exchanges.len() > 0 {
        let with = exchanges[0] as int;
        let exchanged = rows.update(column, rows[with]).update(with, rows[column]);
        let rest = exchanges.drop_first();
        assert forall|k: int| 0 <= k < rest.len() implies column < (#[trigger] rest[k])
            < exchanged.len() by {
            assert(rest[k] == exchanges[k + 1]);
        }
        lemma_exchanges_leave_upper_rows(exchanged, column, rest);
        assert forall|row: int| 0 <= row < column implies after_exchanges(
            rows,
            column,
            exchanges,
        )[row] == rows[row] by {
            assert(after_exchanges(exchanged, column, rest)[row] == exchanged[row]);
            assert(exchanged[row] == rows[row]);
        }
    }
}

/// The elements of one column of a matrix, from the top row down.
pub open spec fn column_of(rows: Seq<Seq<u64>>, column: int) -> Seq<u64> {
    rows.map_values(|row: Seq<u64>| row[column])
}

/// The exchanges do their job on the matrix: whenever column `column` has a
/// usable pivot at all, then after the exchanges that `pivot_swaps` lists for
/// it the diagonal element of that column differs from zero, and the rows
/// above, which hold the pivots of the columns before, have not moved.
pub proof fn lemma_pivot_after_exchanges(rows: Seq<Seq<u64>>, column: int)
    requires
        rows.len() == 4,
        0 <= column < 4,
        has_pivot(nonzero_pattern(column_of(rows, column)), column),
    ensures
        ({
            let exchanges = pivot_exchanges(nonzero_pattern(column_of(rows, column)), column);
            let exchanged = after_exchanges(rows, column, exchanges);
            &&& exchanged.len() == 4
            &&& magnitude(exchanged[column][column]) != 0
            &&& forall|row: int| 0 <= row < column ==> exchanged[row] == rows[row]
        }),
{
    let nonzero = nonzero_pattern(column_of(rows, column));
    let exchanges = pivot_exchanges(nonzero, column);
    let property = |row: Seq<u64>| magnitude(row[column]) != 0;
    if !nonzero[column] {
        lemma_rows_are_nonzero(nonzero, column + 1);
    }
    lemma_exchanges_commute_with_map(rows, column, exchanges, property);
    lemma_exchanges_leave_upper_rows(rows, column, exchanges);
    lemma_exchanges_give_pivot(nonzero, column);
    assert(rows.map_values(property) =~= nonzero);
    let exchanged = after_exchanges(rows, column, exchanges);
    assert(exchanged.map_values(property)[column] == property(exchanged[column]));
}

} // verus!
