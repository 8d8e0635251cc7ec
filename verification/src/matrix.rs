//! The 4×4 grid behind an affine transformation.
//!
//! The element type is a parameter. Everything here moves elements around
//! without computing with them: reading and writing a cell, transposing,
//! exchanging two rows.
use crate::pivot::after_exchanges;
use vstd::prelude::*;

verus! {

/// A 4×4 matrix in row-major order: `elements[row][col]`.
#[derive(Debug, PartialEq)]
pub struct Matrix<T> {
    pub elements: [[T; 4]; 4],
}

/// The transpose of a grid of four rows of four: cell `(row, col)` of the
/// result is cell `(col, row)` of `grid`.
pub open spec fn transposed<T>(grid: Seq<Seq<T>>) -> Seq<Seq<T>> {
    Seq::new(4, |row: int| Seq::new(4, |col: int| grid[col][row]))
}

/// `grid` with rows `a` and `b` exchanged.
pub open spec fn rows_swapped<T>(grid: Seq<Seq<T>>, a: int, b: int) -> Seq<Seq<T>> {
    grid.update(a, grid[b]).update(b, grid[a])
}

impl<T> Matrix<T> {
    /// The matrix as four rows of four elements.
    pub open spec fn view(&self) -> Seq<Seq<T>> {
        Seq::new(4, |row: int| Seq::new(4, |col: int| self.elements[row][col]))
    }
}

impl<T: Copy> Copy for Matrix<T> {

}

impl<T: Copy> Clone for Matrix<T> {
    fn clone(&self) -> (copy: Self)
        ensures
            copy == *self,
    {
        *self
    }
}

impl<T: Copy> Matrix<T> {
    /// The matrix with the given rows.
    pub fn new(elements: [[T; 4]; 4]) -> (matrix: Self)
        ensures
            matrix.elements == elements,
    {
        Matrix { elements }
    }

    /// The element in row `row`, column `col`.
    pub fn get(&self, row: usize, col: usize) -> (element: T)
        requires
            row < 4,
            col < 4,
        ensures
            element == self@[row as int][col as int],
    {
        self.elements[row][col]
    }

    /// Replaces the element in row `row`, column `col` and leaves the other
    /// fifteen as they were.
    pub fn set(&mut self, row: usize, col: usize, element: T)
        requires
            row < 4,
            col < 4,
        ensures
            final(self)@ == old(self)@.update(
                row as int,
                old(self)@[row as int].update(col as int, element),
            ),
    {
        let mut changed = self.elements[row];
        changed[col] = element;
        self.elements[row] = changed;
        proof {
            let expected = old(self)@.update(
                row as int,
                old(self)@[row as int].update(col as int, element),
            );
            assert forall|r: int| 0 <= r < 4 implies #[trigger] self@[r] =~= expected[r] by {}
            assert(self@ =~= expected);
        }
    }

    /// The transpose: rows become columns.
    pub fn transpose(&self) -> (transpose: Self)
        ensures
            transpose@ == transposed(self@),
    {
        let e = &self.elements;
        let transpose = Matrix {
            elements: [
                [e[0][0], e[1][0], e[2][0], e[3][0]],
                [e[0][1], e[1][1], e[2][1], e[3][1]],
                [e[0][2], e[1][2], e[2][2], e[3][2]],
                [e[0][3], e[1][3], e[2][3], e[3][3]],
            ],
        };
        proof {
            assert forall|r: int| 0 <= r < 4 implies #[trigger] transpose@[r] =~= transposed(
                self@,
            )[r] by {}
            assert(transpose@ =~= transposed(self@));
        }
        transpose
    }

    /// Exchanges row `row` with each of the rows `with`, one after the other.
    pub fn exchange_rows(&mut self, row: usize, with: &Vec<usize>)
        requires
            row < 4,
            forall|k: int| 0 <= k < with@.len() ==> (#[trigger] with@[k]) < 4,
        ensures
            final(self)@ == after_exchanges(old(self)@, row as int, with@),
    {
        let mut done: usize = 0;
        assert(with@.skip(0) =~= with@);
        while done < with.len()
            invariant
                row < 4,
                done <= with@.len(),
                forall|k: int| 0 <= k < with@.len() ==> (#[trigger] with@[k]) < 4,
                after_exchanges(self@, row as int, with@.skip(done as int)) == after_exchanges(
                    old(self)@,
                    row as int,
                    with@,
                ),
            decreases with@.len() - done,
        {
            let ghost rest = with@.skip(done as int);
            assert(rest[0] == with@[done as int]);
            assert(rest.drop_first() =~= with@.skip(done as int + 1));
            self.swap_rows(row, with[done]);
            done += 1;
        }
        assert(with@.skip(done as int).len() == 0);
    }

    /// Exchanges rows `a` and `b`.
    pub fn swap_rows(&mut self, a: usize, b: usize)
        requires
            a < 4,
            b < 4,
        ensures
            final(self)@ == rows_swapped(old(self)@, a as int, b as int),
    {
        let row_a = self.elements[a];
        let row_b = self.elements[b];
        self.elements[a] = row_b;
        self.elements[b] = row_a;
        proof {
            let expected = rows_swapped(old(self)@, a as int, b as int);
            assert forall|r: int| 0 <= r < 4 implies #[trigger] self@[r] =~= expected[r] by {}
            assert(self@ =~= expected);
        }
    }
}

/// Two matrices with the same rows are the same matrix.
pub proof fn lemma_view_determines_matrix<T>(a: Matrix<T>, b: Matrix<T>)
    requires
        a@ == b@,
    ensures
        a == b,
{
    assert forall|row: int| 0 <= row < 4 implies a.elements[row] == b.elements[row] by {
        assert forall|col: int| 0 <= col < 4 implies a.elements[row][col]
            == b.elements[row][col] by {
            let row_a = a@[row];
            let row_b = b@[row];
            assert(row_a[col] == a.elements[row][col]);
            assert(row_b[col] == b.elements[row][col]);
        }
        assert(a.elements[row] =~= b.elements[row]);
    }
    assert(a.elements =~= b.elements);
}

/// Transposing twice gives the matrix back, element for element: if `once`
/// is the transpose of `matrix` and `twice` the transpose of `once`, then
/// `twice` and `matrix` are equal.
pub proof fn lemma_transpose_involution<T>(matrix: Matrix<T>, once: Matrix<T>, twice: Matrix<T>)
    requires
        once@ == transposed(matrix@),
        twice@ == transposed(once@),
    ensures
        transposed(transposed(matrix@)) == matrix@,
        twice == matrix,
{
    let again = transposed(transposed(matrix@));
    assert forall|row: int| 0 <= row < 4 implies #[trigger] again[row] =~= matrix@[row] by {}
    assert(again =~= matrix@);
    lemma_view_determines_matrix(twice, matrix);
}

} // verus!
