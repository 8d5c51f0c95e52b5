use vstd::prelude::*;

use crate::error::KanError;
use crate::vector::{copy_vec, folds_to, Vector};

verus! {

/// A two-dimensional array kept as an ordered list of rows. Rows may differ
/// in length; the operations that need a rectangle say so.
#[derive(Debug, Clone, PartialEq)]
pub struct Matrix<T> {
    pub rows: Vec<Vector<T>>,
}

/// The rows of `rows` as sequences.
pub open spec fn rows_view<T>(rows: Seq<Vector<T>>) -> Seq<Seq<T>> {
    rows.map_values(|r: Vector<T>| r@)
}

/// Every row of `m` has the length of the first.
pub open spec fn is_rectangular<T>(m: Seq<Seq<T>>) -> bool {
    forall|i: int| 0 <= i < m.len() ==> #[trigger] m[i].len() == m[0].len()
}

/// Every row of `m` is long enough to hold column `col`.
pub open spec fn has_column<T>(m: Seq<Seq<T>>, col: int) -> bool {
    forall|i: int| 0 <= i < m.len() ==> col < #[trigger] m[i].len()
}

/// `a` and `b` have the same number of rows, and equal rows have equal lengths.
pub open spec fn same_shape<T, U>(a: Seq<Seq<T>>, b: Seq<Seq<U>>) -> bool {
    &&& a.len() == b.len()
    &&& forall|i: int| 0 <= i < a.len() ==> #[trigger] a[i].len() == b[i].len()
}

/// The length of the first row of `m`, or zero when it has no rows.
pub open spec fn col_count<T>(m: Seq<Seq<T>>) -> nat {
    if m.len() == 0 {
        0
    } else {
        m[0].len()
    }
}

/// Column `j` of `m`, top to bottom.
pub open spec fn column<T>(m: Seq<Seq<T>>, j: int) -> Seq<T> {
    Seq::new(m.len(), |i: int| m[i][j])
}

impl<T> View for Matrix<T> {
    type V = Seq<Seq<T>>;

    open spec fn view(&self) -> Seq<Seq<T>> {
        rows_view(self.rows@)
    }
}

impl<T: Copy> Matrix<T> {
    /// A matrix with the given rows.
    pub fn new(rows: Vec<Vector<T>>) -> (r: Matrix<T>)
        ensures
            r@ == rows_view(rows@),
    {
        Matrix { rows }
    }

    /// A `rows` by `cols` matrix with `value` everywhere.
    pub fn filled(rows: usize, cols: usize, value: T) -> (r: Matrix<T>)
        ensures
            r@ == Seq::new(rows as nat, |_i: int| Seq::new(cols as nat, |_j: int| value)),
    {
        let ghost row_view = Seq::new(cols as nat, |_j: int| value);
        let mut out: Vec<Vector<T>> = Vec::with_capacity(rows);
        let mut i: usize = 0;
        while i < rows
            invariant
                i <= rows,
                out@.len() == i,
                row_view == Seq::new(cols as nat, |_j: int| value),
                forall|k: int| 0 <= k < i ==> (#[trigger] out@[k])@ == row_view,
            decreases rows - i,
        {
            let row = Vector::filled(cols, value);
            assert(row@ =~= row_view);
            out.push(row);
            i = i + 1;
        }
        let r = Matrix { rows: out };
        assert(r@ =~= Seq::new(rows as nat, |_i: int| row_view));
        r
    }

    /// A square matrix of side `size` with `on` on the diagonal and `off`
    /// elsewhere (the identity, given zero and one).
    pub fn diagonal(size: usize, off: T, on: T) -> (r: Matrix<T>)
        ensures
            r@.len() == size,
            forall|i: int| 0 <= i < size ==> (#[trigger] r@[i]).len() == size,
            forall|i: int, j: int|
                0 <= i < size && 0 <= j < size ==> #[trigger] r@[i][j] == if i == j {
                    on
                } else {
                    off
                },
    {
        let mut out: Vec<Vector<T>> = Vec::with_capacity(size);
        let mut i: usize = 0;
        while i < size
            invariant
                i <= size,
                out@.len() == i,
                forall|k: int| 0 <= k < i ==> (#[trigger] out@[k])@.len() == size,
                forall|k: int, j: int|
                    0 <= k < i && 0 <= j < size ==> #[trigger] out@[k]@[j] == if k == j {
                        on
                    } else {
                        off
                    },
            decreases size - i,
        {
            let mut row: Vec<T> = Vec::with_capacity(size);
            let mut j: usize = 0;
            while j < size
                invariant
                    j <= size,
                    i < size,
                    row@.len() == j,
                    forall|c: int| 0 <= c < j ==> #[trigger] row@[c] == if i == c {
                        on
                    } else {
                        off
                    },
                decreases size - j,
            {
                if i == j {
                    row.push(on);
                } else {
                    row.push(off);
                }
                j = j + 1;
            }
            out.push(Vector { elements: row });
            i = i + 1;
        }
        Matrix { rows: out }
    }

    /// The number of rows and the length of the first row (zero when
    /// there are no rows).
    pub fn shape(&self) -> (r: (usize, usize))
        ensures
            r.0 == self@.len(),
            r.1 == if self@.len() == 0 {
                0
            } else {
                self@[0].len()
            },
    {
        if self.rows.len() == 0 {
            (0, 0)
        } else {
            (self.rows.len(), self.rows[0].len())
        }
    }

    /// Column `col`, read top to bottom; refused when a row is too short.
    pub fn get_col(&self, col: usize) -> (r: Result<Vector<T>, KanError>)
        ensures
            !has_column(self@, col as int) ==> r == Err::<Vector<T>, KanError>(
                KanError::IndexOutOfRange,
            ),
            has_column(self@, col as int) ==> (r matches Ok(v) && v@ == Seq::new(
                self@.len(),
                |i: int| self@[i][col as int],
            )),
    {
        let mut out: Vec<T> = Vec::with_capacity(self.rows.len());
        let mut i: usize = 0;
        while i < self.rows.len()
            invariant
                i <= self@.len(),
                has_column(self@.subrange(0, i as int), col as int),
                out@ == Seq::new(i as nat, |k: int| self@[k][col as int]),
            decreases self@.len() - i,
        {
            if col >= self.rows[i].elements.len() {
                assert(self@[i as int].len() <= col);
                return Err(KanError::IndexOutOfRange);
            }
            out.push(self.rows[i].elements[col]);
            i = i + 1;
            assert(out@ =~= Seq::new(i as nat, |k: int| self@[k][col as int]));
            assert(has_column(self@.subrange(0, i as int), col as int)) by {
                assert forall|k: int| 0 <= k < i implies col < #[trigger] self@.subrange(
                    0,
                    i as int,
                )[k].len() by {
                    if k < i - 1 {
                        assert(self@.subrange(0, i - 1)[k] == self@.subrange(0, i as int)[k]);
                    }
                }
            }
        }
        assert(self@.subrange(0, i as int) =~= self@);
        Ok(Vector { elements: out })
    }

    /// Replaces row `row` by `v`, which must have the row's length.
    pub fn set_row(&mut self, row: usize, v: Vector<T>) -> (r: Result<(), KanError>)
        ensures
            row >= old(self)@.len() ==> r == Err::<(), KanError>(KanError::IndexOutOfRange)
                && final(self)@ == old(self)@,
            row < old(self)@.len() && v@.len() != old(self)@[row as int].len() ==> r == Err::<
                (),
                KanError,
            >(KanError::ShapeMismatch) && final(self)@ == old(self)@,
            row < old(self)@.len() && v@.len() == old(self)@[row as int].len() ==> r is Ok
                && final(self)@ == old(self)@.update(row as int, v@),
    {
        if row >= self.rows.len() {
            return Err(KanError::IndexOutOfRange);
        }
        if v.elements.len() != self.rows[row].elements.len() {
            return Err(KanError::ShapeMismatch);
        }
        let ghost v_view = v@;
        self.rows.set(row, v);
        assert(self@ =~= old(self)@.update(row as int, v_view));
        Ok(())
    }

    /// Writes `v[i]` into column `col` of row `i` for every row; `v` must
    /// have one element per row and every row must hold column `col`.
    pub fn set_col(&mut self, col: usize, v: &Vector<T>) -> (r: Result<(), KanError>)
        ensures
            v@.len() != old(self)@.len() ==> r == Err::<(), KanError>(KanError::ShapeMismatch)
                && final(self)@ == old(self)@,
            v@.len() == old(self)@.len() && !has_column(old(self)@, col as int) ==> r == Err::<
                (),
                KanError,
            >(KanError::IndexOutOfRange) && final(self)@ == old(self)@,
            v@.len() == old(self)@.len() && has_column(old(self)@, col as int) ==> r is Ok
                && final(self)@ == Seq::new(
                old(self)@.len(),
                |i: int| old(self)@[i].update(col as int, v@[i]),
            ),
    {
        if v.elements.len() != self.rows.len() {
            return Err(KanError::ShapeMismatch);
        }
        let mut k: usize = 0;
        while k < self.rows.len()
            invariant
                k <= self@.len(),
                self@ == old(self)@,
                v@.len() == self@.len(),
                has_column(self@.subrange(0, k as int), col as int),
            decreases self@.len() - k,
        {
            if col >= self.rows[k].elements.len() {
                assert(self@[k as int].len() <= col);
                return Err(KanError::IndexOutOfRange);
            }
            k = k + 1;
            assert(has_column(self@.subrange(0, k as int), col as int)) by {
                assert forall|q: int| 0 <= q < k implies col < #[trigger] self@.subrange(
                    0,
                    k as int,
                )[q].len() by {
                    if q < k - 1 {
                        assert(self@.subrange(0, k - 1)[q] == self@.subrange(0, k as int)[q]);
                    }
                }
            }
        }
        assert(self@.subrange(0, k as int) =~= self@);
        let ghost target = Seq::new(
            old(self)@.len(),
            |i: int| old(self)@[i].update(col as int, v@[i]),
        );
        let mut i: usize = 0;
        while i < self.rows.len()
            invariant
                i <= self@.len(),
                self@.len() == old(self)@.len(),
                v@.len() == old(self)@.len(),
                has_column(old(self)@, col as int),
                target == Seq::new(
                    old(self)@.len(),
                    |i: int| old(self)@[i].update(col as int, v@[i]),
                ),
                forall|q: int| 0 <= q < i ==> #[trigger] self@[q] == target[q],
                forall|q: int| i <= q < self@.len() ==> #[trigger] self@[q] == old(self)@[q],
            decreases self@.len() - i,
        {
            assert(self@[i as int] == old(self)@[i as int]);
            assert(col < old(self)@[i as int].len());
            let mut row = Vector { elements: copy_vec(&self.rows[i].elements) };
            row.elements.set(col, v.elements[i]);
            let ghost new_row = old(self)@[i as int].update(col as int, v@[i as int]);
            assert(row@ =~= new_row);
            assert(target[i as int] == new_row);
            let ghost before = self@;
            self.rows.set(i, row);
            assert(self@[i as int] == target[i as int]);
            assert forall|q: int| 0 <= q < self@.len() && q != i implies #[trigger] self@[q]
                == before[q] by {}
            i = i + 1;
        }
        assert(self@ =~= target);
        Ok(())
    }

    /// The transpose: row `j` of the result is column `j` of this matrix.
    /// Refused when the rows differ in length.
    pub fn transpose(&self) -> (r: Result<Matrix<T>, KanError>)
        ensures
            !is_rectangular(self@) ==> r == Err::<Matrix<T>, KanError>(KanError::ShapeMismatch),
            is_rectangular(self@) ==> (r matches Ok(t) && t@ == Seq::new(
                if self@.len() == 0 {
                    0
                } else {
                    self@[0].len()
                },
                |j: int| Seq::new(self@.len(), |i: int| self@[i][j]),
            )),
    {
        let n_rows: usize = self.rows.len();
        if n_rows == 0 {
            let r = Matrix { rows: Vec::new() };
            assert(r@ =~= Seq::new(0, |j: int| Seq::new(self@.len(), |i: int| self@[i][j])));
            return Ok(r);
        }
        let n_cols: usize = self.rows[0].elements.len();
        let mut k: usize = 0;
        while k < n_rows
            invariant
                k <= n_rows,
                n_rows == self@.len(),
                n_cols == self@[0].len(),
                forall|q: int| 0 <= q < k ==> #[trigger] self@[q].len() == n_cols,
            decreases n_rows - k,
        {
            if self.rows[k].elements.len() != n_cols {
                assert(self@[k as int].len() != self@[0].len());
                return Err(KanError::ShapeMismatch);
            }
            k = k + 1;
        }
        let ghost target = Seq::new(n_cols as nat, |j: int| Seq::new(self@.len(), |i: int| self@[i][j]));
        let mut out: Vec<Vector<T>> = Vec::with_capacity(n_cols);
        let mut j: usize = 0;
        while j < n_cols
            invariant
                j <= n_cols,
                n_rows == self@.len(),
                forall|q: int| 0 <= q < n_rows ==> #[trigger] self@[q].len() == n_cols,
                out@.len() == j,
                target == Seq::new(
                    n_cols as nat,
                    |c: int| Seq::new(self@.len(), |i: int| self@[i][c]),
                ),
                rows_view(out@) == target.subrange(0, j as int),
            decreases n_cols - j,
        {
            let mut col: Vec<T> = Vec::with_capacity(n_rows);
            let mut i: usize = 0;
            while i < n_rows
                invariant
                    i <= n_rows,
                    j < n_cols,
                    n_rows == self@.len(),
                    forall|q: int| 0 <= q < n_rows ==> #[trigger] self@[q].len() == n_cols,
                    col@ == Seq::new(i as nat, |q: int| self@[q][j as int]),
                decreases n_rows - i,
            {
                assert(self@[i as int].len() == n_cols);
                col.push(self.rows[i].elements[j]);
                i = i + 1;
                assert(col@ =~= Seq::new(i as nat, |q: int| self@[q][j as int]));
            }
            let ghost before = out@;
            out.push(Vector { elements: col });
            j = j + 1;
            assert forall|q: int| 0 <= q < j implies #[trigger] rows_view(out@)[q] == target[q] by {
                if q < j - 1 {
                    assert(out@[q] == before[q]);
                    assert(rows_view(before)[q] == target.subrange(0, j - 1)[q]);
                }
            }
            assert(rows_view(out@) =~= target.subrange(0, j as int));
        }
        assert(target.subrange(0, n_cols as int) =~= target);
        Ok(Matrix { rows: out })
    }

    /// Applies `f` to every element.
    pub fn map<U, F: Fn(T) -> U>(&self, f: &F) -> (r: Matrix<U>)
        requires
            forall|i: int, j: int|
                0 <= i < self@.len() && 0 <= j < self@[i].len() ==> f.requires((self@[i][j],)),
        ensures
            same_shape(self@, r@),
            forall|i: int, j: int|
                0 <= i < self@.len() && 0 <= j < self@[i].len() ==> f.ensures(
                    (self@[i][j],),
                    #[trigger] r@[i][j],
                ),
    {
        let mut out: Vec<Vector<U>> = Vec::with_capacity(self.rows.len());
        let mut i: usize = 0;
        while i < self.rows.len()
            invariant
                i <= self@.len(),
                out@.len() == i,
                forall|p: int, q: int|
                    0 <= p < self@.len() && 0 <= q < self@[p].len() ==> f.requires((self@[p][q],)),
                forall|p: int| 0 <= p < i ==> (#[trigger] out@[p])@.len() == self@[p].len(),
                forall|p: int, q: int|
                    0 <= p < i && 0 <= q < self@[p].len() ==> f.ensures(
                        (self@[p][q],),
                        #[trigger] out@[p]@[q],
                    ),
            decreases self@.len() - i,
        {
            assert forall|q: int| 0 <= q < self.rows@[i as int]@.len() implies f.requires(
                (self.rows@[i as int]@[q],),
            ) by {
                assert(self@[i as int] == self.rows@[i as int]@);
            }
            let row = self.rows[i].map(f);
            assert(self@[i as int] == self.rows@[i as int]@);
            out.push(row);
            i = i + 1;
        }
        Matrix { rows: out }
    }

    /// Combines the two matrices element by element with `f`; matrices of
    /// different shapes are refused.
    pub fn zip_with<U, F: Fn(T, T) -> U>(&self, other: &Matrix<T>, f: &F) -> (r: Result<
        Matrix<U>,
        KanError,
    >)
        requires
            forall|i: int, j: int|
                0 <= i < self@.len() && i < other@.len() && 0 <= j < self@[i].len() && j
                    < other@[i].len() ==> f.requires((self@[i][j], other@[i][j])),
        ensures
            !same_shape(self@, other@) ==> r == Err::<Matrix<U>, KanError>(
                KanError::ShapeMismatch,
            ),
            same_shape(self@, other@) ==> (r matches Ok(m) && same_shape(self@, m@) && forall|
                i: int,
                j: int,
            |
                0 <= i < self@.len() && 0 <= j < self@[i].len() ==> f.ensures(
                    (self@[i][j], other@[i][j]),
                    #[trigger] m@[i][j],
                )),
    {
        if self.rows.len() != other.rows.len() {
            return Err(KanError::ShapeMismatch);
        }
        let mut out: Vec<Vector<U>> = Vec::with_capacity(self.rows.len());
        let mut i: usize = 0;
        while i < self.rows.len()
            invariant
                i <= self@.len(),
                self@.len() == other@.len(),
                out@.len() == i,
                forall|p: int, q: int|
                    0 <= p < self@.len() && p < other@.len() && 0 <= q < self@[p].len() && q
                        < other@[p].len() ==> f.requires((self@[p][q], other@[p][q])),
                forall|p: int| 0 <= p < i ==> #[trigger] self@[p].len() == other@[p].len(),
                forall|p: int| 0 <= p < i ==> (#[trigger] out@[p])@.len() == self@[p].len(),
                forall|p: int, q: int|
                    0 <= p < i && 0 <= q < self@[p].len() ==> f.ensures(
                        (self@[p][q], other@[p][q]),
                        #[trigger] out@[p]@[q],
                    ),
            decreases self@.len() - i,
        {
            assert(self@[i as int] == self.rows@[i as int]@);
            assert(other@[i as int] == other.rows@[i as int]@);
            assert forall|q: int|
                0 <= q < self.rows@[i as int]@.len() && q < other.rows@[i as int]@.len() implies f.requires(
                (self.rows@[i as int]@[q], other.rows@[i as int]@[q]),
            ) by {}
            let row = self.rows[i].zip_with(&other.rows[i], f);
            match row {
                Ok(v) => {
                    out.push(v);
                },
                Err(e) => {
                    assert(self@[i as int].len() != other@[i as int].len());
                    return Err(e);
                },
            }
            i = i + 1;
        }
        let m = Matrix { rows: out };
        assert(same_shape(self@, m@));
        Ok(m)
    }
    /// The product with the column vector `v`, entry `i` being the fold of
    /// `step` over row `i` and `v` from `init` (`acc + row[k] * v[k]` for a
    /// dot product). Refused unless every row has the length of `v`.
    pub fn mul_vector_with<U: Copy, F: Fn(U, T, T) -> U>(
        &self,
        v: &Vector<T>,
        init: U,
        step: &F,
    ) -> (r: Result<Vector<U>, KanError>)
        requires
            forall|u: U, x: T, y: T| step.requires((u, x, y)),
        ensures
            !(forall|i: int| 0 <= i < self@.len() ==> #[trigger] self@[i].len() == v@.len())
                ==> r == Err::<Vector<U>, KanError>(KanError::ShapeMismatch),
            (forall|i: int| 0 <= i < self@.len() ==> #[trigger] self@[i].len() == v@.len()) ==> (
            r matches Ok(p) && p@.len() == self@.len() && forall|i: int|
                0 <= i < self@.len() ==> folds_to(self@[i], v@, init, *step, #[trigger] p@[i])),
    {
        let mut out: Vec<U> = Vec::with_capacity(self.rows.len());
        let mut i: usize = 0;
        while i < self.rows.len()
            invariant
                i <= self@.len(),
                forall|u: U, x: T, y: T| step.requires((u, x, y)),
                out@.len() == i,
                forall|k: int| 0 <= k < i ==> #[trigger] self@[k].len() == v@.len(),
                forall|k: int| 0 <= k < i ==> folds_to(self@[k], v@, init, *step, #[trigger] out@[k]),
            decreases self@.len() - i,
        {
            assert(self@[i as int] == self.rows@[i as int]@);
            match self.rows[i].zip_fold(v, init, step) {
                Ok(x) => {
                    out.push(x);
                },
                Err(e) => {
                    return Err(e);
                },
            }
            i = i + 1;
        }
        Ok(Vector { elements: out })
    }

    /// The product with `other`, entry `(i, j)` being the fold of `step`
    /// over row `i` of this matrix and column `j` of `other` from `init`.
    /// Refused unless `other` is rectangular and every row of this matrix
    /// has one entry per row of `other`.
    pub fn mul_matrix_with<U: Copy, F: Fn(U, T, T) -> U>(
        &self,
        other: &Matrix<T>,
        init: U,
        step: &F,
    ) -> (r: Result<Matrix<U>, KanError>)
        requires
            forall|u: U, x: T, y: T| step.requires((u, x, y)),
        ensures
            !(is_rectangular(other@) && forall|i: int|
                0 <= i < self@.len() ==> #[trigger] self@[i].len() == other@.len()) ==> r
                == Err::<Matrix<U>, KanError>(KanError::ShapeMismatch),
            is_rectangular(other@) && (forall|i: int|
                0 <= i < self@.len() ==> #[trigger] self@[i].len() == other@.len()) ==> (
            r matches Ok(m) && m@.len() == self@.len() && (forall|i: int|
                0 <= i < self@.len() ==> (#[trigger] m@[i]).len() == col_count(other@)) && forall|
                i: int,
                j: int,
            |
                0 <= i < self@.len() && 0 <= j < col_count(other@) ==> folds_to(
                    self@[i],
                    column(other@, j),
                    init,
                    *step,
                    #[trigger] m@[i][j],
                )),
    {
        let columns = match other.transpose() {
            Ok(t) => t,
            Err(e) => {
                return Err(e);
            },
        };
        assert forall|j: int| 0 <= j < columns@.len() implies #[trigger] columns@[j] == column(
            other@,
            j,
        ) by {}
        let mut out: Vec<Vector<U>> = Vec::with_capacity(self.rows.len());
        let mut i: usize = 0;
        while i < self.rows.len()
            invariant
                i <= self@.len(),
                forall|u: U, x: T, y: T| step.requires((u, x, y)),
                is_rectangular(other@),
                columns@.len() == col_count(other@),
                forall|j: int| 0 <= j < columns@.len() ==> #[trigger] columns@[j] == column(other@, j),
                out@.len() == i,
                forall|k: int| 0 <= k < i ==> #[trigger] self@[k].len() == other@.len(),
                forall|k: int| 0 <= k < i ==> (#[trigger] out@[k])@.len() == col_count(other@),
                forall|k: int, j: int|
                    0 <= k < i && 0 <= j < col_count(other@) ==> folds_to(
                        self@[k],
                        column(other@, j),
                        init,
                        *step,
                        #[trigger] out@[k]@[j],
                    ),
            decreases self@.len() - i,
        {
            if self.rows[i].elements.len() != other.rows.len() {
                assert(self@[i as int].len() != other@.len());
                return Err(KanError::ShapeMismatch);
            }
            assert(self@[i as int] == self.rows@[i as int]@);
            let mut row: Vec<U> = Vec::with_capacity(columns.rows.len());
            let mut j: usize = 0;
            while j < columns.rows.len()
                invariant
                    i < self@.len(),
                    j <= columns@.len(),
                    forall|u: U, x: T, y: T| step.requires((u, x, y)),
                    is_rectangular(other@),
                    self@[i as int].len() == other@.len(),
                    columns@.len() == col_count(other@),
                    forall|c: int| 0 <= c < columns@.len() ==> #[trigger] columns@[c] == column(other@, c),
                    row@.len() == j,
                    forall|c: int|
                        0 <= c < j ==> folds_to(
                            self@[i as int],
                            column(other@, c),
                            init,
                            *step,
                            #[trigger] row@[c],
                        ),
                decreases columns@.len() - j,
            {
                assert(columns@[j as int] == columns.rows@[j as int]@);
                assert(self@[i as int] == self.rows@[i as int]@);
                match self.rows[i].zip_fold(&columns.rows[j], init, step) {
                    Ok(x) => {
                        row.push(x);
                    },
                    Err(e) => {
                        return Err(e);
                    },
                }
                j = j + 1;
            }
            out.push(Vector { elements: row });
            i = i + 1;
        }
        let m = Matrix { rows: out };
        Ok(m)
    }
}

} // verus!
