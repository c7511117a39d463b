use vstd::prelude::*;

use crate::error::MatrixError;
use crate::matrix::Matrix;
use crate::scalar::{pure2, app2, call2};

verus! {

/// `x[0]*y[0] + ... + x[n-1]*y[n-1]`, summed from the left starting at `zero`.
pub open spec fn dot_sum<T, A: Fn(T, T) -> T, M: Fn(T, T) -> T>(
    zero: T,
    add: A,
    mul: M,
    x: Seq<T>,
    y: Seq<T>,
    n: int,
) -> T
    decreases n,
{
    if n <= 0 {
        zero
    } else {
        app2(add, dot_sum(zero, add, mul, x, y, n - 1), app2(mul, x[n - 1], y[n - 1]))
    }
}

/// Column `j` of `g`.
pub open spec fn column<T>(g: Seq<Seq<T>>, j: int) -> Seq<T> {
    Seq::new(g.len(), |k: int| g[k][j])
}

/// The product of `a` and `b`, where `b` has `b_cols` columns.
pub open spec fn product<T, A: Fn(T, T) -> T, M: Fn(T, T) -> T>(
    zero: T,
    add: A,
    mul: M,
    a: Seq<Seq<T>>,
    b: Seq<Seq<T>>,
    b_cols: int,
) -> Seq<Seq<T>> {
    Seq::new(
        a.len(),
        |i: int| Seq::new(b_cols as nat, |j: int| dot_sum(zero, add, mul, a[i], column(b, j), b.len() as int)),
    )
}

/// `g[0][0] + ... + g[n-1][n-1]`, summed from the left starting at `zero`.
pub open spec fn diagonal_sum<T, A: Fn(T, T) -> T>(zero: T, add: A, g: Seq<Seq<T>>, n: int) -> T
    decreases n,
{
    if n <= 0 {
        zero
    } else {
        app2(add, diagonal_sum(zero, add, g, n - 1), g[n - 1][n - 1])
    }
}

impl<T: Copy> Matrix<T> {
    /// Entry `(i, j)` of the product of `self` and `b`.
    fn dot_entry<A: Fn(T, T) -> T, M: Fn(T, T) -> T>(
        &self,
        b: &Matrix<T>,
        i: usize,
        j: usize,
        zero: T,
        add: &A,
        mul: &M,
    ) -> (v: T)
        requires
            self.wf(),
            b.wf(),
            self.cols == b.rows,
            i < self.rows,
            j < b.cols,
            pure2(*add),
            pure2(*mul),
        ensures
            v == dot_sum(zero, *add, *mul, self@[i as int], column(b@, j as int), b.rows as int),
    {
        let mut sum = zero;
        let mut k: usize = 0;
        while k < b.rows
            invariant
                self.wf(),
                b.wf(),
                self.cols == b.rows,
                i < self.rows,
                j < b.cols,
                pure2(*add),
                pure2(*mul),
                0 <= k <= b.rows,
                sum == dot_sum(zero, *add, *mul, self@[i as int], column(b@, j as int), k as int),
            decreases b.rows - k,
        {
            let p = call2(mul, self.get(i, k), b.get(k, j));
            sum = call2(add, sum, p);
            k += 1;
        }
        sum
    }

    /// The matrix product `self * b`: entry `(i, j)` is the sum over `k` of
    /// `self[i][k] * b[k][j]`.
    pub fn dot<A: Fn(T, T) -> T, M: Fn(T, T) -> T>(&self, b: Matrix<T>, zero: T, add: A, mul: M) -> (res:
        Result<Matrix<T>, MatrixError>)
        requires
            self.wf(),
            b.wf(),
            self.rows * b.cols <= usize::MAX,
            pure2(add),
            pure2(mul),
        ensures
            self.cols == b.rows <==> res is Ok,
            self.cols != b.rows ==> res == Err::<Matrix<T>, MatrixError>(
                MatrixError::DimensionMismatch {
                    rows_a: self.rows,
                    cols_a: self.cols,
                    rows_b: b.rows,
                    cols_b: b.cols,
                },
            ),
            res is Ok ==> {
                let m = res->Ok_0;
                &&& m.wf()
                &&& m.rows == self.rows
                &&& m.cols == b.cols
                &&& m@ == product(zero, add, mul, self@, b@, b.cols as int)
            },
    {
        if self.cols != b.rows {
            return Err(
                MatrixError::DimensionMismatch {
                    rows_a: self.rows,
                    cols_a: self.cols,
                    rows_b: b.rows,
                    cols_b: b.cols,
                },
            );
        }
        let add_ref = &add;
        let mul_ref = &mul;
        let b_ref = &b;
        let entry = |i: usize, j: usize| -> (v: T)
            requires
                i < self.rows,
                j < b_ref.cols,
            ensures
                v == dot_sum(
                    zero,
                    *add_ref,
                    *mul_ref,
                    self@[i as int],
                    column(b_ref@, j as int),
                    b_ref.rows as int,
                ),
        {
            self.dot_entry(b_ref, i, j, zero, add_ref, mul_ref)
        };
        let m = Matrix::tabulate(self.rows, b.cols, entry);
        proof {
            assert forall|i: int, j: int| 0 <= i < self.rows && 0 <= j < b.cols implies #[trigger] m@[i][j]
                == dot_sum(zero, add, mul, self@[i], column(b@, j), b.rows as int) by {
                assert(entry.ensures((i as usize, j as usize), m@[i][j]));
            }
            assert(m@ =~~= product(zero, add, mul, self@, b@, b.cols as int));
        }
        Ok(m)
    }

    /// The sum of the diagonal entries of a square matrix, from the left, starting at `zero`.
    pub fn trace<A: Fn(T, T) -> T>(&self, zero: T, add: A) -> (res: Result<T, MatrixError>)
        requires
            self.wf(),
            pure2(add),
        ensures
            self.rows != self.cols ==> res == Err::<T, MatrixError>(
                MatrixError::NotSquare { rows: self.rows, cols: self.cols },
            ),
            self.rows == self.cols ==> res == Ok::<T, MatrixError>(
                diagonal_sum(zero, add, self@, self.rows as int),
            ),
    {
        if self.rows != self.cols {
            return Err(MatrixError::NotSquare { rows: self.rows, cols: self.cols });
        }
        let mut t = zero;
        let mut i: usize = 0;
        while i < self.rows
            invariant
                self.wf(),
                self.rows == self.cols,
                pure2(add),
                0 <= i <= self.rows,
                t == diagonal_sum(zero, add, self@, i as int),
            decreases self.rows - i,
        {
            t = call2(&add, t, self.get(i, i));
            i += 1;
        }
        Ok(t)
    }
}

} // verus!
