use vstd::prelude::*;

use crate::error::MatrixError;
use crate::matrix::{Matrix, transposed};
use crate::scalar::{pure1, pure2, pure_test, app1, app2, holds, call1, call2, call_test};

verus! {

/// `g` without row `r` and column `c`.
pub open spec fn minor_of<T>(g: Seq<Seq<T>>, r: int, c: int) -> Seq<Seq<T>> {
    g.remove(r).map_values(|row: Seq<T>| row.remove(c))
}

/// The determinant of the square grid `g`: the entry itself for one entry, `a*d - b*c`
/// for two rows, and otherwise the cofactor expansion along row 1.
pub open spec fn det_of<T, A: Fn(T, T) -> T, S: Fn(T, T) -> T, M: Fn(T, T) -> T, N: Fn(T) -> T>(
    zero: T,
    add: A,
    sub: S,
    mul: M,
    neg: N,
    g: Seq<Seq<T>>,
) -> T
    decreases g.len(), g.len() + 1,
{
    if g.len() <= 1 {
        g[0][0]
    } else if g.len() == 2 {
        app2(sub, app2(mul, g[0][0], g[1][1]), app2(mul, g[0][1], g[1][0]))
    } else {
        expansion(zero, add, sub, mul, neg, g, g.len() as int)
    }
}

/// The sum, from the left starting at `zero`, of `cofactor(1, j) * g[1][j]` for `j < k`.
pub open spec fn expansion<T, A: Fn(T, T) -> T, S: Fn(T, T) -> T, M: Fn(T, T) -> T, N: Fn(T) -> T>(
    zero: T,
    add: A,
    sub: S,
    mul: M,
    neg: N,
    g: Seq<Seq<T>>,
    k: int,
) -> T
    decreases g.len(), k,
{
    if k <= 0 {
        zero
    } else {
        app2(
            add,
            expansion(zero, add, sub, mul, neg, g, k - 1),
            app2(mul, cofactor_of(zero, add, sub, mul, neg, g, 1, k - 1), g[1][k - 1]),
        )
    }
}

/// The determinant of the minor at `(r, c)`, negated when `r + c` is odd.
pub open spec fn cofactor_of<T, A: Fn(T, T) -> T, S: Fn(T, T) -> T, M: Fn(T, T) -> T, N: Fn(T) -> T>(
    zero: T,
    add: A,
    sub: S,
    mul: M,
    neg: N,
    g: Seq<Seq<T>>,
    r: int,
    c: int,
) -> T
    decreases g.len(), 0int,
{
    if 0 <= r < g.len() {
        let d = det_of(zero, add, sub, mul, neg, minor_of(g, r, c));
        if r % 2 == c % 2 {
            d
        } else {
            app1(neg, d)
        }
    } else {
        zero
    }
}

/// The grid whose entry `(i, j)` is `g`'s corrected cofactor at `(j, i)` divided by the
/// determinant of `g`.
pub open spec fn inverse_of<
    T,
    A: Fn(T, T) -> T,
    S: Fn(T, T) -> T,
    M: Fn(T, T) -> T,
    N: Fn(T) -> T,
    D: Fn(T, T) -> T,
    C: Fn(T) -> T,
>(zero: T, add: A, sub: S, mul: M, neg: N, div: D, fix: C, g: Seq<Seq<T>>) -> Seq<Seq<T>> {
    let d = det_of(zero, add, sub, mul, neg, g);
    Seq::new(
        g.len(),
        |i: int|
            Seq::new(
                g.len(),
                |j: int| app2(div, app1(fix, cofactor_of(zero, add, sub, mul, neg, g, j, i)), d),
            ),
    )
}

impl<T: Copy> Matrix<T> {
    /// The matrix without row `r` and column `c`.
    pub fn minor(&self, r: usize, c: usize) -> (m: Matrix<T>)
        requires
            self.wf(),
            self.rows >= 2,
            self.cols >= 2,
            r < self.rows,
            c < self.cols,
        ensures
            m.wf(),
            m.rows == self.rows - 1,
            m.cols == self.cols - 1,
            m@ == minor_of(self@, r as int, c as int),
    {
        let len = self.data.len();
        proof {
            assert((self.rows - 1) * (self.cols - 1) <= self.rows * self.cols) by (nonlinear_arith)
                requires
                    self.rows >= 2,
                    self.cols >= 2,
            ;
        }
        let entry = |i: usize, j: usize| -> (v: T)
            requires
                i < self.rows - 1,
                j < self.cols - 1,
            ensures
                v == self@[if i < r { i as int } else { i + 1 }][if j < c { j as int } else { j + 1 }],
        {
            let si = if i < r {
                i
            } else {
                i + 1
            };
            let sj = if j < c {
                j
            } else {
                j + 1
            };
            self.get(si, sj)
        };
        let m = Matrix::tabulate(self.rows - 1, self.cols - 1, entry);
        proof {
            let g = minor_of(self@, r as int, c as int);
            assert forall|i: int, j: int| 0 <= i < self.rows - 1 && 0 <= j < self.cols - 1 implies #[trigger] m@[i][j]
                == g[i][j] by {
                assert(entry.ensures((i as usize, j as usize), m@[i][j]));
                let si = if i < r { i } else { i + 1 };
                assert(self@.remove(r as int)[i] == self@[si]);
                assert(self@[si].remove(c as int)[j] == self@[si][if j < c { j } else { j + 1 }]);
            }
            assert(m@ =~~= g);
        }
        m
    }

    fn det_square<A: Fn(T, T) -> T, S: Fn(T, T) -> T, M: Fn(T, T) -> T, N: Fn(T) -> T>(
        &self,
        zero: T,
        add: &A,
        sub: &S,
        mul: &M,
        neg: &N,
    ) -> (v: T)
        requires
            self.wf(),
            self.rows == self.cols,
            pure2(*add),
            pure2(*sub),
            pure2(*mul),
            pure1(*neg),
        ensures
            v == det_of(zero, *add, *sub, *mul, *neg, self@),
        decreases self.rows, 1int,
    {
        let n = self.rows;
        if n == 1 {
            return self.get(0, 0);
        }
        if n == 2 {
            let p = call2(mul, self.get(0, 0), self.get(1, 1));
            let q = call2(mul, self.get(0, 1), self.get(1, 0));
            return call2(sub, p, q);
        }
        let mut acc = zero;
        let mut j: usize = 0;
        while j < n
            invariant
                self.wf(),
                self.rows == self.cols,
                n == self.rows,
                n >= 3,
                pure2(*add),
                pure2(*sub),
                pure2(*mul),
                pure1(*neg),
                0 <= j <= n,
                acc == expansion(zero, *add, *sub, *mul, *neg, self@, j as int),
            decreases n - j,
        {
            let cof = self.cofactor_square(1, j, zero, add, sub, mul, neg);
            let term = call2(mul, cof, self.get(1, j));
            acc = call2(add, acc, term);
            j += 1;
        }
        acc
    }

    fn cofactor_square<A: Fn(T, T) -> T, S: Fn(T, T) -> T, M: Fn(T, T) -> T, N: Fn(T) -> T>(
        &self,
        r: usize,
        c: usize,
        zero: T,
        add: &A,
        sub: &S,
        mul: &M,
        neg: &N,
    ) -> (v: T)
        requires
            self.wf(),
            self.rows == self.cols,
            self.rows >= 2,
            r < self.rows,
            c < self.cols,
            pure2(*add),
            pure2(*sub),
            pure2(*mul),
            pure1(*neg),
        ensures
            v == cofactor_of(zero, *add, *sub, *mul, *neg, self@, r as int, c as int),
        decreases self.rows, 0int,
    {
        let m = self.minor(r, c);
        let d = m.det_square(zero, add, sub, mul, neg);
        if r % 2 == c % 2 {
            d
        } else {
            call1(neg, d)
        }
    }

    /// The cofactor at `(expanded_row, j)`: the determinant of the minor there, negated
    /// when `expanded_row + j` is odd.
    pub fn cofactor<A: Fn(T, T) -> T, S: Fn(T, T) -> T, M: Fn(T, T) -> T, N: Fn(T) -> T>(
        &self,
        expanded_row: usize,
        j: usize,
        zero: T,
        add: A,
        sub: S,
        mul: M,
        neg: N,
    ) -> (res: Result<T, MatrixError>)
        requires
            self.wf(),
            self.rows == self.cols ==> self.rows >= 2,
            expanded_row < self.rows,
            j < self.cols,
            pure2(add),
            pure2(sub),
            pure2(mul),
            pure1(neg),
        ensures
            self.rows != self.cols ==> res == Err::<T, MatrixError>(
                MatrixError::NotSquare { rows: self.rows, cols: self.cols },
            ),
            self.rows == self.cols ==> res == Ok::<T, MatrixError>(
                cofactor_of(zero, add, sub, mul, neg, self@, expanded_row as int, j as int),
            ),
    {
        if self.rows != self.cols {
            return Err(MatrixError::NotSquare { rows: self.rows, cols: self.cols });
        }
        Ok(self.cofactor_square(expanded_row, j, zero, &add, &sub, &mul, &neg))
    }

    /// The determinant of a square matrix, by cofactor expansion along row 1.
    pub fn det<A: Fn(T, T) -> T, S: Fn(T, T) -> T, M: Fn(T, T) -> T, N: Fn(T) -> T>(
        &self,
        zero: T,
        add: A,
        sub: S,
        mul: M,
        neg: N,
    ) -> (res: Result<T, MatrixError>)
        requires
            self.wf(),
            pure2(add),
            pure2(sub),
            pure2(mul),
            pure1(neg),
        ensures
            self.rows != self.cols ==> res == Err::<T, MatrixError>(
                MatrixError::NotSquare { rows: self.rows, cols: self.cols },
            ),
            self.rows == self.cols ==> res == Ok::<T, MatrixError>(
                det_of(zero, add, sub, mul, neg, self@),
            ),
    {
        if self.rows != self.cols {
            return Err(MatrixError::NotSquare { rows: self.rows, cols: self.cols });
        }
        Ok(self.det_square(zero, &add, &sub, &mul, &neg))
    }
    /// The inverse of a square matrix with non-zero determinant `d`: the cofactor matrix,
    /// with `fix` applied to every entry, transposed, and divided entrywise by `d`.
    pub fn inverse<
        A: Fn(T, T) -> T,
        S: Fn(T, T) -> T,
        M: Fn(T, T) -> T,
        N: Fn(T) -> T,
        D: Fn(T, T) -> T,
        Z: Fn(T) -> bool,
        C: Fn(T) -> T,
    >(
        &self,
        zero: T,
        add: A,
        sub: S,
        mul: M,
        neg: N,
        div: D,
        is_zero: Z,
        fix: C,
    ) -> (res: Result<Matrix<T>, MatrixError>)
        requires
            self.wf(),
            self.rows == self.cols ==> self.rows >= 2,
            pure2(add),
            pure2(sub),
            pure2(mul),
            pure1(neg),
            pure2(div),
            pure_test(is_zero),
            pure1(fix),
        ensures
            self.rows != self.cols ==> res == Err::<Matrix<T>, MatrixError>(
                MatrixError::NotSquare { rows: self.rows, cols: self.cols },
            ),
            self.rows == self.cols && holds(is_zero, det_of(zero, add, sub, mul, neg, self@))
                ==> res == Err::<Matrix<T>, MatrixError>(MatrixError::SingularMatrix),
            self.rows == self.cols && !holds(is_zero, det_of(zero, add, sub, mul, neg, self@))
                ==> res is Ok && {
                let m = res->Ok_0;
                &&& m.wf()
                &&& m.rows == self.rows
                &&& m.cols == self.cols
                &&& m@ == inverse_of(zero, add, sub, mul, neg, div, fix, self@)
            },
    {
        if self.rows != self.cols {
            return Err(MatrixError::NotSquare { rows: self.rows, cols: self.cols });
        }
        let n = self.rows;
        let len = self.data.len();
        let d = self.det_square(zero, &add, &sub, &mul, &neg);
        if call_test(&is_zero, d) {
            return Err(MatrixError::SingularMatrix);
        }
        let (add_ref, sub_ref, mul_ref, neg_ref) = (&add, &sub, &mul, &neg);
        let entry = |i: usize, j: usize| -> (v: T)
            requires
                i < n,
                j < n,
            ensures
                v == cofactor_of(zero, *add_ref, *sub_ref, *mul_ref, *neg_ref, self@, i as int, j as int),
        {
            self.cofactor_square(i, j, zero, add_ref, sub_ref, mul_ref, neg_ref)
        };
        let mut cof = Matrix::tabulate(n, n, entry);
        let fix_ref = &fix;
        let corrected = |x: T| -> (v: T)
            ensures
                v == app1(*fix_ref, x),
        {
            call1(fix_ref, x)
        };
        let ghost raw = cof;
        cof.apply(corrected);
        let mut inv = cof.transpose();
        let div_ref = &div;
        let scaled = |x: T| -> (v: T)
            ensures
                v == app2(*div_ref, x, d),
        {
            call2(div_ref, x, d)
        };
        let ghost t = inv;
        inv.apply(scaled);
        proof {
            let g = inverse_of(zero, add, sub, mul, neg, div, fix, self@);
            assert forall|i: int, j: int| 0 <= i < n && 0 <= j < n implies #[trigger] inv@[i][j]
                == g[i][j] by {
                assert(scaled.ensures((t@[i][j],), inv@[i][j]));
                assert(corrected.ensures((raw@[j][i],), cof@[j][i]));
                assert(entry.ensures((j as usize, i as usize), raw@[j][i]));
            }
            assert(inv@ =~~= g);
        }
        Ok(inv)
    }
}

} // verus!
