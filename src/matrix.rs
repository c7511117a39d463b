use vstd::prelude::*;

use crate::error::MatrixError;
use crate::scalar::{pure_test, holds, call_test};

verus! {

/// Position of entry `(r, c)` in a row-major buffer whose rows hold `cols` entries.
pub open spec fn flat(cols: int, r: int, c: int) -> int {
    r * cols + c
}

pub proof fn lemma_flat_in_bounds(rows: int, cols: int, r: int, c: int)
    requires
        0 <= r < rows,
        0 <= c < cols,
    ensures
        0 <= flat(cols, r, c) < rows * cols,
        flat(cols, r, c) + 1 <= rows * cols,
{
    assert(0 <= r * cols + c < rows * cols) by (nonlinear_arith)
        requires
            0 <= r < rows,
            0 <= c < cols,
    ;
}

pub proof fn lemma_flat_before(cols: int, r: int, c: int, i: int, j: int)
    requires
        0 <= r < i,
        0 <= c < cols,
        0 <= j,
    ensures
        flat(cols, r, c) < flat(cols, i, j),
{
    assert(r * cols + c < i * cols + j) by (nonlinear_arith)
        requires
            0 <= r < i,
            0 <= c < cols,
            0 <= j,
    ;
}

pub proof fn lemma_flat_distinct(cols: int, r1: int, c1: int, r2: int, c2: int)
    requires
        0 <= r1,
        0 <= r2,
        0 <= c1 < cols,
        0 <= c2 < cols,
        r1 != r2 || c1 != c2,
    ensures
        flat(cols, r1, c1) != flat(cols, r2, c2),
{
    if r1 < r2 {
        lemma_flat_before(cols, r1, c1, r2, c2);
    } else if r2 < r1 {
        lemma_flat_before(cols, r2, c2, r1, c1);
    }
}

pub proof fn lemma_flat_next_row(cols: int, i: int)
    ensures
        flat(cols, i, cols) == (i + 1) * cols,
{
    assert(i * cols + cols == (i + 1) * cols) by (nonlinear_arith);
}

/// `g` has `rows` rows of `cols` entries each.
pub open spec fn is_grid<T>(g: Seq<Seq<T>>, rows: int, cols: int) -> bool {
    &&& g.len() == rows
    &&& forall|r: int| 0 <= r < rows ==> (#[trigger] g[r]).len() == cols
}

/// The grid whose entry `(i, j)` is entry `(j, i)` of `g`, for `g` with `cols` columns.
pub open spec fn transposed<T>(g: Seq<Seq<T>>, cols: int) -> Seq<Seq<T>> {
    Seq::new(cols as nat, |i: int| Seq::new(g.len(), |j: int| g[j][i]))
}

/// The `n` by `n` grid with `one` on the diagonal and `zero` elsewhere.
pub open spec fn identity_grid<T>(n: int, zero: T, one: T) -> Seq<Seq<T>> {
    Seq::new(n as nat, |i: int| Seq::new(n as nat, |j: int| if i == j { one } else { zero }))
}

/// A dense matrix stored as one row-major buffer of `rows * cols` entries.
#[derive(Debug, Clone, PartialEq)]
pub struct Matrix<T> {
    pub rows: usize,
    pub cols: usize,
    pub data: Vec<T>,
}

impl<T> View for Matrix<T> {
    type V = Seq<Seq<T>>;

    /// The matrix as a sequence of rows.
    open spec fn view(&self) -> Seq<Seq<T>> {
        Seq::new(self.rows as nat, |r: int| Seq::new(self.cols as nat, |c: int| self.at(r, c)))
    }
}

impl<T> Matrix<T> {
    /// At least one row and one column, and exactly `rows * cols` entries.
    pub open spec fn wf(&self) -> bool {
        &&& self.rows >= 1
        &&& self.cols >= 1
        &&& self.data@.len() == self.rows * self.cols
    }

    /// Entry `(r, c)`.
    pub open spec fn at(&self, r: int, c: int) -> T {
        self.data@[flat(self.cols as int, r, c)]
    }
}

impl<T: Copy> Matrix<T> {
    /// A `rows` by `cols` matrix with every entry `fill`.
    pub fn new(rows: usize, cols: usize, fill: T) -> (res: Result<Matrix<T>, MatrixError>)
        requires
            rows * cols <= usize::MAX,
        ensures
            (rows == 0 || cols == 0) ==> res == Err::<Matrix<T>, MatrixError>(
                MatrixError::InvalidDimensions,
            ),
            (rows >= 1 && cols >= 1) ==> res is Ok,
            res is Ok ==> {
                let m = res->Ok_0;
                &&& m.wf()
                &&& m.rows == rows
                &&& m.cols == cols
                &&& forall|r: int, c: int| 0 <= r < rows && 0 <= c < cols ==> #[trigger] m@[r][c] == fill
            },
    {
        if rows == 0 || cols == 0 {
            return Err(MatrixError::InvalidDimensions);
        }
        let entry = |i: usize, j: usize| -> (v: T)
            ensures
                v == fill,
        {
            fill
        };
        let m = Matrix::tabulate(rows, cols, entry);
        proof {
            assert forall|r: int, c: int| 0 <= r < rows && 0 <= c < cols implies #[trigger] m@[r][c]
                == fill by {
                assert(entry.ensures((r as usize, c as usize), m@[r][c]));
            }
        }
        Ok(m)
    }

    /// A matrix made of `rows`, `cols` and a row-major buffer of entries.
    pub fn from_parts(rows: usize, cols: usize, data: Vec<T>) -> (res: Result<
        Matrix<T>,
        MatrixError,
    >)
        ensures
            res is Ok <==> (rows >= 1 && cols >= 1 && data@.len() == rows * cols),
            res is Ok ==> res->Ok_0.wf() && res->Ok_0.rows == rows && res->Ok_0.cols == cols
                && res->Ok_0.data@ == data@,
            res is Err ==> res == Err::<Matrix<T>, MatrixError>(MatrixError::InvalidDimensions),
    {
        if rows == 0 || cols == 0 {
            return Err(MatrixError::InvalidDimensions);
        }
        let len = data.len();
        match rows.checked_mul(cols) {
            Some(n) => {
                if n == data.len() {
                    Ok(Matrix { rows, cols, data })
                } else {
                    Err(MatrixError::InvalidDimensions)
                }
            },
            None => Err(MatrixError::InvalidDimensions),
        }
    }

    /// Entry `(r, c)`.
    pub fn get(&self, r: usize, c: usize) -> (v: T)
        requires
            self.wf(),
            r < self.rows,
            c < self.cols,
        ensures
            v == self@[r as int][c as int],
    {
        proof {
            lemma_flat_in_bounds(self.rows as int, self.cols as int, r as int, c as int);
        }
        let n = self.data.len();
        self.data[r * self.cols + c]
    }

    /// Replaces entry `(r, c)` by `v`.
    pub fn set(&mut self, r: usize, c: usize, v: T)
        requires
            old(self).wf(),
            r < old(self).rows,
            c < old(self).cols,
        ensures
            final(self).wf(),
            final(self).rows == old(self).rows,
            final(self).cols == old(self).cols,
            final(self)@ == old(self)@.update(r as int, old(self)@[r as int].update(c as int, v)),
    {
        proof {
            lemma_flat_in_bounds(self.rows as int, self.cols as int, r as int, c as int);
        }
        let ghost before = *self;
        let n = self.data.len();
        let i = r * self.cols + c;
        self.data.set(i, v);
        proof {
            assert forall|a: int, b: int| 0 <= a < self.rows && 0 <= b < self.cols && (a != r || b != c)
                implies #[trigger] self.at(a, b) == before.at(a, b) by {
                lemma_flat_distinct(self.cols as int, a, b, r as int, c as int);
                lemma_flat_in_bounds(self.rows as int, self.cols as int, a, b);
            }
            assert(self@ =~~= before@.update(r as int, before@[r as int].update(c as int, v)));
        }
    }

    /// An independent matrix with the same shape and entries.
    pub fn copy(&self) -> (m: Matrix<T>)
        requires
            self.wf(),
        ensures
            m.wf(),
            m.rows == self.rows,
            m.cols == self.cols,
            m@ == self@,
    {
        let mut data: Vec<T> = Vec::new();
        let mut k: usize = 0;
        while k < self.data.len()
            invariant
                0 <= k <= self.data@.len(),
                data@ == self.data@.take(k as int),
            decreases self.data@.len() - k,
        {
            data.push(self.data[k]);
            k += 1;
            assert(data@ =~= self.data@.take(k as int));
        }
        assert(data@ =~= self.data@);
        let m = Matrix { rows: self.rows, cols: self.cols, data };
        assert(m@ =~~= self@);
        m
    }

    /// Overwrites a square matrix with the identity: `one` on the diagonal, `zero` elsewhere.
    pub fn identity(&mut self, zero: T, one: T) -> (res: Result<(), MatrixError>)
        requires
            old(self).wf(),
        ensures
            final(self).wf(),
            final(self).rows == old(self).rows,
            final(self).cols == old(self).cols,
            old(self).rows != old(self).cols ==> res == Err::<(), MatrixError>(
                MatrixError::NotSquare { rows: old(self).rows, cols: old(self).cols },
            ) && final(self)@ == old(self)@,
            old(self).rows == old(self).cols ==> res is Ok && final(self)@ == identity_grid(
                old(self).rows as int,
                zero,
                one,
            ),
    {
        if self.rows != self.cols {
            return Err(MatrixError::NotSquare { rows: self.rows, cols: self.cols });
        }
        let n = self.rows;
        let len = self.data.len();
        let entry = |i: usize, j: usize| -> (v: T)
            ensures
                v == (if i == j { one } else { zero }),
        {
            if i == j {
                one
            } else {
                zero
            }
        };
        let m = Matrix::tabulate(n, n, entry);
        proof {
            assert forall|i: int, j: int| 0 <= i < n && 0 <= j < n implies #[trigger] m@[i][j] == (if i
                == j {
                one
            } else {
                zero
            }) by {
                assert(entry.ensures((i as usize, j as usize), m@[i][j]));
            }
            assert(m@ =~~= identity_grid(n as int, zero, one));
        }
        *self = m;
        Ok(())
    }

    /// Replaces every entry `x` by `f(x)`, in place.
    pub fn apply<F: Fn(T) -> T>(&mut self, f: F)
        requires
            old(self).wf(),
            forall|x: T| #[trigger] f.requires((x,)),
        ensures
            final(self).wf(),
            final(self).rows == old(self).rows,
            final(self).cols == old(self).cols,
            forall|r: int, c: int|
                0 <= r < old(self).rows && 0 <= c < old(self).cols ==> #[trigger] f.ensures(
                    (old(self)@[r][c],),
                    final(self)@[r][c],
                ),
    {
        let ghost before = *self;
        let mut k: usize = 0;
        while k < self.data.len()
            invariant
                self.rows == before.rows,
                self.cols == before.cols,
                self.data@.len() == before.data@.len(),
                0 <= k <= self.data@.len(),
                forall|x: T| #[trigger] f.requires((x,)),
                forall|i: int| 0 <= i < k ==> #[trigger] f.ensures((before.data@[i],), self.data@[i]),
                forall|i: int| k <= i < self.data@.len() ==> self.data@[i] == before.data@[i],
            decreases self.data@.len() - k,
        {
            let v = f(self.data[k]);
            self.data.set(k, v);
            k += 1;
        }
        proof {
            assert forall|r: int, c: int| 0 <= r < before.rows && 0 <= c < before.cols implies #[trigger] f.ensures(
                (before@[r][c],),
                self@[r][c],
            ) by {
                lemma_flat_in_bounds(before.rows as int, before.cols as int, r, c);
            }
        }
    }

    /// Swaps rows `a` and `b`.
    pub fn swap_rows(&mut self, a: usize, b: usize)
        requires
            old(self).wf(),
            a < old(self).rows,
            b < old(self).rows,
        ensures
            final(self).wf(),
            final(self).rows == old(self).rows,
            final(self).cols == old(self).cols,
            final(self)@ == old(self)@.update(a as int, old(self)@[b as int]).update(
                b as int,
                old(self)@[a as int],
            ),
    {
        let ghost before = *self;
        let mut c: usize = 0;
        while c < self.cols
            invariant
                self.wf(),
                self.rows == before.rows,
                self.cols == before.cols,
                a < self.rows,
                b < self.rows,
                0 <= c <= self.cols,
                forall|r: int, j: int|
                    0 <= r < self.rows && 0 <= j < self.cols ==> #[trigger] self@[r][j] == if r
                        == a && j < c {
                        before@[b as int][j]
                    } else if r == b && j < c {
                        before@[a as int][j]
                    } else {
                        before@[r][j]
                    },
            decreases self.cols - c,
        {
            let x = self.get(a, c);
            let y = self.get(b, c);
            self.set(a, c, y);
            self.set(b, c, x);
            c += 1;
        }
        assert(self@ =~~= before@.update(a as int, before@[b as int]).update(
            b as int,
            before@[a as int],
        ));
    }

    /// The first row, scanning down from `start`, whose entry in column 0 passes `test`.
    pub fn find_row<F: Fn(T) -> bool>(&self, start: usize, test: &F) -> (res: Option<usize>)
        requires
            self.wf(),
            pure_test(*test),
        ensures
            res matches Some(r) ==> start <= r < self.rows && holds(*test, self@[r as int][0])
                && forall|k: int| start <= k < r ==> !holds(*test, #[trigger] self@[k][0]),
            res is None ==> forall|k: int|
                start <= k < self.rows ==> !holds(*test, #[trigger] self@[k][0]),
    {
        let mut r: usize = start;
        while r < self.rows
            invariant
                self.wf(),
                pure_test(*test),
                start <= r || r == start,
                forall|k: int| start <= k < r ==> !holds(*test, #[trigger] self@[k][0]),
            decreases self.rows - r,
        {
            if call_test(test, self.get(r, 0)) {
                return Some(r);
            }
            r += 1;
        }
        None
    }

    /// Entrywise `f(self[i], other[i])` of two matrices of the same shape.
    pub fn combine<F: Fn(T, T) -> T>(&self, other: Matrix<T>, f: F) -> (res: Result<
        Matrix<T>,
        MatrixError,
    >)
        requires
            self.wf(),
            other.wf(),
            forall|x: T, y: T| #[trigger] f.requires((x, y)),
        ensures
            (self.rows == other.rows && self.cols == other.cols) <==> res is Ok,
            (self.rows != other.rows || self.cols != other.cols) ==> res == Err::<
                Matrix<T>,
                MatrixError,
            >(
                MatrixError::DimensionMismatch {
                    rows_a: self.rows,
                    cols_a: self.cols,
                    rows_b: other.rows,
                    cols_b: other.cols,
                },
            ),
            res is Ok ==> {
                let m = res->Ok_0;
                &&& m.wf()
                &&& m.rows == self.rows
                &&& m.cols == self.cols
                &&& forall|r: int, c: int|
                    0 <= r < self.rows && 0 <= c < self.cols ==> #[trigger] f.ensures(
                        (self@[r][c], other@[r][c]),
                        m@[r][c],
                    )
            },
    {
        if self.rows != other.rows || self.cols != other.cols {
            return Err(
                MatrixError::DimensionMismatch {
                    rows_a: self.rows,
                    cols_a: self.cols,
                    rows_b: other.rows,
                    cols_b: other.cols,
                },
            );
        }
        let len = self.data.len();
        let g = &f;
        let entry = |i: usize, j: usize| -> (v: T)
            requires
                i < self.rows,
                j < self.cols,
            ensures
                g.ensures((self@[i as int][j as int], other@[i as int][j as int]), v),
        {
            g(self.get(i, j), other.get(i, j))
        };
        let m = Matrix::tabulate(self.rows, self.cols, entry);
        proof {
            assert forall|r: int, c: int| 0 <= r < self.rows && 0 <= c < self.cols implies #[trigger] f.ensures(
                (self@[r][c], other@[r][c]),
                m@[r][c],
            ) by {
                assert(entry.ensures((r as usize, c as usize), m@[r][c]));
            }
        }
        Ok(m)
    }

    /// The matrix whose entry `(j, i)` is entry `(i, j)` of this one.
    pub fn transpose(&self) -> (t: Matrix<T>)
        requires
            self.wf(),
        ensures
            t.wf(),
            t.rows == self.cols,
            t.cols == self.rows,
            t@ == transposed(self@, self.cols as int),
    {
        let n = self.data.len();
        proof {
            assert(self.cols * self.rows == self.rows * self.cols) by (nonlinear_arith);
        }
        let entry = |i: usize, j: usize| -> (v: T)
            requires
                i < self.cols,
                j < self.rows,
            ensures
                v == self@[j as int][i as int],
        {
            self.get(j, i)
        };
        let t = Matrix::tabulate(self.cols, self.rows, entry);
        proof {
            assert forall|i: int, j: int| 0 <= i < self.cols && 0 <= j < self.rows implies #[trigger] t@[i][j]
                == self@[j][i] by {
                assert(entry.ensures((i as usize, j as usize), t@[i][j]));
            }
            assert(t@ =~~= transposed(self@, self.cols as int));
        }
        t
    }
    /// Builds the `rows` by `cols` matrix whose entry `(i, j)` is `f(i, j)`.
    pub(crate) fn tabulate<F: Fn(usize, usize) -> T>(rows: usize, cols: usize, f: F) -> (m:
        Matrix<T>)
        requires
            rows >= 1,
            cols >= 1,
            rows * cols <= usize::MAX,
            forall|i: usize, j: usize| i < rows && j < cols ==> #[trigger] f.requires((i, j)),
        ensures
            m.wf(),
            m.rows == rows,
            m.cols == cols,
            forall|i: usize, j: usize|
                i < rows && j < cols ==> #[trigger] f.ensures((i, j), m@[i as int][j as int]),
    {
        let mut data: Vec<T> = Vec::new();
        let mut i: usize = 0;
        while i < rows
            invariant
                0 <= i <= rows,
                rows * cols <= usize::MAX,
                cols >= 1,
                data@.len() == i * cols,
                forall|i: usize, j: usize| i < rows && j < cols ==> #[trigger] f.requires((i, j)),
                forall|a: usize, b: usize|
                    a < i && b < cols ==> #[trigger] f.ensures(
                        (a, b),
                        data@[flat(cols as int, a as int, b as int)],
                    ),
            decreases rows - i,
        {
            let mut j: usize = 0;
            while j < cols
                invariant
                    0 <= i < rows,
                    0 <= j <= cols,
                    rows * cols <= usize::MAX,
                    data@.len() == flat(cols as int, i as int, j as int),
                    forall|i: usize, j: usize| i < rows && j < cols ==> #[trigger] f.requires((i, j)),
                    forall|a: usize, b: usize|
                        a < i && b < cols ==> #[trigger] f.ensures(
                            (a, b),
                            data@[flat(cols as int, a as int, b as int)],
                        ),
                    forall|b: usize|
                        b < j ==> #[trigger] f.ensures(
                            (i, b),
                            data@[flat(cols as int, i as int, b as int)],
                        ),
                decreases cols - j,
            {
                proof {
                    lemma_flat_in_bounds(rows as int, cols as int, i as int, j as int);
                }
                let v = f(i, j);
                let ghost before = data@;
                data.push(v);
                proof {
                    assert forall|a: usize, b: usize| a < i && b < cols implies #[trigger] f.ensures(
                        (a, b),
                        data@[flat(cols as int, a as int, b as int)],
                    ) by {
                        lemma_flat_before(cols as int, a as int, b as int, i as int, j as int);
                        assert(data@[flat(cols as int, a as int, b as int)] == before[flat(
                            cols as int,
                            a as int,
                            b as int,
                        )]);
                    }
                    assert forall|b: usize| b < j + 1 implies #[trigger] f.ensures(
                        (i, b),
                        data@[flat(cols as int, i as int, b as int)],
                    ) by {
                        if b < j {
                            assert(data@[flat(cols as int, i as int, b as int)] == before[flat(
                                cols as int,
                                i as int,
                                b as int,
                            )]);
                        }
                    }
                }
                j += 1;
            }
            proof {
                lemma_flat_next_row(cols as int, i as int);
            }
            i += 1;
        }
        let m = Matrix { rows, cols, data };
        proof {
            assert forall|i: usize, j: usize| i < rows && j < cols implies #[trigger] f.ensures(
                (i, j),
                m@[i as int][j as int],
            ) by {
                assert(m@[i as int][j as int] == m.at(i as int, j as int));
            }
        }
        m
    }
}

} // verus!
