use vstd::prelude::*;

use crate::matrix::Matrix;
use crate::scalar::{pure1, pure2, pure_test, app1, app2, holds, call1, call2, call_test};

verus! {

/// `g` with rows `a` and `b` exchanged.
pub open spec fn swapped<T>(g: Seq<Seq<T>>, a: int, b: int) -> Seq<Seq<T>> {
    g.update(a, g[b]).update(b, g[a])
}

/// `r` is the first row of `g` whose entry in column 0 passes `test`.
pub open spec fn is_first_passing<T, P: Fn(T) -> bool>(g: Seq<Seq<T>>, test: P, r: int) -> bool {
    &&& 0 <= r < g.len()
    &&& holds(test, g[r][0])
    &&& forall|k: int| 0 <= k < r ==> !holds(test, #[trigger] g[k][0])
}

/// When the top-left entry is zero, the first row whose entry in column 0 is positive
/// is swapped into row 0; otherwise `g` is unchanged.
pub open spec fn pre_swapped<T, Z: Fn(T) -> bool, P: Fn(T) -> bool>(
    g: Seq<Seq<T>>,
    is_zero: Z,
    is_positive: P,
) -> Seq<Seq<T>> {
    if holds(is_zero, g[0][0]) && exists|r: int| is_first_passing(g, is_positive, r) {
        swapped(g, 0, choose|r: int| is_first_passing(g, is_positive, r))
    } else {
        g
    }
}

/// `g` after the elimination step of row `r` for pivot `lead`: the pivot row is divided
/// by the pivot; any other row `r` loses `g[r][lead] / pivot` times the pivot row.
pub open spec fn row_step<T, D: Fn(T, T) -> T, S: Fn(T, T) -> T, M: Fn(T, T) -> T>(
    div: D,
    sub: S,
    mul: M,
    g: Seq<Seq<T>>,
    lead: int,
    r: int,
) -> Seq<Seq<T>> {
    let pivot = g[lead][lead];
    if r == lead {
        g.update(lead, Seq::new(g[lead].len(), |c: int| app2(div, g[lead][c], pivot)))
    } else {
        let mult = app2(div, g[r][lead], pivot);
        g.update(r, Seq::new(g[r].len(), |c: int| app2(sub, g[r][c], app2(mul, g[lead][c], mult))))
    }
}

/// The elimination steps of rows `0 .. k` for pivot `lead`, in order.
pub open spec fn lead_pass<T, D: Fn(T, T) -> T, S: Fn(T, T) -> T, M: Fn(T, T) -> T>(
    div: D,
    sub: S,
    mul: M,
    g: Seq<Seq<T>>,
    lead: int,
    k: int,
) -> Seq<Seq<T>>
    decreases k,
{
    if k <= 0 {
        g
    } else {
        row_step(div, sub, mul, lead_pass(div, sub, mul, g, lead, k - 1), lead, k - 1)
    }
}

/// The passes of pivots `0 .. k`, in order.
pub open spec fn eliminated<T, D: Fn(T, T) -> T, S: Fn(T, T) -> T, M: Fn(T, T) -> T>(
    div: D,
    sub: S,
    mul: M,
    g: Seq<Seq<T>>,
    k: int,
) -> Seq<Seq<T>>
    decreases k,
{
    if k <= 0 {
        g
    } else {
        let h = eliminated(div, sub, mul, g, k - 1);
        lead_pass(div, sub, mul, h, k - 1, h.len() as int)
    }
}

/// `fix` applied to every entry of `g`.
pub open spec fn corrected<T, C: Fn(T) -> T>(fix: C, g: Seq<Seq<T>>) -> Seq<Seq<T>> {
    Seq::new(g.len(), |i: int| Seq::new(g[i].len(), |j: int| app1(fix, g[i][j])))
}

/// Gauss-Jordan reduction of `g`: the initial swap, a pass for every pivot on the
/// diagonal, then `fix` on every entry.
pub open spec fn rref_of<
    T,
    D: Fn(T, T) -> T,
    S: Fn(T, T) -> T,
    M: Fn(T, T) -> T,
    Z: Fn(T) -> bool,
    P: Fn(T) -> bool,
    C: Fn(T) -> T,
>(div: D, sub: S, mul: M, is_zero: Z, is_positive: P, fix: C, g: Seq<Seq<T>>) -> Seq<Seq<T>> {
    let s = pre_swapped(g, is_zero, is_positive);
    corrected(fix, eliminated(div, sub, mul, s, s.len() as int))
}

impl<T: Copy> Matrix<T> {
    /// Divides every entry of row `lead` by `pivot`.
    fn scale_row<D: Fn(T, T) -> T>(&mut self, lead: usize, pivot: T, div: &D)
        requires
            old(self).wf(),
            lead < old(self).rows,
            pure2(*div),
        ensures
            final(self).wf(),
            final(self).rows == old(self).rows,
            final(self).cols == old(self).cols,
            final(self)@ == old(self)@.update(
                lead as int,
                Seq::new(old(self).cols as nat, |c: int| app2(*div, old(self)@[lead as int][c], pivot)),
            ),
    {
        let ghost before = self@;
        let mut c: usize = 0;
        assert(self@ =~~= before.update(
            lead as int,
            Seq::new(
                self.cols as nat,
                |j: int| if j < 0 { app2(*div, before[lead as int][j], pivot) } else { before[lead as int][j] },
            ),
        ));
        while c < self.cols
            invariant
                self.wf(),
                lead < self.rows,
                pure2(*div),
                before.len() == self.rows,
                before[lead as int].len() == self.cols,
                0 <= c <= self.cols,
                self@ == before.update(
                    lead as int,
                    Seq::new(
                        self.cols as nat,
                        |j: int| if j < c { app2(*div, before[lead as int][j], pivot) } else { before[lead as int][j] },
                    ),
                ),
            decreases self.cols - c,
        {
            let v = call2(div, self.get(lead, c), pivot);
            self.set(lead, c, v);
            proof {
                assert(self@ =~~= before.update(
                    lead as int,
                    Seq::new(
                        self.cols as nat,
                        |j: int| if j < c + 1 { app2(*div, before[lead as int][j], pivot) } else { before[lead as int][j] },
                    ),
                ));
            }
            c += 1;
        }
        assert(self@ =~~= before.update(
            lead as int,
            Seq::new(self.cols as nat, |c: int| app2(*div, before[lead as int][c], pivot)),
        ));
    }

    /// Subtracts `mult` times row `lead` from row `r`.
    fn subtract_row<S: Fn(T, T) -> T, M: Fn(T, T) -> T>(
        &mut self,
        r: usize,
        lead: usize,
        mult: T,
        sub: &S,
        mul: &M,
    )
        requires
            old(self).wf(),
            r < old(self).rows,
            lead < old(self).rows,
            r != lead,
            pure2(*sub),
            pure2(*mul),
        ensures
            final(self).wf(),
            final(self).rows == old(self).rows,
            final(self).cols == old(self).cols,
            final(self)@ == old(self)@.update(
                r as int,
                Seq::new(
                    old(self).cols as nat,
                    |c: int|
                        app2(
                            *sub,
                            old(self)@[r as int][c],
                            app2(*mul, old(self)@[lead as int][c], mult),
                        ),
                ),
            ),
    {
        let ghost before = self@;
        let mut c: usize = 0;
        assert(self@ =~~= before.update(
            r as int,
            Seq::new(
                self.cols as nat,
                |j: int|
                    if j < 0 {
                        app2(*sub, before[r as int][j], app2(*mul, before[lead as int][j], mult))
                    } else {
                        before[r as int][j]
                    },
            ),
        ));
        while c < self.cols
            invariant
                self.wf(),
                r < self.rows,
                lead < self.rows,
                r != lead,
                pure2(*sub),
                pure2(*mul),
                before.len() == self.rows,
                before[r as int].len() == self.cols,
                0 <= c <= self.cols,
                self@ == before.update(
                    r as int,
                    Seq::new(
                        self.cols as nat,
                        |j: int|
                            if j < c {
                                app2(*sub, before[r as int][j], app2(*mul, before[lead as int][j], mult))
                            } else {
                                before[r as int][j]
                            },
                    ),
                ),
            decreases self.cols - c,
        {
            let p = call2(mul, self.get(lead, c), mult);
            let v = call2(sub, self.get(r, c), p);
            self.set(r, c, v);
            proof {
                assert(self@ =~~= before.update(
                    r as int,
                    Seq::new(
                        self.cols as nat,
                        |j: int|
                            if j < c + 1 {
                                app2(*sub, before[r as int][j], app2(*mul, before[lead as int][j], mult))
                            } else {
                                before[r as int][j]
                            },
                    ),
                ));
            }
            c += 1;
        }
        assert(self@ =~~= before.update(
            r as int,
            Seq::new(
                self.cols as nat,
                |c: int| app2(*sub, before[r as int][c], app2(*mul, before[lead as int][c], mult)),
            ),
        ));
    }
    /// Row-reduces a matrix with no more rows than columns, in place: when the top-left
    /// entry is zero the first row with a positive entry in column 0 is swapped into row 0;
    /// then for each pivot `lead` on the diagonal, every row in turn is updated (the pivot
    /// row divided by the pivot, any other row cleared in column `lead`); finally `fix` is
    /// applied to every entry.
    pub fn rref<
        D: Fn(T, T) -> T,
        S: Fn(T, T) -> T,
        M: Fn(T, T) -> T,
        Z: Fn(T) -> bool,
        P: Fn(T) -> bool,
        C: Fn(T) -> T,
    >(&mut self, div: D, sub: S, mul: M, is_zero: Z, is_positive: P, fix: C)
        requires
            old(self).wf(),
            old(self).rows <= old(self).cols,
            pure2(div),
            pure2(sub),
            pure2(mul),
            pure_test(is_zero),
            pure_test(is_positive),
            pure1(fix),
        ensures
            final(self).wf(),
            final(self).rows == old(self).rows,
            final(self).cols == old(self).cols,
            final(self)@ == rref_of(div, sub, mul, is_zero, is_positive, fix, old(self)@),
    {
        let ghost g0 = self@;
        let rows = self.rows;
        let cols = self.cols;
        if call_test(&is_zero, self.get(0, 0)) {
            match self.find_row(0, &is_positive) {
                Some(r) => {
                    self.swap_rows(0, r);
                    proof {
                        let c = choose|k: int| is_first_passing(g0, is_positive, k);
                        assert(is_first_passing(g0, is_positive, r as int));
                        if c < r {
                            assert(!holds(is_positive, g0[c][0]));
                        }
                        if r < c {
                            assert(!holds(is_positive, g0[r as int][0]));
                        }
                        assert(c == r);
                    }
                },
                None => {
                    proof {
                        assert forall|k: int| !is_first_passing(g0, is_positive, k) by {
                            if 0 <= k < g0.len() {
                                assert(!holds(is_positive, g0[k][0]));
                            }
                        }
                    }
                },
            }
        }
        let ghost s = self@;
        assert(s == pre_swapped(g0, is_zero, is_positive));
        let mut lead: usize = 0;
        while lead < rows
            invariant
                self.wf(),
                self.rows == rows,
                self.cols == cols,
                rows <= cols,
                s.len() == rows,
                pure2(div),
                pure2(sub),
                pure2(mul),
                0 <= lead <= rows,
                self@ == eliminated(div, sub, mul, s, lead as int),
            decreases rows - lead,
        {
            let ghost h = self@;
            let mut r: usize = 0;
            while r < rows
                invariant
                    self.wf(),
                    self.rows == rows,
                    self.cols == cols,
                    rows <= cols,
                    lead < rows,
                    h.len() == rows,
                    pure2(div),
                    pure2(sub),
                    pure2(mul),
                    0 <= r <= rows,
                    self@ == lead_pass(div, sub, mul, h, lead as int, r as int),
                decreases rows - r,
            {
                let ghost before = self@;
                let pivot = self.get(lead, lead);
                let mult = call2(&div, self.get(r, lead), pivot);
                if r == lead {
                    self.scale_row(lead, pivot, &div);
                } else {
                    self.subtract_row(r, lead, mult, &sub, &mul);
                }
                proof {
                    assert(self@ =~~= row_step(div, sub, mul, before, lead as int, r as int));
                }
                r += 1;
            }
            lead += 1;
        }
        let fix_ref = &fix;
        let fixed = |x: T| -> (v: T)
            ensures
                v == app1(*fix_ref, x),
        {
            call1(fix_ref, x)
        };
        let ghost e = self@;
        self.apply(fixed);
        proof {
            assert forall|i: int, j: int| 0 <= i < rows && 0 <= j < cols implies #[trigger] self@[i][j]
                == app1(fix, e[i][j]) by {
                assert(fixed.ensures((e[i][j],), self@[i][j]));
            }
            assert(self@ =~~= corrected(fix, e));
        }
    }
}

} // verus!
