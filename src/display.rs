use vstd::prelude::*;
use vstd::string::StringExecFns;

use crate::matrix::Matrix;

verus! {

/// `f` can be called on any value and gives texts with the same characters for the same value.
pub open spec fn pure_show<T, F: Fn(T) -> String>(f: F) -> bool {
    &&& forall|x: T| #[trigger] f.requires((x,))
    &&& forall|x: T, a: String, b: String|
        #[trigger] f.ensures((x,), a) && #[trigger] f.ensures((x,), b) ==> a@ == b@
}

/// `f` may give a text with the characters `s` for `x`.
pub open spec fn shows_as<T, F: Fn(T) -> String>(f: F, x: T, s: Seq<char>) -> bool {
    exists|t: String| t@ == s && #[trigger] f.ensures((x,), t)
}

/// The characters of what `f` gives for `x`.
pub open spec fn shown<T, F: Fn(T) -> String>(f: F, x: T) -> Seq<char> {
    choose|s: Seq<char>| #[trigger] shows_as(f, x, s)
}

/// `cells` joined with one space between neighbours.
pub open spec fn joined(cells: Seq<Seq<char>>) -> Seq<char>
    decreases cells.len(),
{
    if cells.len() == 0 {
        Seq::<char>::empty()
    } else if cells.len() == 1 {
        cells[0]
    } else {
        joined(cells.drop_last()) + seq![' '] + cells.last()
    }
}

/// One line of display: the cells of a row in brackets, then a line break.
pub open spec fn row_line(cells: Seq<Seq<char>>) -> Seq<char> {
    seq!['['] + joined(cells) + seq![']', '\n']
}

/// The lines of all rows, in order.
pub open spec fn lines(rows: Seq<Seq<Seq<char>>>) -> Seq<char>
    decreases rows.len(),
{
    if rows.len() == 0 {
        Seq::<char>::empty()
    } else {
        lines(rows.drop_last()) + row_line(rows.last())
    }
}

/// The cells of `g`, each shown by `f`.
pub open spec fn shown_grid<T, F: Fn(T) -> String>(f: F, g: Seq<Seq<T>>) -> Seq<Seq<Seq<char>>> {
    Seq::new(g.len(), |r: int| Seq::new(g[r].len(), |c: int| shown(f, g[r][c])))
}

proof fn lemma_shown<T, F: Fn(T) -> String>(f: F, x: T, t: String)
    requires
        pure_show(f),
        f.ensures((x,), t),
    ensures
        shown(f, x) == t@,
{
    assert(shows_as(f, x, t@));
    let s = shown(f, x);
    assert(shows_as(f, x, s));
    let u = choose|u: String| u@ == s && f.ensures((x,), u);
    assert(f.ensures((x,), u) && f.ensures((x,), t));
}

impl<T: Copy> Matrix<T> {
    /// The matrix as text: for each row, its entries shown by `cell` and separated by one
    /// space, in brackets, followed by a line break.
    pub fn to_text<F: Fn(T) -> String>(&self, cell: F) -> (s: String)
        requires
            self.wf(),
            pure_show(cell),
        ensures
            s@ == lines(shown_grid(cell, self@)),
    {
        let ghost g = shown_grid(cell, self@);
        let mut s = String::new();
        let mut r: usize = 0;
        assert(g.take(0) =~= Seq::<Seq<Seq<char>>>::empty());
        while r < self.rows
            invariant
                self.wf(),
                pure_show(cell),
                g == shown_grid(cell, self@),
                0 <= r <= self.rows,
                s@ == lines(g.take(r as int)),
            decreases self.rows - r,
        {
            let ghost before = s@;
            s.append("[");
            proof {
                reveal_strlit("[");
                assert(g[r as int].take(0) =~= Seq::<Seq<char>>::empty());
                assert(s@ =~= before + seq!['['] + joined(g[r as int].take(0)));
            }
            let mut c: usize = 0;
            while c < self.cols
                invariant
                    self.wf(),
                    pure_show(cell),
                    g == shown_grid(cell, self@),
                    0 <= r < self.rows,
                    0 <= c <= self.cols,
                    s@ == before + seq!['['] + joined(g[r as int].take(c as int)),
                decreases self.cols - c,
            {
                let ghost mid = s@;
                if c > 0 {
                    s.append(" ");
                }
                let t = cell(self.get(r, c));
                proof {
                    lemma_shown(cell, self@[r as int][c as int], t);
                }
                s.append(t.as_str());
                proof {
                    reveal_strlit(" ");
                    let row = g[r as int].take(c + 1);
                    assert(row.drop_last() =~= g[r as int].take(c as int));
                    assert(row.last() == t@);
                    if c == 0 {
                        assert(joined(g[r as int].take(c as int)) =~= Seq::<char>::empty());
                        assert(s@ =~= before + seq!['['] + joined(row));
                    } else {
                        assert(s@ =~= before + seq!['['] + joined(row));
                    }
                }
                c += 1;
            }
            s.append("]\n");
            proof {
                reveal_strlit("]\n");
                assert(g[r as int].take(self.cols as int) =~= g[r as int]);
                let rows = g.take(r + 1);
                assert(rows.drop_last() =~= g.take(r as int));
                assert(s@ =~= lines(rows));
            }
            r += 1;
        }
        assert(g.take(self.rows as int) =~= g);
        s
    }
}

} // verus!
