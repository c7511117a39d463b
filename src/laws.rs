use vstd::prelude::*;

use crate::determinant::det_of;
use crate::display::{joined, lines, row_line, shown, shown_grid};
use crate::matrix::{Matrix, transposed, identity_grid, is_grid, flat};
use crate::product::{dot_sum, column, product};
use crate::reduce::{
    rref_of, row_step, lead_pass, eliminated, corrected, pre_swapped, is_first_passing, swapped,
};
use crate::scalar::{app1, app2, holds};
use crate::text::{
    is_space, layout_words, lemma_pieces_nonempty, pieces, row_words, text_rows, words,
};

verus! {

/// Two well-formed matrices with the same shape and the same entries hold the same buffer.
pub proof fn same_entries_same_buffer<T>(a: Matrix<T>, b: Matrix<T>)
    requires
        a.wf(),
        b.wf(),
        a.rows == b.rows,
        a.cols == b.cols,
        a@ == b@,
    ensures
        a.data@ == b.data@,
{
    assert forall|k: int| 0 <= k < a.data@.len() implies a.data@[k] == b.data@[k] by {
        let cols = a.cols as int;
        let r = k / cols;
        let c = k % cols;
        assert(k == flat(cols, r, c)) by (nonlinear_arith)
            requires
                r == k / cols,
                c == k % cols,
                cols >= 1,
        ;
        assert(0 <= r < a.rows) by (nonlinear_arith)
            requires
                r == k / cols,
                cols >= 1,
                0 <= k < a.rows * cols,
        ;
        assert(0 <= c < cols);
        assert(a@[r][c] == a.data@[flat(cols, r, c)]);
        assert(b@[r][c] == b.data@[flat(cols, r, c)]);
    }
    assert(a.data@ =~= b.data@);
}

/// Transposing twice gives back the matrix: if `t` is the transpose of `m` and `u` the
/// transpose of `t`, then `u` has the shape, the entries and the buffer of `m`.
pub proof fn transpose_twice<T>(m: Matrix<T>, t: Matrix<T>, u: Matrix<T>)
    requires
        m.wf(),
        t.wf(),
        t.rows == m.cols,
        t.cols == m.rows,
        t@ == transposed(m@, m.cols as int),
        u.wf(),
        u.rows == t.cols,
        u.cols == t.rows,
        u@ == transposed(t@, t.cols as int),
    ensures
        u.rows == m.rows,
        u.cols == m.cols,
        u@ == m@,
        u.data@ == m.data@,
{
    assert(u@ =~~= m@);
    same_entries_same_buffer(u, m);
}

/// `zero` and `one` behave as in a ring for `add` and `mul`: `zero` is neutral for
/// addition and absorbing for multiplication, `one` is neutral for multiplication.
pub open spec fn unital<T, A: Fn(T, T) -> T, M: Fn(T, T) -> T>(zero: T, one: T, add: A, mul: M) -> bool {
    &&& forall|x: T| #[trigger] app2(add, zero, x) == x
    &&& forall|x: T| #[trigger] app2(add, x, zero) == x
    &&& forall|x: T| #[trigger] app2(mul, zero, x) == zero
    &&& forall|x: T| #[trigger] app2(mul, x, zero) == zero
    &&& forall|x: T| #[trigger] app2(mul, one, x) == x
    &&& forall|x: T| #[trigger] app2(mul, x, one) == x
}

proof fn lemma_sum_unit_left<T, A: Fn(T, T) -> T, M: Fn(T, T) -> T>(
    zero: T,
    one: T,
    add: A,
    mul: M,
    x: Seq<T>,
    y: Seq<T>,
    i: int,
    n: int,
)
    requires
        unital(zero, one, add, mul),
        0 <= n <= x.len(),
        n <= y.len(),
        forall|k: int| 0 <= k < x.len() ==> #[trigger] x[k] == if k == i { one } else { zero },
    ensures
        dot_sum(zero, add, mul, x, y, n) == if 0 <= i < n { y[i] } else { zero },
    decreases n,
{
    if n > 0 {
        lemma_sum_unit_left(zero, one, add, mul, x, y, i, n - 1);
        let p = app2(mul, x[n - 1], y[n - 1]);
        if n - 1 == i {
            assert(p == y[i]);
        } else {
            assert(p == zero);
        }
    }
}

proof fn lemma_sum_unit_right<T, A: Fn(T, T) -> T, M: Fn(T, T) -> T>(
    zero: T,
    one: T,
    add: A,
    mul: M,
    x: Seq<T>,
    y: Seq<T>,
    j: int,
    n: int,
)
    requires
        unital(zero, one, add, mul),
        0 <= n <= y.len(),
        n <= x.len(),
        forall|k: int| 0 <= k < y.len() ==> #[trigger] y[k] == if k == j { one } else { zero },
    ensures
        dot_sum(zero, add, mul, x, y, n) == if 0 <= j < n { x[j] } else { zero },
    decreases n,
{
    if n > 0 {
        lemma_sum_unit_right(zero, one, add, mul, x, y, j, n - 1);
        let p = app2(mul, x[n - 1], y[n - 1]);
        if n - 1 == j {
            assert(p == x[j]);
        } else {
            assert(p == zero);
        }
    }
}

/// The identity is neutral for the product on both sides, when `zero` and `one` behave
/// as in a ring: `I * M == M` and `M * I == M` for the identities of fitting size.
pub proof fn identity_neutral_for_product<T, A: Fn(T, T) -> T, M: Fn(T, T) -> T>(
    zero: T,
    one: T,
    add: A,
    mul: M,
    g: Seq<Seq<T>>,
    rows: int,
    cols: int,
)
    requires
        unital(zero, one, add, mul),
        rows >= 1,
        cols >= 1,
        is_grid(g, rows, cols),
    ensures
        product(zero, add, mul, identity_grid(rows, zero, one), g, cols) == g,
        product(zero, add, mul, g, identity_grid(cols, zero, one), cols) == g,
{
    let left = product(zero, add, mul, identity_grid(rows, zero, one), g, cols);
    assert forall|i: int, j: int| 0 <= i < rows && 0 <= j < cols implies #[trigger] left[i][j]
        == g[i][j] by {
        lemma_sum_unit_left(
            zero,
            one,
            add,
            mul,
            identity_grid(rows, zero, one)[i],
            column(g, j),
            i,
            rows,
        );
    }
    assert(left =~~= g);
    let id = identity_grid(cols, zero, one);
    let right = product(zero, add, mul, g, id, cols);
    assert forall|i: int, j: int| 0 <= i < rows && 0 <= j < cols implies #[trigger] right[i][j]
        == g[i][j] by {
        lemma_sum_unit_right(zero, one, add, mul, g[i], column(id, j), j, cols);
    }
    assert(right =~~= g);
}

/// The determinant of `[[a, b], [c, d]]` is exactly `a*d - b*c`.
pub proof fn det_of_two_by_two<T, A: Fn(T, T) -> T, S: Fn(T, T) -> T, M: Fn(T, T) -> T, N: Fn(T) -> T>(
    zero: T,
    add: A,
    sub: S,
    mul: M,
    neg: N,
    a: T,
    b: T,
    c: T,
    d: T,
)
    ensures
        det_of(zero, add, sub, mul, neg, seq![seq![a, b], seq![c, d]]) == app2(
            sub,
            app2(mul, a, d),
            app2(mul, b, c),
        ),
{
}

/// The first `rows` columns of `g` hold the identity, written with `zero` and `one`.
pub open spec fn leading_identity<T>(g: Seq<Seq<T>>, rows: int, zero: T, one: T) -> bool {
    forall|i: int, j: int| 0 <= i < rows && 0 <= j < rows ==> #[trigger] g[i][j] == if i == j {
        one
    } else {
        zero
    }
}

proof fn lemma_lead_pass_keeps<T, D: Fn(T, T) -> T, S: Fn(T, T) -> T, M: Fn(T, T) -> T>(
    div: D,
    sub: S,
    mul: M,
    zero: T,
    one: T,
    g: Seq<Seq<T>>,
    rows: int,
    cols: int,
    lead: int,
    k: int,
)
    requires
        is_grid(g, rows, cols),
        0 <= lead < rows <= cols,
        0 <= k <= rows,
        leading_identity(g, rows, zero, one),
        forall|x: T| #[trigger] app2(div, x, one) == x,
        forall|x: T| #[trigger] app2(mul, x, zero) == zero,
        forall|x: T| #[trigger] app2(sub, x, zero) == x,
    ensures
        lead_pass(div, sub, mul, g, lead, k) == g,
    decreases k,
{
    if k > 0 {
        lemma_lead_pass_keeps(div, sub, mul, zero, one, g, rows, cols, lead, k - 1);
        let r = k - 1;
        assert(g[lead][lead] == one);
        if r == lead {
            assert(row_step(div, sub, mul, g, lead, r) =~~= g);
        } else {
            assert(g[r][lead] == zero);
            assert(row_step(div, sub, mul, g, lead, r) =~~= g);
        }
    }
}

proof fn lemma_eliminated_keeps<T, D: Fn(T, T) -> T, S: Fn(T, T) -> T, M: Fn(T, T) -> T>(
    div: D,
    sub: S,
    mul: M,
    zero: T,
    one: T,
    g: Seq<Seq<T>>,
    rows: int,
    cols: int,
    k: int,
)
    requires
        is_grid(g, rows, cols),
        1 <= rows <= cols,
        0 <= k <= rows,
        leading_identity(g, rows, zero, one),
        forall|x: T| #[trigger] app2(div, x, one) == x,
        forall|x: T| #[trigger] app2(mul, x, zero) == zero,
        forall|x: T| #[trigger] app2(sub, x, zero) == x,
    ensures
        eliminated(div, sub, mul, g, k) == g,
    decreases k,
{
    if k > 0 {
        lemma_eliminated_keeps(div, sub, mul, zero, one, g, rows, cols, k - 1);
        lemma_lead_pass_keeps(div, sub, mul, zero, one, g, rows, cols, k - 1, rows);
    }
}

/// Row reduction a second time changes nothing, once the first has left the identity in the
/// leading columns, when division by `one`, multiplication by `zero` and subtraction of
/// `zero` behave exactly, `one` does not test as zero, and `fix` settles after one use.
pub proof fn rref_twice_is_rref_once<
    T,
    D: Fn(T, T) -> T,
    S: Fn(T, T) -> T,
    M: Fn(T, T) -> T,
    Z: Fn(T) -> bool,
    P: Fn(T) -> bool,
    C: Fn(T) -> T,
>(
    div: D,
    sub: S,
    mul: M,
    is_zero: Z,
    is_positive: P,
    fix: C,
    zero: T,
    one: T,
    g: Seq<Seq<T>>,
    rows: int,
    cols: int,
)
    requires
        is_grid(g, rows, cols),
        1 <= rows <= cols,
        leading_identity(rref_of(div, sub, mul, is_zero, is_positive, fix, g), rows, zero, one),
        forall|x: T| #[trigger] app2(div, x, one) == x,
        forall|x: T| #[trigger] app2(mul, x, zero) == zero,
        forall|x: T| #[trigger] app2(sub, x, zero) == x,
        !holds(is_zero, one),
        forall|x: T| #[trigger] app1(fix, app1(fix, x)) == app1(fix, x),
    ensures
        rref_of(div, sub, mul, is_zero, is_positive, fix, rref_of(div, sub, mul, is_zero, is_positive, fix, g))
            == rref_of(div, sub, mul, is_zero, is_positive, fix, g),
{
    let h = rref_of(div, sub, mul, is_zero, is_positive, fix, g);
    let s = pre_swapped(g, is_zero, is_positive);
    lemma_pre_swapped_shape(g, is_zero, is_positive, rows, cols);
    lemma_eliminated_shape(div, sub, mul, s, rows, cols, rows);
    let e = eliminated(div, sub, mul, s, rows);
    assert(h == corrected(fix, e));
    assert(is_grid(h, rows, cols));
    assert(h[0][0] == one);
    assert(pre_swapped(h, is_zero, is_positive) == h);
    lemma_eliminated_keeps(div, sub, mul, zero, one, h, rows, cols, rows);
    assert forall|i: int, j: int| 0 <= i < rows && 0 <= j < cols implies #[trigger] corrected(fix, h)[i][j]
        == h[i][j] by {
        assert(h[i][j] == app1(fix, e[i][j]));
    }
    assert(corrected(fix, h) =~~= h);
}

proof fn lemma_eliminated_shape<T, D: Fn(T, T) -> T, S: Fn(T, T) -> T, M: Fn(T, T) -> T>(
    div: D,
    sub: S,
    mul: M,
    g: Seq<Seq<T>>,
    rows: int,
    cols: int,
    k: int,
)
    requires
        is_grid(g, rows, cols),
        0 <= k <= rows,
    ensures
        is_grid(eliminated(div, sub, mul, g, k), rows, cols),
    decreases k,
{
    if k > 0 {
        lemma_eliminated_shape(div, sub, mul, g, rows, cols, k - 1);
        let h = eliminated(div, sub, mul, g, k - 1);
        lemma_lead_pass_shape(div, sub, mul, h, rows, cols, k - 1, rows);
    }
}

proof fn lemma_lead_pass_shape<T, D: Fn(T, T) -> T, S: Fn(T, T) -> T, M: Fn(T, T) -> T>(
    div: D,
    sub: S,
    mul: M,
    g: Seq<Seq<T>>,
    rows: int,
    cols: int,
    lead: int,
    k: int,
)
    requires
        is_grid(g, rows, cols),
        0 <= lead < rows,
        0 <= k <= rows,
    ensures
        is_grid(lead_pass(div, sub, mul, g, lead, k), rows, cols),
    decreases k,
{
    if k > 0 {
        lemma_lead_pass_shape(div, sub, mul, g, rows, cols, lead, k - 1);
    }
}

/// No character of `w` is white space.
pub open spec fn no_space(w: Seq<char>) -> bool {
    forall|i: int| 0 <= i < w.len() ==> !is_space(#[trigger] w[i])
}

/// The cells of a row as they read back: `[` before the first, `]` after the last.
pub open spec fn bracketed(cells: Seq<Seq<char>>) -> Seq<Seq<char>> {
    Seq::new(
        cells.len(),
        |c: int|
            (if c == 0 { seq!['['] } else { Seq::<char>::empty() }) + cells[c] + (if c == cells.len()
                - 1 {
                seq![']']
            } else {
                Seq::<char>::empty()
            }),
    )
}

proof fn lemma_words_nonempty(s: Seq<char>)
    requires
        s.len() > 0,
        !is_space(s.last()),
    ensures
        words(s).len() > 0,
    decreases s.len(),
{
    let d = s.drop_last();
    if s.len() >= 2 && !is_space(s[s.len() - 2]) {
        assert(d.last() == s[s.len() - 2]);
        lemma_words_nonempty(d);
    }
}

proof fn lemma_words_single(w: Seq<char>)
    requires
        w.len() > 0,
        no_space(w),
    ensures
        words(w) == seq![w],
    decreases w.len(),
{
    let d = w.drop_last();
    assert(!is_space(w.last()));
    if w.len() == 1 {
        assert(d.len() == 0);
        assert(words(d) == Seq::<Seq<char>>::empty());
        assert(seq![w.last()] =~= w);
        assert(words(d).push(seq![w.last()]) =~= seq![w]);
    } else {
        assert(!is_space(w[w.len() - 2]));
        lemma_words_single(d);
        assert(d.push(w.last()) =~= w);
        assert(seq![d].update(0, d.push(w.last())) =~= seq![w]);
    }
}

proof fn lemma_words_split(s: Seq<char>, t: Seq<char>)
    ensures
        words(s + seq![' '] + t) == words(s) + words(t),
    decreases t.len(),
{
    let u = s + seq![' '];
    let x = u + t;
    assert(is_space(' '));
    if t.len() == 0 {
        assert(x =~= u);
        assert(u.drop_last() =~= s);
        assert(words(t) =~= Seq::<Seq<char>>::empty());
        assert(words(s) + words(t) =~= words(s));
    } else {
        let t1 = t.drop_last();
        let c = t.last();
        lemma_words_split(s, t1);
        assert(x.drop_last() =~= u + t1);
        assert(x.last() == c);
        let w = words(s) + words(t1);
        if is_space(c) {
        } else if t1.len() > 0 && !is_space(t1.last()) {
            assert(x[x.len() - 2] == t1.last());
            assert(t[t.len() - 2] == t1.last());
            lemma_words_nonempty(t1);
            let wt = words(t1);
            assert(w.update(w.len() - 1, w.last().push(c)) =~= words(s) + wt.update(
                wt.len() - 1,
                wt.last().push(c),
            ));
        } else {
            if t1.len() == 0 {
                assert(x[x.len() - 2] == ' ');
            } else {
                assert(x[x.len() - 2] == t1.last());
                assert(t[t.len() - 2] == t1.last());
            }
            assert(w.push(seq![c]) =~= words(s) + words(t1).push(seq![c]));
        }
    }
}

proof fn lemma_words_joined(cells: Seq<Seq<char>>)
    requires
        forall|k: int| 0 <= k < cells.len() ==> (#[trigger] cells[k]).len() > 0 && no_space(cells[k]),
    ensures
        words(joined(cells)) == cells,
    decreases cells.len(),
{
    if cells.len() == 0 {
        assert(cells =~= Seq::<Seq<char>>::empty());
    } else if cells.len() == 1 {
        lemma_words_single(cells[0]);
        assert(seq![cells[0]] =~= cells);
    } else {
        let d = cells.drop_last();
        lemma_words_joined(d);
        lemma_words_split(joined(d), cells.last());
        lemma_words_single(cells.last());
        assert(d + seq![cells.last()] =~= cells);
    }
}

proof fn lemma_joined_open(cells: Seq<Seq<char>>)
    requires
        cells.len() >= 1,
    ensures
        seq!['['] + joined(cells) == joined(cells.update(0, seq!['['] + cells[0])),
    decreases cells.len(),
{
    let u = cells.update(0, seq!['['] + cells[0]);
    if cells.len() >= 2 {
        let d = cells.drop_last();
        lemma_joined_open(d);
        assert(u.drop_last() =~= d.update(0, seq!['['] + d[0]));
        assert(seq!['['] + joined(cells) =~= (seq!['['] + joined(d)) + seq![' '] + cells.last());
    }
}

proof fn lemma_joined_close(cells: Seq<Seq<char>>)
    requires
        cells.len() >= 1,
    ensures
        joined(cells) + seq![']'] == joined(
            cells.update(cells.len() - 1, cells.last() + seq![']']),
        ),
{
    let u = cells.update(cells.len() - 1, cells.last() + seq![']']);
    if cells.len() >= 2 {
        assert(u.drop_last() =~= cells.drop_last());
        assert(joined(cells) + seq![']'] =~= joined(cells.drop_last()) + seq![' '] + (cells.last()
            + seq![']']));
    }
}

proof fn lemma_words_of_line(cells: Seq<Seq<char>>)
    requires
        cells.len() >= 1,
        forall|k: int| 0 <= k < cells.len() ==> (#[trigger] cells[k]).len() > 0 && no_space(cells[k]),
    ensures
        words(seq!['['] + joined(cells) + seq![']']) == bracketed(cells),
{
    let n = cells.len() as int;
    let u = cells.update(0, seq!['['] + cells[0]);
    lemma_joined_open(cells);
    lemma_joined_close(u);
    let v = u.update(n - 1, u.last() + seq![']']);
    assert(v =~= bracketed(cells));
    assert(is_space('[') == false);
    assert(is_space(']') == false);
    assert forall|k: int| 0 <= k < n implies (#[trigger] v[k]).len() > 0 && no_space(v[k]) by {
        assert forall|i: int| 0 <= i < v[k].len() implies !is_space(#[trigger] v[k][i]) by {
            let pre: Seq<char> = if k == 0 { seq!['['] } else { Seq::<char>::empty() };
            if i >= pre.len() && i < pre.len() + cells[k].len() {
                assert(v[k][i] == cells[k][i - pre.len()]);
            }
        }
    }
    lemma_words_joined(v);
}

proof fn lemma_pieces_single(s: Seq<char>, sep: char)
    requires
        forall|i: int| 0 <= i < s.len() ==> #[trigger] s[i] != sep,
    ensures
        pieces(s, sep) == seq![s],
    decreases s.len(),
{
    if s.len() > 0 {
        let d = s.drop_last();
        lemma_pieces_single(d, sep);
        assert(d.push(s.last()) =~= s);
        assert(seq![d].update(0, d.push(s.last())) =~= seq![s]);
    } else {
        assert(s =~= Seq::<char>::empty());
    }
}

proof fn lemma_pieces_after(a: Seq<char>, b: Seq<char>, sep: char)
    requires
        a.len() > 0,
        a.last() == sep,
    ensures
        pieces(a + b, sep) == pieces(a, sep).drop_last() + pieces(b, sep),
    decreases b.len(),
{
    let pa = pieces(a, sep);
    if b.len() == 0 {
        assert(a + b =~= a);
        assert(pa.drop_last() + pieces(b, sep) =~= pa);
    } else {
        let b1 = b.drop_last();
        let c = b.last();
        lemma_pieces_after(a, b1, sep);
        let x = a + b;
        assert(x.drop_last() =~= a + b1);
        assert(x.last() == c);
        let q = pa.drop_last() + pieces(b1, sep);
        if c == sep {
            assert(q.push(Seq::<char>::empty()) =~= pa.drop_last() + pieces(b1, sep).push(
                Seq::<char>::empty(),
            ));
        } else {
            lemma_pieces_nonempty(b1, sep);
            let pb = pieces(b1, sep);
            assert(q.update(q.len() - 1, q.last().push(c)) =~= pa.drop_last() + pb.update(
                pb.len() - 1,
                pb.last().push(c),
            ));
        }
    }
}

/// The text between the line breaks of a shown row.
pub open spec fn line_body(cells: Seq<Seq<char>>) -> Seq<char> {
    seq!['['] + joined(cells) + seq![']']
}

proof fn lemma_joined_no_break(cells: Seq<Seq<char>>)
    requires
        forall|k: int| 0 <= k < cells.len() ==> no_space(#[trigger] cells[k]),
    ensures
        forall|i: int| 0 <= i < joined(cells).len() ==> #[trigger] joined(cells)[i] != '\n',
    decreases cells.len(),
{
    assert(is_space('\n'));
    if cells.len() >= 2 {
        let d = cells.drop_last();
        lemma_joined_no_break(d);
        let j = joined(cells);
        let jd = joined(d);
        assert forall|i: int| 0 <= i < j.len() implies #[trigger] j[i] != '\n' by {
            if i < jd.len() {
                assert(j[i] == jd[i]);
            } else if i > jd.len() {
                assert(j[i] == cells.last()[i - jd.len() - 1]);
            }
        }
    } else if cells.len() == 1 {
        assert forall|i: int| 0 <= i < cells[0].len() implies #[trigger] cells[0][i] != '\n' by {
            assert(!is_space(cells[0][i]));
        }
    }
}

proof fn lemma_pieces_of_lines(rs: Seq<Seq<Seq<char>>>)
    requires
        forall|r: int, k: int|
            0 <= r < rs.len() && 0 <= k < rs[r].len() ==> no_space(#[trigger] rs[r][k]),
    ensures
        pieces(lines(rs), '\n') == Seq::new(rs.len(), |r: int| line_body(rs[r])).push(
            Seq::<char>::empty(),
        ),
        rs.len() > 0 ==> lines(rs).len() > 0 && lines(rs).last() == '\n',
    decreases rs.len(),
{
    if rs.len() == 0 {
        assert(Seq::new(0, |r: int| line_body(rs[r])).push(Seq::<char>::empty()) =~= seq![
            Seq::<char>::empty(),
        ]);
    } else {
        let d = rs.drop_last();
        let last = rs.last();
        lemma_pieces_of_lines(d);
        assert forall|k: int| 0 <= k < last.len() implies no_space(#[trigger] last[k]) by {
            assert(no_space(rs[rs.len() - 1][k]));
        }
        lemma_joined_no_break(last);
        let body = line_body(last);
        assert forall|i: int| 0 <= i < body.len() implies #[trigger] body[i] != '\n' by {
            if 0 < i < body.len() - 1 {
                assert(body[i] == joined(last)[i - 1]);
            }
        }
        lemma_pieces_single(body, '\n');
        let line = row_line(last);
        assert(line =~= body.push('\n'));
        assert(line.drop_last() =~= body);
        assert(pieces(line, '\n') =~= seq![body, Seq::<char>::empty()]);
        let want = Seq::new(rs.len(), |r: int| line_body(rs[r])).push(Seq::<char>::empty());
        if d.len() == 0 {
            assert(lines(d) =~= Seq::<char>::empty());
            assert(lines(rs) =~= line);
            assert(want =~= seq![body, Seq::<char>::empty()]);
        } else {
            lemma_pieces_after(lines(d), line, '\n');
            let pd = Seq::new(d.len(), |r: int| line_body(d[r])).push(Seq::<char>::empty());
            assert(pd.drop_last() + seq![body, Seq::<char>::empty()] =~= want);
        }
        assert(lines(rs).last() == line.last());
    }
}

/// The text that `to_text` shows reads back with the matrix's shape: cut at line breaks
/// (a last line break ends the last row) and into words at white space, it has one row per
/// row of the matrix and one word per entry, the entry as shown, with `[` before the first
/// and `]` after the last word of each row; provided every entry shows as a non-empty text
/// without white space.
pub proof fn shown_text_reads_back<T, F: Fn(T) -> String>(
    cell: F,
    g: Seq<Seq<T>>,
    rows: int,
    cols: int,
)
    requires
        is_grid(g, rows, cols),
        rows >= 1,
        cols >= 1,
        forall|x: T| (#[trigger] shown(cell, x)).len() > 0 && no_space(shown(cell, x)),
    ensures
        layout_words(lines(shown_grid(cell, g)), '\n', true) == Seq::new(
            rows as nat,
            |r: int| bracketed(shown_grid(cell, g)[r]),
        ),
{
    let sg = shown_grid(cell, g);
    assert forall|r: int, k: int| 0 <= r < sg.len() && 0 <= k < sg[r].len() implies no_space(
        #[trigger] sg[r][k],
    ) by {
        assert(sg[r][k] == shown(cell, g[r][k]));
    }
    lemma_pieces_of_lines(sg);
    let bodies = Seq::new(sg.len(), |r: int| line_body(sg[r]));
    assert(text_rows(lines(sg), '\n', true) =~= bodies);
    assert forall|r: int| 0 <= r < rows implies #[trigger] words(bodies[r]) == bracketed(sg[r]) by {
        assert forall|k: int| 0 <= k < sg[r].len() implies (#[trigger] sg[r][k]).len() > 0
            && no_space(sg[r][k]) by {
            assert(sg[r][k] == shown(cell, g[r][k]));
        }
        lemma_words_of_line(sg[r]);
    }
    assert(row_words(bodies) =~= Seq::new(rows as nat, |r: int| bracketed(sg[r])));
}

proof fn lemma_pre_swapped_shape<T, Z: Fn(T) -> bool, P: Fn(T) -> bool>(
    g: Seq<Seq<T>>,
    is_zero: Z,
    is_positive: P,
    rows: int,
    cols: int,
)
    requires
        is_grid(g, rows, cols),
        rows >= 1,
    ensures
        is_grid(pre_swapped(g, is_zero, is_positive), rows, cols),
{
    let s = pre_swapped(g, is_zero, is_positive);
    assert forall|r: int| 0 <= r < rows implies (#[trigger] s[r]).len() == cols by {
        if holds(is_zero, g[0][0]) && exists|x: int| is_first_passing(g, is_positive, x) {
            let x = choose|x: int| is_first_passing(g, is_positive, x);
            assert(s == swapped(g, 0, x));
        }
    }
}

/// The scalar operations behave exactly as in a field, as far as elimination needs.
pub open spec fn field_like<T, D: Fn(T, T) -> T, S: Fn(T, T) -> T, M: Fn(T, T) -> T>(
    zero: T,
    one: T,
    div: D,
    sub: S,
    mul: M,
) -> bool {
    &&& one != zero
    &&& forall|p: T, x: T| p != zero ==> #[trigger] app2(mul, p, app2(div, x, p)) == x
    &&& forall|p: T| p != zero ==> #[trigger] app2(div, p, p) == one
    &&& forall|p: T| p != zero ==> #[trigger] app2(div, zero, p) == zero
    &&& forall|x: T| #[trigger] app2(sub, x, x) == zero
    &&& forall|x: T| #[trigger] app2(sub, x, zero) == x
    &&& forall|y: T| #[trigger] app2(mul, zero, y) == zero
}

/// The columns before `k` of `g` are those of the identity.
pub open spec fn identity_columns<T>(g: Seq<Seq<T>>, rows: int, k: int, zero: T, one: T) -> bool {
    forall|r: int, j: int| 0 <= r < rows && 0 <= j < k ==> #[trigger] g[r][j] == if r == j {
        one
    } else {
        zero
    }
}

proof fn lemma_lead_pass_clears<T, D: Fn(T, T) -> T, S: Fn(T, T) -> T, M: Fn(T, T) -> T>(
    div: D,
    sub: S,
    mul: M,
    zero: T,
    one: T,
    h: Seq<Seq<T>>,
    rows: int,
    cols: int,
    lead: int,
    m: int,
)
    requires
        field_like(zero, one, div, sub, mul),
        is_grid(h, rows, cols),
        0 <= lead < rows <= cols,
        0 <= m <= rows,
        identity_columns(h, rows, lead, zero, one),
        h[lead][lead] != zero,
    ensures
        ({
            let q = lead_pass(div, sub, mul, h, lead, m);
            &&& is_grid(q, rows, cols)
            &&& identity_columns(q, rows, lead, zero, one)
            &&& forall|r: int| 0 <= r < m ==> #[trigger] q[r][lead] == if r == lead {
                one
            } else {
                zero
            }
            &&& forall|r: int| m <= r < rows ==> #[trigger] q[r] == h[r]
        }),
    decreases m,
{
    if m > 0 {
        let r = m - 1;
        lemma_lead_pass_clears(div, sub, mul, zero, one, h, rows, cols, lead, r);
        let q = lead_pass(div, sub, mul, h, lead, r);
        let n = row_step(div, sub, mul, q, lead, r);
        let pivot = q[lead][lead];
        if r <= lead {
            assert(q[lead] == h[lead]);
        }
        assert(pivot != zero);
        if r == lead {
            assert forall|j: int| 0 <= j < lead implies #[trigger] n[lead][j] == zero by {
                assert(q[lead][j] == zero);
            }
            assert(n[lead][lead] == app2(div, pivot, pivot));
        } else {
            let mult = app2(div, q[r][lead], pivot);
            assert(q[r] == h[r]);
            assert forall|j: int| 0 <= j < lead implies #[trigger] n[r][j] == q[r][j] by {
                assert(q[lead][j] == zero);
            }
            assert(n[r][lead] == app2(sub, q[r][lead], app2(mul, pivot, mult)));
        }
        assert forall|x: int, j: int| 0 <= x < rows && 0 <= j < lead implies #[trigger] n[x][j]
            == if x == j {
            one
        } else {
            zero
        } by {
            if x != r {
                assert(n[x] == q[x]);
            }
        }
        assert forall|x: int| 0 <= x < m implies #[trigger] n[x][lead] == if x == lead {
            one
        } else {
            zero
        } by {
            if x != r {
                assert(n[x] == q[x]);
            }
        }
        assert forall|x: int| m <= x < rows implies #[trigger] n[x] == h[x] by {
            assert(n[x] == q[x]);
        }
    }
}

proof fn lemma_eliminated_identity<T, D: Fn(T, T) -> T, S: Fn(T, T) -> T, M: Fn(T, T) -> T>(
    div: D,
    sub: S,
    mul: M,
    zero: T,
    one: T,
    s: Seq<Seq<T>>,
    rows: int,
    cols: int,
    k: int,
)
    requires
        field_like(zero, one, div, sub, mul),
        is_grid(s, rows, cols),
        1 <= rows <= cols,
        0 <= k <= rows,
        forall|i: int| 0 <= i < rows ==> #[trigger] eliminated(div, sub, mul, s, i)[i][i] != zero,
    ensures
        is_grid(eliminated(div, sub, mul, s, k), rows, cols),
        identity_columns(eliminated(div, sub, mul, s, k), rows, k, zero, one),
    decreases k,
{
    if k > 0 {
        lemma_eliminated_identity(div, sub, mul, zero, one, s, rows, cols, k - 1);
        let h = eliminated(div, sub, mul, s, k - 1);
        lemma_lead_pass_clears(div, sub, mul, zero, one, h, rows, cols, k - 1, rows);
        let q = eliminated(div, sub, mul, s, k);
        assert(q == lead_pass(div, sub, mul, h, k - 1, rows));
        assert forall|r: int, j: int| 0 <= r < rows && 0 <= j < k implies #[trigger] q[r][j] == if r
            == j {
            one
        } else {
            zero
        } by {
            if j == k - 1 {
                assert(q[r][k - 1] == if r == k - 1 {
                    one
                } else {
                    zero
                });
            }
        }
    }
}

/// Row reduction leaves the identity in the leading columns, when the scalar operations
/// behave as in a field, `fix` keeps `zero` and `one`, and no pivot met during elimination
/// is zero.
pub proof fn rref_gives_leading_identity<
    T,
    D: Fn(T, T) -> T,
    S: Fn(T, T) -> T,
    M: Fn(T, T) -> T,
    Z: Fn(T) -> bool,
    P: Fn(T) -> bool,
    C: Fn(T) -> T,
>(
    div: D,
    sub: S,
    mul: M,
    is_zero: Z,
    is_positive: P,
    fix: C,
    zero: T,
    one: T,
    g: Seq<Seq<T>>,
    rows: int,
    cols: int,
)
    requires
        is_grid(g, rows, cols),
        1 <= rows <= cols,
        field_like(zero, one, div, sub, mul),
        app1(fix, zero) == zero,
        app1(fix, one) == one,
        forall|i: int|
            0 <= i < rows ==> #[trigger] eliminated(
                div,
                sub,
                mul,
                pre_swapped(g, is_zero, is_positive),
                i,
            )[i][i] != zero,
    ensures
        leading_identity(rref_of(div, sub, mul, is_zero, is_positive, fix, g), rows, zero, one),
{
    let s = pre_swapped(g, is_zero, is_positive);
    lemma_pre_swapped_shape(g, is_zero, is_positive, rows, cols);
    lemma_eliminated_identity(div, sub, mul, zero, one, s, rows, cols, rows);
    let e = eliminated(div, sub, mul, s, rows);
    let h = rref_of(div, sub, mul, is_zero, is_positive, fix, g);
    assert forall|i: int, j: int| 0 <= i < rows && 0 <= j < rows implies #[trigger] h[i][j] == if i
        == j {
        one
    } else {
        zero
    } by {
        assert(h[i][j] == app1(fix, e[i][j]));
    }
}

} // verus!
