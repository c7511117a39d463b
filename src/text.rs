use vstd::prelude::*;
use vstd::string::StrSliceExecFns;

use crate::error::MatrixError;
use crate::matrix::{Matrix, flat, lemma_flat_in_bounds, lemma_flat_before, lemma_flat_next_row};

verus! {

/// White space as Unicode defines it (the property `White_Space`).
pub open spec fn is_space(c: char) -> bool {
    let v = c as u32;
    ||| 0x9 <= v <= 0xd
    ||| v == 0x20
    ||| v == 0x85
    ||| v == 0xa0
    ||| v == 0x1680
    ||| 0x2000 <= v <= 0x200a
    ||| v == 0x2028
    ||| v == 0x2029
    ||| v == 0x202f
    ||| v == 0x205f
    ||| v == 0x3000
}

/// The pieces of `s` between occurrences of `sep`; `n` separators give `n + 1` pieces.
pub open spec fn pieces(s: Seq<char>, sep: char) -> Seq<Seq<char>>
    decreases s.len(),
{
    if s.len() == 0 {
        seq![Seq::<char>::empty()]
    } else {
        let p = pieces(s.drop_last(), sep);
        if s.last() == sep {
            p.push(Seq::<char>::empty())
        } else {
            p.update(p.len() - 1, p.last().push(s.last()))
        }
    }
}

/// The maximal runs of characters of `s` that are not white space, in order.
pub open spec fn words(s: Seq<char>) -> Seq<Seq<char>>
    decreases s.len(),
{
    if s.len() == 0 {
        Seq::<Seq<char>>::empty()
    } else {
        let w = words(s.drop_last());
        if is_space(s.last()) {
            w
        } else if s.len() >= 2 && !is_space(s[s.len() - 2]) {
            w.update(w.len() - 1, w.last().push(s.last()))
        } else {
            w.push(seq![s.last()])
        }
    }
}

/// The rows of a text: its pieces between occurrences of `sep`, without a last empty
/// piece when `drop_trailing_empty` holds.
pub open spec fn text_rows(s: Seq<char>, sep: char, drop_trailing_empty: bool) -> Seq<Seq<char>> {
    let p = pieces(s, sep);
    if drop_trailing_empty && p.last().len() == 0 {
        p.drop_last()
    } else {
        p
    }
}

/// The words of each row.
pub open spec fn row_words(rows: Seq<Seq<char>>) -> Seq<Seq<Seq<char>>> {
    rows.map_values(|r: Seq<char>| words(r))
}

/// The words of each row of a text.
pub open spec fn layout_words(s: Seq<char>, sep: char, drop_trailing_empty: bool) -> Seq<
    Seq<Seq<char>>,
> {
    row_words(text_rows(s, sep, drop_trailing_empty))
}

/// Row `r` is the first whose number of words differs from that of row 0.
pub open spec fn first_ragged(rw: Seq<Seq<Seq<char>>>, r: int) -> bool {
    &&& 0 < r < rw.len()
    &&& rw[r].len() != rw[0].len()
    &&& forall|k: int| 0 < k < r ==> (#[trigger] rw[k]).len() == rw[0].len()
}

/// The parts of `s` that `spans` mark, as half-open ranges of positions.
pub open spec fn span_texts(s: Seq<char>, spans: Seq<(usize, usize)>) -> Seq<Seq<char>> {
    Seq::new(spans.len(), |k: int| s.subrange(spans[k].0 as int, spans[k].1 as int))
}

/// Every span lies in `lo .. hi` and is not reversed.
pub open spec fn spans_within(spans: Seq<(usize, usize)>, lo: int, hi: int) -> bool {
    forall|k: int| 0 <= k < spans.len() ==> lo <= (#[trigger] spans[k]).0 <= spans[k].1 <= hi
}

pub(crate) proof fn lemma_pieces_nonempty(s: Seq<char>, sep: char)
    ensures
        pieces(s, sep).len() >= 1,
    decreases s.len(),
{
    if s.len() > 0 {
        lemma_pieces_nonempty(s.drop_last(), sep);
    }
}

fn is_space_char(c: char) -> (r: bool)
    ensures
        r == is_space(c),
{
    let v = c as u32;
    (0x9 <= v && v <= 0xd) || v == 0x20 || v == 0x85 || v == 0xa0 || v == 0x1680 || (0x2000 <= v
        && v <= 0x200a) || v == 0x2028 || v == 0x2029 || v == 0x202f || v == 0x205f || v == 0x3000
}

/// The spans of the words of `s[lo .. hi]`.
fn word_spans(s: &Vec<char>, lo: usize, hi: usize) -> (spans: Vec<(usize, usize)>)
    requires
        lo <= hi <= s@.len(),
    ensures
        span_texts(s@, spans@) == words(s@.subrange(lo as int, hi as int)),
        spans_within(spans@, lo as int, hi as int),
{
    let mut spans: Vec<(usize, usize)> = Vec::new();
    let mut start: usize = lo;
    let mut in_word = false;
    let mut i: usize = lo;
    assert(s@.subrange(lo as int, lo as int) =~= Seq::<char>::empty());
    while i < hi
        invariant
            lo <= i <= hi <= s@.len(),
            lo <= start <= i,
            spans_within(spans@, lo as int, start as int),
            in_word <==> (i > lo && !is_space(s@[i - 1])),
            in_word ==> start < i && words(s@.subrange(lo as int, i as int)) == span_texts(
                s@,
                spans@,
            ).push(s@.subrange(start as int, i as int)),
            !in_word ==> words(s@.subrange(lo as int, i as int)) == span_texts(s@, spans@),
        decreases hi - i,
    {
        let c = s[i];
        let ghost prev = s@.subrange(lo as int, i as int);
        let ghost cur = s@.subrange(lo as int, i + 1);
        assert(cur.drop_last() =~= prev);
        assert(cur.last() == c);
        if is_space_char(c) {
            if in_word {
                spans.push((start, i));
                assert(span_texts(s@, spans@) =~= words(prev));
            }
            in_word = false;
            start = i + 1;
        } else {
            if in_word {
                assert(cur[cur.len() - 2] == s@[i - 1]);
                assert(s@.subrange(start as int, i + 1) =~= s@.subrange(start as int, i as int).push(c));
                assert(words(cur) =~= span_texts(s@, spans@).push(s@.subrange(start as int, i + 1)));
            } else {
                proof {
                    if cur.len() >= 2 {
                        assert(cur[cur.len() - 2] == s@[i - 1]);
                    }
                }
                start = i;
                assert(s@.subrange(start as int, i + 1) =~= seq![c]);
                assert(words(cur) =~= span_texts(s@, spans@).push(s@.subrange(start as int, i + 1)));
            }
            in_word = true;
        }
        i += 1;
    }
    if in_word {
        spans.push((start, hi));
        assert(span_texts(s@, spans@) =~= words(s@.subrange(lo as int, hi as int)));
    }
    spans
}

/// The spans of `pieces(s, sep)`.
fn piece_spans(s: &Vec<char>, sep: char) -> (spans: Vec<(usize, usize)>)
    ensures
        span_texts(s@, spans@) == pieces(s@, sep),
        spans_within(spans@, 0, s@.len() as int),
{
    let mut spans: Vec<(usize, usize)> = Vec::new();
    let mut start: usize = 0;
    let mut i: usize = 0;
    assert(s@.subrange(0, 0) =~= Seq::<char>::empty());
    assert(span_texts(s@, spans@).push(s@.subrange(0, 0)) =~= pieces(s@.subrange(0, 0), sep));
    while i < s.len()
        invariant
            0 <= start <= i <= s@.len(),
            spans_within(spans@, 0, start as int),
            pieces(s@.subrange(0, i as int), sep) == span_texts(s@, spans@).push(
                s@.subrange(start as int, i as int),
            ),
        decreases s@.len() - i,
    {
        let c = s[i];
        let ghost prev = s@.subrange(0, i as int);
        let ghost cur = s@.subrange(0, i + 1);
        assert(cur.drop_last() =~= prev);
        assert(cur.last() == c);
        if c == sep {
            spans.push((start, i));
            start = i + 1;
            assert(s@.subrange(start as int, i + 1) =~= Seq::<char>::empty());
            assert(pieces(cur, sep) =~= span_texts(s@, spans@).push(s@.subrange(start as int, i + 1)));
        } else {
            assert(s@.subrange(start as int, i + 1) =~= s@.subrange(start as int, i as int).push(c));
            assert(pieces(cur, sep) =~= span_texts(s@, spans@).push(s@.subrange(start as int, i + 1)));
        }
        i += 1;
    }
    spans.push((start, s.len()));
    assert(s@.subrange(0, s@.len() as int) =~= s@);
    assert(span_texts(s@, spans@) =~= pieces(s@, sep));
    spans
}

/// The characters of `input`, in order.
fn chars_of(input: &str) -> (chars: Vec<char>)
    ensures
        chars@ == input@,
{
    let n = input.unicode_len();
    let mut chars: Vec<char> = Vec::new();
    let mut i: usize = 0;
    while i < n
        invariant
            n == input@.len(),
            0 <= i <= n,
            chars@ == input@.take(i as int),
        decreases n - i,
    {
        chars.push(input.get_char(i));
        i += 1;
        assert(chars@ =~= input@.take(i as int));
    }
    assert(chars@ =~= input@);
    chars
}

/// A text cut into rows of word tokens, all rows with the same number of tokens.
pub struct Layout {
    pub rows: usize,
    pub cols: usize,
    /// The tokens in row-major order.
    pub tokens: Vec<String>,
}

impl Layout {
    /// At least one row and one column, and a token for each position.
    pub open spec fn wf(&self) -> bool {
        &&& self.rows >= 1
        &&& self.cols >= 1
        &&& self.tokens@.len() == self.rows * self.cols
    }

    /// The rows and columns are those of `rw`, and the tokens are its words in row-major order.
    pub open spec fn tokens_are(&self, rw: Seq<Seq<Seq<char>>>) -> bool {
        &&& self.rows == rw.len()
        &&& self.cols == rw[0].len()
        &&& forall|r: int, c: int|
            0 <= r < self.rows && 0 <= c < self.cols ==> #[trigger] self.tokens@[flat(
                self.cols as int,
                r,
                c,
            )]@ == rw[r][c]
    }
}

/// Cuts `input` into rows at `sep` (dropping a last empty row when `drop_trailing_empty`
/// holds) and each row into words. Fails with `RaggedInput` at the first row whose word
/// count differs from row 0's, else with `InvalidDimensions` when there are no rows or
/// no words in a row.
pub fn layout(input: &str, sep: char, drop_trailing_empty: bool) -> (res: Result<Layout, MatrixError>)
    ensures
        res matches Err(MatrixError::RaggedInput { row }) ==> first_ragged(
            layout_words(input@, sep, drop_trailing_empty),
            row as int,
        ),
        (exists|r: int| first_ragged(layout_words(input@, sep, drop_trailing_empty), r))
            ==> res matches Err(MatrixError::RaggedInput { .. }),
        res == Err::<Layout, MatrixError>(MatrixError::InvalidDimensions) <==> (!(exists|r: int|
            first_ragged(layout_words(input@, sep, drop_trailing_empty), r)) && (layout_words(
            input@,
            sep,
            drop_trailing_empty,
        ).len() == 0 || layout_words(input@, sep, drop_trailing_empty)[0].len() == 0)),
        res is Err ==> res matches Err(MatrixError::RaggedInput { .. }) || res == Err::<
            Layout,
            MatrixError,
        >(MatrixError::InvalidDimensions),
        res matches Ok(l) ==> l.wf() && l.tokens_are(layout_words(input@, sep, drop_trailing_empty)),
{
    let chars = chars_of(input);
    let mut spans = piece_spans(&chars, sep);
    let ghost all = spans@;
    proof {
        lemma_pieces_nonempty(chars@, sep);
    }
    if drop_trailing_empty && spans[spans.len() - 1].0 == spans[spans.len() - 1].1 {
        spans.pop();
        proof {
            assert(span_texts(chars@, spans@) =~= pieces(chars@, sep).drop_last());
        }
    } else {
        proof {
            if drop_trailing_empty {
                assert(pieces(chars@, sep).last() == span_texts(chars@, all)[all.len() - 1]);
            }
        }
    }
    let ghost rows_text = text_rows(input@, sep, drop_trailing_empty);
    let ghost rw = layout_words(input@, sep, drop_trailing_empty);
    assert(span_texts(chars@, spans@) == rows_text);
    let rows = spans.len();
    let mut cols: usize = 0;
    let mut tokens: Vec<String> = Vec::new();
    let mut r: usize = 0;
    while r < rows
        invariant
            rows == spans@.len(),
            rows == rw.len(),
            rw == row_words(span_texts(chars@, spans@)),
            rw == layout_words(input@, sep, drop_trailing_empty),
            chars@ == input@,
            spans_within(spans@, 0, chars@.len() as int),
            0 <= r <= rows,
            r > 0 ==> cols == rw[0].len(),
            forall|k: int| 0 < k < r ==> (#[trigger] rw[k]).len() == rw[0].len(),
            tokens@.len() == r * cols,
            forall|a: int, c: int|
                0 <= a < r && 0 <= c < cols ==> #[trigger] tokens@[flat(cols as int, a, c)]@
                    == rw[a][c],
        decreases rows - r,
    {
        let (lo, hi) = spans[r];
        let ws = word_spans(&chars, lo, hi);
        assert(span_texts(chars@, ws@) == rw[r as int]);
        if r == 0 {
            cols = ws.len();
        } else if ws.len() != cols {
            proof {
                assert(rw[r as int].len() == ws@.len());
                assert(first_ragged(rw, r as int));
            }
            return Err(MatrixError::RaggedInput { row: r });
        }
        let mut c: usize = 0;
        while c < ws.len()
            invariant
                ws@.len() == cols,
                span_texts(chars@, ws@) == rw[r as int],
                spans_within(ws@, lo as int, hi as int),
                hi <= chars@.len(),
                chars@ == input@,
                0 <= c <= cols,
                r < rows,
                tokens@.len() == flat(cols as int, r as int, c as int),
                forall|a: int, b: int|
                    0 <= a < r && 0 <= b < cols ==> #[trigger] tokens@[flat(cols as int, a, b)]@
                        == rw[a][b],
                forall|b: int|
                    0 <= b < c ==> #[trigger] tokens@[flat(cols as int, r as int, b)]@ == rw[r as int][b],
            decreases cols - c,
        {
            let (a, b) = ws[c];
            let word = input.substring_char(a, b).to_owned();
            let ghost before = tokens@;
            tokens.push(word);
            proof {
                assert(word@ == span_texts(chars@, ws@)[c as int]);
                assert forall|x: int, y: int| 0 <= x < r && 0 <= y < cols implies #[trigger] tokens@[flat(
                    cols as int,
                    x,
                    y,
                )]@ == rw[x][y] by {
                    lemma_flat_before(cols as int, x, y, r as int, c as int);
                    assert(tokens@[flat(cols as int, x, y)] == before[flat(cols as int, x, y)]);
                }
                assert forall|y: int| 0 <= y < c + 1 implies #[trigger] tokens@[flat(
                    cols as int,
                    r as int,
                    y,
                )]@ == rw[r as int][y] by {
                    if y < c {
                        assert(tokens@[flat(cols as int, r as int, y)] == before[flat(
                            cols as int,
                            r as int,
                            y,
                        )]);
                    }
                }
            }
            c += 1;
        }
        proof {
            lemma_flat_next_row(cols as int, r as int);
        }
        r += 1;
    }
    if rows == 0 || cols == 0 {
        proof {
            assert forall|x: int| !first_ragged(rw, x) by {
                if 0 < x < rw.len() {
                    assert(rw[x].len() == rw[0].len());
                }
            }
        }
        return Err(MatrixError::InvalidDimensions);
    }
    proof {
        assert forall|x: int| !first_ragged(rw, x) by {
            if 0 < x < rw.len() {
                assert(rw[x].len() == rw[0].len());
            }
        }
    }
    Ok(Layout { rows, cols, tokens })
}

/// `f` can be called on any text and gives the same result for texts with the same characters.
pub open spec fn pure_parse<T, F: Fn(&str) -> Option<T>>(f: F) -> bool {
    &&& forall|t: &str| #[trigger] f.requires((t,))
    &&& forall|t1: &str, t2: &str, a: Option<T>, b: Option<T>|
        t1@ == t2@ && #[trigger] f.ensures((t1,), a) && #[trigger] f.ensures((t2,), b) ==> a == b
}

/// `f` may give `r` for a text with the characters `s`.
pub open spec fn parses_as<T, F: Fn(&str) -> Option<T>>(f: F, s: Seq<char>, r: Option<T>) -> bool {
    exists|t: &str| t@ == s && #[trigger] f.ensures((t,), r)
}

/// What `f` gives for a text with the characters `s`.
pub open spec fn parsed<T, F: Fn(&str) -> Option<T>>(f: F, s: Seq<char>) -> Option<T> {
    choose|r: Option<T>| #[trigger] parses_as(f, s, r)
}

/// Every word of `rw` parses, and entry `(r, c)` of `g` is what word `c` of row `r` parses to.
pub open spec fn parses_into<T, F: Fn(&str) -> Option<T>>(
    f: F,
    rw: Seq<Seq<Seq<char>>>,
    g: Seq<Seq<T>>,
) -> bool {
    forall|r: int, c: int|
        0 <= r < g.len() && 0 <= c < g[r].len() ==> parsed(f, #[trigger] rw[r][c]) == Some(
            g[r][c],
        )
}

/// Some word of `rw` does not parse; `index` is the row-major position of the first.
pub open spec fn first_unparsed<T, F: Fn(&str) -> Option<T>>(
    f: F,
    rw: Seq<Seq<Seq<char>>>,
    cols: int,
    index: int,
) -> bool {
    exists|r: int, c: int|
        0 <= r < rw.len() && 0 <= c < cols && index == flat(cols, r, c) && parsed(f, rw[r][c])
            is None && forall|a: int, b: int|
            0 <= a < rw.len() && 0 <= b < cols && flat(cols, a, b) < index ==> parsed(
                f,
                #[trigger] rw[a][b],
            ) is Some
}

/// What reading rows of words `rw` with `parse` must give: `RaggedInput` at the first
/// ragged row; else `InvalidDimensions` without rows or words; else `ParseError` at the
/// first word that does not parse; else the matrix of the parsed words.
pub open spec fn read_result<T, F: Fn(&str) -> Option<T>>(
    parse: F,
    rw: Seq<Seq<Seq<char>>>,
    res: Result<Matrix<T>, MatrixError>,
) -> bool {
    &&& (res matches Err(MatrixError::RaggedInput { row }) ==> first_ragged(rw, row as int))
    &&& ((exists|r: int| first_ragged(rw, r)) ==> res matches Err(MatrixError::RaggedInput { .. }))
    &&& (res == Err::<Matrix<T>, MatrixError>(MatrixError::InvalidDimensions) <==> (!(exists|r: int|
        first_ragged(rw, r)) && (rw.len() == 0 || rw[0].len() == 0)))
    &&& (res matches Err(MatrixError::ParseError { index }) ==> first_unparsed(
        parse,
        rw,
        rw[0].len() as int,
        index as int,
    ))
    &&& (res is Err ==> {
        ||| res matches Err(MatrixError::RaggedInput { .. })
        ||| res matches Err(MatrixError::ParseError { .. })
        ||| res == Err::<Matrix<T>, MatrixError>(MatrixError::InvalidDimensions)
    })
    &&& (res matches Ok(m) ==> m.wf() && m.rows == rw.len() && m.cols == rw[0].len()
        && parses_into(parse, rw, m@))
}

proof fn lemma_parsed<T, F: Fn(&str) -> Option<T>>(f: F, t: &str, r: Option<T>)
    requires
        pure_parse(f),
        f.ensures((t,), r),
    ensures
        parsed(f, t@) == r,
{
    assert(parses_as(f, t@, r));
    let c = parsed(f, t@);
    assert(parses_as(f, t@, c));
    let u = choose|u: &str| u@ == t@ && f.ensures((u,), c);
    assert(f.ensures((u,), c) && f.ensures((t,), r));
}

impl<T: Copy> Matrix<T> {
    /// The matrix whose entries are the layout's tokens run through `parse`; fails with
    /// `ParseError` at the first token that does not parse.
    pub fn from_layout<F: Fn(&str) -> Option<T>>(l: &Layout, parse: F) -> (res: Result<
        Matrix<T>,
        MatrixError,
    >)
        requires
            l.wf(),
            pure_parse(parse),
        ensures
            forall|rw: Seq<Seq<Seq<char>>>|
                #[trigger] l.tokens_are(rw) ==> {
                    &&& (res matches Ok(m) ==> m.wf() && m.rows == l.rows && m.cols == l.cols
                        && parses_into(parse, rw, m@))
                    &&& (res matches Err(e) ==> e matches MatrixError::ParseError { index }
                        && first_unparsed(parse, rw, l.cols as int, index as int))
                },
    {
        let n = l.tokens.len();
        let mut data: Vec<T> = Vec::new();
        let mut k: usize = 0;
        while k < n
            invariant
                l.wf(),
                n == l.tokens@.len(),
                pure_parse(parse),
                0 <= k <= n,
                data@.len() == k,
                forall|i: int| 0 <= i < k ==> parsed(parse, (#[trigger] l.tokens@[i])@) == Some(data@[i]),
            decreases n - k,
        {
            let t = l.tokens[k].as_str();
            let v = parse(t);
            proof {
                lemma_parsed(parse, t, v);
            }
            match v {
                Some(x) => data.push(x),
                None => {
                    proof {
                        assert forall|rw: Seq<Seq<Seq<char>>>| #[trigger] l.tokens_are(rw) implies
                            first_unparsed(parse, rw, l.cols as int, k as int) by {
                            let cols = l.cols as int;
                            let r = k as int / cols;
                            let c = k as int % cols;
                            assert(k as int == flat(cols, r, c)) by (nonlinear_arith)
                                requires r == k as int / cols, c == k as int % cols, cols >= 1;
                            assert(0 <= r < l.rows) by (nonlinear_arith)
                                requires r == k as int / cols, cols >= 1, 0 <= k < l.rows * cols;
                            assert forall|a: int, b: int|
                                0 <= a < rw.len() && 0 <= b < cols && flat(cols, a, b) < k as int implies parsed(
                                parse,
                                #[trigger] rw[a][b],
                            ) is Some by {
                                lemma_flat_in_bounds(l.rows as int, cols, a, b);
                                assert(l.tokens@[flat(cols, a, b)]@ == rw[a][b]);
                            }
                        }
                    }
                    return Err(MatrixError::ParseError { index: k });
                },
            }
            k += 1;
        }
        let m = Matrix { rows: l.rows, cols: l.cols, data };
        proof {
            assert forall|rw: Seq<Seq<Seq<char>>>| #[trigger] l.tokens_are(rw) implies parses_into(
                parse,
                rw,
                m@,
            ) by {
                assert forall|r: int, c: int| 0 <= r < m@.len() && 0 <= c < m@[r].len() implies parsed(
                    parse,
                    #[trigger] rw[r][c],
                ) == Some(m@[r][c]) by {
                    lemma_flat_in_bounds(l.rows as int, l.cols as int, r, c);
                    assert(l.tokens@[flat(l.cols as int, r, c)]@ == rw[r][c]);
                }
            }
        }
        Ok(m)
    }
    fn read<F: Fn(&str) -> Option<T>>(
        input: &str,
        sep: char,
        drop_trailing_empty: bool,
        parse: F,
    ) -> (res: Result<Matrix<T>, MatrixError>)
        requires
            pure_parse(parse),
        ensures
            read_result(parse, layout_words(input@, sep, drop_trailing_empty), res),
    {
        let ghost rw = layout_words(input@, sep, drop_trailing_empty);
        match layout(input, sep, drop_trailing_empty) {
            Ok(l) => {
                assert(l.tokens_are(rw));
                let res = Matrix::from_layout(&l, parse);
                assert(!(exists|r: int| first_ragged(rw, r)));
                res
            },
            Err(e) => Err(e),
        }
    }

    /// Reads a matrix from text whose rows are separated by `;` and whose entries are
    /// separated by white space, each entry read by `parse`.
    pub fn from_string<F: Fn(&str) -> Option<T>>(input: &str, parse: F) -> (res: Result<
        Matrix<T>,
        MatrixError,
    >)
        requires
            pure_parse(parse),
        ensures
            read_result(parse, layout_words(input@, ';', false), res),
    {
        Matrix::read(input, ';', false, parse)
    }

    /// Reads a matrix from text with one row per line (a last line break ends the last
    /// row) and entries separated by white space, each entry read by `parse`.
    pub fn from_lines<F: Fn(&str) -> Option<T>>(content: &str, parse: F) -> (res: Result<
        Matrix<T>,
        MatrixError,
    >)
        requires
            pure_parse(parse),
        ensures
            read_result(parse, layout_words(content@, '\n', true), res),
    {
        Matrix::read(content, '\n', true, parse)
    }
}

} // verus!
