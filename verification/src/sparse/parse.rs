//! Sparse matrices written as text: a line with the number of rows and of
//! columns, then one line for each cell with its row, its column and its
//! element.

use vstd::prelude::*;
use core::str::FromStr;
use vstd::string::StringSliceAdditionalSpecFns;
use crate::common::MatrixElement;
use crate::error::MatrixError;
use crate::matrix::parse::{number_at, read_element};
use crate::sparse::SparseMatrix;
use crate::text::{
    count_newlines, lemma_newlines_split, line_of, parse_int, read_int, token_spans, tokenize,
};

verus! {

/// The count that the token `t` of `s` spells, where it spells one without
/// a minus sign that a `usize` holds.
pub open spec fn count_at(s: Seq<u8>, t: int) -> Option<int> {
    let span = token_spans(s)[t];
    match parse_int(s, span.0, span.1) {
        Some(v) => if s[span.0] != 45 && v <= usize::MAX {
            Some(v)
        } else {
            None
        },
        None => None,
    }
}

/// Whether the token `t` of `s` is the first token of a line below the
/// first.
pub open spec fn starts_cell(s: Seq<u8>, t: int) -> bool {
    1 <= t < token_spans(s).len() && line_of(s, t) != line_of(s, t - 1)
}

/// Whether the line that the token `t` of `s` starts follows on the line
/// before without a line in between and spells a cell: a row, a column and
/// an element. What follows the element on the line does not count.
pub open spec fn spells_cell<T: MatrixElement>(s: Seq<u8>, t: int) -> bool {
    &&& line_of(s, t) == line_of(s, t - 1) + 1
    &&& t + 2 < token_spans(s).len()
    &&& line_of(s, t + 2) == line_of(s, t)
    &&& count_at(s, t) is Some
    &&& count_at(s, t + 1) is Some
    &&& number_at::<T>(s, t + 2) is Some
}

/// Whether `s` spells a sparse matrix: its first line starts with the
/// number of rows and the number of columns, and every line below spells a
/// cell.
pub open spec fn spells_sparse<T: MatrixElement>(s: Seq<u8>) -> bool {
    &&& token_spans(s).len() >= 2
    &&& line_of(s, 1) == 0
    &&& count_at(s, 0) is Some
    &&& count_at(s, 1) is Some
    &&& forall|t: int| #[trigger] starts_cell(s, t) ==> spells_cell::<T>(s, t)
}

/// The integer that the lines of `s` which start among its first `n`
/// tokens leave in the cell `(i, j)` of a matrix of `rows` x `cols`: that
/// of the last line that names the cell with an element other than zero,
/// and 0 where there is no such line or the matrix has no such cell.
pub open spec fn cell_value<T: MatrixElement>(
    s: Seq<u8>,
    n: int,
    rows: int,
    cols: int,
    i: int,
    j: int,
) -> int
    decreases n,
{
    if n <= 0 {
        0
    } else {
        let t = n - 1;
        if starts_cell(s, t) && count_at(s, t) == Some(i) && count_at(s, t + 1) == Some(j) && i
            < rows && j < cols && number_at::<T>(s, t + 2) is Some && number_at::<T>(s, t + 2)
            != Some(0int) {
            number_at::<T>(s, t + 2).unwrap()
        } else {
            cell_value::<T>(s, t, rows, cols, i, j)
        }
    }
}

/// Whether `r` is what reading `s` as a sparse matrix gives: the matrix of
/// the shape that the first line names with the cells that the lines below
/// leave, and `MatrixParseError` where `s` spells no sparse matrix.
pub open spec fn is_sparse_reading_of<T: MatrixElement>(
    r: Result<SparseMatrix<T>, MatrixError>,
    s: Seq<u8>,
) -> bool {
    &&& r is Ok <==> spells_sparse::<T>(s)
    &&& match r {
        Ok(m) => {
            &&& m.wf()
            &&& Some(m.rows() as int) == count_at(s, 0)
            &&& Some(m.cols() as int) == count_at(s, 1)
            &&& forall|i: int, j: int| #[trigger]
                m.entry(i, j) == cell_value::<T>(
                    s,
                    token_spans(s).len() as int,
                    m.rows() as int,
                    m.cols() as int,
                    i,
                    j,
                )
        },
        Err(e) => e == MatrixError::MatrixParseError,
    }
}

/// The count that the bytes of `text` from `lo` up to `hi` spell.
pub fn read_count(text: &[u8], lo: usize, hi: usize) -> (r: Option<usize>)
    requires
        lo < hi <= text@.len(),
    ensures
        r is Some <==> (match parse_int(text@, lo as int, hi as int) {
            Some(v) => text@[lo as int] != 45 && v <= usize::MAX,
            None => false,
        }),
        r is Some ==> Some(r.unwrap() as int) == parse_int(text@, lo as int, hi as int),
{
    if text[lo] == 45 {
        return None;
    }
    let read = read_int(text, lo, hi);
    proof {
        let body = if text@[lo as int] == 43 {
            lo + 1
        } else {
            lo as int
        };
        if parse_int(text@, lo as int, hi as int) is Some {
            crate::text::lemma_digits_nonnegative(text@, body, hi as int);
            assert(parse_int(text@, lo as int, hi as int).unwrap() >= 0);
        }
    }
    match read {
        Some(v) => {
            if v <= usize::MAX as i128 {
                Some(v as usize)
            } else {
                None
            }
        },
        None => None,
    }
}

impl<T: MatrixElement> SparseMatrix<T> {
    /// The sparse matrix that the text spells. Fails, with
    /// `MatrixParseError`, exactly when the text spells none.
    pub fn from_bytes(text: &[u8]) -> (r: Result<Self, MatrixError>)
        ensures
            is_sparse_reading_of(r, text@),
    {
        let spans = tokenize(text);
        let n = spans.len();
        if n < 2 {
            return Err(MatrixError::MatrixParseError);
        }
        let mut lines: Vec<usize> = Vec::new();
        lines.push(0);
        let mut t: usize = 1;
        while t < n
            invariant
                n == spans@.len(),
                spans@.len() == token_spans(text@).len(),
                forall|u: int|
                    0 <= u < spans@.len() ==> (#[trigger] spans@[u]).0 == token_spans(text@)[u].0
                        && spans@[u].1 == token_spans(text@)[u].1,
                forall|u: int|
                    0 <= u < spans@.len() ==> (#[trigger] spans@[u]).0 < spans@[u].1 <= text@.len(),
                forall|u: int| 0 < u < spans@.len() ==> spans@[u - 1].0 < (#[trigger] spans@[u]).0,
                1 <= t <= n,
                lines@.len() == t,
                forall|u: int| 0 <= u < t ==> #[trigger] lines@[u] == line_of(text@, u),
                forall|u: int| 0 < u < t ==> lines@[u - 1] <= #[trigger] lines@[u],
                lines@[t - 1] <= spans@[t - 1].0 - spans@[0].0,
            decreases n - t,
        {
            let before = spans[t - 1].0;
            let here = spans[t].0;
            proof {
                lemma_newlines_split(text@, spans@[0].0 as int, before as int, here as int);
            }
            let line = lines[t - 1] + count_newlines(text, before, here);
            lines.push(line);
            t += 1;
        }
        if lines[1] != 0 {
            return Err(MatrixError::MatrixParseError);
        }
        let rows = match read_count(text, spans[0].0, spans[0].1) {
            Some(v) => v,
            None => { return Err(MatrixError::MatrixParseError); },
        };
        let cols = match read_count(text, spans[1].0, spans[1].1) {
            Some(v) => v,
            None => { return Err(MatrixError::MatrixParseError); },
        };
        let mut m = Self::init(rows, cols);
        proof {
            reveal_with_fuel(cell_value, 2);
            assert forall|i: int, j: int| #[trigger]
                m.entry(i, j) == cell_value::<T>(text@, 1, rows as int, cols as int, i, j) by {
                assert(!starts_cell(text@, 0));
            }
        }
        let mut t: usize = 1;
        while t < n
            invariant
                n == spans@.len(),
                n >= 2,
                spans@.len() == token_spans(text@).len(),
                forall|u: int|
                    0 <= u < spans@.len() ==> (#[trigger] spans@[u]).0 == token_spans(text@)[u].0
                        && spans@[u].1 == token_spans(text@)[u].1,
                forall|u: int|
                    0 <= u < spans@.len() ==> (#[trigger] spans@[u]).0 < spans@[u].1 <= text@.len(),
                lines@.len() == n,
                forall|u: int| 0 <= u < n ==> #[trigger] lines@[u] == line_of(text@, u),
                forall|u: int| 0 < u < n ==> lines@[u - 1] <= #[trigger] lines@[u],
                1 <= t <= n,
                m.wf(),
                m.rows() == rows,
                m.cols() == cols,
                forall|u: int| 0 <= u < t && #[trigger] starts_cell(text@, u) ==> spells_cell::<T>(
                    text@,
                    u,
                ),
                forall|i: int, j: int| #[trigger]
                    m.entry(i, j) == cell_value::<T>(
                        text@,
                        t as int,
                        rows as int,
                        cols as int,
                        i,
                        j,
                    ),
            decreases n - t,
        {
            if lines[t] != lines[t - 1] {
                assert(starts_cell(text@, t as int));
                if lines[t] - lines[t - 1] != 1 || n - t < 3 || lines[t + 2] != lines[t] {
                    assert(!spells_cell::<T>(text@, t as int));
                    return Err(MatrixError::MatrixParseError);
                }
                let row = match read_count(text, spans[t].0, spans[t].1) {
                    Some(v) => v,
                    None => {
                        assert(!spells_cell::<T>(text@, t as int));
                        return Err(MatrixError::MatrixParseError);
                    },
                };
                let col = match read_count(text, spans[t + 1].0, spans[t + 1].1) {
                    Some(v) => v,
                    None => {
                        assert(!spells_cell::<T>(text@, t as int));
                        return Err(MatrixError::MatrixParseError);
                    },
                };
                let value = match read_element::<T>(text, spans[t + 2].0, spans[t + 2].1) {
                    Some(v) => v,
                    None => {
                        assert(!spells_cell::<T>(text@, t as int));
                        return Err(MatrixError::MatrixParseError);
                    },
                };
                assert(spells_cell::<T>(text@, t as int));
                let ghost before = m;
                let _ = m.set(value, (row, col));
                proof {
                    assert forall|i: int, j: int| #[trigger]
                        m.entry(i, j) == cell_value::<T>(
                            text@,
                            t + 1,
                            rows as int,
                            cols as int,
                            i,
                            j,
                        ) by {
                        assert(before.entry(i, j) == cell_value::<T>(
                            text@,
                            t as int,
                            rows as int,
                            cols as int,
                            i,
                            j,
                        ));
                    }
                }
            } else {
                assert(!starts_cell(text@, t as int));
            }
            t += 1;
        }
        proof {
            assert forall|u: int| #[trigger] starts_cell(text@, u) implies spells_cell::<T>(
                text@,
                u,
            ) by {}
        }
        Ok(m)
    }

    /// The sparse matrix that the text spells. Fails, with
    /// `MatrixParseError`, exactly when the text spells none.
    pub fn from_text(s: &str) -> (r: Result<Self, MatrixError>)
        ensures
            is_sparse_reading_of(r, s.spec_bytes()),
    {
        Self::from_bytes(s.as_bytes())
    }
}

impl<T: MatrixElement> FromStr for SparseMatrix<T> {
    type Err = MatrixError;

    /// The sparse matrix that the text spells; see `from_text`.
    fn from_str(s: &str) -> (r: Result<Self, MatrixError>)
        ensures
            is_sparse_reading_of(r, s.spec_bytes()),
    {
        Self::from_text(s)
    }
}

} // verus!
