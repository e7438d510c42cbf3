//! Dense matrices written as text: one line for each row, the elements of
//! a row separated by white space.

use vstd::prelude::*;
use core::str::FromStr;
use vstd::string::StringSliceAdditionalSpecFns;
use crate::common::MatrixElement;
use crate::error::MatrixError;
use crate::matrix::Matrix;
use crate::text::{
    count_newlines, first_line_tokens, lemma_newlines_split, line_of, parse_int, read_int, text_cols, text_rows, token_spans, tokenize,
};

verus! {

/// The integer that the token `t` of `s` spells, where it spells one that
/// the element type holds.
pub open spec fn number_at<T: MatrixElement>(s: Seq<u8>, t: int) -> Option<int> {
    let span = token_spans(s)[t];
    match parse_int(s, span.0, span.1) {
        Some(v) => if -T::modulus() <= 2 * v < T::modulus() {
            Some(v)
        } else {
            None
        },
        None => None,
    }
}

/// Whether `s` spells a matrix: it has a token, every token spells an
/// element, and there are as many tokens as a matrix has cells that has as
/// many rows as the text has lines, from the first token to the last, and
/// as many columns as the first of these lines has tokens.
pub open spec fn spells_matrix<T: MatrixElement>(s: Seq<u8>) -> bool {
    &&& token_spans(s).len() > 0
    &&& forall|t: int| 0 <= t < token_spans(s).len() ==> (#[trigger] number_at::<T>(s, t)) is Some
    &&& token_spans(s).len() == text_rows(s) * text_cols(s)
}

/// Whether `r` is what reading `s` as a dense matrix gives: the matrix
/// that `s` spells, its elements in the order of the tokens, and
/// `MatrixParseError` where `s` spells none.
pub open spec fn is_reading_of<T: MatrixElement>(r: Result<Matrix<T>, MatrixError>, s: Seq<u8>) -> bool {
    &&& r is Ok <==> spells_matrix::<T>(s)
    &&& match r {
        Ok(m) => {
            &&& m.rows() == text_rows(s)
            &&& m.cols() == text_cols(s)
            &&& m@.len() == token_spans(s).len()
            &&& forall|k: int|
                0 <= k < m@.len() ==> Some((#[trigger] m@[k]).value()) == number_at::<T>(s, k)
        },
        Err(e) => e == MatrixError::MatrixParseError,
    }
}

/// The element that the bytes of `text` from `lo` up to `hi` spell.
pub fn read_element<T: MatrixElement>(text: &[u8], lo: usize, hi: usize) -> (r: Option<T>)
    requires
        lo < hi <= text@.len(),
    ensures
        r is Some <==> (match parse_int(text@, lo as int, hi as int) {
            Some(v) => -T::modulus() <= 2 * v < T::modulus(),
            None => false,
        }),
        r is Some ==> Some(r.unwrap().value()) == parse_int(text@, lo as int, hi as int),
{
    proof {
        T::lemma_fits_i128();
    }
    match read_int(text, lo, hi) {
        Some(v) => T::from_i128(v),
        None => None,
    }
}

impl<T: MatrixElement> Matrix<T> {
    /// The matrix that the text spells. Fails, with `MatrixParseError`,
    /// exactly when the text spells none.
    pub fn from_bytes(text: &[u8]) -> (r: Result<Self, MatrixError>)
        ensures
            is_reading_of(r, text@),
    {
        let spans = tokenize(text);
        if spans.len() == 0 {
            return Err(MatrixError::MatrixParseError);
        }
        let mut data: Vec<T> = Vec::new();
        let mut line: usize = 0;
        let mut cols: usize = 0;
        let mut t: usize = 0;
        while t < spans.len()
            invariant
                spans@.len() == token_spans(text@).len(),
                forall|u: int|
                    0 <= u < spans@.len() ==> (#[trigger] spans@[u]).0 == token_spans(text@)[u].0
                        && spans@[u].1 == token_spans(text@)[u].1,
                forall|u: int|
                    0 <= u < spans@.len() ==> (#[trigger] spans@[u]).0 < spans@[u].1 <= text@.len(),
                forall|u: int| 0 < u < spans@.len() ==> spans@[u - 1].0 < (#[trigger] spans@[u]).0,
                t <= spans@.len(),
                data@.len() == t,
                forall|u: int|
                    0 <= u < t ==> Some((#[trigger] data@[u]).value()) == number_at::<T>(text@, u),
                t > 0 ==> line == line_of(text@, t - 1),
                t > 0 ==> line <= spans@[t - 1].0 - spans@[0].0,
                t == 0 ==> line == 0,
                cols == first_line_tokens(text@, t as int),
                cols <= t,
            decreases spans@.len() - t,
        {
            let (lo, hi) = spans[t];
            if t > 0 {
                let before = spans[t - 1].0;
                proof {
                    lemma_newlines_split(text@, spans@[0].0 as int, before as int, lo as int);
                }
                line = line + count_newlines(text, before, lo);
            }
            if line == 0 {
                cols += 1;
            }
            match read_element::<T>(text, lo, hi) {
                Some(x) => {
                    data.push(x);
                },
                None => {
                    proof {
                        assert(number_at::<T>(text@, t as int) is None);
                    }
                    return Err(MatrixError::MatrixParseError);
                },
            }
            t += 1;
        }
        let rows = line + 1;
        proof {
            assert forall|u: int| 0 <= u < token_spans(text@).len() implies (#[trigger] number_at::<
                T,
            >(text@, u)) is Some by {
                assert(Some(data@[u].value()) == number_at::<T>(text@, u));
            }
            assert(rows == text_rows(text@));
            assert(cols == text_cols(text@));
        }
        match Self::new(data, (rows, cols)) {
            Ok(m) => Ok(m),
            Err(_) => Err(MatrixError::MatrixParseError),
        }
    }

    /// The matrix that the text spells. Fails, with `MatrixParseError`,
    /// exactly when the text spells none.
    pub fn from_text(s: &str) -> (r: Result<Self, MatrixError>)
        ensures
            is_reading_of(r, s.spec_bytes()),
    {
        Self::from_bytes(s.as_bytes())
    }
}

impl<T: MatrixElement> FromStr for Matrix<T> {
    type Err = MatrixError;

    /// The matrix that the text spells; see `from_text`.
    fn from_str(s: &str) -> (r: Result<Self, MatrixError>)
        ensures
            is_reading_of(r, s.spec_bytes()),
    {
        Self::from_text(s)
    }
}

} // verus!
