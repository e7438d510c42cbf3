//! Dense matrices as text.

use vstd::prelude::*;
use vstd::string::StringExecFns;
use crate::common::MatrixElement;
use crate::matrix::Matrix;
use crate::text::{decimal, decimal_text};

verus! {

impl<T: MatrixElement> Matrix<T> {
    /// Whether the matrix counts as large: more than 10 rows, or more than
    /// 10 columns.
    pub open spec fn is_large(&self) -> bool {
        self.rows() > 10 || self.cols() > 10
    }

    /// The text of the first `n` elements of row `i`: in the first row
    /// every element is followed by a blank, in every other row every
    /// element follows on a blank.
    pub open spec fn row_text(&self, i: int, n: int) -> Seq<char>
        decreases n,
    {
        if n <= 0 {
            Seq::empty()
        } else if i == 0 {
            self.row_text(i, n - 1) + decimal_text(self.entry(i, n - 1)) + seq![' ']
        } else {
            self.row_text(i, n - 1) + seq![' '] + decimal_text(self.entry(i, n - 1))
        }
    }

    /// The text of the first `r` rows: every row but the last row of the
    /// matrix ends its line.
    pub open spec fn rows_text(&self, r: int) -> Seq<char>
        decreases r,
    {
        if r <= 0 {
            Seq::empty()
        } else {
            self.rows_text(r - 1) + self.row_text(r - 1, self.cols() as int) + (if r
                == self.rows() {
                Seq::empty()
            } else {
                seq!['\n']
            })
        }
    }

    /// The text of the matrix: an opening bracket, three dots for a large
    /// matrix, the rows, a closing bracket and the name of the element
    /// type.
    pub open spec fn rendering(&self) -> Seq<char> {
        "["@ + (if self.is_large() {
            "..."@
        } else {
            Seq::empty()
        }) + self.rows_text(self.rows() as int) + "], dtype="@ + T::name_text() + seq!['\n']
    }

    /// The matrix as text.
    pub fn render(&self) -> (text: String)
        ensures
            text@ == self.rendering(),
    {
        let mut text = String::from_str("[");
        if self.nrows > 10 || self.ncols > 10 {
            text.append("...");
        }
        let ghost head = text@;
        let mut i: usize = 0;
        while i < self.nrows
            invariant
                i <= self.rows(),
                text@ == head + self.rows_text(i as int),
            decreases self.rows() - i,
        {
            let ghost line = text@;
            let mut j: usize = 0;
            while j < self.ncols
                invariant
                    i < self.rows(),
                    j <= self.cols(),
                    text@ == line + self.row_text(i as int, j as int),
                decreases self.cols() - j,
            {
                let element = decimal(self.at(i, j).to_i128());
                proof {
                    reveal_strlit(" ");
                    assert(" "@ =~= seq![' ']);
                }
                if i == 0 {
                    text.append(element.as_str());
                    text.append(" ");
                } else {
                    text.append(" ");
                    text.append(element.as_str());
                }
                assert(text@ =~= line + self.row_text(i as int, j + 1));
                j += 1;
            }
            if i != self.nrows - 1 {
                proof {
                    reveal_strlit("\n");
                    assert("\n"@ =~= seq!['\n']);
                }
                text.append("\n");
            }
            assert(text@ =~= head + self.rows_text(i + 1));
            i += 1;
        }
        text.append("], dtype=");
        text.append(T::name());
        proof {
            reveal_strlit("\n");
            assert("\n"@ =~= seq!['\n']);
            reveal_strlit("[");
            reveal_strlit("...");
        }
        text.append("\n");
        assert(text@ =~= self.rendering());
        text
    }
}

} // verus!
