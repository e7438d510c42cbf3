//! Sparse matrices as text.

use vstd::prelude::*;
use vstd::string::StringExecFns;
use crate::common::MatrixElement;
use crate::sparse::SparseMatrix;
use crate::text::{decimal, decimal_text};

verus! {

impl<T: MatrixElement> SparseMatrix<T> {
    /// The text of the first `n` cells of row `i`, stored or not: every
    /// element is followed by a blank.
    pub open spec fn row_text(&self, i: int, n: int) -> Seq<char>
        decreases n,
    {
        if n <= 0 {
            Seq::empty()
        } else {
            self.row_text(i, n - 1) + decimal_text(self.entry(i, n - 1)) + seq![' ']
        }
    }

    /// The text of the first `r` rows: every row ends its line.
    pub open spec fn rows_text(&self, r: int) -> Seq<char>
        decreases r,
    {
        if r <= 0 {
            Seq::empty()
        } else {
            self.rows_text(r - 1) + self.row_text(r - 1, self.cols() as int) + seq!['\n']
        }
    }

    /// The text of the matrix: all rows, an empty line and the name of the
    /// element type.
    pub open spec fn rendering(&self) -> Seq<char> {
        self.rows_text(self.rows() as int) + "\ndtype = "@ + T::name_text() + seq!['\n']
    }

    /// The matrix as text, with every cell written out.
    pub fn render(&self) -> (text: String)
        requires
            self.wf(),
        ensures
            text@ == self.rendering(),
    {
        let mut text = String::from_str("");
        proof {
            reveal_strlit("");
            assert(text@ =~= self.rows_text(0));
        }
        let mut i: usize = 0;
        while i < self.nrows
            invariant
                self.wf(),
                i <= self.rows(),
                text@ == self.rows_text(i as int),
            decreases self.rows() - i,
        {
            let ghost line = text@;
            let mut j: usize = 0;
            while j < self.ncols
                invariant
                    self.wf(),
                    i < self.rows(),
                    j <= self.cols(),
                    text@ == line + self.row_text(i as int, j as int),
                decreases self.cols() - j,
            {
                let element = decimal(self.at(i, j).to_i128());
                proof {
                    reveal_strlit(" ");
                    assert(" "@ =~= seq![' ']);
                }
                text.append(element.as_str());
                text.append(" ");
                assert(text@ =~= line + self.row_text(i as int, j + 1));
                j += 1;
            }
            proof {
                reveal_strlit("\n");
                assert("\n"@ =~= seq!['\n']);
            }
            text.append("\n");
            assert(text@ =~= self.rows_text(i + 1));
            i += 1;
        }
        text.append("\ndtype = ");
        text.append(T::name());
        proof {
            reveal_strlit("\n");
            assert("\n"@ =~= seq!['\n']);
        }
        text.append("\n");
        assert(text@ =~= self.rendering());
        text
    }
}

} // verus!
