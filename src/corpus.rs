use vstd::prelude::*;

use nalgebra::DMatrix;

use crate::table::terms_of;

verus! {

/// A rectangular corpus: nalgebra's dense matrix of terms, one row per document and one
/// column per token position.
#[verifier::external_body]
pub struct Corpus {
    grid: DMatrix<String>,
}

/// The rows of a corpus, each the sequence of its cells' terms.
pub uninterp spec fn corpus_rows(c: Corpus) -> Seq<Seq<Seq<char>>>;

impl Corpus {
    /// Relies on nalgebra's `DMatrix::from_row_slice`: row `i` holds the cells
    /// `i * ncols .. (i + 1) * ncols` of `cells`.
    #[verifier::external_body]
    pub fn from_row_slice(nrows: usize, ncols: usize, cells: &Vec<String>) -> (r: Corpus)
        requires
            cells@.len() == nrows * ncols,
        ensures
            corpus_rows(r).len() == nrows,
            forall|i: int|
                0 <= i < nrows ==> #[trigger] corpus_rows(r)[i] == terms_of(
                    cells@.subrange(i * ncols, (i + 1) * ncols),
                ),
    {
        Corpus { grid: DMatrix::from_row_slice(nrows, ncols, cells.as_slice()) }
    }

    /// Relies on nalgebra's `Matrix::nrows`: the number of rows.
    #[verifier::external_body]
    pub fn nrows(&self) -> (r: usize)
        ensures
            r == corpus_rows(*self).len(),
    {
        self.grid.nrows()
    }

    /// Relies on nalgebra's `Matrix::ncols`: every row has this many cells.
    #[verifier::external_body]
    pub fn ncols(&self) -> (r: usize)
        ensures
            forall|i: int| 0 <= i < corpus_rows(*self).len() ==> #[trigger] corpus_rows(*self)[i].len() == r,
    {
        self.grid.ncols()
    }

    /// Relies on nalgebra's `Index<(usize, usize)>` for matrices: the cell at row `i` and
    /// column `j`.
    #[verifier::external_body]
    pub fn cell(&self, i: usize, j: usize) -> (r: &String)
        requires
            i < corpus_rows(*self).len(),
            j < corpus_rows(*self)[i as int].len(),
        ensures
            r@ == corpus_rows(*self)[i as int][j as int],
    {
        &self.grid[(i, j)]
    }
}

} // verus!
