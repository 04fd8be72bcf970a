use vstd::prelude::*;

verus! {

/// A row-major matrix: `rows` rows of `cols` elements each.
pub struct Matrix<T> {
    cols: usize,
    rows: Vec<Vec<T>>,
}

/// What a matrix holds: its width and its rows.
pub struct MatrixView<T> {
    pub cols: usize,
    pub rows: Seq<Seq<T>>,
}

impl<T> MatrixView<T> {
    /// Every row is `cols` wide.
    pub open spec fn valid(self) -> bool {
        forall|i: int| 0 <= i < self.rows.len() ==> #[trigger] self.rows[i].len() == self.cols
    }
}

/// The views of a sequence of vectors.
pub open spec fn row_views<T>(rows: Seq<Vec<T>>) -> Seq<Seq<T>> {
    rows.map_values(|r: Vec<T>| r@)
}

impl<T> View for Matrix<T> {
    type V = MatrixView<T>;

    closed spec fn view(&self) -> MatrixView<T> {
        MatrixView { cols: self.cols, rows: row_views(self.rows@) }
    }
}

impl<T> Matrix<T> {
    /// A `rows.len() x cols` matrix, or `None` when some row is not `cols` wide.
    pub fn from_rows(cols: usize, rows: Vec<Vec<T>>) -> (m: Option<Matrix<T>>)
        ensures
            m is Some <==> (MatrixView { cols, rows: row_views(rows@) }).valid(),
            m matches Some(m) ==> m@ == (MatrixView { cols, rows: row_views(rows@) }),
    {
        let mut i: usize = 0;
        while i < rows.len()
            invariant
                i <= rows@.len(),
                forall|j: int| 0 <= j < i ==> #[trigger] rows@[j]@.len() == cols,
            decreases rows@.len() - i,
        {
            if rows[i].len() != cols {
                let ghost mv = MatrixView { cols, rows: row_views(rows@) };
                assert(mv.rows[i as int].len() != mv.cols);
                return None;
            }
            i = i + 1;
        }
        let m = Matrix { cols, rows };
        assert(m@.valid());
        Some(m)
    }

    /// Number of rows.
    pub fn nrows(&self) -> (n: usize)
        ensures
            n == self@.rows.len(),
    {
        self.rows.len()
    }

    /// Number of columns.
    pub fn ncols(&self) -> (n: usize)
        ensures
            n == self@.cols,
    {
        self.cols
    }

    /// Row `i`.
    pub fn row(&self, i: usize) -> (r: &[T])
        requires
            i < self@.rows.len(),
        ensures
            r@ == self@.rows[i as int],
    {
        self.rows[i].as_slice()
    }
}

} // verus!
