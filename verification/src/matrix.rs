//! A dense matrix held as a vector of rows, with the handful of constructors
//! the tableau needs: zeros, identity, and joining side by side or one above
//! the other.
use vstd::prelude::*;

verus! {

/// A matrix with `rows.len()` rows and `ncols` columns.
pub struct Matrix<T> {
    pub rows: Vec<Vec<T>>,
    pub ncols: usize,
}

/// A copy of a row.
pub fn copy_row<T: Copy>(v: &Vec<T>) -> (r: Vec<T>)
    ensures
        r@ == v@,
{
    let mut r: Vec<T> = Vec::new();
    let mut j: usize = 0;
    while j < v.len()
        invariant
            j <= v.len(),
            r@ == v@.subrange(0, j as int),
        decreases v.len() - j,
    {
        r.push(v[j]);
        j += 1;
    }
    assert(v@.subrange(0, v.len() as int) == v@);
    r
}

/// A row of `n` copies of `x`.
pub fn filled_row<T: Copy>(n: usize, x: T) -> (r: Vec<T>)
    ensures
        r@.len() == n,
        forall|j: int| 0 <= j < n ==> r@[j] == x,
{
    let mut r: Vec<T> = Vec::new();
    let mut j: usize = 0;
    while j < n
        invariant
            j <= n,
            r@.len() == j,
            forall|k: int| 0 <= k < j ==> r@[k] == x,
        decreases n - j,
    {
        r.push(x);
        j += 1;
    }
    r
}

impl<T> View for Matrix<T> {
    type V = Seq<Seq<T>>;

    /// The rows, each as a sequence of entries.
    open spec fn view(&self) -> Seq<Seq<T>> {
        self.rows@.map_values(|r: Vec<T>| r@)
    }
}

impl<T: Copy> Matrix<T> {
    /// Every row has `ncols` entries.
    pub open spec fn wf(&self) -> bool {
        forall|i: int| 0 <= i < self.rows@.len() ==> (#[trigger] self.rows@[i])@.len() == self.ncols
    }

    /// The number of rows.
    pub open spec fn nr(&self) -> nat {
        self.rows@.len()
    }

    /// The entry in row `i` and column `j`.
    pub open spec fn at(&self, i: int, j: int) -> T {
        self.rows@[i]@[j]
    }

    /// The view holds the rows, each of `ncols` entries.
    pub proof fn lemma_view(&self)
        requires
            self.wf(),
        ensures
            self@.len() == self.nr(),
            forall|i: int| 0 <= i < self.nr() ==> (#[trigger] self@[i]).len() == self.ncols,
            forall|i: int, j: int|
                0 <= i < self.nr() && 0 <= j < self.ncols ==> #[trigger] self@[i][j] == self.at(i, j),
    {
    }

    /// The number of entries is zero.
    pub open spec fn spec_is_empty(&self) -> bool {
        self.nr() == 0 || self.ncols == 0
    }

    pub fn nrows(&self) -> (n: usize)
        ensures
            n == self.nr(),
    {
        self.rows.len()
    }

    pub fn is_empty(&self) -> (b: bool)
        ensures
            b == self.spec_is_empty(),
    {
        self.rows.len() == 0 || self.ncols == 0
    }

    pub fn get(&self, i: usize, j: usize) -> (x: T)
        requires
            self.wf(),
            i < self.nr(),
            j < self.ncols,
        ensures
            x == self.at(i as int, j as int),
    {
        self.rows[i][j]
    }

    /// A copy of the matrix.
    pub fn to_owned(&self) -> (m: Self)
        requires
            self.wf(),
        ensures
            m.wf(),
            m@ == self@,
            m.nr() == self.nr(),
            m.ncols == self.ncols,
    {
        let mut rows: Vec<Vec<T>> = Vec::new();
        let mut i: usize = 0;
        while i < self.rows.len()
            invariant
                self.wf(),
                i <= self.nr(),
                rows@.len() == i,
                forall|k: int| 0 <= k < i ==> (#[trigger] rows@[k])@ == self.rows@[k]@,
            decreases self.nr() - i,
        {
            rows.push(copy_row(&self.rows[i]));
            i += 1;
        }
        let m = Matrix { rows, ncols: self.ncols };
        assert(m@ =~= self@);
        m
    }

    /// Replaces row `i` by `r`.
    pub fn set_row(&mut self, i: usize, r: Vec<T>)
        requires
            old(self).wf(),
            i < old(self).nr(),
            r@.len() == old(self).ncols,
        ensures
            final(self).wf(),
            final(self).nr() == old(self).nr(),
            final(self).ncols == old(self).ncols,
            final(self)@ == old(self)@.update(i as int, r@),
    {
        self.rows.set(i, r);
        assert(self@ =~= old(self)@.update(i as int, r@));
    }

    /// The matrix of `nrows` rows and `ncols` columns whose entries are all `zero`.
    pub fn zeros(nrows: usize, ncols: usize, zero: T) -> (m: Self)
        ensures
            m.wf(),
            m.nr() == nrows,
            m.ncols == ncols,
            forall|i: int, j: int| 0 <= i < nrows && 0 <= j < ncols ==> #[trigger] m.at(i, j) == zero,
    {
        let mut rows: Vec<Vec<T>> = Vec::new();
        let mut i: usize = 0;
        while i < nrows
            invariant
                i <= nrows,
                rows@.len() == i,
                forall|k: int| 0 <= k < i ==> (#[trigger] rows@[k])@.len() == ncols,
                forall|k: int, j: int| 0 <= k < i && 0 <= j < ncols ==> #[trigger] rows@[k]@[j] == zero,
            decreases nrows - i,
        {
            rows.push(filled_row(ncols, zero));
            i += 1;
        }
        Matrix { rows, ncols }
    }

    /// The identity matrix of size `n`.
    pub fn eye(n: usize, zero: T, one: T) -> (m: Self)
        ensures
            m.wf(),
            m.nr() == n,
            m.ncols == n,
            forall|i: int, j: int|
                0 <= i < n && 0 <= j < n ==> #[trigger] m.at(i, j) == if i == j {
                    one
                } else {
                    zero
                },
    {
        let mut rows: Vec<Vec<T>> = Vec::new();
        let mut i: usize = 0;
        while i < n
            invariant
                i <= n,
                rows@.len() == i,
                forall|k: int| 0 <= k < i ==> (#[trigger] rows@[k])@.len() == n,
                forall|k: int, j: int|
                    0 <= k < i && 0 <= j < n ==> #[trigger] rows@[k]@[j] == if k == j {
                        one
                    } else {
                        zero
                    },
            decreases n - i,
        {
            let mut r = filled_row(n, zero);
            r.set(i, one);
            rows.push(r);
            i += 1;
        }
        Matrix { rows, ncols: n }
    }

    /// `self` and `other` side by side.
    pub fn hcat(&self, other: &Self) -> (m: Self)
        requires
            self.wf(),
            other.wf(),
            self.nr() == other.nr(),
            self.ncols + other.ncols <= usize::MAX,
        ensures
            m.wf(),
            m.nr() == self.nr(),
            m.ncols == self.ncols + other.ncols,
            forall|i: int, j: int|
                0 <= i < m.nr() && 0 <= j < m.ncols ==> #[trigger] m.at(i, j) == if j < self.ncols {
                    self.at(i, j)
                } else {
                    other.at(i, j - self.ncols)
                },
    {
        let n = self.ncols + other.ncols;
        let mut rows: Vec<Vec<T>> = Vec::new();
        let mut i: usize = 0;
        while i < self.rows.len()
            invariant
                self.wf(),
                other.wf(),
                self.nr() == other.nr(),
                n == self.ncols + other.ncols,
                i <= self.nr(),
                rows@.len() == i,
                forall|k: int| 0 <= k < i ==> (#[trigger] rows@[k])@.len() == n,
                forall|k: int, j: int|
                    0 <= k < i && 0 <= j < n ==> #[trigger] rows@[k]@[j] == if j < self.ncols {
                        self.at(k, j)
                    } else {
                        other.at(k, j - self.ncols)
                    },
            decreases self.nr() - i,
        {
            let mut r = copy_row(&self.rows[i]);
            let mut j: usize = 0;
            while j < other.ncols
                invariant
                    other.wf(),
                    i < other.nr(),
                    self.rows@[i as int]@.len() == self.ncols,
                    j <= other.ncols,
                    r@.len() == self.ncols + j,
                    forall|t: int| 0 <= t < self.ncols ==> #[trigger] r@[t] == self.at(i as int, t),
                    forall|t: int|
                        self.ncols <= t < self.ncols + j ==> #[trigger] r@[t] == other.at(
                            i as int,
                            t - self.ncols,
                        ),
                decreases other.ncols - j,
            {
                r.push(other.rows[i][j]);
                j += 1;
            }
            rows.push(r);
            i += 1;
        }
        Matrix { rows, ncols: n }
    }

    /// `self` above `other`.
    pub fn vcat(&self, other: &Self) -> (m: Self)
        requires
            self.wf(),
            other.wf(),
            self.ncols == other.ncols,
        ensures
            m.wf(),
            m.nr() == self.nr() + other.nr(),
            m.ncols == self.ncols,
            forall|i: int, j: int|
                0 <= i < m.nr() && 0 <= j < m.ncols ==> #[trigger] m.at(i, j) == if i < self.nr() {
                    self.at(i, j)
                } else {
                    other.at(i - self.nr(), j)
                },
    {
        let mut rows: Vec<Vec<T>> = Vec::new();
        let mut i: usize = 0;
        while i < self.rows.len()
            invariant
                self.wf(),
                i <= self.nr(),
                rows@.len() == i,
                forall|k: int| 0 <= k < i ==> (#[trigger] rows@[k])@ == self.rows@[k]@,
            decreases self.nr() - i,
        {
            rows.push(copy_row(&self.rows[i]));
            i += 1;
        }
        let mut i: usize = 0;
        while i < other.rows.len()
            invariant
                other.wf(),
                i <= other.nr(),
                rows@.len() == self.nr() + i,
                forall|k: int| 0 <= k < self.nr() ==> (#[trigger] rows@[k])@ == self.rows@[k]@,
                forall|k: int| 0 <= k < i ==> (#[trigger] rows@[self.nr() + k])@ == other.rows@[k]@,
            decreases other.nr() - i,
        {
            rows.push(copy_row(&other.rows[i]));
            i += 1;
        }
        let m = Matrix { rows, ncols: self.ncols };
        assert forall|i: int, j: int|
            0 <= i < m.nr() && 0 <= j < m.ncols implies #[trigger] m.at(i, j) == if i < self.nr() {
                self.at(i, j)
            } else {
                other.at(i - self.nr(), j)
            } by {
            if i >= self.nr() {
                assert(m.rows@[self.nr() + (i - self.nr())]@ == other.rows@[i - self.nr()]@);
            }
        }
        assert forall|i: int| 0 <= i < m.rows@.len() implies (#[trigger] m.rows@[i])@.len() == m.ncols by {
            if i >= self.nr() {
                assert(m.rows@[self.nr() + (i - self.nr())]@ == other.rows@[i - self.nr()]@);
            }
        }
        m
    }
}

/// A matrix was read with rows of different lengths.
#[derive(Debug, Clone, Copy, PartialEq, Eq)]
pub enum RowsError {
    UnequalRows,
}

impl RowsError {
    /// The message that reports the error.
    pub fn message(&self) -> (s: &'static str)
        ensures
            s@ == "The matrix rows should be of equal size."@,
    {
        "The matrix rows should be of equal size."
    }
}

/// Appends `row` to the rows read so far; refuses (after appending) a row
/// whose length differs from that of the row before it.
pub fn push_row<T>(rows: &mut Vec<Vec<T>>, row: Vec<T>) -> (r: Result<(), RowsError>)
    ensures
        final(rows)@ == old(rows)@.push(row),
        r is Err <==> (old(rows)@.len() > 0 && old(rows)@.last()@.len() != row@.len()),
{
    let n = rows.len();
    let len = row.len();
    rows.push(row);
    if n > 0 && rows[n].len() != rows[n - 1].len() {
        Err(RowsError::UnequalRows)
    } else {
        assert(n > 0 ==> rows@[n as int] == row);
        Ok(())
    }
}

/// All rows of `rows` have the length of the first.
pub open spec fn uniform<T>(rows: Seq<Vec<T>>) -> bool {
    forall|i: int| 0 <= i < rows.len() ==> (#[trigger] rows[i])@.len() == rows[0]@.len()
}

/// The matrix of the given rows, all of one length; the empty matrix with no
/// rows and no columns where there is no entry at all.
pub fn matrix_from_rows<T: Copy>(rows: Vec<Vec<T>>) -> (m: Matrix<T>)
    requires
        uniform(rows@),
    ensures
        m.wf(),
        rows@.len() == 0 || rows@[0]@.len() == 0 ==> m.nr() == 0 && m.ncols == 0,
        rows@.len() > 0 && rows@[0]@.len() > 0 ==> m.ncols == rows@[0]@.len() && m@ == rows@.map_values(
            |r: Vec<T>| r@,
        ),
{
    if rows.len() == 0 || rows[0].len() == 0 {
        Matrix { rows: Vec::new(), ncols: 0 }
    } else {
        let ncols = rows[0].len();
        Matrix { rows, ncols }
    }
}

/// The row vector `v` (one row), or the empty matrix when `v` is empty.
pub fn row_matrix<T: Copy>(v: Vec<T>) -> (m: Matrix<T>)
    ensures
        m.wf(),
        v@.len() == 0 ==> m.nr() == 0 && m.ncols == 0,
        v@.len() > 0 ==> m.ncols == v@.len() && m@ == seq![v@],
{
    if v.len() == 0 {
        Matrix { rows: Vec::new(), ncols: 0 }
    } else {
        let ncols = v.len();
        let mut rows: Vec<Vec<T>> = Vec::new();
        rows.push(v);
        let m = Matrix { rows, ncols };
        assert(m@ =~= seq![v@]);
        m
    }
}

/// The column vector `v` (one column), or the empty matrix when `v` is empty.
pub fn column_matrix<T: Copy>(v: Vec<T>) -> (m: Matrix<T>)
    ensures
        m.wf(),
        v@.len() == 0 ==> m.nr() == 0 && m.ncols == 0,
        v@.len() > 0 ==> m.ncols == 1 && m.nr() == v@.len() && forall|i: int|
            0 <= i < v@.len() ==> #[trigger] m.at(i, 0) == v@[i],
{
    let mut rows: Vec<Vec<T>> = Vec::new();
    if v.len() == 0 {
        return Matrix { rows, ncols: 0 };
    }
    let mut i: usize = 0;
    while i < v.len()
        invariant
            i <= v@.len(),
            rows@.len() == i,
            forall|k: int| 0 <= k < i ==> (#[trigger] rows@[k])@ == seq![v@[k]],
        decreases v@.len() - i,
    {
        let mut r: Vec<T> = Vec::new();
        r.push(v[i]);
        rows.push(r);
        i += 1;
    }
    Matrix { rows, ncols: 1 }
}

} // verus!
