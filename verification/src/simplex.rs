//! Simplex iterations on a tableau: choosing the pivot, pivoting, and
//! tracking the basis.
use vstd::prelude::*;
use crate::field::{Field, Op, key_lt, key_le, key_eq, key_less};
use crate::matrix::Matrix;

verus! {

/// Scanning the first `n` keys of `ks`, keeping the position and key of the
/// current minimum, which starts at position 0 with key `bound` and moves to
/// a position whose key is smaller than the current one.
pub open spec fn scan_min(ks: Seq<Option<i64>>, n: nat, bound: Option<i64>) -> (int, Option<i64>)
    decreases n,
{
    if n == 0 {
        (0, bound)
    } else {
        let (r, m) = scan_min(ks, (n - 1) as nat, bound);
        if key_lt(ks[n - 1], m) {
            (n - 1, ks[n - 1])
        } else {
            (r, m)
        }
    }
}

/// The position found by scanning all of `ks` (see `scan_min`).
pub open spec fn first_min(ks: Seq<Option<i64>>, bound: Option<i64>) -> int {
    scan_min(ks, ks.len(), bound).0
}

/// `r` is the first position among the first `n` of `ks` whose key is a
/// least key below `bound`, or 0 when no key is below `bound`.
pub open spec fn is_first_min(ks: Seq<Option<i64>>, n: int, bound: Option<i64>, r: int) -> bool {
    ||| {
        &&& forall|j: int| 0 <= j < n ==> !key_lt(#[trigger] ks[j], bound)
        &&& r == 0
    }
    ||| {
        &&& 0 <= r < n
        &&& key_lt(ks[r], bound)
        &&& forall|j: int|
            0 <= j < n && key_lt(#[trigger] ks[j], bound) ==> key_le(ks[r], ks[j]) && (j < r
                ==> key_lt(ks[r], ks[j]))
    }
}

/// The scan finds the first least key below the bound.
pub proof fn lemma_scan_min(ks: Seq<Option<i64>>, n: nat, bound: Option<i64>)
    requires
        n <= ks.len(),
    ensures
        is_first_min(ks, n as int, bound, scan_min(ks, n, bound).0),
        (forall|j: int| 0 <= j < n ==> !key_lt(#[trigger] ks[j], bound)) ==> scan_min(ks, n, bound).1
            == bound,
        !(forall|j: int| 0 <= j < n ==> !key_lt(#[trigger] ks[j], bound)) ==> scan_min(ks, n, bound).1
            == ks[scan_min(ks, n, bound).0],
    decreases n,
{
    if n > 0 {
        lemma_scan_min(ks, (n - 1) as nat, bound);
        let (r, m) = scan_min(ks, (n - 1) as nat, bound);
        if !(forall|j: int| 0 <= j < n - 1 ==> !key_lt(#[trigger] ks[j], bound)) {
            let w = choose|j: int| 0 <= j < n - 1 && key_lt(#[trigger] ks[j], bound);
            assert(key_lt(ks[w], bound));
        }
    }
}

/// The position of the first least entry of `s` below `bound` by order
/// keys, or 0 when there is none.
pub fn argmin<T: Copy, K: Fn(T) -> Option<i64>, N: Fn(T) -> T, F: Fn(Op, T, T) -> T>(
    s: &Vec<T>,
    bound: T,
    f: &Field<T, K, N, F>,
) -> (r: usize)
    requires
        f.wf(),
    ensures
        r == first_min(s@.map_values(|x: T| f.key_of(x)), f.key_of(bound)),
        is_first_min(
            s@.map_values(|x: T| f.key_of(x)),
            s@.len() as int,
            f.key_of(bound),
            r as int,
        ),
{
    let ghost ks = s@.map_values(|x: T| f.key_of(x));
    let mut min = f.key(bound);
    let mut argmin: usize = 0;
    let mut i: usize = 0;
    while i < s.len()
        invariant
            f.wf(),
            ks == s@.map_values(|x: T| f.key_of(x)),
            i <= s.len(),
            (argmin as int, min) == scan_min(ks, i as nat, f.key_of(bound)),
        decreases s.len() - i,
    {
        let k = f.key(s[i]);
        if key_less(k, min) {
            min = k;
            argmin = i;
        }
        i += 1;
    }
    proof {
        lemma_scan_min(ks, ks.len(), f.key_of(bound));
    }
    argmin
}

impl<T: Copy, K: Fn(T) -> Option<i64>, N: Fn(T) -> T, F: Fn(Op, T, T) -> T> Field<T, K, N, F> {
    /// `x > 0`.
    pub open spec fn is_positive(&self, x: T) -> bool {
        key_lt(self.key_of(self.zero), self.key_of(x))
    }

    /// The keys of the objective row of `t` without its last entry.
    pub open spec fn cost_keys(&self, t: Seq<Seq<T>>) -> Seq<Option<i64>> {
        t[0].take(t[0].len() - 1).map_values(|x: T| self.key_of(x))
    }

    /// The tableau is not optimal: some entry of the objective row, but the
    /// last, is negative.
    pub open spec fn not_optimal(&self, t: Seq<Seq<T>>) -> bool {
        exists|j: int| 0 <= j < t[0].len() - 1 && self.is_negative(#[trigger] t[0][j])
    }

    /// The entering column: the first least entry of the objective row (but
    /// the last) below infinity.
    pub open spec fn pivot_column(&self, t: Seq<Seq<T>>) -> int {
        first_min(self.cost_keys(t), self.key_of(self.infinity))
    }

    /// For each row but the first whose entry in column `c` is positive, the
    /// key of its right-hand side divided by that entry; no key otherwise.
    pub open spec fn ratio_keys(&self, t: Seq<Seq<T>>, c: int) -> Seq<Option<i64>> {
        Seq::new(
            t.len(),
            |i: int|
                if i >= 1 && self.is_positive(t[i][c]) {
                    self.key_of(self.op_of(Op::Div, t[i][t[i].len() - 1], t[i][c]))
                } else {
                    None
                },
        )
    }

    /// The leaving row: the first row with the least ratio below infinity
    /// (0 when there is none).
    pub open spec fn pivot_row(&self, t: Seq<Seq<T>>, c: int) -> int {
        first_min(self.ratio_keys(t, c), self.key_of(self.infinity))
    }
}

/// Whether some entry of the objective row, but the last, is negative.
pub fn not_optimal<T: Copy, K: Fn(T) -> Option<i64>, N: Fn(T) -> T, F: Fn(Op, T, T) -> T>(
    t: &Matrix<T>,
    f: &Field<T, K, N, F>,
) -> (b: bool)
    requires
        f.wf(),
        t.wf(),
        t.nr() >= 1,
        t.ncols >= 1,
    ensures
        b == f.not_optimal(t@),
{
    proof {
        t.lemma_view();
    }
    let zero_key = f.key(f.zero);
    let mut j: usize = 0;
    while j < t.ncols - 1
        invariant
            f.wf(),
            t.wf(),
            t.nr() >= 1,
            t.ncols >= 1,
            t@[0].len() == t.ncols,
            zero_key == f.key_of(f.zero),
            j <= t.ncols - 1,
            forall|c: int| 0 <= c < j ==> !f.is_negative(#[trigger] t@[0][c]),
        decreases t.ncols - 1 - j,
    {
        proof {
            t.lemma_view();
        }
        let k = f.key(t.rows[0][j]);
        if key_less(k, zero_key) {
            assert(f.is_negative(t@[0][j as int]));
            return true;
        }
        j += 1;
    }
    false
}

/// The pivot position `(row, column)`: the entering column is the first
/// least entry of the objective row, and the leaving row is the first row
/// with a positive entry there whose ratio of right-hand side to that entry
/// is least.
pub fn pivot_indexes<T: Copy, K: Fn(T) -> Option<i64>, N: Fn(T) -> T, F: Fn(Op, T, T) -> T>(
    t: &Matrix<T>,
    f: &Field<T, K, N, F>,
) -> (p: (usize, usize))
    requires
        f.wf(),
        t.wf(),
        t.nr() >= 1,
        t.ncols >= 1,
    ensures
        p.1 as int == f.pivot_column(t@),
        p.0 as int == f.pivot_row(t@, p.1 as int),
        p.0 < t.nr(),
        p.1 < t.ncols,
{
    proof {
        t.lemma_view();
    }
    let w = t.ncols;
    let mut costs: Vec<T> = Vec::new();
    let mut j: usize = 0;
    while j < w - 1
        invariant
            t.wf(),
            t.nr() >= 1,
            w == t.ncols,
            w >= 1,
            j <= w - 1,
            costs@ == t@[0].take(j as int),
            t@[0].len() == w,
        decreases w - 1 - j,
    {
        proof {
            t.lemma_view();
        }
        costs.push(t.rows[0][j]);
        j += 1;
        assert(costs@ =~= t@[0].take(j as int));
    }
    let pivot_column_index = argmin(&costs, f.infinity, f);
    proof {
        assert(costs@.map_values(|x: T| f.key_of(x)) =~= f.cost_keys(t@));
        lemma_scan_min(f.cost_keys(t@), f.cost_keys(t@).len(), f.key_of(f.infinity));
    }
    let ghost ks = f.ratio_keys(t@, pivot_column_index as int);
    let zero_key = f.key(f.zero);
    let mut pivot_row_index: usize = 0;
    let mut minimum = f.key(f.infinity);
    let mut i: usize = 0;
    while i < t.nrows()
        invariant
            f.wf(),
            t.wf(),
            w == t.ncols,
            pivot_column_index < w,
            zero_key == f.key_of(f.zero),
            ks == f.ratio_keys(t@, pivot_column_index as int),
            i <= t.nr(),
            (pivot_row_index as int, minimum) == scan_min(ks, i as nat, f.key_of(f.infinity)),
        decreases t.nr() - i,
    {
        proof {
            t.lemma_view();
        }
        if i > 0 {
            let right_hand_side_value = t.get(i, w - 1);
            let pivot_value = t.get(i, pivot_column_index);
            let pk = f.key(pivot_value);
            if key_less(zero_key, pk) {
                let quotient = f.apply(Op::Div, right_hand_side_value, pivot_value);
                let qk = f.key(quotient);
                if key_less(qk, minimum) {
                    minimum = qk;
                    pivot_row_index = i;
                }
            }
        }
        i += 1;
    }
    proof {
        lemma_scan_min(ks, ks.len(), f.key_of(f.infinity));
    }
    (pivot_row_index, pivot_column_index)
}

impl<T: Copy, K: Fn(T) -> Option<i64>, N: Fn(T) -> T, F: Fn(Op, T, T) -> T> Field<T, K, N, F> {
    /// Row `pr` of `t` divided by its entry in column `pc`.
    pub open spec fn normalized_row(&self, t: Seq<Seq<T>>, pr: int, pc: int) -> Seq<T> {
        Seq::new(t[pr].len(), |j: int| self.op_of(Op::Div, t[pr][j], t[pr][pc]))
    }

    /// `t` after pivoting on `(pr, pc)`: row `pr` is divided by its pivot
    /// entry, giving the pivot row `p`; then every other row `r` becomes
    /// `r - p * r[pc]`.
    pub open spec fn pivoted(&self, t: Seq<Seq<T>>, pr: int, pc: int) -> Seq<Seq<T>> {
        let p = self.normalized_row(t, pr, pc);
        Seq::new(
            t.len(),
            |i: int|
                if i == pr {
                    p
                } else {
                    Seq::new(
                        t[i].len(),
                        |j: int| self.op_of(Op::Sub, t[i][j], self.op_of(Op::Mul, p[j], t[i][pc])),
                    )
                },
        )
    }
}

/// Pivots on the position chosen by `pivot_indexes` (see `Field::pivoted`)
/// and returns that position.
pub fn pivot<T: Copy, K: Fn(T) -> Option<i64>, N: Fn(T) -> T, F: Fn(Op, T, T) -> T>(
    t: &mut Matrix<T>,
    f: &Field<T, K, N, F>,
) -> (p: (usize, usize))
    requires
        f.wf(),
        old(t).wf(),
        old(t).nr() >= 1,
        old(t).ncols >= 1,
    ensures
        p.1 as int == f.pivot_column(old(t)@),
        p.0 as int == f.pivot_row(old(t)@, p.1 as int),
        final(t).wf(),
        final(t).ncols == old(t).ncols,
        final(t)@ == f.pivoted(old(t)@, p.0 as int, p.1 as int),
{
    let ghost t0 = t@;
    proof {
        t.lemma_view();
    }
    let (pivot_row_index, pivot_column_index) = pivot_indexes(t, f);
    let pr = pivot_row_index;
    let pc = pivot_column_index;
    let normalization_scalar = t.get(pr, pc);
    let mut normalized: Vec<T> = Vec::new();
    let mut j: usize = 0;
    while j < t.ncols
        invariant
            f.wf(),
            t.wf(),
            t@ == t0,
            pr < t.nr(),
            pc < t.ncols,
            normalization_scalar == t.at(pr as int, pc as int),
            j <= t.ncols,
            normalized@.len() == j,
            forall|c: int|
                0 <= c < j ==> #[trigger] normalized@[c] == f.op_of(
                    Op::Div,
                    t.at(pr as int, c),
                    normalization_scalar,
                ),
        decreases t.ncols - j,
    {
        normalized.push(f.apply(Op::Div, t.rows[pr][j], normalization_scalar));
        j += 1;
    }
    proof {
        t.lemma_view();
        assert(normalized@ =~= f.normalized_row(t0, pr as int, pc as int));
    }
    let pivot_row = crate::matrix::copy_row(&normalized);
    t.set_row(pr, normalized);
    let ghost t1 = t@;
    let mut i: usize = 0;
    while i < t.nrows()
        invariant
            f.wf(),
            t.wf(),
            t.nr() == t0.len(),
            t.ncols == pivot_row@.len(),
            pc < t.ncols,
            pr < t.nr(),
            pivot_row@ == f.normalized_row(t0, pr as int, pc as int),
            t1 == t0.update(pr as int, pivot_row@),
            forall|r: int| 0 <= r < t0.len() ==> (#[trigger] t0[r]).len() == t.ncols,
            i <= t.nr(),
            forall|r: int| 0 <= r < i ==> #[trigger] t@[r] == f.pivoted(t0, pr as int, pc as int)[r],
            forall|r: int| i <= r < t.nr() ==> #[trigger] t@[r] == t1[r],
        decreases t.nr() - i,
    {
        proof {
            t.lemma_view();
        }
        let row = crate::matrix::copy_row(&t.rows[i]);
        proof {
            assert(t@[i as int] == t.rows@[i as int]@);
            assert(row@ == t1[i as int]);
        }
        if i != pr {
            let pivot_value = row[pc];
            let mut updated: Vec<T> = Vec::new();
            let mut j: usize = 0;
            while j < row.len()
                invariant
                    f.wf(),
                    row@.len() == pivot_row@.len(),
                    i != pr,
                    pc < row@.len(),
                    pivot_value == row@[pc as int],
                    j <= row@.len(),
                    updated@.len() == j,
                    forall|c: int|
                        0 <= c < j ==> #[trigger] updated@[c] == f.op_of(
                            Op::Sub,
                            row@[c],
                            f.op_of(Op::Mul, pivot_row@[c], pivot_value),
                        ),
                decreases row@.len() - j,
            {
                let prod = f.apply(Op::Mul, pivot_row[j], pivot_value);
                updated.push(f.apply(Op::Sub, row[j], prod));
                j += 1;
            }
            proof {
                assert(updated@ =~= f.pivoted(t0, pr as int, pc as int)[i as int]);
            }
            t.set_row(i, updated);
        } else {
            proof {
                assert(row@ =~= f.pivoted(t0, pr as int, pc as int)[i as int]);
            }
        }
        i += 1;
    }
    proof {
        t.lemma_view();
        assert(t@ =~= f.pivoted(t0, pr as int, pc as int));
    }
    (pr, pc)
}

impl<T: Copy, K: Fn(T) -> Option<i64>, N: Fn(T) -> T, F: Fn(Op, T, T) -> T> Field<T, K, N, F> {
    /// The number of entries among the first `n` of `s` equal to `v`.
    pub open spec fn count_equal(&self, s: Seq<T>, v: T, n: nat) -> nat
        decreases n,
    {
        if n == 0 {
            0
        } else {
            self.count_equal(s, v, (n - 1) as nat) + if key_eq(self.key_of(s[n - 1]), self.key_of(v)) {
                1nat
            } else {
                0nat
            }
        }
    }

    /// `s` holds exactly one `1` and all its other entries are `0`.
    pub open spec fn is_basic(&self, s: Seq<T>) -> bool {
        self.count_equal(s, self.one, s.len()) == 1 && self.count_equal(s, self.zero, s.len()) == s.len()
            - 1
    }

    /// Column `j` of `t` below the objective row.
    pub open spec fn column_below(&self, t: Seq<Seq<T>>, j: int) -> Seq<T> {
        Seq::new((t.len() - 1) as nat, |i: int| t[i + 1][j])
    }

    /// The positions `(i, j)` with `1 <= i < n` where column `j` of `t` holds `1`.
    pub open spec fn ones_in_column(&self, t: Seq<Seq<T>>, j: int, n: nat) -> Seq<(int, int)>
        decreases n,
    {
        if n <= 1 {
            Seq::empty()
        } else {
            self.ones_in_column(t, j, (n - 1) as nat) + if key_eq(
                self.key_of(t[n - 1][j]),
                self.key_of(self.one),
            ) {
                seq![((n - 1) as int, j)]
            } else {
                Seq::empty()
            }
        }
    }

    /// The basic variables among the first `n` columns of `t`: for each basic
    /// column `j`, the position `(i, j)` of its `1`.
    pub open spec fn basis_upto(&self, t: Seq<Seq<T>>, n: nat) -> Seq<(int, int)>
        decreases n,
    {
        if n == 0 {
            Seq::empty()
        } else {
            self.basis_upto(t, (n - 1) as nat) + if self.is_basic(
                self.column_below(t, n - 1),
            ) {
                self.ones_in_column(t, n - 1, t.len())
            } else {
                Seq::empty()
            }
        }
    }

    /// The initial basis of the `w`-column tableau `t`: the basic columns but
    /// the last.
    pub open spec fn initial_basis(&self, t: Seq<Seq<T>>, w: nat) -> Seq<(int, int)> {
        self.basis_upto(t, (w - 1) as nat)
    }
}

/// The basis as positions of plain integers.
pub open spec fn basis_view(b: Seq<(usize, usize)>) -> Seq<(int, int)> {
    b.map_values(|p: (usize, usize)| (p.0 as int, p.1 as int))
}

/// Whether `column` holds exactly one `1` and all its other entries are `0`.
pub fn is_basic<T: Copy, K: Fn(T) -> Option<i64>, N: Fn(T) -> T, F: Fn(Op, T, T) -> T>(
    column: &Vec<T>,
    f: &Field<T, K, N, F>,
) -> (b: bool)
    requires
        f.wf(),
        column@.len() >= 1,
    ensures
        b == f.is_basic(column@),
{
    let one_key = f.key(f.one);
    let zero_key = f.key(f.zero);
    let mut ones: usize = 0;
    let mut zeros: usize = 0;
    let mut i: usize = 0;
    while i < column.len()
        invariant
            f.wf(),
            one_key == f.key_of(f.one),
            zero_key == f.key_of(f.zero),
            i <= column@.len(),
            ones == f.count_equal(column@, f.one, i as nat),
            zeros == f.count_equal(column@, f.zero, i as nat),
            ones <= i,
            zeros <= i,
        decreases column@.len() - i,
    {
        let k = f.key(column[i]);
        if crate::field::key_equal(k, one_key) {
            ones += 1;
        }
        if crate::field::key_equal(k, zero_key) {
            zeros += 1;
        }
        i += 1;
    }
    let has_only_one_1 = ones == 1;
    let everything_else_is_0 = zeros == column.len() - 1;
    has_only_one_1 && everything_else_is_0
}

/// The initial basis (see `Field::initial_basis`).
pub fn initialize_basis<T: Copy, K: Fn(T) -> Option<i64>, N: Fn(T) -> T, F: Fn(Op, T, T) -> T>(
    t: &Matrix<T>,
    f: &Field<T, K, N, F>,
) -> (basis: Vec<(usize, usize)>)
    requires
        f.wf(),
        t.wf(),
        t.ncols >= 1,
        t.ncols > 1 ==> t.nr() >= 2,
    ensures
        basis_view(basis@) == f.initial_basis(t@, t.ncols as nat),
{
    proof {
        t.lemma_view();
    }
    let mut basis: Vec<(usize, usize)> = Vec::new();
    let mut j: usize = 0;
    while j < t.ncols - 1
        invariant
            f.wf(),
            t.wf(),
            t.ncols >= 1,
            t.ncols > 1 ==> t.nr() >= 2,
            j <= t.ncols - 1,
            basis_view(basis@) == f.basis_upto(t@, j as nat),
        decreases t.ncols - 1 - j,
    {
        proof {
            t.lemma_view();
        }
        let mut col: Vec<T> = Vec::new();
        let mut i: usize = 1;
        while i < t.nrows()
            invariant
                t.wf(),
                t.nr() >= 2,
                j < t.ncols,
                1 <= i <= t.nr(),
                col@.len() == i - 1,
                forall|r: int| 0 <= r < i - 1 ==> #[trigger] col@[r] == t.at(r + 1, j as int),
            decreases t.nr() - i,
        {
            col.push(t.rows[i][j]);
            i += 1;
        }
        proof {
            assert(col@ =~= f.column_below(t@, j as int));
        }
        let ghost before = basis@;
        if is_basic(&col, f) {
            let one_key = f.key(f.one);
            let mut i: usize = 1;
            while i < t.nrows()
                invariant
                    f.wf(),
                    t.wf(),
                    t.nr() >= 2,
                    j < t.ncols,
                    one_key == f.key_of(f.one),
                    1 <= i <= t.nr(),
                    basis_view(basis@) == basis_view(before) + f.ones_in_column(t@, j as int, i as nat),
                decreases t.nr() - i,
            {
                proof {
                    t.lemma_view();
                }
                let ghost prev = basis@;
                let k = f.key(t.get(i, j));
                if crate::field::key_equal(k, one_key) {
                    basis.push((i, j));
                    assert(basis_view(basis@) =~= basis_view(prev) + seq![(i as int, j as int)]);
                }
                proof {
                    assert(t@[i as int][j as int] == t.at(i as int, j as int));
                    assert(basis_view(basis@) =~= basis_view(before) + f.ones_in_column(
                        t@,
                        j as int,
                        (i + 1) as nat,
                    ));
                }
                i += 1;
            }
            proof {
                assert(basis_view(basis@) =~= f.basis_upto(t@, (j + 1) as nat));
            }
        } else {
            proof {
                assert(basis_view(basis@) =~= f.basis_upto(t@, (j + 1) as nat));
            }
        }
        j += 1;
    }
    basis
}

/// After pivoting on `(pr, pc)`: the variable of column `pc` enters the basis
/// in place of the one of row `pr`.
pub open spec fn updated_basis(b: Seq<(usize, usize)>, pr: usize, pc: usize) -> Seq<(usize, usize)> {
    b.map_values(|e: (usize, usize)| if e.0 == pr { (pr, pc) } else { e })
}

/// Replaces every basis entry of row `pr` by `(pr, pc)`.
pub fn update_basis(basis: &mut Vec<(usize, usize)>, pr: usize, pc: usize)
    ensures
        final(basis)@ == updated_basis(old(basis)@, pr, pc),
{
    let ghost b0 = basis@;
    let mut k: usize = 0;
    while k < basis.len()
        invariant
            basis@.len() == b0.len(),
            k <= basis@.len(),
            forall|q: int| 0 <= q < k ==> #[trigger] basis@[q] == updated_basis(b0, pr, pc)[q],
            forall|q: int| k <= q < basis@.len() ==> #[trigger] basis@[q] == b0[q],
        decreases basis@.len() - k,
    {
        if basis[k].0 == pr {
            basis.set(k, (pr, pc));
        }
        k += 1;
    }
    assert(basis@ =~= updated_basis(b0, pr, pc));
}

/// One simplex iteration: when the tableau is not optimal, pivots and updates
/// the basis, and returns the pivot position; otherwise changes nothing and
/// returns `None`.
pub fn step<T: Copy, K: Fn(T) -> Option<i64>, N: Fn(T) -> T, F: Fn(Op, T, T) -> T>(
    t: &mut Matrix<T>,
    basis: &mut Vec<(usize, usize)>,
    f: &Field<T, K, N, F>,
) -> (p: Option<(usize, usize)>)
    requires
        f.wf(),
        old(t).wf(),
        old(t).nr() >= 1,
        old(t).ncols >= 1,
    ensures
        final(t).wf(),
        final(t).nr() == old(t).nr(),
        final(t).ncols == old(t).ncols,
        p is None <==> !f.not_optimal(old(t)@),
        p is None ==> final(t)@ == old(t)@ && final(basis)@ == old(basis)@,
        p matches Some(q) ==> {
            &&& q.1 as int == f.pivot_column(old(t)@)
            &&& q.0 as int == f.pivot_row(old(t)@, q.1 as int)
            &&& final(t)@ == f.pivoted(old(t)@, q.0 as int, q.1 as int)
            &&& final(basis)@ == updated_basis(old(basis)@, q.0, q.1)
        },
{
    if not_optimal(t, f) {
        let (pr, pc) = pivot(t, f);
        update_basis(basis, pr, pc);
        proof {
            t.lemma_view();
        }
        Some((pr, pc))
    } else {
        None
    }
}

} // verus!
