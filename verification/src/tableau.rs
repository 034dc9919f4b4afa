//! Building the big-M tableau from the problem
//! `optimise c·x subject to A x <= b, A_eq x = b_eq, x >= 0`.
use vstd::prelude::*;
use crate::field::{Field, Op, key_lt, key_le, key_less};
use crate::matrix::Matrix;

verus! {

/// The objective: maximise (`maximize`) or minimise `c·x`; `c` is one row.
pub struct Z<T> {
    pub maximize: bool,
    pub c: Matrix<T>,
}

/// The constraint matrices: `ineq` for `A x <= b`, `eq` for `A_eq x = b_eq`.
pub struct A<T> {
    pub ineq: Matrix<T>,
    pub eq: Matrix<T>,
}

/// The right-hand sides: columns `ineq` (`b`) and `eq` (`b_eq`).
pub struct B<T> {
    pub ineq: Matrix<T>,
    pub eq: Matrix<T>,
}

impl<T: Copy, K: Fn(T) -> Option<i64>, N: Fn(T) -> T, F: Fn(Op, T, T) -> T> Field<T, K, N, F> {
    /// The rows among the first `n` of `b` whose first entry is negative, in order.
    pub open spec fn negative_rows(&self, b: Matrix<T>, n: nat) -> Seq<int>
        decreases n,
    {
        if n == 0 {
            Seq::empty()
        } else {
            let s = self.negative_rows(b, (n - 1) as nat);
            if self.is_negative(b.at(n - 1, 0)) {
                s.push(n - 1)
            } else {
                s
            }
        }
    }

    /// The rows of `b.ineq` whose right-hand side is negative (the `>=` constraints).
    pub open spec fn geq_rows(&self, b: B<T>) -> Seq<int> {
        self.negative_rows(b.ineq, b.ineq.nr())
    }

    pub proof fn lemma_negative_rows(&self, b: Matrix<T>, n: nat)
        ensures
            self.negative_rows(b, n).len() <= n,
            forall|k: int|
                0 <= k < self.negative_rows(b, n).len() ==> 0 <= #[trigger] self.negative_rows(
                    b,
                    n,
                )[k] < n,
            forall|k: int|
                0 <= k < self.negative_rows(b, n).len() ==> self.is_negative(
                    b.at(#[trigger] self.negative_rows(b, n)[k], 0),
                ),
            forall|k1: int, k2: int|
                0 <= k1 < k2 < self.negative_rows(b, n).len() ==> #[trigger] self.negative_rows(
                    b,
                    n,
                )[k1] < #[trigger] self.negative_rows(b, n)[k2],
            forall|i: int|
                0 <= i < n && self.is_negative(b.at(i, 0)) ==> #[trigger] self.negative_rows(
                    b,
                    n,
                ).contains(i),
        decreases n,
    {
        if n > 0 {
            self.lemma_negative_rows(b, (n - 1) as nat);
            let s = self.negative_rows(b, (n - 1) as nat);
            if self.is_negative(b.at(n - 1, 0)) {
                assert forall|i: int|
                    0 <= i < n && self.is_negative(b.at(i, 0)) implies #[trigger] s.push(
                    n - 1,
                ).contains(i) by {
                    if i < n - 1 {
                        assert(s.contains(i));
                        let k = choose|k: int| 0 <= k < s.len() && s[k] == i;
                        assert(s.push(n - 1)[k] == i);
                    } else {
                        assert(s.push(n - 1)[s.len() as int] == i);
                    }
                }
            }
        }
    }
}

/// The `>=` artificial columns: one column for each row of `b.ineq` whose
/// right-hand side is negative, holding `-1` in that row and `0` elsewhere.
pub fn get_geq_artificials<T: Copy, K: Fn(T) -> Option<i64>, N: Fn(T) -> T, F: Fn(Op, T, T) -> T>(
    b: &B<T>,
    f: &Field<T, K, N, F>,
) -> (m: Matrix<T>)
    requires
        f.wf(),
        b.ineq.wf(),
        b.ineq.ncols >= 1 || b.ineq.nr() == 0,
    ensures
        m.wf(),
        m.nr() == b.ineq.nr(),
        m.ncols == f.geq_rows(*b).len(),
        forall|i: int, k: int|
            0 <= i < m.nr() && 0 <= k < m.ncols ==> #[trigger] m.at(i, k) == if f.geq_rows(*b)[k]
                == i {
                f.minus_one
            } else {
                f.zero
            },
{
    let n = b.ineq.nrows();
    let mut geq = Matrix::zeros(n, 0, f.zero);
    let zero_key = f.key(f.zero);
    let mut i: usize = 0;
    while i < n
        invariant
            f.wf(),
            b.ineq.wf(),
            b.ineq.ncols >= 1 || b.ineq.nr() == 0,
            n == b.ineq.nr(),
            zero_key == f.key_of(f.zero),
            i <= n,
            geq.wf(),
            geq.nr() == n,
            geq.ncols == f.negative_rows(b.ineq, i as nat).len(),
            forall|r: int, k: int|
                0 <= r < n && 0 <= k < geq.ncols ==> #[trigger] geq.at(r, k) == if f.negative_rows(
                    b.ineq,
                    i as nat,
                )[k] == r {
                    f.minus_one
                } else {
                    f.zero
                },
        decreases n - i,
    {
        proof {
            f.lemma_negative_rows(b.ineq, i as nat);
        }
        let v = b.ineq.get(i, 0);
        let k = f.key(v);
        let ghost old_rows = f.negative_rows(b.ineq, i as nat);
        let mut column = Matrix::zeros(n, 1, f.zero);
        let ghost zcol = column;
        if key_less(k, zero_key) {
            column.rows.set(i, crate::matrix::filled_row(1, f.minus_one));
            assert forall|r: int| 0 <= r < column.rows@.len() implies (#[trigger] column.rows@[r])@.len()
                == column.ncols by {}
            assert forall|r: int| 0 <= r < n implies #[trigger] column.at(r, 0) == if r == i {
                f.minus_one
            } else {
                f.zero
            } by {
                if r != i {
                    assert(column.rows@[r] == zcol.rows@[r]);
                    assert(zcol.at(r, 0) == f.zero);
                }
            }
            let ghost old_geq = geq;
            geq = geq.hcat(&column);
            assert(f.negative_rows(b.ineq, (i + 1) as nat) == old_rows.push(i as int));
            assert forall|r: int, k: int|
                0 <= r < n && 0 <= k < geq.ncols implies #[trigger] geq.at(r, k) == if f.negative_rows(
                    b.ineq,
                    (i + 1) as nat,
                )[k] == r {
                    f.minus_one
                } else {
                    f.zero
                } by {
                if k < old_geq.ncols {
                    assert(geq.at(r, k) == old_geq.at(r, k));
                } else {
                    assert(geq.at(r, k) == column.at(r, 0));
                }
            }
        } else {
            assert(f.negative_rows(b.ineq, (i + 1) as nat) == old_rows);
        }
        i += 1;
    }
    geq
}

/// Only equality constraints are given (`A` has no entries, `A_eq` has some).
pub open spec fn only_eq<T: Copy>(a: A<T>) -> bool {
    a.ineq.spec_is_empty() && !a.eq.spec_is_empty()
}

/// The number of decision variables: the width of the constraint matrix in use.
pub open spec fn n_vars<T: Copy>(a: A<T>) -> nat {
    if only_eq(a) {
        a.eq.ncols as nat
    } else {
        a.ineq.ncols as nat
    }
}

/// The number of constraint rows: `A` above `A_eq`.
pub open spec fn n_cons<T: Copy>(a: A<T>) -> nat {
    a.ineq.nr() + a.eq.nr()
}

/// The width of the right-hand side in use.
pub open spec fn n_rhs<T: Copy>(a: A<T>, b: B<T>) -> nat {
    if only_eq(a) {
        b.eq.ncols as nat
    } else {
        b.ineq.ncols as nat
    }
}

/// Row `i` of `A` above `A_eq`, entry `j`.
pub open spec fn stacked_a<T: Copy>(a: A<T>, i: int, j: int) -> T {
    if i < a.ineq.nr() {
        a.ineq.at(i, j)
    } else {
        a.eq.at(i - a.ineq.nr(), j)
    }
}

/// Row `i` of `b` above `b_eq`, entry `j`.
pub open spec fn stacked_b<T: Copy>(b: B<T>, i: int, j: int) -> T {
    if i < b.ineq.nr() {
        b.ineq.at(i, j)
    } else {
        b.eq.at(i - b.ineq.nr(), j)
    }
}

/// The shapes for which the constraint part of the tableau can be built:
/// the pieces that are joined agree in their number of rows or columns.
pub open spec fn shapes_agree<T: Copy>(a: A<T>, b: B<T>) -> bool {
    &&& a.ineq.wf() && a.eq.wf() && b.ineq.wf() && b.eq.wf()
    &&& if a.eq.spec_is_empty() {
        &&& a.eq.nr() == 0
        &&& b.ineq.ncols >= 1 || b.ineq.nr() == 0
        &&& b.ineq.nr() == a.ineq.nr()
    } else if a.ineq.spec_is_empty() {
        &&& a.ineq.nr() == 0
        &&& b.ineq.nr() == 0
        &&& b.eq.nr() == a.eq.nr()
    } else {
        &&& a.ineq.ncols == a.eq.ncols
        &&& b.ineq.ncols == b.eq.ncols
        &&& b.ineq.ncols >= 1 || b.ineq.nr() == 0
        &&& b.ineq.nr() == a.ineq.nr()
        &&& b.eq.nr() == a.eq.nr()
    }
    &&& a.ineq.ncols + a.eq.ncols + 2 * a.ineq.nr() + a.eq.nr() + b.ineq.ncols + b.eq.ncols
        <= usize::MAX
}

impl<T: Copy, K: Fn(T) -> Option<i64>, N: Fn(T) -> T, F: Fn(Op, T, T) -> T> Field<T, K, N, F> {
    /// Entry `(i, j)` of the constraint rows of the tableau
    /// `[A | I | G | b]` over `[A_eq | I | 0 | b_eq]`: the constraint
    /// coefficients, the identity (slack and equality artificial columns), the
    /// `>=` artificial columns `G`, and the right-hand sides.
    pub open spec fn bottom_entry(&self, a: A<T>, b: B<T>, i: int, j: int) -> T {
        let n = n_vars(a) as int;
        let r = n_cons(a) as int;
        let g = self.geq_rows(b).len() as int;
        if j < n {
            stacked_a(a, i, j)
        } else if j < n + r {
            if j - n == i {
                self.one
            } else {
                self.zero
            }
        } else if j < n + r + g {
            if self.geq_rows(b)[j - n - r] == i {
                self.minus_one
            } else {
                self.zero
            }
        } else {
            stacked_b(b, i, j - n - r - g)
        }
    }
}

/// The constraint rows of the tableau (see `Field::bottom_entry`).
pub fn get_tableu_bottom<T: Copy, K: Fn(T) -> Option<i64>, N: Fn(T) -> T, F: Fn(Op, T, T) -> T>(
    a: &A<T>,
    b: &B<T>,
    f: &Field<T, K, N, F>,
) -> (m: Matrix<T>)
    requires
        f.wf(),
        shapes_agree(*a, *b),
    ensures
        m.wf(),
        m.nr() == n_cons(*a),
        m.ncols == n_vars(*a) + n_cons(*a) + f.geq_rows(*b).len() + n_rhs(*a, *b),
        forall|i: int, j: int|
            0 <= i < m.nr() && 0 <= j < m.ncols ==> #[trigger] m.at(i, j) == f.bottom_entry(
                *a,
                *b,
                i,
                j,
            ),
{
    proof {
        f.lemma_negative_rows(b.ineq, b.ineq.nr());
    }
    let ri = a.ineq.nrows();
    let re = a.eq.nrows();
    let slacks_and_eq_arts = Matrix::eye(ri + re, f.zero, f.one);
    let mut geq_arts = Matrix::zeros(b.ineq.nrows(), 0, f.zero);
    let stacked_a_matrix: Matrix<T>;
    let stacked_b: Matrix<T>;
    let a_and_slacks_and_eq_arts: Matrix<T>;
    if a.eq.is_empty() {
        stacked_a_matrix = a.ineq.to_owned();
        stacked_b = b.ineq.to_owned();
        a_and_slacks_and_eq_arts = stacked_a_matrix.hcat(&slacks_and_eq_arts);
        geq_arts = get_geq_artificials(b, f);
    } else if a.ineq.is_empty() {
        stacked_a_matrix = a.eq.to_owned();
        stacked_b = b.eq.to_owned();
        a_and_slacks_and_eq_arts = stacked_a_matrix.hcat(&slacks_and_eq_arts);
    } else {
        stacked_a_matrix = a.ineq.vcat(&a.eq);
        stacked_b = b.ineq.vcat(&b.eq);
        a_and_slacks_and_eq_arts = stacked_a_matrix.hcat(&slacks_and_eq_arts);
        geq_arts = get_geq_artificials(b, f);
    }
    let stacked_geq_artificials = geq_arts.vcat(&Matrix::zeros(re, geq_arts.ncols, f.zero));
    let a_slacks_geq = a_and_slacks_and_eq_arts.hcat(&stacked_geq_artificials);
    let m = a_slacks_geq.hcat(&stacked_b);
    proof {
        f.lemma_negative_rows(b.ineq, b.ineq.nr());
        stacked_a_matrix.lemma_view();
        stacked_b.lemma_view();
        a.ineq.lemma_view();
        a.eq.lemma_view();
        b.ineq.lemma_view();
        b.eq.lemma_view();
        assert forall|i: int, j: int| 0 <= i < m.nr() && 0 <= j < m.ncols implies #[trigger] m.at(i, j)
            == f.bottom_entry(*a, *b, i, j) by {
            let n = n_vars(*a) as int;
            let r = n_cons(*a) as int;
            let g = geq_arts.ncols as int;
            if j < a_slacks_geq.ncols {
                assert(m.at(i, j) == a_slacks_geq.at(i, j));
                if j < a_and_slacks_and_eq_arts.ncols {
                    assert(a_slacks_geq.at(i, j) == a_and_slacks_and_eq_arts.at(i, j));
                    if j < n {
                        assert(a_and_slacks_and_eq_arts.at(i, j) == stacked_a_matrix.at(i, j));
                        if a.eq.spec_is_empty() {
                            assert(stacked_a_matrix@[i][j] == a.ineq@[i][j]);
                        } else if a.ineq.spec_is_empty() {
                            assert(stacked_a_matrix@[i][j] == a.eq@[i][j]);
                        }
                    } else {
                        assert(a_and_slacks_and_eq_arts.at(i, j) == slacks_and_eq_arts.at(i, j - n));
                    }
                } else {
                    assert(a_slacks_geq.at(i, j) == stacked_geq_artificials.at(i, j - n - r));
                    if i < geq_arts.nr() {
                        assert(stacked_geq_artificials.at(i, j - n - r) == geq_arts.at(i, j - n - r));
                    } else {
                        let k = j - n - r;
                        assert(0 <= f.geq_rows(*b)[k] < b.ineq.nr());
                    }
                }
            } else {
                assert(m.at(i, j) == stacked_b.at(i, j - n - r - g));
                if a.eq.spec_is_empty() {
                    assert(stacked_b@[i][j - n - r - g] == b.ineq@[i][j - n - r - g]);
                } else if a.ineq.spec_is_empty() {
                    assert(stacked_b@[i][j - n - r - g] == b.eq@[i][j - n - r - g]);
                }
            }
        }
    }
    m
}

impl<T: Copy, K: Fn(T) -> Option<i64>, N: Fn(T) -> T, F: Fn(Op, T, T) -> T> Field<T, K, N, F> {
    /// The number of columns of the tableau.
    pub open spec fn width(&self, a: A<T>, b: B<T>) -> nat {
        n_vars(a) + n_cons(a) + self.geq_rows(b).len() + n_rhs(a, b)
    }

    /// Entry `j` of the objective row: `c` (negated when maximising), then zeros.
    pub open spec fn objective_entry(&self, z: Z<T>, j: int) -> T {
        if j < z.c.ncols {
            if z.maximize {
                self.neg_of(z.c.at(0, j))
            } else {
                z.c.at(0, j)
            }
        } else {
            self.zero
        }
    }

    /// The tableau before the big-M terms: the objective row above the
    /// constraint rows.
    pub open spec fn original_rows(&self, z: Z<T>, a: A<T>, b: B<T>) -> Seq<Seq<T>> {
        Seq::new(
            1 + n_cons(a),
            |i: int|
                Seq::new(
                    self.width(a, b),
                    |j: int|
                        if i == 0 {
                            self.objective_entry(z, j)
                        } else {
                            self.bottom_entry(a, b, i - 1, j)
                        },
                ),
        )
    }
}

/// What the original tableau can be built from: the constraint pieces fit
/// together, `c` is one row, and no wider than the constraint part.
pub open spec fn problem_shapes_agree<T: Copy, K: Fn(T) -> Option<i64>, N: Fn(T) -> T, F: Fn(
    Op,
    T,
    T,
) -> T>(z: Z<T>, a: A<T>, b: B<T>, f: Field<T, K, N, F>) -> bool {
    &&& shapes_agree(a, b)
    &&& z.c.wf()
    &&& z.c.nr() == 1
    &&& z.c.ncols <= f.width(a, b)
}

/// `m` with every entry negated.
pub fn negated<T: Copy, K: Fn(T) -> Option<i64>, N: Fn(T) -> T, F: Fn(Op, T, T) -> T>(
    m: &Matrix<T>,
    f: &Field<T, K, N, F>,
) -> (r: Matrix<T>)
    requires
        f.wf(),
        m.wf(),
    ensures
        r.wf(),
        r.nr() == m.nr(),
        r.ncols == m.ncols,
        forall|i: int, j: int|
            0 <= i < m.nr() && 0 <= j < m.ncols ==> #[trigger] r.at(i, j) == f.neg_of(m.at(i, j)),
{
    let mut rows: Vec<Vec<T>> = Vec::new();
    let mut i: usize = 0;
    while i < m.rows.len()
        invariant
            f.wf(),
            m.wf(),
            i <= m.nr(),
            rows@.len() == i,
            forall|k: int| 0 <= k < i ==> (#[trigger] rows@[k])@.len() == m.ncols,
            forall|k: int, j: int|
                0 <= k < i && 0 <= j < m.ncols ==> #[trigger] rows@[k]@[j] == f.neg_of(m.at(k, j)),
        decreases m.nr() - i,
    {
        let mut row: Vec<T> = Vec::new();
        let mut j: usize = 0;
        while j < m.ncols
            invariant
                f.wf(),
                m.wf(),
                i < m.nr(),
                j <= m.ncols,
                row@.len() == j,
                forall|t: int| 0 <= t < j ==> #[trigger] row@[t] == f.neg_of(m.at(i as int, t)),
            decreases m.ncols - j,
        {
            row.push(f.neg(m.rows[i][j]));
            j += 1;
        }
        rows.push(row);
        i += 1;
    }
    Matrix { rows, ncols: m.ncols }
}

/// The tableau before the big-M terms: `[±c | 0]` above the constraint rows,
/// with `c` negated when maximising.
pub fn original_tableau<T: Copy, K: Fn(T) -> Option<i64>, N: Fn(T) -> T, F: Fn(Op, T, T) -> T>(
    z: &Z<T>,
    a: &A<T>,
    b: &B<T>,
    f: &Field<T, K, N, F>,
) -> (m: Matrix<T>)
    requires
        f.wf(),
        problem_shapes_agree(*z, *a, *b, *f),
    ensures
        m.wf(),
        m.ncols == f.width(*a, *b),
        m@ == f.original_rows(*z, *a, *b),
{
    let tableau_bottom = get_tableu_bottom(a, b, f);
    let objective = if z.maximize {
        negated(&z.c, f)
    } else {
        z.c.to_owned()
    };
    let padding = Matrix::zeros(1, tableau_bottom.ncols - z.c.ncols, f.zero);
    let tableau_top = objective.hcat(&padding);
    let tableau = tableau_top.vcat(&tableau_bottom);
    proof {
        tableau.lemma_view();
        objective.lemma_view();
        z.c.lemma_view();
        let t = f.original_rows(*z, *a, *b);
        assert forall|i: int| 0 <= i < t.len() implies #[trigger] tableau@[i] == t[i] by {
            assert forall|j: int| 0 <= j < t[i].len() implies tableau@[i][j] == t[i][j] by {
                if i == 0 {
                    assert(tableau.at(i, j) == tableau_top.at(0, j));
                    if j < z.c.ncols {
                        assert(tableau_top.at(0, j) == objective.at(0, j));
                        assert(objective@[0][j] == objective.at(0, j));
                        if !z.maximize {
                            assert(objective@[0][j] == z.c@[0][j]);
                        }
                    } else {
                        assert(tableau_top.at(0, j) == padding.at(0, j - z.c.ncols));
                    }
                } else {
                    assert(tableau.at(i, j) == tableau_bottom.at(i - 1, j));
                }
            }
            assert(tableau@[i] =~= t[i]);
        }
        assert(tableau@ =~= t);
    }
    tableau
}

/// Position `(i1, j1)` comes before `(i2, j2)` in row-major order.
pub open spec fn before(i1: int, j1: int, i2: int, j2: int) -> bool {
    i1 < i2 || (i1 == i2 && j1 < j2)
}

impl<T: Copy, K: Fn(T) -> Option<i64>, N: Fn(T) -> T, F: Fn(Op, T, T) -> T> Field<T, K, N, F> {
    /// Every entry of the `w`-column table `t` has an order key.
    pub open spec fn comparable(&self, t: Seq<Seq<T>>, w: int) -> bool {
        forall|i: int, j: int| 0 <= i < t.len() && 0 <= j < w ==> (#[trigger] self.key_of(t[i][j])) is Some
    }

    /// `p` holds a greatest entry of `t`, and no later entry (in row-major
    /// order) is as great: it is the last greatest entry.
    pub open spec fn is_last_max(&self, t: Seq<Seq<T>>, w: int, p: (int, int)) -> bool {
        &&& 0 <= p.0 < t.len()
        &&& 0 <= p.1 < w
        &&& forall|i: int, j: int|
            0 <= i < t.len() && 0 <= j < w && (i != p.0 || j != p.1) ==> {
                &&& before(i, j, p.0, p.1) ==> key_le(
                    #[trigger] self.key_of(t[i][j]),
                    self.key_of(t[p.0][p.1]),
                )
                &&& before(p.0, p.1, i, j) ==> key_lt(self.key_of(t[i][j]), self.key_of(t[p.0][p.1]))
            }
    }

    /// The position of the last greatest entry of `t`.
    pub open spec fn last_max(&self, t: Seq<Seq<T>>, w: int) -> (int, int) {
        choose|p: (int, int)| self.is_last_max(t, w, p)
    }

    /// There is one last greatest entry, where all entries compare or there is
    /// only one.
    pub proof fn lemma_last_max_unique(&self, t: Seq<Seq<T>>, w: int, p: (int, int), q: (int, int))
        requires
            self.is_last_max(t, w, p),
            self.is_last_max(t, w, q),
            self.comparable(t, w) || (t.len() == 1 && w == 1),
        ensures
            p == q,
    {
        if p != q {
            if t.len() == 1 && w == 1 {
            } else {
                assert(self.key_of(t[p.0][p.1]) is Some);
                assert(self.key_of(t[q.0][q.1]) is Some);
            }
        }
    }
}

/// The position of the last greatest entry of `m`, comparing entries by
/// their order keys.
pub fn max_position<T: Copy, K: Fn(T) -> Option<i64>, N: Fn(T) -> T, F: Fn(Op, T, T) -> T>(
    m: &Matrix<T>,
    f: &Field<T, K, N, F>,
) -> (p: (usize, usize))
    requires
        f.wf(),
        m.wf(),
        m.nr() >= 1,
        m.ncols >= 1,
        m.nr() > 1 || m.ncols > 1 ==> f.comparable(m@, m.ncols as int),
    ensures
        f.is_last_max(m@, m.ncols as int, (p.0 as int, p.1 as int)),
        (p.0 as int, p.1 as int) == f.last_max(m@, m.ncols as int),
{
    proof {
        m.lemma_view();
    }
    let ghost t = m@;
    let ghost w = m.ncols as int;
    let nr = m.nrows();
    let nc = m.ncols;
    let mut bi: usize = 0;
    let mut bj: usize = 0;
    let mut bk = f.key(m.get(0, 0));
    let mut i: usize = 0;
    while i < nr
        invariant
            f.wf(),
            m.wf(),
            t == m@,
            w == nc,
            nr == m.nr(),
            nc == m.ncols,
            nr >= 1,
            nc >= 1,
            m.nr() > 1 || m.ncols > 1 ==> f.comparable(m@, m.ncols as int),
            i <= nr,
            bi < nr,
            bj < nc,
            bk == f.key_of(t[bi as int][bj as int]),
            i > 0 ==> before(bi as int, bj as int, i as int, 0),
            i == 0 ==> (bi == 0 && bj == 0),
            forall|p: int, q: int|
                0 <= p < i && 0 <= q < w && (p != bi || q != bj) ==> {
                    &&& before(p, q, bi as int, bj as int) ==> key_le(
                        #[trigger] f.key_of(t[p][q]),
                        bk,
                    )
                    &&& before(bi as int, bj as int, p, q) ==> key_lt(f.key_of(t[p][q]), bk)
                },
        decreases nr - i,
    {
        let mut j: usize = 0;
        while j < nc
            invariant
                f.wf(),
                m.wf(),
                t == m@,
                w == nc,
                nr == m.nr(),
                nc == m.ncols,
                m.nr() > 1 || m.ncols > 1 ==> f.comparable(m@, m.ncols as int),
                i < nr,
                j <= nc,
                bi < nr,
                bj < nc,
                bk == f.key_of(t[bi as int][bj as int]),
                (i > 0 || j > 0) ==> before(bi as int, bj as int, i as int, j as int),
                (i == 0 && j == 0) ==> (bi == 0 && bj == 0),
                forall|p: int, q: int|
                    0 <= p < nr && 0 <= q < w && before(p, q, i as int, j as int) && (p != bi
                        || q != bj) ==> {
                        &&& before(p, q, bi as int, bj as int) ==> key_le(
                            #[trigger] f.key_of(t[p][q]),
                            bk,
                        )
                        &&& before(bi as int, bj as int, p, q) ==> key_lt(f.key_of(t[p][q]), bk)
                    },
            decreases nc - j,
        {
            if i > 0 || j > 0 {
                let k = f.key(m.get(i, j));
                proof {
                    assert(f.key_of(t[i as int][j as int]) is Some);
                    assert(f.key_of(t[bi as int][bj as int]) is Some);
                }
                if !key_less(k, bk) {
                    bi = i;
                    bj = j;
                    bk = k;
                }
            }
            j += 1;
        }
        i += 1;
    }
    proof {
        assert(f.is_last_max(t, w, (bi as int, bj as int)));
        let c = f.last_max(t, w);
        f.lemma_last_max_unique(t, w, c, (bi as int, bj as int));
    }
    (bi, bj)
}

/// `t` with the entries of row 0 in columns `start..end` set to `v`.
pub open spec fn filled<T>(t: Seq<Seq<T>>, start: int, end: int, v: T) -> Seq<Seq<T>> {
    t.update(0, Seq::new(t[0].len(), |j: int| if start <= j < end { v } else { t[0][j] }))
}

impl<T: Copy, K: Fn(T) -> Option<i64>, N: Fn(T) -> T, F: Fn(Op, T, T) -> T> Field<T, K, N, F> {
    /// `t` with every constraint row (every row but row 0) whose last entry
    /// is negative multiplied by `-1`, so that all right-hand sides are
    /// non-negative; a row at or below row `first_eq` (an equality) keeps its
    /// own artificial variable, in column `n + i - 1`, at `+1`. Row 0 is
    /// multiplied by `-1` too when `objective` holds and its last entry is
    /// negative.
    pub open spec fn signed(&self, t: Seq<Seq<T>>, first_eq: int, n: int, objective: bool) -> Seq<
        Seq<T>,
    > {
        Seq::new(
            t.len(),
            |i: int|
                if (i >= 1 || objective) && self.is_negative(t[i].last()) {
                    Seq::new(
                        t[i].len(),
                        |j: int|
                            if i >= first_eq && j == n + i - 1 {
                                t[i][j]
                            } else {
                                self.op_of(Op::Mul, t[i][j], self.minus_one)
                            },
                    )
                } else {
                    t[i]
                },
        )
    }

    /// Row 0 of `t` after adding, for each of the first `k` rows `r` listed
    /// in `rows`, `-r * big_m`: the artificial variable of row `r`, whose
    /// cost is `big_m`, is priced out of the objective row.
    pub open spec fn big_m_row(&self, t: Seq<Seq<T>>, rows: Seq<int>, k: nat, big_m: T) -> Seq<T>
        decreases k,
    {
        if k == 0 {
            t[0]
        } else {
            let r = self.big_m_row(t, rows, (k - 1) as nat, big_m);
            let p = t[rows[k - 1]];
            Seq::new(
                r.len(),
                |j: int| self.op_of(Op::Add, r[j], self.op_of(Op::Mul, self.neg_of(p[j]), big_m)),
            )
        }
    }

    /// The rows of the tableau that hold an artificial variable: the
    /// equality rows, then the rows of the `>=` constraints.
    pub open spec fn big_m_rows(&self, a: A<T>, b: B<T>) -> Seq<int> {
        Seq::new(a.eq.nr(), |k: int| a.ineq.nr() + 1 + k) + self.geq_rows(b).map_values(
            |r: int| r + 1,
        )
    }

    /// The big M: ten times the greatest entry of the original tableau.
    pub open spec fn big_m(&self, z: Z<T>, a: A<T>, b: B<T>) -> T {
        let t = self.original_rows(z, a, b);
        let p = self.last_max(t, self.width(a, b) as int);
        self.op_of(Op::Mul, t[p.0][p.1], self.ten)
    }

    /// The initial big-M tableau. The objective row holds the costs to be
    /// minimised (`-c` when maximising), so each artificial variable costs
    /// `M`: unless all constraints are `<=` with non-negative right-hand
    /// sides, the artificial columns of the objective row hold `M`. Every
    /// constraint row with a negative right-hand side is multiplied by `-1`,
    /// and so is the objective row when its last entry is negative and some
    /// `>=` constraint is present (see `signed`). Then `M` times each artificial row is subtracted from
    /// the objective row, so that the artificial variables start basic.
    pub open spec fn initialized(&self, z: Z<T>, a: A<T>, b: B<T>) -> Seq<Seq<T>> {
        self.initialized_with(z, a, b, self.big_m(z, a, b))
    }

    /// The initial big-M tableau (see `initialized`) for the big M `m`.
    pub open spec fn initialized_with(&self, z: Z<T>, a: A<T>, b: B<T>, m: T) -> Seq<Seq<T>> {
        let t0 = self.original_rows(z, a, b);
        let w = self.width(a, b) as int;
        let ng = self.geq_rows(b).len() as int;
        let ne = a.eq.nr() as int;
        let only_leq = ng + ne == 0;
        let t1 = if only_leq {
            t0
        } else {
            filled(t0, w - 1 - (ng + ne), w - 1, m)
        };
        let t2 = self.signed(t1, 1 + a.ineq.nr() as int, n_vars(a) as int, ng > 0);
        if only_leq {
            t2
        } else {
            let rows = self.big_m_rows(a, b);
            t2.update(0, self.big_m_row(t2, rows, rows.len(), m))
        }
    }
}

/// The number of `>=` constraints: rows of `b` with a negative right-hand side.
pub fn count_geq<T: Copy, K: Fn(T) -> Option<i64>, N: Fn(T) -> T, F: Fn(Op, T, T) -> T>(
    b: &B<T>,
    f: &Field<T, K, N, F>,
) -> (n: usize)
    requires
        f.wf(),
        b.ineq.wf(),
        b.ineq.ncols >= 1 || b.ineq.nr() == 0,
    ensures
        n == f.geq_rows(*b).len(),
{
    let zero_key = f.key(f.zero);
    let mut n: usize = 0;
    let mut i: usize = 0;
    while i < b.ineq.nrows()
        invariant
            f.wf(),
            b.ineq.wf(),
            b.ineq.ncols >= 1 || b.ineq.nr() == 0,
            zero_key == f.key_of(f.zero),
            i <= b.ineq.nr(),
            n == f.negative_rows(b.ineq, i as nat).len(),
            n <= i,
        decreases b.ineq.nr() - i,
    {
        let k = f.key(b.ineq.get(i, 0));
        if key_less(k, zero_key) {
            n += 1;
        }
        i += 1;
    }
    n
}

/// Sets the entries of row 0 in columns `start..end` to `v`.
pub fn fill_objective<T: Copy>(t: &mut Matrix<T>, start: usize, end: usize, v: T)
    requires
        old(t).wf(),
        old(t).nr() >= 1,
        end <= old(t).ncols,
    ensures
        final(t).wf(),
        final(t).ncols == old(t).ncols,
        final(t)@ == filled(old(t)@, start as int, end as int, v),
{
    proof {
        t.lemma_view();
    }
    let mut row = crate::matrix::copy_row(&t.rows[0]);
    let mut j = start;
    while j < end
        invariant
            start <= j,
            j <= end || j == start,
            end <= t.ncols,
            row@.len() == t.ncols,
            t.wf(),
            t.nr() >= 1,
            forall|c: int|
                0 <= c < t.ncols ==> #[trigger] row@[c] == if start <= c < j {
                    v
                } else {
                    t@[0][c]
                },
        decreases end - j,
    {
        row.set(j, v);
        j += 1;
    }
    let ghost before_rows = t@;
    proof {
        t.lemma_view();
        assert(row@ =~= Seq::new(before_rows[0].len(), |c: int| if start <= c < end { v } else { before_rows[0][c] }));
    }
    t.set_row(0, row);
}

/// Multiplies by `-1` every constraint row whose last entry is negative,
/// keeping the artificial variable of an equality row at `+1`, and row 0
/// too when `objective` holds and its last entry is negative (see
/// `Field::signed`).
pub fn flip_negative_rows<T: Copy, K: Fn(T) -> Option<i64>, N: Fn(T) -> T, F: Fn(Op, T, T) -> T>(
    t: &mut Matrix<T>,
    first_eq: usize,
    n: usize,
    objective: bool,
    f: &Field<T, K, N, F>,
)
    requires
        f.wf(),
        old(t).wf(),
        old(t).ncols >= 1,
    ensures
        final(t).wf(),
        final(t).nr() == old(t).nr(),
        final(t).ncols == old(t).ncols,
        final(t)@ == f.signed(old(t)@, first_eq as int, n as int, objective),
{
    let ghost t0 = t@;
    let ghost s = f.signed(t0, first_eq as int, n as int, objective);
    proof {
        t.lemma_view();
    }
    let zero_key = f.key(f.zero);
    let last = t.ncols - 1;
    let mut i: usize = 0;
    while i < t.nrows()
        invariant
            f.wf(),
            t.wf(),
            t.ncols == last + 1,
            t0.len() == t.nr(),
            s == f.signed(t0, first_eq as int, n as int, objective),
            forall|r: int| 0 <= r < t0.len() ==> (#[trigger] t0[r]).len() == t.ncols,
            zero_key == f.key_of(f.zero),
            i <= t.nr(),
            forall|r: int| 0 <= r < i ==> #[trigger] t@[r] == s[r],
            forall|r: int| i <= r < t.nr() ==> #[trigger] t@[r] == t0[r],
        decreases t.nr() - i,
    {
        proof {
            t.lemma_view();
        }
        let k = f.key(t.get(i, last));
        if (i >= 1 || objective) && key_less(k, zero_key) {
            let mut row: Vec<T> = Vec::new();
            let mut j: usize = 0;
            while j < t.ncols
                invariant
                    f.wf(),
                    t.wf(),
                    i < t.nr(),
                    j <= t.ncols,
                    row@.len() == j,
                    forall|c: int|
                        0 <= c < j ==> #[trigger] row@[c] == if i >= first_eq && c == n + i - 1 {
                            t.at(i as int, c)
                        } else {
                            f.op_of(Op::Mul, t.at(i as int, c), f.minus_one)
                        },
                decreases t.ncols - j,
            {
                let x = t.rows[i][j];
                if i >= first_eq && (j as u128) + 1 == (n as u128) + (i as u128) {
                    row.push(x);
                } else {
                    row.push(f.apply(Op::Mul, x, f.minus_one));
                }
                j += 1;
            }
            proof {
                assert(t@[i as int] == t0[i as int]);
                assert(row@ =~= s[i as int]);
            }
            t.set_row(i, row);
        } else {
            proof {
                assert(t@[i as int] == t0[i as int]);
                assert(t@[i as int] =~= s[i as int]);
            }
        }
        i += 1;
    }
    proof {
        t.lemma_view();
        assert(t@ =~= s);
    }
}

impl<T: Copy, K: Fn(T) -> Option<i64>, N: Fn(T) -> T, F: Fn(Op, T, T) -> T> Field<T, K, N, F> {
    pub proof fn lemma_big_m_rows_in_range(&self, a: A<T>, b: B<T>)
        requires
            shapes_agree(a, b),
        ensures
            forall|k: int|
                0 <= k < self.big_m_rows(a, b).len() ==> 1 <= #[trigger] self.big_m_rows(a, b)[k]
                    < 1 + n_cons(a),
    {
        self.lemma_negative_rows(b.ineq, b.ineq.nr());
        let rows = self.big_m_rows(a, b);
        let g = self.geq_rows(b);
        assert forall|k: int| 0 <= k < rows.len() implies 1 <= #[trigger] rows[k] < 1 + n_cons(a) by {
            if k >= a.eq.nr() {
                assert(rows[k] == g[k - a.eq.nr()] + 1);
            }
        }
    }
}

/// The rows that hold an artificial variable (see `Field::big_m_rows`).
pub fn big_m_pivot_rows<T: Copy, K: Fn(T) -> Option<i64>, N: Fn(T) -> T, F: Fn(Op, T, T) -> T>(
    a: &A<T>,
    b: &B<T>,
    f: &Field<T, K, N, F>,
) -> (rows: Vec<usize>)
    requires
        f.wf(),
        shapes_agree(*a, *b),
    ensures
        rows@.len() == f.big_m_rows(*a, *b).len(),
        forall|k: int| 0 <= k < rows@.len() ==> #[trigger] rows@[k] as int == f.big_m_rows(*a, *b)[k],
{
    proof {
        f.lemma_negative_rows(b.ineq, b.ineq.nr());
    }
    let mut rows: Vec<usize> = Vec::new();
    let start: usize = a.ineq.nrows() + 1;
    let end: usize = start + a.eq.nrows();
    let mut i: usize = start;
    while i < end
        invariant
            start <= i <= end,
            rows@.len() == i - start,
            forall|k: int| 0 <= k < rows@.len() ==> #[trigger] rows@[k] == start + k,
        decreases end - i,
    {
        rows.push(i);
        i += 1;
    }
    let ghost first = rows@.len();
    let zero_key = f.key(f.zero);
    let mut r: usize = 0;
    while r < b.ineq.nrows()
        invariant
            f.wf(),
            b.ineq.wf(),
            b.ineq.ncols >= 1 || b.ineq.nr() == 0,
            zero_key == f.key_of(f.zero),
            r <= b.ineq.nr(),
            b.ineq.nr() < usize::MAX,
            rows@.len() == first + f.negative_rows(b.ineq, r as nat).len(),
            forall|k: int| 0 <= k < first ==> #[trigger] rows@[k] == start + k,
            forall|k: int|
                0 <= k < f.negative_rows(b.ineq, r as nat).len() ==> #[trigger] rows@[first + k]
                    == f.negative_rows(b.ineq, r as nat)[k] + 1,
        decreases b.ineq.nr() - r,
    {
        let ghost prev = rows@;
        let k = f.key(b.ineq.get(r, 0));
        if key_less(k, zero_key) {
            rows.push(r + 1);
            assert forall|q: int|
                0 <= q < f.negative_rows(b.ineq, (r + 1) as nat).len() implies #[trigger] rows@[first
                + q] == f.negative_rows(b.ineq, (r + 1) as nat)[q] + 1 by {
                if q < f.negative_rows(b.ineq, r as nat).len() {
                    assert(rows@[first + q] == prev[first + q]);
                }
            }
        }
        r += 1;
    }
    proof {
        let want = f.big_m_rows(*a, *b);
        assert forall|k: int| 0 <= k < rows@.len() implies #[trigger] rows@[k] as int == want[k] by {
            if k >= first {
                assert(rows@[first + (k - first)] == f.geq_rows(*b)[k - first] + 1);
            }
        }
    }
    rows
}

/// Adds to row 0, for each row `r` listed in `rows` in turn, `-r * big_m`.
pub fn add_big_m_rows<T: Copy, K: Fn(T) -> Option<i64>, N: Fn(T) -> T, F: Fn(Op, T, T) -> T>(
    t: &mut Matrix<T>,
    rows: &Vec<usize>,
    big_m: T,
    f: &Field<T, K, N, F>,
)
    requires
        f.wf(),
        old(t).wf(),
        old(t).nr() >= 1,
        forall|k: int| 0 <= k < rows@.len() ==> 1 <= #[trigger] rows@[k] < old(t).nr(),
    ensures
        final(t).wf(),
        final(t).ncols == old(t).ncols,
        final(t)@ == old(t)@.update(
            0,
            f.big_m_row(
                old(t)@,
                rows@.map_values(|r: usize| r as int),
                rows@.len(),
                big_m,
            ),
        ),
{
    let ghost t0 = t@;
    let ghost rs = rows@.map_values(|r: usize| r as int);
    proof {
        t.lemma_view();
    }
    let mut k: usize = 0;
    while k < rows.len()
        invariant
            f.wf(),
            t.wf(),
            t.nr() == t0.len(),
            t.nr() >= 1,
            t.ncols == t0[0].len(),
            forall|q: int| 0 <= q < rows@.len() ==> 1 <= #[trigger] rows@[q] < t.nr(),
            rs == rows@.map_values(|r: usize| r as int),
            k <= rows@.len(),
            t@ == t0.update(0, f.big_m_row(t0, rs, k as nat, big_m)),
            f.big_m_row(t0, rs, k as nat, big_m).len() == t.ncols,
            forall|r: int| 0 <= r < t0.len() ==> (#[trigger] t0[r]).len() == t.ncols,
        decreases rows@.len() - k,
    {
        proof {
            t.lemma_view();
        }
        let p = rows[k];
        let mut row: Vec<T> = Vec::new();
        let mut j: usize = 0;
        while j < t.ncols
            invariant
                f.wf(),
                t.wf(),
                t.nr() >= 1,
                1 <= p < t.nr(),
                j <= t.ncols,
                row@.len() == j,
                forall|c: int|
                    0 <= c < j ==> #[trigger] row@[c] == f.op_of(
                        Op::Add,
                        t.at(0, c),
                        f.op_of(
                            Op::Mul,
                            f.neg_of(t.at(p as int, c)),
                            big_m,
                        ),
                    ),
            decreases t.ncols - j,
        {
            let pv = t.rows[p][j];
            let term = f.apply(Op::Mul, f.neg(pv), big_m);
            row.push(f.apply(Op::Add, t.rows[0][j], term));
            j += 1;
        }
        proof {
            assert(rs[k as int] == p as int);
            assert(t@[p as int] == t0[p as int]);
            let prev = f.big_m_row(t0, rs, k as nat, big_m);
            assert(t@[0] == prev);
            assert forall|c: int| 0 <= c < t.ncols implies #[trigger] row@[c] == f.big_m_row(
                t0,
                rs,
                (k + 1) as nat,
                big_m,
            )[c] by {
                assert(t.at(0, c) == t@[0][c]);
                assert(t.at(p as int, c) == t@[p as int][c]);
            }
            assert(row@ =~= f.big_m_row(t0, rs, (k + 1) as nat, big_m));
        }
        t.set_row(0, row);
        k += 1;
    }
}

/// The initial big-M tableau (see `Field::initialized`).
pub fn initialize<T: Copy, K: Fn(T) -> Option<i64>, N: Fn(T) -> T, F: Fn(Op, T, T) -> T>(
    z: &Z<T>,
    a: &A<T>,
    b: &B<T>,
    f: &Field<T, K, N, F>,
) -> (m: Matrix<T>)
    requires
        f.wf(),
        problem_shapes_agree(*z, *a, *b, *f),
        f.width(*a, *b) >= 1,
        n_cons(*a) > 0 || f.width(*a, *b) > 1 ==> f.comparable(
            f.original_rows(*z, *a, *b),
            f.width(*a, *b) as int,
        ),
    ensures
        m.wf(),
        m.ncols == f.width(*a, *b),
        m@ == f.initialized(*z, *a, *b),
{
    proof {
        f.lemma_negative_rows(b.ineq, b.ineq.nr());
        f.lemma_big_m_rows_in_range(*a, *b);
    }
    let original = original_tableau(z, a, b, f);
    proof {
        original.lemma_view();
    }
    let n_vars = if a.ineq.is_empty() && !a.eq.is_empty() {
        a.eq.ncols
    } else {
        a.ineq.ncols
    };
    let n_geq_ineqs = count_geq(b, f);
    let n_eqs = a.eq.nrows();
    let only_leq_constraints = n_geq_ineqs + n_eqs == 0;
    let ncols = original.ncols;
    let (pi, pj) = max_position(&original, f);
    let big_m = f.apply(Op::Mul, original.get(pi, pj), f.ten);
    let mut tableau = original;
    if !only_leq_constraints {
        let start = ncols - 1 - (n_geq_ineqs + n_eqs);
        fill_objective(&mut tableau, start, ncols - 1, big_m);
    }
    flip_negative_rows(&mut tableau, a.ineq.nrows() + 1, n_vars, n_geq_ineqs > 0, f);
    if !only_leq_constraints {
        proof {
            tableau.lemma_view();
        }
        let rows = big_m_pivot_rows(a, b, f);
        proof {
            assert(rows@.map_values(|r: usize| r as int) =~= f.big_m_rows(*a, *b));
        }
        add_big_m_rows(&mut tableau, &rows, big_m, f);
    }
    tableau
}

/// Whether the constraint pieces fit together (see `shapes_agree`).
pub fn check_shapes<T: Copy>(a: &A<T>, b: &B<T>) -> (r: bool)
    requires
        a.ineq.wf(),
        a.eq.wf(),
        b.ineq.wf(),
        b.eq.wf(),
    ensures
        r == shapes_agree(*a, *b),
{
    let ri = a.ineq.nrows();
    let re = a.eq.nrows();
    let fits = if a.eq.is_empty() {
        re == 0 && (b.ineq.ncols >= 1 || b.ineq.nrows() == 0) && b.ineq.nrows() == ri
    } else if a.ineq.is_empty() {
        ri == 0 && b.ineq.nrows() == 0 && b.eq.nrows() == re
    } else {
        a.ineq.ncols == a.eq.ncols && b.ineq.ncols == b.eq.ncols && (b.ineq.ncols >= 1
            || b.ineq.nrows() == 0) && b.ineq.nrows() == ri && b.eq.nrows() == re
    };
    let sizes: u128 = a.ineq.ncols as u128 + a.eq.ncols as u128 + 2 * (ri as u128) + re as u128
        + b.ineq.ncols as u128 + b.eq.ncols as u128;
    fits && sizes <= usize::MAX as u128
}

/// Whether every entry of `m` has an order key.
pub fn all_comparable<T: Copy, K: Fn(T) -> Option<i64>, N: Fn(T) -> T, F: Fn(Op, T, T) -> T>(
    m: &Matrix<T>,
    f: &Field<T, K, N, F>,
) -> (r: bool)
    requires
        f.wf(),
        m.wf(),
    ensures
        r == f.comparable(m@, m.ncols as int),
{
    proof {
        m.lemma_view();
    }
    let mut i: usize = 0;
    while i < m.nrows()
        invariant
            f.wf(),
            m.wf(),
            i <= m.nr(),
            forall|p: int, q: int| 0 <= p < i && 0 <= q < m.ncols ==> (#[trigger] f.key_of(m@[p][q])) is Some,
        decreases m.nr() - i,
    {
        let mut j: usize = 0;
        while j < m.ncols
            invariant
                f.wf(),
                m.wf(),
                i < m.nr(),
                j <= m.ncols,
                forall|p: int, q: int|
                    0 <= p < i && 0 <= q < m.ncols ==> (#[trigger] f.key_of(m@[p][q])) is Some,
                forall|q: int| 0 <= q < j ==> (#[trigger] f.key_of(m@[i as int][q])) is Some,
            decreases m.ncols - j,
        {
            if f.key(m.get(i, j)).is_none() {
                assert(m@[i as int][j as int] == m.at(i as int, j as int));
                return false;
            }
            j += 1;
        }
        i += 1;
    }
    true
}

} // verus!
