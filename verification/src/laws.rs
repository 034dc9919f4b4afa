//! Properties that hold across the operations of the big-M simplex method.
use vstd::prelude::*;
use crate::field::{Field, Op, key_lt, key_le, key_eq};
use crate::simplex::{lemma_scan_min, updated_basis};
use crate::matrix::Matrix;
use crate::tableau::{A, B, Z, n_cons, n_vars, filled, shapes_agree, before};

verus! {

/// With only `<=` constraints (one right-hand side column) and no negative
/// right-hand side there is no artificial variable: the big-M tableau is the
/// original tableau.
pub proof fn law_only_leq_tableau_unchanged<T: Copy, K: Fn(T) -> Option<i64>, N: Fn(T) -> T, F: Fn(
    Op,
    T,
    T,
) -> T>(f: Field<T, K, N, F>, z: Z<T>, a: A<T>, b: B<T>)
    requires
        shapes_agree(a, b),
        b.ineq.ncols == 1,
        f.geq_rows(b).len() == 0,
        a.eq.nr() == 0,
    ensures
        f.initialized(z, a, b) == f.original_rows(z, a, b),
{
    let t0 = f.original_rows(z, a, b);
    let w = f.width(a, b) as int;
    f.lemma_negative_rows(b.ineq, b.ineq.nr());
    assert forall|i: int| 1 <= i < t0.len() implies !f.is_negative(#[trigger] t0[i].last()) by {
        assert(t0[i].last() == t0[i][w - 1]);
        assert(t0[i][w - 1] == b.ineq.at(i - 1, 0));
        if f.is_negative(b.ineq.at(i - 1, 0)) {
            assert(f.geq_rows(b).contains(i - 1));
        }
    }
    assert(f.signed(t0, 1 + a.ineq.nr() as int, n_vars(a) as int, false) =~= t0);
}

/// The big-M terms change only the objective row: every constraint row of
/// the big-M tableau is the original one, multiplied by `-1` when its
/// right-hand side is negative (an equality keeping its artificial at `+1`).
pub proof fn law_constraint_rows_kept<T: Copy, K: Fn(T) -> Option<i64>, N: Fn(T) -> T, F: Fn(
    Op,
    T,
    T,
) -> T>(f: Field<T, K, N, F>, z: Z<T>, a: A<T>, b: B<T>, i: int)
    requires
        1 <= i < 1 + n_cons(a),
    ensures
        f.initialized(z, a, b)[i] == f.signed(
            f.original_rows(z, a, b),
            1 + a.ineq.nr() as int,
            n_vars(a) as int,
            f.geq_rows(b).len() > 0,
        )[i],
{
}

/// Maximising `c·x` gives the same big-M tableau as minimising `(-c)·x`.
pub proof fn law_maximize_is_minimize_negated<T: Copy, K: Fn(T) -> Option<i64>, N: Fn(T) -> T, F: Fn(
    Op,
    T,
    T,
) -> T>(f: Field<T, K, N, F>, c: Matrix<T>, negated_c: Matrix<T>, a: A<T>, b: B<T>)
    requires
        c.ncols == negated_c.ncols,
        forall|j: int| 0 <= j < c.ncols ==> #[trigger] negated_c.at(0, j) == f.neg_of(c.at(0, j)),
    ensures
        f.initialized(Z { maximize: true, c }, a, b) == f.initialized(
            Z { maximize: false, c: negated_c },
            a,
            b,
        ),
{
    let z1 = Z { maximize: true, c };
    let z2 = Z { maximize: false, c: negated_c };
    let t1 = f.original_rows(z1, a, b);
    let t2 = f.original_rows(z2, a, b);
    assert forall|i: int| 0 <= i < t1.len() implies #[trigger] t1[i] == t2[i] by {
        assert(t1[i] =~= t2[i]);
    }
    assert(t1 =~= t2);
}

/// When the tableau is not optimal, the entering column is one of the
/// columns of the objective row (but the last), and its cost is negative.
pub proof fn law_entering_cost_negative<T: Copy, K: Fn(T) -> Option<i64>, N: Fn(T) -> T, F: Fn(
    Op,
    T,
    T,
) -> T>(f: Field<T, K, N, F>, t: Seq<Seq<T>>)
    requires
        t.len() >= 1,
        t[0].len() >= 1,
        key_lt(f.key_of(f.zero), f.key_of(f.infinity)),
        f.not_optimal(t),
    ensures
        0 <= f.pivot_column(t) < t[0].len() - 1,
        f.is_negative(t[0][f.pivot_column(t)]),
{
    let ks = f.cost_keys(t);
    let bound = f.key_of(f.infinity);
    lemma_scan_min(ks, ks.len(), bound);
    let j = choose|j: int| 0 <= j < t[0].len() - 1 && f.is_negative(#[trigger] t[0][j]);
    assert(ks[j] == f.key_of(t[0][j]));
    assert(key_lt(ks[j], bound));
    let c = f.pivot_column(t);
    assert(key_le(ks[c], ks[j]));
    assert(ks[c] == f.key_of(t[0][c]));
}

/// The leaving row, unless it is the objective row (no ratio below
/// infinity), has a positive entry in the entering column, and its ratio of
/// right-hand side to that entry is the least of all such rows.
pub proof fn law_leaving_row_positive<T: Copy, K: Fn(T) -> Option<i64>, N: Fn(T) -> T, F: Fn(
    Op,
    T,
    T,
) -> T>(f: Field<T, K, N, F>, t: Seq<Seq<T>>, c: int)
    requires
        f.pivot_row(t, c) != 0,
    ensures
        1 <= f.pivot_row(t, c) < t.len(),
        f.is_positive(t[f.pivot_row(t, c)][c]),
        forall|i: int|
            1 <= i < t.len() && f.is_positive(t[i][c]) && key_lt(
                #[trigger] f.ratio_keys(t, c)[i],
                f.key_of(f.infinity),
            ) ==> key_le(f.ratio_keys(t, c)[f.pivot_row(t, c)], f.ratio_keys(t, c)[i]),
{
    let ks = f.ratio_keys(t, c);
    lemma_scan_min(ks, ks.len(), f.key_of(f.infinity));
    let r = f.pivot_row(t, c);
    assert(key_lt(ks[r], f.key_of(f.infinity)));
}

/// Updating the basis a second time with the same pivot changes nothing.
pub proof fn law_update_basis_idempotent(b: Seq<(usize, usize)>, pr: usize, pc: usize)
    ensures
        updated_basis(updated_basis(b, pr, pc), pr, pc) == updated_basis(b, pr, pc),
{
    assert(updated_basis(updated_basis(b, pr, pc), pr, pc) =~= updated_basis(b, pr, pc));
}

/// The big-M tableau has the shape of the original tableau: one objective
/// row above the constraint rows, every row as wide as the tableau.
pub proof fn law_initialized_shape<T: Copy, K: Fn(T) -> Option<i64>, N: Fn(T) -> T, F: Fn(
    Op,
    T,
    T,
) -> T>(f: Field<T, K, N, F>, z: Z<T>, a: A<T>, b: B<T>)
    ensures
        f.initialized(z, a, b).len() == 1 + n_cons(a),
        forall|i: int|
            0 <= i < 1 + n_cons(a) ==> (#[trigger] f.initialized(z, a, b)[i]).len() == f.width(a, b),
{
    let t0 = f.original_rows(z, a, b);
    let w = f.width(a, b) as int;
    let ng = f.geq_rows(b).len() as int;
    let ne = a.eq.nr() as int;
    let m = f.big_m(z, a, b);
    let t1 = if ng + ne == 0 {
        t0
    } else {
        filled(t0, w - 1 - (ng + ne), w - 1, m)
    };
    assert forall|i: int| 0 <= i < t1.len() implies (#[trigger] t1[i]).len() == w by {}
    let t2 = f.signed(t1, 1 + a.ineq.nr() as int, n_vars(a) as int, ng > 0);
    assert forall|i: int| 0 <= i < t2.len() implies (#[trigger] t2[i]).len() == w by {}
    if ng + ne != 0 {
        let rows = f.big_m_rows(a, b);
        lemma_big_m_row_len(f, t2, rows, rows.len(), m);
    }
}

proof fn lemma_big_m_row_len<T: Copy, K: Fn(T) -> Option<i64>, N: Fn(T) -> T, F: Fn(
    Op,
    T,
    T,
) -> T>(f: Field<T, K, N, F>, t: Seq<Seq<T>>, rows: Seq<int>, k: nat, big_m: T)
    ensures
        f.big_m_row(t, rows, k, big_m).len() == t[0].len(),
    decreases k,
{
    if k > 0 {
        lemma_big_m_row_len(f, t, rows, (k - 1) as nat, big_m);
    }
}

/// Pivoting keeps the shape of the tableau: the pivot row is divided by its
/// pivot entry, and every other row `r` becomes `r - p * r[pc]`.
pub proof fn law_pivot_keeps_shape<T: Copy, K: Fn(T) -> Option<i64>, N: Fn(T) -> T, F: Fn(
    Op,
    T,
    T,
) -> T>(f: Field<T, K, N, F>, t: Seq<Seq<T>>, w: nat, pr: int, pc: int)
    requires
        0 <= pr < t.len(),
        forall|i: int| 0 <= i < t.len() ==> (#[trigger] t[i]).len() == w,
    ensures
        f.pivoted(t, pr, pc).len() == t.len(),
        forall|i: int| 0 <= i < t.len() ==> (#[trigger] f.pivoted(t, pr, pc)[i]).len() == w,
{
}

/// Where the pivot entry divided by itself is `1`, and `y - 1 * y` is `0` for
/// the other entries `y` of the pivot column, pivoting turns the pivot
/// column into the unit column of the pivot row.
pub proof fn law_pivot_column_becomes_unit<T: Copy, K: Fn(T) -> Option<i64>, N: Fn(T) -> T, F: Fn(
    Op,
    T,
    T,
) -> T>(f: Field<T, K, N, F>, t: Seq<Seq<T>>, w: nat, pr: int, pc: int)
    requires
        0 <= pr < t.len(),
        0 <= pc < w,
        forall|i: int| 0 <= i < t.len() ==> (#[trigger] t[i]).len() == w,
        f.op_of(Op::Div, t[pr][pc], t[pr][pc]) == f.one,
        forall|i: int|
            0 <= i < t.len() && i != pr ==> f.op_of(
                Op::Sub,
                #[trigger] t[i][pc],
                f.op_of(Op::Mul, f.one, t[i][pc]),
            ) == f.zero,
    ensures
        f.pivoted(t, pr, pc)[pr][pc] == f.one,
        forall|i: int| 0 <= i < t.len() && i != pr ==> #[trigger] f.pivoted(t, pr, pc)[i][pc] == f.zero,
{
    assert(f.normalized_row(t, pr, pc)[pc] == f.one);
}

/// A column with `0` in the pivot row is left unchanged by pivoting, where
/// `0` divided by the pivot entry is `0` and each entry `y` of the column
/// satisfies `y - 0 * x == y` for its row's entry `x` of the pivot column:
/// the unit columns of the other basic variables stay unit columns.
pub proof fn law_pivot_keeps_zero_column<T: Copy, K: Fn(T) -> Option<i64>, N: Fn(T) -> T, F: Fn(
    Op,
    T,
    T,
) -> T>(f: Field<T, K, N, F>, t: Seq<Seq<T>>, w: nat, pr: int, pc: int, j: int)
    requires
        0 <= pr < t.len(),
        0 <= pc < w,
        0 <= j < w,
        forall|i: int| 0 <= i < t.len() ==> (#[trigger] t[i]).len() == w,
        t[pr][j] == f.zero,
        f.op_of(Op::Div, f.zero, t[pr][pc]) == f.zero,
        forall|i: int|
            0 <= i < t.len() && i != pr ==> f.op_of(
                Op::Sub,
                #[trigger] t[i][j],
                f.op_of(Op::Mul, f.zero, t[i][pc]),
            ) == t[i][j],
    ensures
        forall|i: int| 0 <= i < t.len() ==> #[trigger] f.pivoted(t, pr, pc)[i][j] == t[i][j],
{
    assert(f.normalized_row(t, pr, pc)[j] == f.zero);
}

impl<T: Copy, K: Fn(T) -> Option<i64>, N: Fn(T) -> T, F: Fn(Op, T, T) -> T> Field<T, K, N, F> {
    /// Every basis entry `(i, j)` names a row `i` below the objective row and
    /// a column `j` of `t`, and column `j`, below the objective row, is the
    /// unit column of row `i`.
    pub open spec fn basis_is_unit(&self, t: Seq<Seq<T>>, w: nat, b: Seq<(usize, usize)>) -> bool {
        forall|k: int, r: int|
            #![trigger b[k], t[r]]
            0 <= k < b.len() && 1 <= r < t.len() ==> {
                &&& 1 <= b[k].0 < t.len()
                &&& b[k].1 < w
                &&& t[r][b[k].1 as int] == if r == b[k].0 {
                    self.one
                } else {
                    self.zero
                }
            }
    }
}

/// A simplex step keeps the basis made of unit columns: if before pivoting on
/// `(pr, pc)` (a row below the objective row) every basis column is the unit
/// column of its row, then after pivoting, with the basis updated, every
/// basis column is again the unit column of its row. This holds where the
/// pivot entry divided by itself is `1` and `0` divided by it is `0`, and,
/// in every other row, `y - 1 * y` is `0` for its entry `y` of the pivot
/// column and `y - 0 * x` is `y` for its entry `y` of a basis column and its
/// entry `x` of the pivot column.
pub proof fn law_step_keeps_unit_basis<T: Copy, K: Fn(T) -> Option<i64>, N: Fn(T) -> T, F: Fn(
    Op,
    T,
    T,
) -> T>(f: Field<T, K, N, F>, t: Seq<Seq<T>>, w: nat, b: Seq<(usize, usize)>, pr: usize, pc: usize)
    requires
        1 <= pr < t.len(),
        pc < w,
        forall|i: int| 0 <= i < t.len() ==> (#[trigger] t[i]).len() == w,
        f.basis_is_unit(t, w, b),
        f.op_of(Op::Div, t[pr as int][pc as int], t[pr as int][pc as int]) == f.one,
        f.op_of(Op::Div, f.zero, t[pr as int][pc as int]) == f.zero,
        forall|r: int|
            0 <= r < t.len() && r != pr ==> f.op_of(
                Op::Sub,
                #[trigger] t[r][pc as int],
                f.op_of(Op::Mul, f.one, t[r][pc as int]),
            ) == f.zero,
        forall|r: int, k: int|
            0 <= r < t.len() && r != pr && 0 <= k < b.len() ==> f.op_of(
                Op::Sub,
                #[trigger] t[r][b[k].1 as int],
                f.op_of(Op::Mul, f.zero, t[r][pc as int]),
            ) == t[r][b[k].1 as int],
    ensures
        f.basis_is_unit(f.pivoted(t, pr as int, pc as int), w, updated_basis(b, pr, pc)),
{
    let t2 = f.pivoted(t, pr as int, pc as int);
    let b2 = updated_basis(b, pr, pc);
    let p = f.normalized_row(t, pr as int, pc as int);
    let s = t[pr as int][pc as int];
    assert forall|k: int, r: int| 0 <= k < b2.len() && 1 <= r < t2.len() implies {
        &&& 1 <= #[trigger] b2[k].0 < t2.len()
        &&& b2[k].1 < w
        &&& (#[trigger] t2[r])[b2[k].1 as int] == if r == b2[k].0 {
            f.one
        } else {
            f.zero
        }
    } by {
        assert(1 <= b[k].0 < t.len() && b[k].1 < w && t[pr as int][b[k].1 as int] == if pr
            == b[k].0 {
            f.one
        } else {
            f.zero
        });
        assert(t[r][b[k].1 as int] == if r == b[k].0 {
            f.one
        } else {
            f.zero
        });
        let j = b[k].1 as int;
        if b[k].0 == pr {
            assert(b2[k] == (pr, pc));
            assert(p[pc as int] == f.one);
        } else {
            assert(b2[k] == b[k]);
            assert(t[pr as int][j] == f.zero);
            if j == pc {
                assert(s == f.zero);
                assert(f.one == f.zero);
            }
            assert(p[j] == f.op_of(Op::Div, f.zero, s));
            assert(p[j] == f.zero);
            if r != pr {
                assert(t2[r][j] == f.op_of(Op::Sub, t[r][j], f.op_of(Op::Mul, f.zero, t[r][pc as int])));
            }
        }
    }
}

/// The leaving row is chosen by the least ratio of right-hand side to entry
/// in the entering column `c`, among the rows below the objective row whose
/// entry in `c` is positive: unless no such ratio is below infinity (then the
/// objective row 0 is returned), the chosen row has a positive entry, a ratio
/// below infinity that is no greater than that of any such row, and smaller
/// than that of every such row before it.
pub proof fn law_leaving_row_least_ratio<T: Copy, K: Fn(T) -> Option<i64>, N: Fn(T) -> T, F: Fn(
    Op,
    T,
    T,
) -> T>(f: Field<T, K, N, F>, t: Seq<Seq<T>>, w: nat, c: int)
    requires
        w >= 1,
        0 <= c < w,
        forall|i: int| 0 <= i < t.len() ==> (#[trigger] t[i]).len() == w,
    ensures
        0 <= f.pivot_row(t, c) && (t.len() > 0 ==> f.pivot_row(t, c) < t.len()),
        f.pivot_row(t, c) != 0 ==> {
            let pr = f.pivot_row(t, c);
            &&& f.is_positive(t[pr][c])
            &&& key_lt(
                f.key_of(f.op_of(Op::Div, t[pr][w - 1], t[pr][c])),
                f.key_of(f.infinity),
            )
        },
        forall|i: int|
            1 <= i < t.len() && f.is_positive(#[trigger] t[i][c]) && key_lt(
                f.key_of(f.op_of(Op::Div, t[i][w - 1], t[i][c])),
                f.key_of(f.infinity),
            ) ==> {
                let pr = f.pivot_row(t, c);
                &&& pr != 0
                &&& key_le(
                    f.key_of(f.op_of(Op::Div, t[pr][w - 1], t[pr][c])),
                    f.key_of(f.op_of(Op::Div, t[i][w - 1], t[i][c])),
                )
                &&& i < pr ==> key_lt(
                    f.key_of(f.op_of(Op::Div, t[pr][w - 1], t[pr][c])),
                    f.key_of(f.op_of(Op::Div, t[i][w - 1], t[i][c])),
                )
            },
{
    let ks = f.ratio_keys(t, c);
    let bound = f.key_of(f.infinity);
    lemma_scan_min(ks, ks.len(), bound);
    assert forall|i: int| 1 <= i < t.len() && f.is_positive(t[i][c]) implies ks[i] == f.key_of(
        f.op_of(Op::Div, t[i][w - 1], t[i][c]),
    ) by {}
    let pr = f.pivot_row(t, c);
    if pr != 0 {
        assert(key_lt(ks[pr], bound));
    }
    assert forall|i: int|
        1 <= i < t.len() && f.is_positive(#[trigger] t[i][c]) && key_lt(
            f.key_of(f.op_of(Op::Div, t[i][w - 1], t[i][c])),
            f.key_of(f.infinity),
        ) implies {
        &&& pr != 0
        &&& key_le(
            f.key_of(f.op_of(Op::Div, t[pr][w - 1], t[pr][c])),
            f.key_of(f.op_of(Op::Div, t[i][w - 1], t[i][c])),
        )
        &&& i < pr ==> key_lt(
            f.key_of(f.op_of(Op::Div, t[pr][w - 1], t[pr][c])),
            f.key_of(f.op_of(Op::Div, t[i][w - 1], t[i][c])),
        )
    } by {
        assert(key_lt(ks[i], bound));
        assert(pr != 0);
        assert(f.is_positive(t[pr][c]));
    }
}

/// The entering column is chosen by the least cost: among the columns of
/// the objective row but the last, whose cost is below infinity, it is the
/// first one of least cost; it is column 0 when there is none.
pub proof fn law_entering_column_least_cost<T: Copy, K: Fn(T) -> Option<i64>, N: Fn(T) -> T, F: Fn(
    Op,
    T,
    T,
) -> T>(f: Field<T, K, N, F>, t: Seq<Seq<T>>, w: nat)
    requires
        t.len() >= 1,
        w >= 1,
        t[0].len() == w,
    ensures
        0 <= f.pivot_column(t) && (w > 1 ==> f.pivot_column(t) < w - 1),
        forall|j: int|
            0 <= j < w - 1 && key_lt(f.key_of(#[trigger] t[0][j]), f.key_of(f.infinity)) ==> {
                let pc = f.pivot_column(t);
                &&& key_lt(f.key_of(t[0][pc]), f.key_of(f.infinity))
                &&& key_le(f.key_of(t[0][pc]), f.key_of(t[0][j]))
                &&& j < pc ==> key_lt(f.key_of(t[0][pc]), f.key_of(t[0][j]))
            },
        (forall|j: int| 0 <= j < w - 1 ==> !key_lt(f.key_of(#[trigger] t[0][j]), f.key_of(f.infinity)))
            ==> f.pivot_column(t) == 0,
{
    let ks = f.cost_keys(t);
    let bound = f.key_of(f.infinity);
    lemma_scan_min(ks, ks.len(), bound);
    assert forall|j: int| 0 <= j < w - 1 implies ks[j] == f.key_of(#[trigger] t[0][j]) by {}
    let pc = f.pivot_column(t);
    if w > 1 {
        assert(0 <= pc < w - 1 || pc == 0);
    }
    assert forall|j: int|
        0 <= j < w - 1 && key_lt(f.key_of(#[trigger] t[0][j]), f.key_of(f.infinity)) implies {
        &&& key_lt(f.key_of(t[0][pc]), f.key_of(f.infinity))
        &&& key_le(f.key_of(t[0][pc]), f.key_of(t[0][j]))
        &&& j < pc ==> key_lt(f.key_of(t[0][pc]), f.key_of(t[0][j]))
    } by {
        assert(key_lt(ks[j], bound));
        assert(ks[pc] == f.key_of(t[0][pc]));
    }
    if forall|j: int| 0 <= j < w - 1 ==> !key_lt(f.key_of(#[trigger] t[0][j]), f.key_of(f.infinity)) {
        assert forall|j: int| 0 <= j < ks.len() implies !key_lt(#[trigger] ks[j], bound) by {
            assert(ks[j] == f.key_of(t[0][j]));
        }
    }
}

/// `q` is the last greatest entry among the first `m` entries of row `i`.
pub open spec fn row_last_max<T: Copy, K: Fn(T) -> Option<i64>, N: Fn(T) -> T, F: Fn(Op, T, T) -> T>(
    f: Field<T, K, N, F>,
    t: Seq<Seq<T>>,
    i: int,
    m: int,
    q: int,
) -> bool {
    &&& 0 <= q < m
    &&& forall|j: int|
        0 <= j < m && j != q ==> {
            &&& j < q ==> key_le(f.key_of(#[trigger] t[i][j]), f.key_of(t[i][q]))
            &&& j > q ==> key_lt(f.key_of(t[i][j]), f.key_of(t[i][q]))
        }
}

/// `p` is the last greatest entry among the first `h` rows of the
/// `w`-column table `t`.
pub open spec fn rows_last_max<T: Copy, K: Fn(T) -> Option<i64>, N: Fn(T) -> T, F: Fn(Op, T, T) -> T>(
    f: Field<T, K, N, F>,
    t: Seq<Seq<T>>,
    w: int,
    h: int,
    p: (int, int),
) -> bool {
    &&& 0 <= p.0 < h
    &&& 0 <= p.1 < w
    &&& forall|i: int, j: int|
        0 <= i < h && 0 <= j < w && (i != p.0 || j != p.1) ==> {
            &&& before(i, j, p.0, p.1) ==> key_le(f.key_of(#[trigger] t[i][j]), f.key_of(t[p.0][p.1]))
            &&& before(p.0, p.1, i, j) ==> key_lt(f.key_of(t[i][j]), f.key_of(t[p.0][p.1]))
        }
}

proof fn lemma_row_last_max_exists<T: Copy, K: Fn(T) -> Option<i64>, N: Fn(T) -> T, F: Fn(
    Op,
    T,
    T,
) -> T>(f: Field<T, K, N, F>, t: Seq<Seq<T>>, w: int, i: int, m: int) -> (q: int)
    requires
        1 <= m <= w,
        0 <= i < t.len(),
        f.comparable(t, w),
    ensures
        row_last_max(f, t, i, m, q),
    decreases m,
{
    if m == 1 {
        0
    } else {
        let q0 = lemma_row_last_max_exists(f, t, w, i, m - 1);
        assert(f.key_of(t[i][m - 1]) is Some);
        assert(f.key_of(t[i][q0]) is Some);
        if key_lt(f.key_of(t[i][m - 1]), f.key_of(t[i][q0])) {
            q0
        } else {
            assert forall|j: int| 0 <= j < m && j != m - 1 implies key_le(
                f.key_of(#[trigger] t[i][j]),
                f.key_of(t[i][m - 1]),
            ) by {
                assert(f.key_of(t[i][j]) is Some);
            }
            m - 1
        }
    }
}

proof fn lemma_rows_last_max_exists<T: Copy, K: Fn(T) -> Option<i64>, N: Fn(T) -> T, F: Fn(
    Op,
    T,
    T,
) -> T>(f: Field<T, K, N, F>, t: Seq<Seq<T>>, w: int, h: int) -> (p: (int, int))
    requires
        1 <= h <= t.len(),
        w >= 1,
        f.comparable(t, w),
    ensures
        rows_last_max(f, t, w, h, p),
    decreases h,
{
    let q = lemma_row_last_max_exists(f, t, w, h - 1, w);
    if h == 1 {
        (0, q)
    } else {
        let p0 = lemma_rows_last_max_exists(f, t, w, h - 1);
        assert(f.key_of(t[h - 1][q]) is Some);
        assert(f.key_of(t[p0.0][p0.1]) is Some);
        if key_lt(f.key_of(t[h - 1][q]), f.key_of(t[p0.0][p0.1])) {
            assert forall|i: int, j: int|
                0 <= i < h && 0 <= j < w && (i != p0.0 || j != p0.1) implies {
                &&& before(i, j, p0.0, p0.1) ==> key_le(
                    f.key_of(#[trigger] t[i][j]),
                    f.key_of(t[p0.0][p0.1]),
                )
                &&& before(p0.0, p0.1, i, j) ==> key_lt(f.key_of(t[i][j]), f.key_of(t[p0.0][p0.1]))
            } by {
                if i == h - 1 {
                    assert(f.key_of(t[i][j]) is Some);
                }
            }
            p0
        } else {
            let p = (h - 1, q);
            assert forall|i: int, j: int| 0 <= i < h && 0 <= j < w && (i != p.0 || j != p.1) implies {
                &&& before(i, j, p.0, p.1) ==> key_le(f.key_of(#[trigger] t[i][j]), f.key_of(t[p.0][p.1]))
                &&& before(p.0, p.1, i, j) ==> key_lt(f.key_of(t[i][j]), f.key_of(t[p.0][p.1]))
            } by {
                assert(f.key_of(t[i][j]) is Some);
                if i < h - 1 && (i != p0.0 || j != p0.1) {
                    assert(before(i, j, p0.0, p0.1) || before(p0.0, p0.1, i, j));
                }
            }
            p
        }
    }
}

/// The big M of the initial tableau is ten times a greatest entry of the
/// whole original tableau, objective row included: there is an entry `x` of
/// the original tableau, no smaller than any of its entries, such that the
/// initial tableau is the one built with `M = x * 10`.
pub proof fn law_big_m_is_ten_times_greatest<T: Copy, K: Fn(T) -> Option<i64>, N: Fn(T) -> T, F: Fn(
    Op,
    T,
    T,
) -> T>(f: Field<T, K, N, F>, z: Z<T>, a: A<T>, b: B<T>)
    requires
        f.width(a, b) >= 1,
        f.comparable(f.original_rows(z, a, b), f.width(a, b) as int),
    ensures
        exists|i: int, j: int|
            0 <= i < 1 + n_cons(a) && 0 <= j < f.width(a, b) && (forall|i2: int, j2: int|
                0 <= i2 < 1 + n_cons(a) && 0 <= j2 < f.width(a, b) ==> key_le(
                    f.key_of(#[trigger] f.original_rows(z, a, b)[i2][j2]),
                    f.key_of(f.original_rows(z, a, b)[i][j]),
                )) && f.initialized(z, a, b) == f.initialized_with(
                z,
                a,
                b,
                f.op_of(Op::Mul, f.original_rows(z, a, b)[i][j], f.ten),
            ),
{
    let t0 = f.original_rows(z, a, b);
    let w = f.width(a, b) as int;
    let q = lemma_rows_last_max_exists(f, t0, w, t0.len() as int);
    assert(f.is_last_max(t0, w, q));
    let p = f.last_max(t0, w);
    assert(f.is_last_max(t0, w, p));
    assert forall|i2: int, j2: int| 0 <= i2 < 1 + n_cons(a) && 0 <= j2 < w implies key_le(
        f.key_of(#[trigger] t0[i2][j2]),
        f.key_of(t0[p.0][p.1]),
    ) by {
        if i2 != p.0 || j2 != p.1 {
            assert(before(i2, j2, p.0, p.1) || before(p.0, p.1, i2, j2));
        } else {
            assert(f.key_of(t0[i2][j2]) is Some);
        }
    }
}

/// The `>=` artificial columns of the constraint rows: the `k`-th of them
/// (column `n + r + k`, after the variables and the identity) holds `-1` in
/// exactly one row, a row of `A` whose right-hand side in `b` is negative,
/// and `0` in every other row, every equality row included. The rows so
/// marked are, in order, all the rows of `b` with a negative right-hand side.
pub proof fn law_geq_artificial_columns<T: Copy, K: Fn(T) -> Option<i64>, N: Fn(T) -> T, F: Fn(
    Op,
    T,
    T,
) -> T>(f: Field<T, K, N, F>, a: A<T>, b: B<T>)
    requires
        shapes_agree(a, b),
    ensures
        forall|k: int, i: int|
            #![trigger f.bottom_entry(a, b, i, n_vars(a) + n_cons(a) + k)]
            0 <= k < f.geq_rows(b).len() && 0 <= i < n_cons(a) ==> {
                &&& 0 <= f.geq_rows(b)[k] < a.ineq.nr()
                &&& f.is_negative(b.ineq.at(f.geq_rows(b)[k], 0))
                &&& f.bottom_entry(a, b, i, n_vars(a) + n_cons(a) + k) == if i == f.geq_rows(b)[k] {
                    f.minus_one
                } else {
                    f.zero
                }
                &&& i >= a.ineq.nr() ==> f.bottom_entry(a, b, i, n_vars(a) + n_cons(a) + k) == f.zero
            },
        forall|k1: int, k2: int|
            0 <= k1 < k2 < f.geq_rows(b).len() ==> #[trigger] f.geq_rows(b)[k1] < #[trigger] f.geq_rows(
                b,
            )[k2],
        forall|i: int|
            0 <= i < a.ineq.nr() && f.is_negative(b.ineq.at(i, 0)) ==> #[trigger] f.geq_rows(
                b,
            ).contains(i),
{
    f.lemma_negative_rows(b.ineq, b.ineq.nr());
}

/// The rows whose big-M multiples are subtracted from the objective row are
/// exactly the rows that hold an artificial variable, each once: first each
/// equality row, whose identity column holds `1`, then, in order, each row of
/// a `>=` constraint (a row of `A` whose right-hand side in `b` is
/// negative), whose `>=` artificial column holds `-1`.
pub proof fn law_priced_rows_hold_artificials<T: Copy, K: Fn(T) -> Option<i64>, N: Fn(T) -> T, F: Fn(
    Op,
    T,
    T,
) -> T>(f: Field<T, K, N, F>, a: A<T>, b: B<T>)
    requires
        shapes_agree(a, b),
    ensures
        f.big_m_rows(a, b).len() == a.eq.nr() + f.geq_rows(b).len(),
        forall|k: int|
            0 <= k < a.eq.nr() ==> {
                let r = #[trigger] f.big_m_rows(a, b)[k];
                &&& r == a.ineq.nr() + 1 + k
                &&& f.bottom_entry(a, b, r - 1, n_vars(a) + r - 1) == f.one
            },
        forall|k: int|
            0 <= k < f.geq_rows(b).len() ==> {
                let r = #[trigger] f.big_m_rows(a, b)[a.eq.nr() + k];
                &&& 1 <= r <= a.ineq.nr()
                &&& f.is_negative(b.ineq.at(r - 1, 0))
                &&& f.bottom_entry(a, b, r - 1, n_vars(a) + n_cons(a) + k) == f.minus_one
            },
        forall|k1: int, k2: int|
            0 <= k1 < k2 < f.big_m_rows(a, b).len() ==> #[trigger] f.big_m_rows(a, b)[k1]
                != #[trigger] f.big_m_rows(a, b)[k2],
        forall|i: int|
            0 <= i < a.ineq.nr() && f.is_negative(b.ineq.at(i, 0)) ==> #[trigger] f.big_m_rows(
                a,
                b,
            ).contains(i + 1),
{
    f.lemma_negative_rows(b.ineq, b.ineq.nr());
    let rows = f.big_m_rows(a, b);
    let g = f.geq_rows(b);
    let ne = a.eq.nr() as int;
    assert forall|k: int| 0 <= k < g.len() implies {
        let r = #[trigger] rows[ne + k];
        &&& 1 <= r <= a.ineq.nr()
        &&& f.is_negative(b.ineq.at(r - 1, 0))
        &&& f.bottom_entry(a, b, r - 1, n_vars(a) + n_cons(a) + k) == f.minus_one
    } by {
        assert(rows[ne + k] == g[k] + 1);
    }
    assert forall|k1: int, k2: int| 0 <= k1 < k2 < rows.len() implies #[trigger] rows[k1]
        != #[trigger] rows[k2] by {
        if k1 >= ne {
            assert(rows[k1] == g[k1 - ne] + 1);
            assert(rows[k2] == g[k2 - ne] + 1);
        } else if k2 >= ne {
            assert(rows[k2] == g[k2 - ne] + 1);
        }
    }
    assert forall|i: int| 0 <= i < a.ineq.nr() && f.is_negative(b.ineq.at(i, 0)) implies #[trigger] rows.contains(
        i + 1,
    ) by {
        assert(g.contains(i));
        let k = choose|k: int| 0 <= k < g.len() && g[k] == i;
        assert(rows[ne + k] == i + 1);
    }
}

proof fn lemma_count_le<T: Copy, K: Fn(T) -> Option<i64>, N: Fn(T) -> T, F: Fn(Op, T, T) -> T>(
    f: Field<T, K, N, F>,
    s: Seq<T>,
    v: T,
    n: nat,
)
    ensures
        f.count_equal(s, v, n) <= n,
    decreases n,
{
    if n > 0 {
        lemma_count_le(f, s, v, (n - 1) as nat);
    }
}

proof fn lemma_count_full<T: Copy, K: Fn(T) -> Option<i64>, N: Fn(T) -> T, F: Fn(Op, T, T) -> T>(
    f: Field<T, K, N, F>,
    s: Seq<T>,
    v: T,
    n: nat,
)
    requires
        n <= s.len(),
        f.count_equal(s, v, n) == n,
    ensures
        forall|x: int| 0 <= x < n ==> key_eq(f.key_of(#[trigger] s[x]), f.key_of(v)),
    decreases n,
{
    if n > 0 {
        lemma_count_le(f, s, v, (n - 1) as nat);
        lemma_count_full(f, s, v, (n - 1) as nat);
    }
}

proof fn lemma_count_missing<T: Copy, K: Fn(T) -> Option<i64>, N: Fn(T) -> T, F: Fn(Op, T, T) -> T>(
    f: Field<T, K, N, F>,
    s: Seq<T>,
    v: T,
    n: nat,
    q: int,
)
    requires
        0 <= q < n,
        !key_eq(f.key_of(s[q]), f.key_of(v)),
    ensures
        f.count_equal(s, v, n) <= n - 1,
    decreases n,
{
    lemma_count_le(f, s, v, (n - 1) as nat);
    if q < n - 1 {
        lemma_count_missing(f, s, v, (n - 1) as nat, q);
    }
}

proof fn lemma_count_all_but_one<T: Copy, K: Fn(T) -> Option<i64>, N: Fn(T) -> T, F: Fn(
    Op,
    T,
    T,
) -> T>(f: Field<T, K, N, F>, s: Seq<T>, v: T, n: nat, q: int)
    requires
        0 <= q < n,
        n <= s.len(),
        !key_eq(f.key_of(s[q]), f.key_of(v)),
        f.count_equal(s, v, n) == n - 1,
    ensures
        forall|x: int| 0 <= x < n && x != q ==> key_eq(f.key_of(#[trigger] s[x]), f.key_of(v)),
    decreases n,
{
    lemma_count_le(f, s, v, (n - 1) as nat);
    if q == n - 1 {
        lemma_count_full(f, s, v, (n - 1) as nat);
    } else {
        lemma_count_missing(f, s, v, (n - 1) as nat, q);
        lemma_count_all_but_one(f, s, v, (n - 1) as nat, q);
    }
}

proof fn lemma_ones_in_column<T: Copy, K: Fn(T) -> Option<i64>, N: Fn(T) -> T, F: Fn(Op, T, T) -> T>(
    f: Field<T, K, N, F>,
    t: Seq<Seq<T>>,
    j: int,
    n: nat,
)
    ensures
        forall|k: int|
            0 <= k < f.ones_in_column(t, j, n).len() ==> {
                let e = #[trigger] f.ones_in_column(t, j, n)[k];
                &&& 1 <= e.0 < n
                &&& e.1 == j
                &&& key_eq(f.key_of(t[e.0][j]), f.key_of(f.one))
            },
    decreases n,
{
    if n > 1 {
        lemma_ones_in_column(f, t, j, (n - 1) as nat);
    }
}

proof fn lemma_basis_upto<T: Copy, K: Fn(T) -> Option<i64>, N: Fn(T) -> T, F: Fn(Op, T, T) -> T>(
    f: Field<T, K, N, F>,
    t: Seq<Seq<T>>,
    m: nat,
)
    ensures
        forall|k: int|
            0 <= k < f.basis_upto(t, m).len() ==> {
                let e = #[trigger] f.basis_upto(t, m)[k];
                &&& 1 <= e.0 < t.len()
                &&& 0 <= e.1 < m
                &&& key_eq(f.key_of(t[e.0][e.1]), f.key_of(f.one))
                &&& f.is_basic(f.column_below(t, e.1))
            },
    decreases m,
{
    if m > 0 {
        lemma_basis_upto(f, t, (m - 1) as nat);
        lemma_ones_in_column(f, t, m - 1, t.len());
        let prev = f.basis_upto(t, (m - 1) as nat);
        let all = f.basis_upto(t, m);
        assert forall|k: int| 0 <= k < all.len() implies {
            let e = #[trigger] all[k];
            &&& 1 <= e.0 < t.len()
            &&& 0 <= e.1 < m
            &&& key_eq(f.key_of(t[e.0][e.1]), f.key_of(f.one))
            &&& f.is_basic(f.column_below(t, e.1))
        } by {
            if k < prev.len() {
                assert(all[k] == prev[k]);
            } else {
                assert(f.is_basic(f.column_below(t, m - 1)));
                assert(all[k] == f.ones_in_column(t, m - 1, t.len())[k - prev.len()]);
            }
        }
    }
}

/// Every entry `(i, j)` of the initial basis names a row `i` below the
/// objective row and a variable column `j` (never the right-hand side), and
/// column `j`, below the objective row, is the unit column of row `i`: `1`
/// in row `i`, `0` in every other row. (This needs `1` and `0` to compare
/// unequal.)
pub proof fn law_initial_basis_unit_columns<T: Copy, K: Fn(T) -> Option<i64>, N: Fn(T) -> T, F: Fn(
    Op,
    T,
    T,
) -> T>(f: Field<T, K, N, F>, t: Seq<Seq<T>>, w: nat)
    requires
        t.len() >= 1,
        w >= 1,
        forall|i: int| 0 <= i < t.len() ==> (#[trigger] t[i]).len() == w,
        f.key_of(f.one) != f.key_of(f.zero),
    ensures
        forall|k: int|
            0 <= k < f.initial_basis(t, w).len() ==> {
                let e = #[trigger] f.initial_basis(t, w)[k];
                &&& 1 <= e.0 < t.len()
                &&& 0 <= e.1 < w - 1
                &&& key_eq(f.key_of(t[e.0][e.1]), f.key_of(f.one))
                &&& forall|r: int|
                    1 <= r < t.len() && r != e.0 ==> key_eq(f.key_of(#[trigger] t[r][e.1]), f.key_of(f.zero))
            },
{
    let bs = f.initial_basis(t, w);
    lemma_basis_upto(f, t, (w - 1) as nat);
    assert forall|k: int| 0 <= k < bs.len() implies {
        let e = #[trigger] bs[k];
        &&& 1 <= e.0 < t.len()
        &&& 0 <= e.1 < w - 1
        &&& key_eq(f.key_of(t[e.0][e.1]), f.key_of(f.one))
        &&& forall|r: int|
            1 <= r < t.len() && r != e.0 ==> key_eq(f.key_of(#[trigger] t[r][e.1]), f.key_of(f.zero))
    } by {
        let e = bs[k];
        let col = f.column_below(t, e.1);
        assert(col[e.0 - 1] == t[e.0][e.1]);
        assert(!key_eq(f.key_of(col[e.0 - 1]), f.key_of(f.zero)));
        lemma_count_all_but_one(f, col, f.zero, col.len(), e.0 - 1);
        assert forall|r: int| 1 <= r < t.len() && r != e.0 implies key_eq(
            f.key_of(#[trigger] t[r][e.1]),
            f.key_of(f.zero),
        ) by {
            assert(col[r - 1] == t[r][e.1]);
        }
    }
}

} // verus!
