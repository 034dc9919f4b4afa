use simplex::field::{Field, Op};
use simplex::matrix::{column_matrix, matrix_from_rows, push_row, row_matrix, Matrix, RowsError};
use simplex::simplex::{
    argmin, initialize_basis, is_basic, not_optimal, pivot, pivot_indexes, step, update_basis,
};
use simplex::tableau::{add_big_m_rows, fill_objective, flip_negative_rows, negated};
use simplex::tableau::{
    all_comparable, big_m_pivot_rows, check_shapes, count_geq, get_geq_artificials,
    get_tableu_bottom, initialize, max_position, original_tableau, A, B, Z,
};

type F64Field = Field<f64, fn(f64) -> Option<i64>, fn(f64) -> f64, fn(Op, f64, f64) -> f64>;

fn order_key(x: f64) -> Option<i64> {
    if x.is_nan() {
        return None;
    }
    let bits = x.to_bits() as i64;
    Some(if bits < 0 { -(bits & i64::MAX) } else { bits })
}

fn negate(x: f64) -> f64 {
    -x
}

fn arith(op: Op, x: f64, y: f64) -> f64 {
    match op {
        Op::Add => x + y,
        Op::Sub => x - y,
        Op::Mul => x * y,
        Op::Div => x / y,
    }
}

fn field() -> F64Field {
    Field {
        zero: 0.0,
        one: 1.0,
        minus_one: -1.0,
        ten: 10.0,
        infinity: f64::INFINITY,
        key: order_key,
        neg: negate,
        arith,
    }
}

fn mat(rows: Vec<Vec<f64>>) -> Matrix<f64> {
    matrix_from_rows(rows)
}

fn empty() -> Matrix<f64> {
    Matrix { rows: Vec::new(), ncols: 0 }
}

/// max 3x + 5y, x <= 4, 2y <= 12, 3x + 2y <= 18.
fn problem_max() -> (Z<f64>, A<f64>, B<f64>) {
    (
        Z { maximize: true, c: mat(vec![vec![3.0, 5.0]]) },
        A { ineq: mat(vec![vec![1.0, 0.0], vec![0.0, 2.0], vec![3.0, 2.0]]), eq: empty() },
        B { ineq: column_matrix(vec![4.0, 12.0, 18.0]), eq: empty() },
    )
}

/// min 2x + 3y, x + y >= 4, x + 3y >= 6, x <= 10 (the >= rows multiplied by -1).
fn problem_min() -> (Z<f64>, A<f64>, B<f64>) {
    (
        Z { maximize: false, c: mat(vec![vec![2.0, 3.0]]) },
        A { ineq: mat(vec![vec![-1.0, -1.0], vec![-1.0, -3.0], vec![1.0, 0.0]]), eq: empty() },
        B { ineq: column_matrix(vec![-4.0, -6.0, 10.0]), eq: empty() },
    )
}

/// max x + y, x + 2y <= 4, x - y = 1.
fn problem_eq() -> (Z<f64>, A<f64>, B<f64>) {
    (
        Z { maximize: true, c: mat(vec![vec![1.0, 1.0]]) },
        A { ineq: mat(vec![vec![1.0, 2.0]]), eq: mat(vec![vec![1.0, -1.0]]) },
        B { ineq: column_matrix(vec![4.0]), eq: column_matrix(vec![1.0]) },
    )
}

fn solve(z: &Z<f64>, a: &A<f64>, b: &B<f64>) -> (Matrix<f64>, Vec<(usize, usize)>, usize) {
    let f = field();
    let mut t = initialize(z, a, b, &f);
    let mut basis = initialize_basis(&t, &f);
    let mut iterations = 0;
    while step(&mut t, &mut basis, &f).is_some() {
        iterations += 1;
    }
    (t, basis, iterations)
}

#[test]
fn max_problem_reaches_optimum() {
    let (z, a, b) = problem_max();
    let (t, basis, iterations) = solve(&z, &a, &b);
    let third = 0.3333333333333333;
    assert_eq!(
        t.rows,
        vec![
            vec![0.0, 0.0, 0.0, 1.5, 1.0, 36.0],
            vec![0.0, 0.0, 1.0, third, -third, 2.0],
            vec![0.0, 1.0, 0.0, 0.5, 0.0, 6.0],
            vec![1.0, 0.0, 0.0, -third, third, 2.0],
        ]
    );
    assert_eq!(basis, vec![(1, 2), (2, 1), (3, 0)]);
    assert_eq!(iterations, 2);
}

#[test]
fn min_problem_with_geq_constraints() {
    let (z, a, b) = problem_min();
    let f = field();
    let t = initialize(&z, &a, &b, &f);
    assert_eq!(
        t.rows,
        vec![
            vec![-198.0, -397.0, 100.0, 100.0, 0.0, 0.0, 0.0, -1000.0],
            vec![1.0, 1.0, -1.0, 0.0, 0.0, 1.0, 0.0, 4.0],
            vec![1.0, 3.0, 0.0, -1.0, 0.0, 0.0, 1.0, 6.0],
            vec![1.0, 0.0, 0.0, 0.0, 1.0, 0.0, 0.0, 10.0],
        ]
    );
    let (t, basis, iterations) = solve(&z, &a, &b);
    assert_eq!(
        t.rows[0],
        vec![0.0, 0.0, 1.4999999999999858, 0.5000000000000213, 0.0, 98.50000000000001, 99.49999999999997, -8.999999999999972]
    );
    assert_eq!(t.rows[1][7], 2.9999999999999996);
    assert_eq!(t.rows[2][7], 1.0000000000000002);
    assert_eq!(t.rows[3][7], 7.0);
    assert_eq!(basis, vec![(3, 4), (1, 0), (2, 1)]);
    assert_eq!(iterations, 2);
}

#[test]
fn problem_with_equality() {
    let (z, a, b) = problem_eq();
    let f = field();
    let t = initialize(&z, &a, &b, &f);
    assert_eq!(
        t.rows,
        vec![
            vec![-41.0, 39.0, 0.0, 0.0, -40.0],
            vec![1.0, 2.0, 1.0, 0.0, 4.0],
            vec![1.0, -1.0, 0.0, 1.0, 1.0],
        ]
    );
    let (t, basis, iterations) = solve(&z, &a, &b);
    let third = 0.3333333333333333;
    assert_eq!(
        t.rows,
        vec![
            vec![0.0, 0.0, 0.6666666666666666, 40.333333333333336, 3.0],
            vec![0.0, 1.0, third, -third, 1.0],
            vec![1.0, 0.0, third, 0.6666666666666667, 2.0],
        ]
    );
    // x = 2, y = 1, optimum 3
    assert_eq!(basis, vec![(1, 1), (2, 0)]);
    assert_eq!(iterations, 2);
}

fn one_var(maximize: bool, c: f64, ineq: Vec<f64>, b: Vec<f64>, eq: Vec<f64>, b_eq: Vec<f64>) -> (Z<f64>, A<f64>, B<f64>) {
    let col = |v: Vec<f64>| column_matrix(v);
    (
        Z { maximize, c: mat(vec![vec![c]]) },
        A { ineq: col(ineq), eq: col(eq) },
        B { ineq: col(b), eq: col(b_eq) },
    )
}

#[test]
fn geq_row_after_leq_row_is_priced_out() {
    // min x subject to x <= 3, x >= 1 (written -x <= -1)
    let (z, a, b) = one_var(false, 1.0, vec![1.0, -1.0], vec![3.0, -1.0], vec![], vec![]);
    let f = field();
    assert_eq!(big_m_pivot_rows(&a, &b, &f), vec![2]);
    let t = initialize(&z, &a, &b, &f);
    assert_eq!(
        t.rows,
        vec![
            vec![-29.0, 0.0, 30.0, 0.0, -30.0],
            vec![1.0, 1.0, 0.0, 0.0, 3.0],
            vec![1.0, 0.0, -1.0, 1.0, 1.0],
        ]
    );
    let (t, basis, _) = solve(&z, &a, &b);
    assert_eq!(t.rows[0][4], -1.0);
    assert_eq!(basis, vec![(1, 1), (2, 0)]);
    assert_eq!(t.rows[2][4], 1.0);
}

#[test]
fn maximising_with_geq_row() {
    // max x subject to x >= 1 (written -x <= -1), x <= 3
    let (z, a, b) = one_var(true, 1.0, vec![-1.0, 1.0], vec![-1.0, 3.0], vec![], vec![]);
    let (t, basis, iterations) = solve(&z, &a, &b);
    assert_eq!(t.rows, vec![vec![0.0, 0.0, 1.0, 30.0, 3.0], vec![1.0, 0.0, 1.0, 0.0, 3.0], vec![0.0, 1.0, 1.0, -1.0, 2.0]]);
    assert_eq!(basis, vec![(2, 1), (1, 0)]);
    assert_eq!(iterations, 2);
}

#[test]
fn negative_equality_right_hand_side() {
    // min x subject to x <= 5, -x == -2
    let (z, a, b) = one_var(false, 1.0, vec![1.0], vec![5.0], vec![-1.0], vec![-2.0]);
    let f = field();
    let t = initialize(&z, &a, &b, &f);
    assert_eq!(t.rows, vec![vec![-49.0, 0.0, 0.0, -100.0], vec![1.0, 1.0, 0.0, 5.0], vec![1.0, 0.0, 1.0, 2.0]]);
    let (t, basis, _) = solve(&z, &a, &b);
    assert_eq!(t.rows[0][3], -2.0);
    assert_eq!(basis, vec![(1, 1), (2, 0)]);
    assert_eq!(t.rows[2][3], 2.0);
}

#[test]
fn only_equality_constraints_solve() {
    // min x + y subject to x + y == 2, x - y == 0
    let z = Z { maximize: false, c: mat(vec![vec![1.0, 1.0]]) };
    let a = A { ineq: empty(), eq: mat(vec![vec![1.0, 1.0], vec![1.0, -1.0]]) };
    let b = B { ineq: empty(), eq: column_matrix(vec![2.0, 0.0]) };
    let f = field();
    assert!(check_shapes(&a, &b));
    let t = initialize(&z, &a, &b, &f);
    assert_eq!(t.rows[0], vec![-39.0, 1.0, 0.0, 0.0, -40.0]);
    let (t, basis, iterations) = solve(&z, &a, &b);
    assert_eq!(
        t.rows,
        vec![vec![0.0, 0.0, 19.0, 20.0, -2.0], vec![0.0, 1.0, 0.5, -0.5, 1.0], vec![1.0, 0.0, 0.5, 0.5, 1.0]]
    );
    assert_eq!(basis, vec![(1, 1), (2, 0)]);
    assert_eq!(iterations, 2);
}

#[test]
fn maximising_c_is_minimising_minus_c() {
    let (z_max, a, b) = one_var(true, -1.0, vec![1.0, -1.0], vec![3.0, -1.0], vec![], vec![]);
    let (z_min, _, _) = one_var(false, 1.0, vec![1.0, -1.0], vec![3.0, -1.0], vec![], vec![]);
    let f = field();
    assert_eq!(initialize(&z_max, &a, &b, &f).rows, initialize(&z_min, &a, &b, &f).rows);
    let (t1, b1, _) = solve(&z_max, &a, &b);
    let (t2, b2, _) = solve(&z_min, &a, &b);
    assert_eq!(t1.rows, t2.rows);
    assert_eq!(b1, b2);
}

#[test]
fn geq_artificial_columns() {
    let (_, _, b) = problem_min();
    let g = get_geq_artificials(&b, &field());
    assert_eq!(g.ncols, 2);
    assert_eq!(g.rows, vec![vec![-1.0, 0.0], vec![0.0, -1.0], vec![0.0, 0.0]]);
    assert_eq!(count_geq(&b, &field()), 2);
}

#[test]
fn constraint_rows_of_tableau() {
    let (_, a, b) = problem_min();
    let m = get_tableu_bottom(&a, &b, &field());
    assert_eq!(m.ncols, 8);
    assert_eq!(
        m.rows,
        vec![
            vec![-1.0, -1.0, 1.0, 0.0, 0.0, -1.0, 0.0, -4.0],
            vec![-1.0, -3.0, 0.0, 1.0, 0.0, 0.0, -1.0, -6.0],
            vec![1.0, 0.0, 0.0, 0.0, 1.0, 0.0, 0.0, 10.0],
        ]
    );
    let (_, a, b) = problem_eq();
    let m = get_tableu_bottom(&a, &b, &field());
    assert_eq!(m.rows, vec![vec![1.0, 2.0, 1.0, 0.0, 4.0], vec![1.0, -1.0, 0.0, 1.0, 1.0]]);
}

#[test]
fn only_equalities_tableau() {
    let a = A { ineq: empty(), eq: mat(vec![vec![1.0, 1.0], vec![1.0, -1.0]]) };
    let b = B { ineq: empty(), eq: column_matrix(vec![2.0, 0.0]) };
    assert!(check_shapes(&a, &b));
    let m = get_tableu_bottom(&a, &b, &field());
    assert_eq!(m.rows, vec![vec![1.0, 1.0, 1.0, 0.0, 2.0], vec![1.0, -1.0, 0.0, 1.0, 0.0]]);
}

#[test]
fn original_tableau_negates_c_when_maximising() {
    let (z, a, b) = problem_max();
    let t = original_tableau(&z, &a, &b, &field());
    assert_eq!(t.rows[0], vec![-3.0, -5.0, 0.0, 0.0, 0.0, 0.0]);
    assert_eq!(t.rows[3], vec![3.0, 2.0, 0.0, 0.0, 1.0, 18.0]);
    let (z, a, b) = problem_min();
    let t = original_tableau(&z, &a, &b, &field());
    assert_eq!(t.rows[0], vec![2.0, 3.0, 0.0, 0.0, 0.0, 0.0, 0.0, 0.0]);
}

#[test]
fn shapes_that_do_not_fit() {
    let a = A { ineq: mat(vec![vec![1.0, 0.0], vec![0.0, 1.0]]), eq: empty() };
    let b = B { ineq: column_matrix(vec![1.0]), eq: empty() };
    assert!(!check_shapes(&a, &b));
    let a = A { ineq: mat(vec![vec![1.0, 0.0]]), eq: mat(vec![vec![1.0, 0.0, 1.0]]) };
    let b = B { ineq: column_matrix(vec![1.0]), eq: column_matrix(vec![1.0]) };
    assert!(!check_shapes(&a, &b));
}

#[test]
fn last_greatest_entry() {
    let m = mat(vec![vec![1.0, 5.0], vec![5.0, 2.0]]);
    assert_eq!(max_position(&m, &field()), (1, 0));
    let m = mat(vec![vec![-0.0, 0.0]]);
    assert_eq!(max_position(&m, &field()), (0, 1));
    let m = mat(vec![vec![7.0]]);
    assert_eq!(max_position(&m, &field()), (0, 0));
}

#[test]
fn comparable_entries() {
    assert!(all_comparable(&mat(vec![vec![1.0, f64::INFINITY]]), &field()));
    assert!(!all_comparable(&mat(vec![vec![1.0, f64::NAN]]), &field()));
}

#[test]
fn argmin_picks_first_least_below_infinity() {
    let f = field();
    assert_eq!(argmin(&vec![3.0, 1.0, 1.0, 5.0], f64::INFINITY, &f), 1);
    assert_eq!(argmin(&vec![f64::INFINITY, f64::INFINITY], f64::INFINITY, &f), 0);
    assert_eq!(argmin(&vec![f64::NAN, 2.0], f64::INFINITY, &f), 1);
    assert_eq!(argmin(&Vec::new(), f64::INFINITY, &f), 0);
    assert_eq!(argmin(&vec![0.0, -2.0, -7.5, -7.5], f64::INFINITY, &f), 2);
}

#[test]
fn optimality_test() {
    let f = field();
    assert!(not_optimal(&mat(vec![vec![0.0, -1.0, 5.0]]), &f));
    assert!(!not_optimal(&mat(vec![vec![0.0, 1.0, -5.0]]), &f));
    assert!(!not_optimal(&mat(vec![vec![-0.0, f64::NAN, -5.0]]), &f));
}

#[test]
fn pivot_position_and_pivot() {
    let (z, a, b) = problem_max();
    let f = field();
    let mut t = original_tableau(&z, &a, &b, &f);
    assert_eq!(pivot_indexes(&t, &f), (2, 1));
    assert_eq!(pivot(&mut t, &f), (2, 1));
    assert_eq!(
        t.rows,
        vec![
            vec![-3.0, 0.0, 0.0, 2.5, 0.0, 30.0],
            vec![1.0, 0.0, 1.0, 0.0, 0.0, 4.0],
            vec![0.0, 1.0, 0.0, 0.5, 0.0, 6.0],
            vec![3.0, 0.0, 0.0, -1.0, 1.0, 6.0],
        ]
    );
}

#[test]
fn no_positive_pivot_entry_leaves_objective_row() {
    let f = field();
    let t = mat(vec![vec![-1.0, 0.0, 0.0], vec![-1.0, 1.0, 3.0]]);
    assert_eq!(pivot_indexes(&t, &f), (0, 0));
}

#[test]
fn redundant_row_is_eliminated() {
    let f = field();
    let mut t = mat(vec![vec![-1.0, 0.0, 0.0], vec![2.0, 1.0, 4.0], vec![1.0, 0.5, 2.0]]);
    assert_eq!(pivot(&mut t, &f), (1, 0));
    assert_eq!(t.rows, vec![vec![0.0, 0.5, 2.0], vec![1.0, 0.5, 2.0], vec![0.0, 0.0, 0.0]]);
}

#[test]
fn basic_columns() {
    let f = field();
    assert!(is_basic(&vec![0.0, 1.0, 0.0], &f));
    assert!(is_basic(&vec![1.0], &f));
    assert!(!is_basic(&vec![1.0, 1.0], &f));
    assert!(!is_basic(&vec![0.0, 0.0], &f));
    assert!(!is_basic(&vec![0.0, 1.0, 2.0], &f));
}

#[test]
fn initial_basis_of_slack_columns() {
    let (z, a, b) = problem_max();
    let f = field();
    let t = initialize(&z, &a, &b, &f);
    assert_eq!(initialize_basis(&t, &f), vec![(1, 2), (2, 3), (3, 4)]);
}

#[test]
fn basis_update_replaces_leaving_row() {
    let mut basis = vec![(1, 2), (2, 3), (3, 4)];
    update_basis(&mut basis, 2, 1);
    assert_eq!(basis, vec![(1, 2), (2, 1), (3, 4)]);
    update_basis(&mut basis, 2, 1);
    assert_eq!(basis, vec![(1, 2), (2, 1), (3, 4)]);
}

#[test]
fn step_stops_at_optimum() {
    let f = field();
    let mut t = mat(vec![vec![0.0, 1.0, 5.0], vec![1.0, 1.0, 2.0]]);
    let mut basis = vec![(1, 0)];
    assert_eq!(step(&mut t, &mut basis, &f), None);
    assert_eq!(t.rows, vec![vec![0.0, 1.0, 5.0], vec![1.0, 1.0, 2.0]]);
    assert_eq!(basis, vec![(1, 0)]);
}

#[test]
fn big_m_rows_listed() {
    let f = field();
    let (_, a, b) = problem_min();
    assert_eq!(big_m_pivot_rows(&a, &b, &f), vec![1, 2]);
    let (_, a, b) = problem_eq();
    assert_eq!(big_m_pivot_rows(&a, &b, &f), vec![2]);
}

#[test]
fn only_leq_big_m_tableau_is_original() {
    let (z, a, b) = problem_max();
    let f = field();
    assert_eq!(initialize(&z, &a, &b, &f).rows, original_tableau(&z, &a, &b, &f).rows);
}

#[test]
fn constraint_rows_kept_up_to_sign() {
    let (z, a, b) = problem_min();
    let f = field();
    let t0 = original_tableau(&z, &a, &b, &f);
    let t = initialize(&z, &a, &b, &f);
    for i in 1..t.rows.len() {
        let flip = t0.rows[i][7] < 0.0;
        let expected: Vec<f64> = t0.rows[i].iter().map(|x| if flip { x * -1.0 } else { *x }).collect();
        assert_eq!(t.rows[i], expected);
    }
}

#[test]
fn entering_column_has_negative_cost() {
    let (z, a, b) = problem_min();
    let f = field();
    let t = initialize(&z, &a, &b, &f);
    let (_, c) = pivot_indexes(&t, &f);
    assert!(t.rows[0][c] < 0.0);
    assert_eq!(c, 1);
}

#[test]
fn rows_read_must_agree_in_length() {
    let mut rows: Vec<Vec<f64>> = Vec::new();
    assert_eq!(push_row(&mut rows, vec![1.0, 2.0]), Ok(()));
    assert_eq!(push_row(&mut rows, vec![3.0, 4.0]), Ok(()));
    let e = push_row(&mut rows, vec![5.0]);
    assert_eq!(e, Err(RowsError::UnequalRows));
    assert_eq!(rows.len(), 3);
    assert_eq!(RowsError::UnequalRows.message(), "The matrix rows should be of equal size.");
}

#[test]
fn matrices_from_input() {
    let m = matrix_from_rows(vec![vec![1.0, 2.0], vec![3.0, 4.0]]);
    assert_eq!(m.ncols, 2);
    assert_eq!(m.rows.len(), 2);
    let m: Matrix<f64> = matrix_from_rows(Vec::new());
    assert_eq!((m.rows.len(), m.ncols), (0, 0));
    let r = row_matrix(vec![1.0, 2.0, 3.0]);
    assert_eq!((r.rows.len(), r.ncols), (1, 3));
    let c = column_matrix(vec![1.0, 2.0, 3.0]);
    assert_eq!((c.rows.len(), c.ncols), (3, 1));
    assert_eq!(c.rows[2], vec![3.0]);
    let e = row_matrix(Vec::<f64>::new());
    assert_eq!((e.rows.len(), e.ncols), (0, 0));
}

#[test]
fn matrix_building_blocks() {
    let e = Matrix::eye(2, 0.0, 1.0);
    assert_eq!(e.rows, vec![vec![1.0, 0.0], vec![0.0, 1.0]]);
    let z = Matrix::zeros(2, 1, 0.0);
    let h = e.hcat(&z);
    assert_eq!(h.rows, vec![vec![1.0, 0.0, 0.0], vec![0.0, 1.0, 0.0]]);
    let v = h.vcat(&mat(vec![vec![7.0, 8.0, 9.0]]));
    assert_eq!(v.rows.len(), 3);
    assert_eq!(v.rows[2], vec![7.0, 8.0, 9.0]);
    assert!(Matrix::<f64>::zeros(0, 3, 0.0).is_empty());
}

#[test]
fn objective_fill_and_row_flips() {
    let f = field();
    let mut t = mat(vec![vec![1.0, 2.0, 3.0, 4.0], vec![1.0, -1.0, 0.0, -2.0], vec![2.0, 2.0, 2.0, 2.0]]);
    fill_objective(&mut t, 1, 3, 9.0);
    assert_eq!(t.rows[0], vec![1.0, 9.0, 9.0, 4.0]);
    flip_negative_rows(&mut t, 3, 1, true, &f);
    assert_eq!(t.rows[0], vec![1.0, 9.0, 9.0, 4.0]);
    assert_eq!(t.rows[1], vec![-1.0, 1.0, -0.0, 2.0]);
    assert_eq!(t.rows[2], vec![2.0, 2.0, 2.0, 2.0]);
    let mut u = t.to_owned();
    add_big_m_rows(&mut u, &vec![1, 2], 10.0, &f);
    assert_eq!(u.rows[0], vec![-9.0, -21.0, -11.0, -36.0]);
    add_big_m_rows(&mut t, &vec![2], 10.0, &f);
    assert_eq!(t.rows[0], vec![-19.0, -11.0, -11.0, -16.0]);
    let mut e = mat(vec![vec![0.0, 0.0, 0.0, 0.0], vec![1.0, 1.0, 0.0, 5.0], vec![-1.0, 0.0, 1.0, -2.0]]);
    flip_negative_rows(&mut e, 2, 1, true, &f);
    assert_eq!(e.rows[2], vec![1.0, -0.0, 1.0, 2.0]);
    let n = negated(&mat(vec![vec![1.0, -2.0]]), &f);
    assert_eq!(n.rows, vec![vec![-1.0, 2.0]]);
}

#[test]
fn matrix_entries_and_rows() {
    let mut m = mat(vec![vec![1.0, 2.0], vec![3.0, 4.0]]);
    assert_eq!(m.get(1, 0), 3.0);
    assert_eq!(m.nrows(), 2);
    m.set_row(0, vec![5.0, 6.0]);
    assert_eq!(m.rows, vec![vec![5.0, 6.0], vec![3.0, 4.0]]);
    let f = field();
    assert_eq!(f.apply(Op::Div, 1.0, 4.0), 0.25);
    assert_eq!(f.neg(2.0), -2.0);
    assert_eq!(f.key(-0.0), Some(0));
    assert_eq!(f.key(f64::NAN), None);
}

#[test]
fn objective_row_with_negative_last_entry_is_flipped() {
    // min x (c as wide as the tableau) subject to x <= 3, -x <= -1
    let z = Z { maximize: false, c: mat(vec![vec![1.0, 0.0, 0.0, 0.0, -1.0]]) };
    let a = A { ineq: column_matrix(vec![1.0, -1.0]), eq: empty() };
    let b = B { ineq: column_matrix(vec![3.0, -1.0]), eq: empty() };
    let f = field();
    let t = initialize(&z, &a, &b, &f);
    assert_eq!(t.rows[0], vec![-31.0, 0.0, 30.0, -60.0, -29.0]);
    let mut u = mat(vec![vec![1.0, -2.0], vec![1.0, -1.0]]);
    flip_negative_rows(&mut u, 2, 1, false, &f);
    assert_eq!(u.rows, vec![vec![1.0, -2.0], vec![-1.0, 1.0]]);
}

#[test]
fn basis_columns_stay_unit_columns() {
    for (z, a, b) in [problem_max(), problem_min(), problem_eq()] {
        let (t, basis, _) = solve(&z, &a, &b);
        for &(i, j) in &basis {
            for r in 1..t.rows.len() {
                assert_eq!(t.rows[r][j], if r == i { 1.0 } else { 0.0 });
            }
        }
    }
}
