//! Tests of the two-phase simplex solver on hand-written tableaus.

use battery_planner::dual_simplex::{Matrix, PivotSelection, SolveError};
use battery_planner::rat::Rat;

fn r(num: i64, den: i64) -> Rat {
    Rat { num, den }
}

fn row(vals: &[(i64, i64)]) -> Vec<Rat> {
    vals.iter().map(|&(n, d)| r(n, d)).collect()
}

fn approx(x: Rat, expected: f64) -> bool {
    ((x.num as f64) / (x.den as f64) - expected).abs() < 0.0001
}

#[test]
fn test_artificial_variables_stage_1() {
    let mut m = Matrix::new(
        vec![
            row(&[(1, 1), (1, 1), (-1, 1), (0, 1), (0, 1), (1, 1), (0, 1), (1, 1)]),
            row(&[(2, 1), (-1, 1), (0, 1), (-1, 1), (0, 1), (0, 1), (1, 1), (1, 1)]),
            row(&[(0, 1), (3, 1), (0, 1), (0, 1), (1, 1), (0, 1), (0, 1), (2, 1)]),
            row(&[(6, 1), (3, 1), (0, 1), (0, 1), (0, 1), (0, 1), (0, 1), (0, 1)]),
            row(&[(3, 1), (0, 1), (-1, 1), (-1, 1), (0, 1), (0, 1), (0, 1), (2, 1)]),
        ],
        2,
        2,
    );
    assert!(m.solve().is_ok());
}

#[test]
fn dual_simplex_test_four_intervals() {
    // four intervals: consumptions 0, 3, 1, 3 with prices 1, 2, 2, 1;
    // battery starts empty, can charge at most 1.5, capacity 2
    let mut m = Matrix::new(
        vec![
            //     x1      x2      s1      s2      s3      s4      s5      s6      a1      a2      limit
            row(&[(1, 1), (0, 1), (1, 1), (0, 1), (0, 1), (0, 1), (0, 1), (0, 1), (0, 1), (0, 1), (3, 2)]),
            row(&[(0, 1), (1, 1), (0, 1), (1, 1), (0, 1), (0, 1), (0, 1), (0, 1), (0, 1), (0, 1), (1, 1)]),
            row(&[(1, 1), (0, 1), (0, 1), (0, 1), (1, 1), (0, 1), (0, 1), (0, 1), (0, 1), (0, 1), (2, 1)]),
            row(&[(1, 1), (1, 1), (0, 1), (0, 1), (0, 1), (1, 1), (0, 1), (0, 1), (0, 1), (0, 1), (3, 1)]),
            row(&[(1, 1), (0, 1), (0, 1), (0, 1), (0, 1), (0, 1), (-1, 1), (0, 1), (1, 1), (0, 1), (1, 1)]),
            row(&[(1, 1), (1, 1), (0, 1), (0, 1), (0, 1), (0, 1), (0, 1), (-1, 1), (0, 1), (1, 1), (2, 1)]),
            row(&[(-1, 1), (-2, 1), (0, 1), (0, 1), (0, 1), (0, 1), (0, 1), (0, 1), (0, 1), (0, 1), (0, 1)]),
            row(&[(2, 1), (1, 1), (0, 1), (0, 1), (0, 1), (0, 1), (-1, 1), (-1, 1), (0, 1), (0, 1), (3, 1)]),
        ],
        2,
        2,
    );
    assert!(m.solve().is_ok());
    m.phase_two();
    assert!(m.solve().is_ok());
    let solution = m.get_solution().unwrap();
    assert!(solution[0].eq_val(&r(3, 2)));
    assert!(solution[1].eq_val(&r(1, 2)));
}

// Tableau for: maximize p = x + 2y subject to
// x <= 1.5, y <= 1, x >= 1, x + y >= 2
fn tableau_without_max_capacity() -> Matrix {
    Matrix::new(
        vec![
            //     x1      x2      s1      s2      s3      s4      a1      a2      limit
            row(&[(1, 1), (0, 1), (1, 1), (0, 1), (0, 1), (0, 1), (0, 1), (0, 1), (3, 2)]),
            row(&[(0, 1), (1, 1), (0, 1), (1, 1), (0, 1), (0, 1), (0, 1), (0, 1), (1, 1)]),
            row(&[(1, 1), (0, 1), (0, 1), (0, 1), (-1, 1), (0, 1), (1, 1), (0, 1), (1, 1)]),
            row(&[(1, 1), (1, 1), (0, 1), (0, 1), (0, 1), (-1, 1), (0, 1), (1, 1), (2, 1)]),
            row(&[(-1, 1), (-2, 1), (0, 1), (0, 1), (0, 1), (0, 1), (0, 1), (0, 1), (0, 1)]),
            row(&[(2, 1), (1, 1), (0, 1), (0, 1), (-1, 1), (-1, 1), (0, 1), (0, 1), (3, 1)]),
        ],
        2,
        2,
    )
}

#[test]
fn test_without_max_capacity_individual_steps() {
    let mut m = tableau_without_max_capacity();
    let pivot = m.find_pivot().unwrap();
    assert_eq!(pivot, PivotSelection::Pivot(2, 0));
    assert!(m.pivot((2, 0)).is_ok());

    let pivot = m.find_pivot().unwrap();
    assert_eq!(pivot, PivotSelection::Pivot(1, 1));
    assert!(m.pivot((1, 1)).is_ok());

    let pivot = m.find_pivot().unwrap();
    assert_eq!(pivot, PivotSelection::Pivot(3, 4));
    assert!(m.pivot((3, 4)).is_ok());

    // the intermediate objective is cleared; continue in phase two
    m.phase_two();
    let pivot = m.find_pivot().unwrap();
    assert_eq!(pivot, PivotSelection::Pivot(0, 3));
    assert!(m.pivot((0, 3)).is_ok());

    let solution = m.get_solution().unwrap();
    assert!(solution[0].eq_val(&r(3, 2)));
    assert!(solution[1].eq_val(&r(1, 2)));
}

#[test]
fn test_without_max_capacity() {
    let mut m = tableau_without_max_capacity();
    assert!(m.solve().is_ok());
    m.phase_two();
    assert!(m.solve().is_ok());
    let solution = m.get_solution().unwrap();
    assert!(solution[0].eq_val(&r(3, 2)));
    assert!(solution[1].eq_val(&r(1, 2)));
}

#[test]
fn test_reverse_coefficients() {
    let mut m = Matrix::new(
        vec![
            row(&[(1, 1), (0, 1), (1, 1), (0, 1), (0, 1), (0, 1), (0, 1), (3, 2)]),
            row(&[(0, 1), (1, 1), (0, 1), (1, 1), (0, 1), (0, 1), (0, 1), (1, 1)]),
            row(&[(-1, 1), (0, 1), (0, 1), (0, 1), (1, 1), (0, 1), (0, 1), (1, 2)]),
            row(&[(1, 1), (1, 1), (0, 1), (0, 1), (0, 1), (-1, 1), (1, 1), (1, 2)]),
            row(&[(-1, 1), (-2, 1), (0, 1), (0, 1), (0, 1), (0, 1), (0, 1), (0, 1)]),
            row(&[(1, 1), (1, 1), (0, 1), (0, 1), (0, 1), (-1, 1), (0, 1), (1, 2)]),
        ],
        2,
        1,
    );
    assert!(m.solve().is_ok());
    m.phase_two();
    assert!(m.solve().is_ok());
    let solution = m.get_solution().unwrap();
    assert!(solution[0].eq_val(&r(1, 2)));
    assert!(solution[1].eq_val(&r(0, 1)));
}

#[test]
fn test_pivot_selection_idempotent_after_solve() {
    // once solve reports a terminal basis, re-running the selection on the
    // unchanged tableau reports no pivot again
    let mut m = tableau_without_max_capacity();
    assert!(m.solve().is_ok());
    m.phase_two();
    assert!(m.solve().is_ok());
    let first = m.find_pivot().unwrap();
    let second = m.find_pivot().unwrap();
    assert!(!matches!(first, PivotSelection::Pivot(_, _)));
    assert_eq!(first, second);
}

#[test]
fn test_unbounded_is_reported_distinctly() {
    // a positive objective coefficient whose column has no positive entry:
    // the selection reports unboundedness, not optimality
    let m = Matrix::new(
        vec![
            row(&[(-1, 1), (0, 1), (1, 1)]),
            row(&[(0, 1), (0, 1), (0, 1)]),
            row(&[(1, 1), (0, 1), (0, 1)]),
        ],
        1,
        0,
    );
    assert_eq!(m.find_pivot().unwrap(), PivotSelection::Unbounded);
}

#[test]
fn test_malformed_solution_column_is_reported() {
    // the decision column holds a single nonzero entry that is not 1:
    // extraction reports the malformed tableau instead of coercing to zero
    let m = Matrix::new(
        vec![
            row(&[(2, 1), (0, 1), (5, 1)]),
            row(&[(0, 1), (0, 1), (0, 1)]),
            row(&[(0, 1), (0, 1), (0, 1)]),
        ],
        1,
        0,
    );
    assert_eq!(m.get_solution().unwrap_err(), SolveError::MalformedColumn);
}

#[test]
fn test_overflow_is_reported() {
    // pivoting multiplies two huge prime denominators past the machine
    // word: the solver reports overflow instead of a wrong value
    let p1: i64 = 4000000007;
    let p2: i64 = 4000000009;
    let mut m = Matrix::new(
        vec![
            row(&[(1, p1), (0, 1), (1, p2)]),
            row(&[(1, p2), (0, 1), (1, 1)]),
            row(&[(0, 1), (0, 1), (0, 1)]),
            row(&[(1, 1), (0, 1), (0, 1)]),
        ],
        1,
        0,
    );
    assert_eq!(m.solve().unwrap_err(), SolveError::Overflow);
}

#[test]
fn test_phase_one_residual_within_tolerance() {
    // after a successful phase-one solve the intermediate-objective
    // right-hand side is within 0.0001 of zero
    let mut m = tableau_without_max_capacity();
    assert!(m.solve().is_ok());
    let rhs = m.get(5, 8);
    assert!(approx(rhs, 0.0));
    assert!(m.check_if_we_have_a_solution());
}
