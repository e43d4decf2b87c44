//! Tests of the tableau builder, the end-to-end calculation, and the
//! input-series join.

use battery_planner::calculation::calculation;
use battery_planner::data::{Config, Consumption, Data, Price};
use battery_planner::dual_simplex::{Matrix, SolveError};
use battery_planner::rat::Rat;
use battery_planner::tableau_creation::build_tableau;

fn r(num: i64, den: i64) -> Rat {
    Rat { num, den }
}

fn d(power: Rat, price: Rat) -> Data {
    Data { start: 0, end: 0, power, price }
}

fn config(final_charge: Rat) -> Config {
    Config {
        max_consumption: r(2, 1),
        battery_capacity: r(1, 2),
        battery_max_charge: r(3, 2),
        battery_initial_charge: r(3, 8),
        battery_efficiency: r(9, 10),
        battery_final_charge: final_charge,
    }
}

fn as_f64(x: Rat) -> f64 {
    (x.num as f64) / (x.den as f64)
}

#[test]
fn test_build_tableau() {
    let data = vec![
        d(r(0, 1), r(1, 1)),
        d(r(3, 1), r(2, 1)),
        d(r(1, 1), r(2, 1)),
        d(r(3, 1), r(1, 1)),
    ];
    let (result, v, a) = build_tableau(&data, &config(r(0, 1))).unwrap();
    assert_eq!(v, 2);
    assert_eq!(a, 2);
    let expected: Vec<Vec<Rat>> = vec![
        //    x1        x2        s1       s2       s3       s4       s5       s6        s7        a1       a2       limit
        vec![r(1, 1), r(0, 1), r(1, 1), r(0, 1), r(0, 1), r(0, 1), r(0, 1), r(0, 1), r(0, 1), r(0, 1), r(0, 1), r(3, 2)],
        vec![r(0, 1), r(1, 1), r(0, 1), r(1, 1), r(0, 1), r(0, 1), r(0, 1), r(0, 1), r(0, 1), r(0, 1), r(0, 1), r(1, 1)],
        vec![r(9, 10), r(0, 1), r(0, 1), r(0, 1), r(1, 1), r(0, 1), r(0, 1), r(0, 1), r(0, 1), r(0, 1), r(0, 1), r(1, 2)],
        vec![r(9, 10), r(9, 10), r(0, 1), r(0, 1), r(0, 1), r(1, 1), r(0, 1), r(0, 1), r(0, 1), r(0, 1), r(0, 1), r(3, 2)],
        vec![r(-9, 10), r(0, 1), r(0, 1), r(0, 1), r(0, 1), r(0, 1), r(1, 1), r(0, 1), r(0, 1), r(0, 1), r(0, 1), r(1, 2)],
        vec![r(9, 10), r(9, 10), r(0, 1), r(0, 1), r(0, 1), r(0, 1), r(0, 1), r(-1, 1), r(0, 1), r(1, 1), r(0, 1), r(1, 2)],
        vec![r(9, 10), r(9, 10), r(0, 1), r(0, 1), r(0, 1), r(0, 1), r(0, 1), r(0, 1), r(-1, 1), r(0, 1), r(1, 1), r(1, 2)],
        vec![r(-1, 1), r(-2, 1), r(0, 1), r(0, 1), r(0, 1), r(0, 1), r(0, 1), r(0, 1), r(0, 1), r(0, 1), r(0, 1), r(0, 1)],
        vec![r(9, 5), r(9, 5), r(0, 1), r(0, 1), r(0, 1), r(0, 1), r(0, 1), r(-1, 1), r(-1, 1), r(0, 1), r(0, 1), r(1, 1)],
    ];
    assert_eq!(result.len(), expected.len());
    for (row, erow) in result.iter().zip(expected.iter()) {
        assert_eq!(row.len(), erow.len());
        for (x, e) in row.iter().zip(erow.iter()) {
            assert!(x.eq_val(e), "entry {:?} expected {:?}", x, e);
        }
    }
}

#[test]
fn calculation_test_four_intervals() {
    let data = vec![
        d(r(0, 1), r(1, 1)),
        d(r(3, 1), r(2, 1)),
        d(r(1, 1), r(2, 1)),
        d(r(3, 1), r(9, 10)),
    ];
    let (tableau, v, a) = build_tableau(&data, &config(r(0, 1))).unwrap();
    let mut matrix = Matrix::new(tableau, v, a);
    assert!(matrix.solve().is_ok());
    matrix.phase_two();
    assert!(matrix.solve().is_ok());
    let solution = matrix.get_solution().unwrap();
    let expected = [0.5555555, 0.0];
    let tolerance = 0.0001;
    for (i, s) in solution[0..2].iter().enumerate() {
        assert!((as_f64(*s) - expected[i]).abs() < tolerance);
    }
}

#[test]
fn test_five_intervals_and_battery_recharge() {
    let data = vec![
        d(r(0, 1), r(1, 1)),
        d(r(3, 1), r(2, 1)),
        d(r(1, 1), r(2, 1)),
        d(r(3, 1), r(2, 1)),
        d(r(0, 1), r(1, 1)),
    ];
    let (tableau, v, a) = build_tableau(&data, &config(r(1, 8))).unwrap();
    let mut matrix = Matrix::new(tableau, v, a);
    assert!(matrix.solve().is_ok());
    matrix.phase_two();
    assert!(matrix.solve().is_ok());
    let solution = matrix.get_solution().unwrap();
    let expected = [0.5555555, 0.0, 0.5555555];
    let tolerance = 0.0001;
    for (i, s) in solution[0..expected.len()].iter().enumerate() {
        assert!((as_f64(*s) - expected[i]).abs() < tolerance);
    }
}

#[test]
fn impossible_conditions() {
    let data = vec![
        d(r(0, 1), r(1, 1)),
        d(r(3, 1), r(2, 1)),
        d(r(1, 1), r(2, 1)),
        d(r(3, 1), r(2, 1)),
        d(r(0, 1), r(1, 1)),
    ];
    // a required final charge far beyond what the battery can reach
    let (tableau, v, a) = build_tableau(&data, &config(r(100, 1))).unwrap();
    let mut matrix = Matrix::new(tableau, v, a);
    assert!(matrix.solve().is_err());
}

#[test]
fn test_infeasibility_is_reported_as_such() {
    let data = vec![
        d(r(0, 1), r(1, 1)),
        d(r(3, 1), r(2, 1)),
        d(r(1, 1), r(2, 1)),
        d(r(3, 1), r(2, 1)),
        d(r(0, 1), r(1, 1)),
    ];
    let (tableau, v, a) = build_tableau(&data, &config(r(100, 1))).unwrap();
    let mut matrix = Matrix::new(tableau, v, a);
    assert_eq!(matrix.solve().unwrap_err(), SolveError::Infeasible);
}

#[test]
fn test_build_tableau_deterministic() {
    // identical inputs give the identical numeric tableau: no randomness,
    // no iteration-order dependence
    let data = vec![
        d(r(0, 1), r(1, 1)),
        d(r(3, 1), r(2, 1)),
        d(r(1, 1), r(2, 1)),
        d(r(3, 1), r(1, 1)),
    ];
    let first = build_tableau(&data, &config(r(0, 1))).unwrap();
    let second = build_tableau(&data, &config(r(0, 1))).unwrap();
    assert_eq!(first, second);
}

#[test]
fn test_solution_within_charge_bounds() {
    // every decision variable obeys 0 <= x <= min(max charge, headroom)
    let data = vec![
        d(r(0, 1), r(1, 1)),
        d(r(3, 1), r(2, 1)),
        d(r(1, 1), r(2, 1)),
        d(r(3, 1), r(9, 10)),
    ];
    let cfg = config(r(0, 1));
    let (tableau, v, a) = build_tableau(&data, &cfg).unwrap();
    let mut matrix = Matrix::new(tableau, v, a);
    assert!(matrix.solve().is_ok());
    matrix.phase_two();
    assert!(matrix.solve().is_ok());
    let solution = matrix.get_solution().unwrap();
    let zero = r(0, 1);
    let bounds = [r(3, 2), r(1, 1)];  // min(1.5, 2 - 0), min(1.5, 2 - 1)
    for (x, bound) in solution[0..2].iter().zip(bounds.iter()) {
        assert!(zero.le(x));
        assert!(x.le(bound));
    }
}

#[test]
fn test_final_charge_is_reached() {
    // initial charge + efficiency * charged - discharged >= final charge
    let data = vec![
        d(r(0, 1), r(1, 1)),
        d(r(3, 1), r(2, 1)),
        d(r(1, 1), r(2, 1)),
        d(r(3, 1), r(2, 1)),
        d(r(0, 1), r(1, 1)),
    ];
    let cfg = config(r(1, 8));
    let planning = calculation(&data, &cfg).unwrap();
    assert_eq!(planning.len(), data.len());
    let mut level = as_f64(cfg.battery_initial_charge);
    for p in &planning {
        level += as_f64(cfg.battery_efficiency) * as_f64(p.energy_to_battery_wh);
        level -= as_f64(p.energy_from_battery_wh);
        // at most one of the two energy fields is nonzero
        assert!(p.energy_to_battery_wh.num == 0 || p.energy_from_battery_wh.num == 0);
    }
    assert!(level >= as_f64(cfg.battery_final_charge) - 0.0001);
}

#[test]
fn test_calculation_plan_values() {
    let data = vec![
        d(r(0, 1), r(1, 1)),
        d(r(3, 1), r(2, 1)),
        d(r(1, 1), r(2, 1)),
        d(r(3, 1), r(9, 10)),
    ];
    let planning = calculation(&data, &config(r(0, 1))).unwrap();
    assert_eq!(planning.len(), 4);
    // under-load intervals charge by the decision variable over four
    // quarter-hours; over-load intervals discharge their excess power
    assert!((as_f64(planning[0].energy_to_battery_wh) - 0.5555555 / 4.0).abs() < 0.0001);
    assert!(planning[0].energy_from_battery_wh.num == 0);
    assert!(planning[1].energy_to_battery_wh.num == 0);
    assert!(planning[1].energy_from_battery_wh.eq_val(&r(1, 4)));
    assert!((as_f64(planning[2].energy_to_battery_wh)).abs() < 0.0001);
    assert!(planning[3].energy_from_battery_wh.eq_val(&r(1, 4)));
}

#[test]
fn test_boundary_power_equals_limit() {
    // an interval drawing exactly the consumption limit is under-load:
    // it gets a decision variable, capped by zero headroom
    let data = vec![d(r(2, 1), r(1, 1))];
    let planning = calculation(&data, &config(r(0, 1))).unwrap();
    assert_eq!(planning.len(), 1);
    assert!(planning[0].energy_to_battery_wh.eq_val(&r(0, 1)));
    assert!(planning[0].energy_from_battery_wh.eq_val(&r(0, 1)));
}

#[test]
fn test_join_series() {
    // one price record covers four consecutive consumption intervals
    let forecasts: Vec<Consumption> = (0i64..8)
        .map(|i| Consumption { start: i * 900, end: (i + 1) * 900, power: r(i, 1) })
        .collect();
    let prices = vec![
        Price { start: 0, end: 3600, value: r(7, 2) },
        Price { start: 3600, end: 7200, value: r(9, 2) },
    ];
    let joined = battery_planner::data::join_series(&forecasts, &prices);
    assert_eq!(joined.len(), 8);
    for (i, j) in joined.iter().enumerate() {
        assert_eq!(j.start, forecasts[i].start);
        assert_eq!(j.end, forecasts[i].end);
        assert!(j.power.eq_val(&forecasts[i].power));
        assert!(j.price.eq_val(&prices[i / 4].value));
    }
}

#[test]
fn test_series_aligned() {
    let forecasts = vec![Consumption { start: 0, end: 900, power: r(1, 1) }];
    let prices = vec![Price { start: 0, end: 900, value: r(1, 1) }];
    assert!(battery_planner::data::series_aligned(&forecasts, &prices));
    let other = vec![Price { start: 100, end: 900, value: r(1, 1) }];
    assert!(!battery_planner::data::series_aligned(&forecasts, &other));
    let empty: Vec<Price> = vec![];
    assert!(!battery_planner::data::series_aligned(&forecasts, &empty));
}

#[test]
fn test_rat_arithmetic_exact() {
    let a = Rat::new(3, -6).unwrap();
    assert!(a.eq_val(&r(-1, 2)));
    let b = a.add(&r(5, 4)).unwrap();
    assert!(b.eq_val(&r(3, 4)));
    let c = b.mul(&r(2, 3)).unwrap();
    assert!(c.eq_val(&r(1, 2)));
    let q = c.div(&r(1, 3)).unwrap();
    assert!(q.eq_val(&r(3, 2)));
    assert!(Rat::new(1, 0).is_none());
    // a reduced result that cannot fit the machine word is refused
    let big = r(i64::MAX, 1);
    assert!(big.mul(&r(3, 1)).is_none());
}
