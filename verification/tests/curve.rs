//! Behaviour of the response curve: validation and evaluation, on
//! concrete breakpoint tables. All values are fixed-point milli-units.

use fancurve::curve::CurveError;
use fancurve::curve::ResponseCurve;

fn reference_curve() -> ResponseCurve {
    ResponseCurve::new(vec![50_000, 60_000, 80_000], vec![30_000, 70_000, 100_000]).unwrap()
}

#[test]
fn scenario_reference_breakpoints() {
    let c = reference_curve();
    assert_eq!(c.evaluate(45_000), 0);
    assert_eq!(c.evaluate(50_000), 30_000);
    assert_eq!(c.evaluate(55_000), 50_000);
    assert_eq!(c.evaluate(60_000), 70_000);
    assert_eq!(c.evaluate(70_000), 85_000);
    assert_eq!(c.evaluate(80_000), 100_000);
    assert_eq!(c.evaluate(95_000), 100_000);
}

#[test]
fn below_range_returns_zero() {
    let c = reference_curve();
    assert_eq!(c.evaluate(49_999), 0);
    assert_eq!(c.evaluate(0), 0);
    assert_eq!(c.evaluate(-40_000), 0);
    assert_eq!(c.evaluate(i64::MIN), 0);
}

#[test]
fn above_range_saturates() {
    let c = reference_curve();
    assert_eq!(c.evaluate(80_000), 100_000);
    assert_eq!(c.evaluate(80_001), 100_000);
    assert_eq!(c.evaluate(1_000_000), 100_000);
    assert_eq!(c.evaluate(i64::MAX), 100_000);
}

#[test]
fn breakpoints_are_exact() {
    let temps = vec![-10_000, 0, 35_500, 60_000];
    let speeds = vec![10_000, 0, 55_250, 90_000];
    let c = ResponseCurve::new(temps.clone(), speeds.clone()).unwrap();
    for i in 0..temps.len() {
        assert_eq!(c.evaluate(temps[i]), speeds[i]);
    }
}

#[test]
fn linear_inside_segment() {
    let c = reference_curve();
    // Slope 4 between 50 and 60 degrees, slope 1.5 between 60 and 80.
    assert_eq!(c.evaluate(52_500), 40_000);
    assert_eq!(c.evaluate(57_500), 60_000);
    assert_eq!(c.evaluate(64_000), 76_000);
    assert_eq!(c.evaluate(76_000), 94_000);
}

#[test]
fn inexact_division_rounds_down() {
    let c = ResponseCurve::new(vec![0, 3_000], vec![0, 1_000]).unwrap();
    // The exact value at 1000 is 333.33...; the quotient rounds down.
    assert_eq!(c.evaluate(1_000), 333);
    assert_eq!(c.evaluate(2_000), 666);
}

#[test]
fn dipping_curve_is_allowed() {
    let c = ResponseCurve::new(vec![0, 10_000, 20_000], vec![40_000, 20_000, 60_000]).unwrap();
    assert_eq!(c.evaluate(0), 40_000);
    assert_eq!(c.evaluate(5_000), 30_000);
    assert_eq!(c.evaluate(10_000), 20_000);
    assert_eq!(c.evaluate(15_000), 40_000);
}

#[test]
fn single_breakpoint_curve() {
    let c = ResponseCurve::new(vec![50_000], vec![40_000]).unwrap();
    assert_eq!(c.evaluate(49_999), 0);
    assert_eq!(c.evaluate(50_000), 40_000);
    assert_eq!(c.evaluate(90_000), 40_000);
}

#[test]
fn non_increasing_temperatures_rejected() {
    assert_eq!(ResponseCurve::new(vec![50_000, 50_000], vec![1, 2]).err(), Some(CurveError::NotIncreasing));
    assert_eq!(ResponseCurve::new(vec![60_000, 50_000, 70_000], vec![1, 2, 3]).err(), Some(CurveError::NotIncreasing));
}

#[test]
fn unequal_lengths_rejected() {
    assert_eq!(ResponseCurve::new(vec![50_000, 60_000], vec![30_000]).err(), Some(CurveError::UnequalLengths));
    assert_eq!(ResponseCurve::new(vec![], vec![30_000]).err(), Some(CurveError::UnequalLengths));
}

#[test]
fn empty_tables_rejected() {
    assert_eq!(ResponseCurve::new(vec![], vec![]).err(), Some(CurveError::Empty));
}

#[test]
fn out_of_range_step_rejected() {
    assert_eq!(ResponseCurve::new(vec![1_000_000_001], vec![0]).err(), Some(CurveError::StepOutOfRange));
    assert_eq!(ResponseCurve::new(vec![0], vec![-1_000_000_001]).err(), Some(CurveError::StepOutOfRange));
    // The bound itself is representable.
    assert!(ResponseCurve::new(vec![1_000_000_000], vec![-1_000_000_000]).is_ok());
}
