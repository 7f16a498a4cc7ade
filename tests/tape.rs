use phi_lib::rule::Rule;
use phi_lib::tape::{ApplyRuleError, Tape};

/// `Σ digit·base^position` over the stored digits, in floating point.
fn value(tape: &Tape, base: f64) -> f64 {
    tape.iter()
        .into_iter()
        .zip(tape.index_iter())
        .map(|(d, p)| f64::from(d) * base.powi(p as i32))
        .sum()
}

fn phi() -> f64 {
    (1. + 5_f64.sqrt()) / 2.
}

#[test]
fn from_arrays() {
    let x = Tape::from_arrays(&[1, 2, 3], &[4, 5, 6]);
    assert_eq!(x.range(), (-3, 3));
    assert_eq!((x.get(0), x.get(1), x.get(2)), (3, 2, 1));
    assert_eq!((x.get(-1), x.get(-2), x.get(-3)), (4, 5, 6));
    assert_eq!(x.iter(), vec![1, 2, 3, 4, 5, 6]);
    assert_eq!(x.index_iter(), vec![2, 1, 0, -1, -2, -3]);
}

#[test]
fn eq() {
    let x = Tape::from_arrays(&[0, 1, 2, 3], &[4, 5, 6]);
    let y = Tape::from_arrays(&[1, 2, 3], &[4, 5, 6, 0]);
    assert_eq!(x, y);
    assert_ne!(x, Tape::from_arrays(&[1, 2, 3], &[4, 5, 6, 1]));
}

#[test]
fn add() {
    let x = Tape::from_arrays(&[1, 2], &[3, 4, 5, 6]);
    let y = Tape::from_arrays(&[1, 2, 3, 4], &[5]);
    let z = x.add(y);
    assert_eq!(z.range(), (-4, 4));
    assert_eq!(z.iter(), vec![1, 2, 4, 6, 8, 4, 5, 6]);
    assert_eq!(z, Tape::from_arrays(&[1, 2, 4, 6], &[8, 4, 5, 6]));
}

#[test]
fn add_assign_into_zero() {
    let mut z = Tape::zero();
    z.add_assign(Tape::from_arrays(&[7], &[0, 2]));
    assert_eq!(z, Tape::from_arrays(&[7], &[0, 2]));
    assert_eq!(z.range(), (-2, 1));
}

#[test]
fn is_valid() {
    let rule = Rule::from_array(&[1, 1]).unwrap();
    assert!(!Tape::from_arrays(&[1, 2], &[3, 4]).is_valid(&rule));
    assert!(Tape::from_arrays(&[1, 1], &[1, 1]).is_valid(&rule));
    assert!(Tape::from_arrays(&[1, 0], &[1, 0]).is_valid(&rule));
}

#[test]
fn is_standard() {
    let rule = Rule::from_array(&[1, 1]).unwrap();
    assert!(!Tape::from_arrays(&[1, 1], &[1, 1]).is_standard(&rule));
    assert!(Tape::from_arrays(&[1, 0], &[1]).is_standard(&rule));
    assert!(!Tape::from_arrays(&[1, 1, 1], &[1, 1, 1]).is_standard(&rule));
    assert!(!Tape::from_arrays(&[1, 1, 1], &[1, 1, 0]).is_standard(&rule));
    assert!(!Tape::from_arrays(&[1, 0, 1], &[0, 1, 1]).is_standard(&rule));
}

#[test]
fn invalid_tape_is_not_standard() {
    let rule = Rule::from_array(&[1, 1]).unwrap();
    assert!(!Tape::from_arrays(&[2], &[]).is_standard(&rule));
    assert!(Tape::zero().is_standard(&rule));
}

#[test]
fn apply_rule_1() {
    let tape = Tape::from_arrays(&[5], &[2]);
    let rule = Rule::from_array(&[2]).unwrap();
    let index = 0;
    let result = tape.apply(&rule, index).unwrap();
    assert!((value(&tape, 2.) - 6.).abs() < 1e-9);
    assert!((value(&result, 2.) - 6.).abs() < 1e-9);
    assert_eq!(result, Tape::from_arrays(&[6], &[0]));
}

#[test]
fn apply_keeps_fibonacci_value() {
    let rule = Rule::from_array(&[1, 1]).unwrap();
    let tape = Tape::from_arrays(&[0, 1, 1], &[]);
    let result = tape.apply(&rule, 2).unwrap();
    assert_eq!(result, Tape::from_arrays(&[1, 0, 0], &[]));
    assert!((value(&tape, phi()) - value(&result, phi())).abs() < 1e-9);
}

#[test]
fn apply_extends_the_top() {
    let rule = Rule::from_array(&[1, 1]).unwrap();
    let tape = Tape::from_arrays(&[1, 1], &[]);
    let result = tape.clone().apply_in_place(&rule, 2).unwrap();
    assert_eq!(result.range(), (0, 3));
    assert_eq!(result.iter(), vec![1, 0, 0]);
    assert!((value(&tape, phi()) - value(&result, phi())).abs() < 1e-9);
}

#[test]
fn apply_reports_first_shortfall() {
    let rule = Rule::from_array(&[1, 1]).unwrap();
    let tape = Tape::from_arrays(&[1], &[0]);
    let err = tape.apply(&rule, 1).unwrap_err();
    assert_eq!(
        err,
        ApplyRuleError { application_index: 1, rule_index: 1, rule_value: 1, tape_value: 0 }
    );
    let err = Tape::zero().apply(&rule, 0).unwrap_err();
    assert_eq!(
        err,
        ApplyRuleError { application_index: 0, rule_index: 0, rule_value: 1, tape_value: 0 }
    );
}

#[test]
fn find_carry_takes_the_highest() {
    let rule = Rule::from_array(&[1, 1]).unwrap();
    assert_eq!(Tape::from_arrays(&[1, 1, 1], &[]).find_carry(&rule), Some(3));
    assert_eq!(Tape::from_arrays(&[1, 0, 1], &[0, 1, 1]).find_carry(&rule), Some(-1));
    assert_eq!(Tape::from_arrays(&[1, 0, 1], &[]).find_carry(&rule), None);
}

#[test]
fn standardize_fibonacci_run() {
    let rule = Rule::from_array(&[1, 1]).unwrap();
    let tape = Tape::from_arrays(&[1, 1, 1, 1, 1], &[]);
    let result = tape.standardize(&rule);
    assert_eq!(result, Tape::from_arrays(&[1, 0, 1, 0, 0, 1], &[]));
    assert!(result.is_standard(&rule));
    assert!((value(&tape, phi()) - value(&result, phi())).abs() < 1e-9);
}

#[test]
fn standardize_window_at_the_low_edge() {
    let rule = Rule::from_array(&[1, 1]).unwrap();
    let tape = Tape::from_arrays(&[1, 0, 1], &[0, 1, 1]);
    let result = tape.standardize(&rule);
    assert_eq!(result, Tape::from_arrays(&[1, 0, 0, 0], &[]));
    assert!(result.is_standard(&rule));
    assert!((value(&tape, phi()) - value(&result, phi())).abs() < 1e-9);
}

#[test]
fn standardize_single_digit_rule() {
    let rule = Rule::from_array(&[3]).unwrap();
    let tape = Tape::from_arrays(&[3, 3], &[]);
    let result = tape.clone().standardize_in_place(&rule);
    assert_eq!(result, Tape::from_arrays(&[1, 1, 0], &[]));
    assert!((value(&tape, 3.) - value(&result, 3.)).abs() < 1e-9);
    assert!((value(&result, 3.) - 12.).abs() < 1e-9);
}

#[test]
fn standardize_is_idempotent() {
    let rule = Rule::from_array(&[2, 1]).unwrap();
    let tape = Tape::from_arrays(&[2, 2, 1, 2], &[2, 1, 2]);
    let once = tape.standardize(&rule);
    let twice = once.standardize(&rule);
    assert_eq!(once, twice);
    assert!(once.is_standard(&rule));
    let base = 1. + 2_f64.sqrt();
    assert!((value(&tape, base) - value(&once, base)).abs() < 1e-9);
}

#[test]
fn standardize_keeps_a_standard_tape() {
    let rule = Rule::from_array(&[1, 1]).unwrap();
    let tape = Tape::from_arrays(&[1, 0], &[1]);
    assert_eq!(tape.standardize(&rule), tape);
}

#[test]
fn set_extends_with_zeros() {
    let mut t = Tape::zero();
    t.set(3, 2);
    assert_eq!(t.range(), (0, 4));
    assert_eq!((t.get(3), t.get(1), t.get(7)), (2, 0, 0));
    t.set(-2, 1);
    assert_eq!(t.range(), (-2, 4));
    assert_eq!(t.iter(), vec![2, 0, 0, 0, 0, 1]);
}
