use phi_lib::rule::Rule;

/// The characteristic polynomial `x^n - r[0]·x^(n-1) - … - r[n-1]` of the
/// rule's stored coefficients, evaluated in floating point.
fn char_poly_at(rule: &Rule, x: f64) -> f64 {
    let n = rule.len() as i32;
    let mut sum = x.powi(n);
    for (i, &v) in rule.values().iter().enumerate() {
        sum -= f64::from(v) * x.powi(n - 1 - i as i32);
    }
    sum
}

#[test]
fn rule_base_whole() {
    for k in [1u32, 2, 3] {
        let rule = Rule::from_array(&[k]).unwrap();
        assert_eq!(rule.values(), &[k]);
        assert!(char_poly_at(&rule, f64::from(k)).abs() < 1e-12);
    }
}

#[test]
fn rule_base_phi() {
    let phi = (1. + 5_f64.sqrt()) / 2.;
    let rule = Rule::from_array(&[1, 1]).unwrap();
    assert!(char_poly_at(&rule, phi).abs() < 1e-12);
    let rule = Rule::from_array(&[1, 1, 0]).unwrap();
    assert!(char_poly_at(&rule, phi).abs() < 1e-12);
    assert!(Rule::from_array(&[1, 1, 0]).unwrap() == Rule::from_array(&[1, 1]).unwrap());
}

#[test]
fn base_is_bracketed() {
    let rule = Rule::from_array(&[3, 2, 2, 1]).unwrap();
    let first = f64::from(rule.first());
    assert!(char_poly_at(&rule, first) <= 0.);
    assert!(char_poly_at(&rule, first + 1.) > 0.);
}

#[test]
fn rule_rejects_increase() {
    assert!(Rule::from_array(&[1, 2]).is_none());
    assert!(Rule::from_array(&[3, 1, 2]).is_none());
    assert!(Rule::from_array(&[2, 2, 0, 1]).is_none());
}

#[test]
fn rule_rejects_empty_and_zero() {
    assert!(Rule::from_array(&[]).is_none());
    assert!(Rule::from_array(&[0]).is_none());
    assert!(Rule::from_array(&[0, 0, 0]).is_none());
}

#[test]
fn rule_strips_trailing_zeros() {
    let rule = Rule::from_array(&[3, 2, 2, 0, 0]).unwrap();
    assert_eq!(rule.values(), &[3, 2, 2]);
    assert_eq!(rule.iter(), vec![3, 2, 2]);
    assert_eq!(rule.len(), 3);
    assert!(!rule.is_empty());
    assert_eq!(rule.first(), 3);
    assert_eq!(rule.get(1), Some(2));
    assert_eq!(rule.get(3), None);
}

#[test]
fn rule_accepts_equal_neighbours() {
    let rule = Rule::from_array(&[5, 5, 5]).unwrap();
    assert_eq!(rule.values(), &[5, 5, 5]);
    assert!(Rule::from_array(&[5, 5, 4]).unwrap() != rule);
}
