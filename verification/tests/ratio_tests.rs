use counting_ratio::CountingRatio;

#[test]
fn new_is_undefined_until_observed() {
    let mut observations = CountingRatio::new();
    assert_eq!(observations.defined(), false);
    observations.observe(true);
    assert_eq!(observations.defined(), true);

    let mut misses = CountingRatio::new();
    misses.observe(false);
    assert_eq!(misses.defined(), true);
    assert_eq!(misses.matches, 0);
    assert_eq!(misses.observations, 1);
}

#[test]
fn observe_counts_matches_and_trials() {
    let mut observations = CountingRatio::new();
    for i in 0..100 {
        observations.observe(i % 7 == 0);
    }
    assert_eq!(observations.matches, 15);
    assert_eq!(observations.observations, 100);
    assert_eq!(observations.to_display_string(), "15/100 (15.00%)");
}

#[test]
fn observe_with_prior_gates_the_denominator() {
    let mut observations = CountingRatio::new();
    for s in ["bear", "zoo", "spin", "", "tribe", "", "grip", "lion", "", "cobra", "ape"] {
        observations.observe_with_prior(s.len() > 0, s.contains("a"));
    }
    assert_eq!(observations.matches, 3);
    assert_eq!(observations.observations, 8);
    assert_eq!(observations.to_display_string(), "3/8 (37.50%)");
}

#[test]
fn failed_prior_changes_nothing() {
    let mut observations = CountingRatio::ratio(4, 9);
    observations.observe_with_prior(false, true);
    observations.observe_with_prior(false, false);
    assert_eq!(observations.matches, 4);
    assert_eq!(observations.observations, 9);
}

#[test]
fn addition_is_componentwise() {
    let a = CountingRatio::ratio(20, 100);
    let b = CountingRatio::ratio(4, 20);
    let c = a.plus(b);
    assert_eq!(c.matches, 24);
    assert_eq!(c.observations, 120);

    let mut obs1 = CountingRatio::new();
    for i in 0..100 {
        obs1.observe(i % 7 == 0);
    }
    let mut obs2 = CountingRatio::new();
    for i in 0..20 {
        obs2.observe(i % 4 == 0);
    }
    let obs3 = obs1.plus(obs2);
    assert_eq!(obs3.matches, 20);
    assert_eq!(obs3.observations, 120);
    assert_eq!(obs3.to_display_string(), "20/120 (16.67%)");
}

#[test]
fn in_place_arithmetic_matches_the_functional_forms() {
    let mut a = CountingRatio::ratio(20, 100);
    a.plus_assign(CountingRatio::ratio(4, 20));
    assert_eq!(a, CountingRatio::ratio(24, 120));

    let mut b = CountingRatio::ratio(2, 10);
    b.times_assign(CountingRatio::ratio(10, 16));
    assert_eq!(b, CountingRatio::ratio(20, 160));

    let mut c = CountingRatio::ratio(20, 160);
    c.divided_by_assign(CountingRatio::ratio(3, 16));
    assert_eq!(c, CountingRatio::ratio(320, 480));
}

#[test]
fn multiplication_is_componentwise() {
    let a = CountingRatio::ratio(2, 10);
    let b = CountingRatio::ratio(10, 16);
    let c = a.times(b);
    assert_eq!(c.matches, 20);
    assert_eq!(c.observations, 160);
}

#[test]
fn division_cross_multiplies() {
    let a = CountingRatio::ratio(20, 160);
    let b = CountingRatio::ratio(3, 16);
    let c = a.divided_by(b);
    assert_eq!(c.matches, 20 * 16);
    assert_eq!(c.observations, 160 * 3);
}

#[test]
fn scale_numerator_leaves_the_denominator() {
    let a = CountingRatio::ratio(2, 10);
    let b = a.scale_numerator(10);
    assert_eq!(b.matches, 20);
    assert_eq!(b.observations, 10);
}

#[test]
fn float_conversion_divides_the_raw_counts() {
    let r = CountingRatio::ratio(3, 8);
    assert_eq!(r.matches as f64 / r.observations as f64, 0.375);
    let q = CountingRatio::ratio(15, 100);
    assert_eq!(q.matches as f64 / q.observations as f64, 0.15);
    let z = CountingRatio::new();
    assert!((z.matches as f64 / z.observations as f64).is_nan());
}

#[test]
fn display_is_exact() {
    assert_eq!(CountingRatio::ratio(15, 100).to_display_string(), "15/100 (15.00%)");
    assert_eq!(CountingRatio::ratio(3, 8).to_display_string(), "3/8 (37.50%)");
    assert_eq!(CountingRatio::ratio(20, 120).to_display_string(), "20/120 (16.67%)");
    assert_eq!(CountingRatio::ratio(3, 10).to_display_string(), "3/10 (30.00%)");
    assert_eq!(CountingRatio::ratio(0, 3).to_display_string(), "0/3 (0.00%)");
    assert_eq!(CountingRatio::new().to_display_string(), "0/0 (NaN%)");
    assert_eq!(CountingRatio::ratio(7, 0).to_display_string(), "7/0 (NaN%)");
    assert_eq!(CountingRatio::ratio(5, 4).to_display_string(), "5/4 (125.00%)");
}

#[test]
fn ordering_by_cross_multiplication() {
    let ratio1 = CountingRatio::ratio(3, 10);
    let ratio2 = CountingRatio::ratio(3, 7);
    assert!(ratio1 < ratio2);
    assert!(ratio2 > ratio1);
    // a < b iff a.matches * b.observations < b.matches * a.observations
    let a = CountingRatio::ratio(2, 5);
    let b = CountingRatio::ratio(3, 4);
    assert_eq!(a < b, 2 * 4 < 3 * 5);

    // zero numerators sort below everything and equal each other
    let zero1 = CountingRatio::ratio(0, 9);
    let zero2 = CountingRatio::ratio(0, 2);
    assert!(zero1 <= zero2 && zero2 <= zero1);
    assert!(zero1 < a);

    // the documented quirk: equal denominators compare equal whatever the
    // numerators
    let p = CountingRatio::ratio(1, 6);
    let q = CountingRatio::ratio(5, 6);
    assert!(p <= q && q <= p);
    assert!(!(p < q) && !(q < p));

    // field equality stays exact and unreduced
    assert_ne!(CountingRatio::ratio(1, 2), CountingRatio::ratio(2, 4));
    assert_eq!(CountingRatio::ratio(1, 2), CountingRatio::ratio(1, 2));
}
