use counting_ratio::BayesianCounter;
use counting_ratio::CountingRatio;

fn doc_counter() -> BayesianCounter<&'static str, i32> {
    let nums1 = vec![1, 3, 3, 5, 6, 7, 9, 11, 12, 13];
    let nums2 = vec![0, 2, 3, 6, 8, 9];
    let mut bayesian = BayesianCounter::new();
    for num in nums1.iter() {
        bayesian.observe(*num, "One");
    }
    for num in nums2.iter() {
        bayesian.observe(*num, "Two");
    }
    bayesian
}

#[test]
fn joint_and_marginal_counts() {
    let bayesian = doc_counter();
    assert_eq!(bayesian.label_count("One"), 10);
    assert_eq!(bayesian.label_count("Two"), 6);
    assert_eq!(bayesian.count(3, "One"), 2);
    assert_eq!(bayesian.count(3, "Two"), 1);
    assert_eq!(bayesian.count(5, "Two"), 0);
    assert_eq!(bayesian.count(42, "One"), 0);
    assert_eq!(bayesian.label_count("Three"), 0);
    assert_eq!(bayesian.example_count(3), 3);
    assert_eq!(bayesian.example_count(6), 2);
    assert_eq!(bayesian.example_count(42), 0);
}

#[test]
fn probabilities_are_exact_ratios() {
    let bayesian = doc_counter();
    assert_eq!(bayesian.p_label("One"), CountingRatio::ratio(10, 16));
    assert_eq!(bayesian.p_label("Two"), CountingRatio::ratio(6, 16));
    assert_eq!(bayesian.p_example(1), CountingRatio::ratio(1, 16));
    assert_eq!(bayesian.p_example(3), CountingRatio::ratio(3, 16));
    assert_eq!(bayesian.p_example_given_label(3, "One"), CountingRatio::ratio(2, 10));
    assert_eq!(bayesian.p_example_given_label(3, "Two"), CountingRatio::ratio(1, 6));
    assert_eq!(
        bayesian.p_label_given_example("One", 3),
        CountingRatio::ratio(2 * 10 * 16, 10 * 16 * 3)
    );
}

#[test]
fn exhaustive_labels_partition_the_total() {
    let bayesian = doc_counter();
    let one = bayesian.p_label("One");
    let two = bayesian.p_label("Two");
    assert_eq!(one.plus(two).matches, 16);
    assert_eq!(bayesian.label_count("One") + bayesian.label_count("Two"), 16);
}

#[test]
fn bayes_rule_follows_the_literal_operator_sequence() {
    let bayesian = doc_counter();
    let by_hand = bayesian
        .p_example_given_label(3, "One")
        .times(bayesian.p_label("One"))
        .divided_by(bayesian.p_example(3));
    assert_eq!(by_hand, bayesian.p_label_given_example("One", 3));
    // unsimplified products, by design
    assert_eq!(by_hand.matches, 2 * 10 * 16);
    assert_eq!(by_hand.observations, 10 * 16 * 3);
}

#[test]
fn never_observed_keys_give_zero_denominators() {
    let bayesian = doc_counter();
    let p = bayesian.p_example_given_label(3, "Three");
    assert_eq!(p, CountingRatio::ratio(0, 0));
    assert!(!p.defined());
    let empty: BayesianCounter<&'static str, i32> = BayesianCounter::new();
    let q = empty.p_label("One");
    assert_eq!(q.observations, 0);
    assert!((q.matches as f64 / q.observations as f64).is_nan());
}

#[test]
fn ranking_orders_labels_ascending() {
    // label counts: "A" 3 (example 1 twice, example 2 once), "B" 1
    // (example 1 once), "C" 2 (example 3 twice), "D" 3 (example 1 once,
    // example 4 twice)
    let mut bayesian = BayesianCounter::new();
    bayesian.observe(1, "A");
    bayesian.observe(1, "A");
    bayesian.observe(2, "A");
    bayesian.observe(1, "B");
    bayesian.observe(3, "C");
    bayesian.observe(3, "C");
    bayesian.observe(1, "D");
    bayesian.observe(4, "D");
    bayesian.observe(4, "D");
    // scores for example 1: A 6/3, B 1/1, C 0/2, D 3/3; C is least (zero
    // numerator), B is below A by cross-multiplication, and D ties with A
    // under the equal-observations quirk, so first-observed order keeps A
    // before D.
    let ranking = bayesian.label_ranking_for(1);
    assert_eq!(ranking, vec!["C", "B", "A", "D"]);
    // stable under repeated calls with no intervening observe
    assert_eq!(bayesian.label_ranking_for(1), vec!["C", "B", "A", "D"]);
    // every label ever observed appears exactly once
    let mut seen = bayesian.label_ranking_for(1);
    seen.sort();
    assert_eq!(seen, vec!["A", "B", "C", "D"]);
}

#[test]
fn ranking_of_empty_counter_is_empty() {
    let empty: BayesianCounter<&'static str, i32> = BayesianCounter::new();
    let ranking = empty.label_ranking_for(7);
    assert_eq!(ranking.len(), 0);
}
