use switchnet::network::{Network, TrainingPair, TrainingSet};
use switchnet::ratio::Ratio;
use switchnet::rng::RandomSource;

fn all_inputs(wires: usize) -> Vec<Vec<bool>> {
    let mut out = Vec::new();
    for bits in 0..(1u32 << wires) {
        let mut v = Vec::new();
        for i in 0..wires {
            v.push(bits & (1 << i) != 0);
        }
        out.push(v);
    }
    out
}

#[test]
fn one_identity_layer_network_matches_the_block_semantics() {
    let mut net = Network::create(1, 1);
    assert_eq!(net.width(), 1);
    assert_eq!(net.wires(), 3);
    assert_eq!(net.depth(), 1);
    let out = net.eval(&vec![true, false, false]);
    assert_eq!(out, vec![true, false, false]);
    let out = net.eval(&vec![true, false, true]);
    assert_eq!(out, vec![false, true, true]);
    assert_eq!(net.reverse(&out), vec![true, false, true]);
}

#[test]
fn eval_zero_pads_short_inputs() {
    let mut net = Network::create(1, 1);
    let out = net.eval(&vec![true]);
    assert_eq!(out, vec![true, false, false]);
    let out = net.eval(&vec![]);
    assert_eq!(out, vec![false, false, false]);
}

#[test]
fn eval_is_idempotent_on_an_unmutated_network() {
    let mut rng = RandomSource::from_seed(17);
    let mut net = Network::create(2, 3);
    net.random_switch(&mut rng, 60);
    let input = vec![true, false, true, true];
    let first = net.eval(&input);
    let second = net.eval(&input);
    assert_eq!(first, second);
    let third = net.eval(&input);
    assert_eq!(first, third);
}

#[test]
fn reverse_undoes_eval_on_a_scrambled_network_for_every_input() {
    let mut rng = RandomSource::from_seed(23);
    let mut net = Network::create(2, 3);
    net.random_switch(&mut rng, 80);
    for v in all_inputs(6) {
        let out = net.eval(&v);
        assert_eq!(net.reverse(&out), v, "round trip failed for {:?}", v);
    }
}

#[test]
fn error_counts_the_mismatch_fraction_exactly() {
    let mut net = Network::create(1, 1);
    // identity: eval([t]) == [t, f, f]
    let e = net.error(&vec![true], &vec![true]);
    assert_eq!((e.num, e.den), (0, 1));
    assert!(e.is_zero());
    let e = net.error(&vec![true], &vec![false]);
    assert_eq!((e.num, e.den), (1, 1));
    let e = net.error(&vec![true], &vec![true, false, true]);
    assert_eq!((e.num, e.den), (1, 3));
    let e = net.error(&vec![true], &vec![false, true, true]);
    assert_eq!((e.num, e.den), (3, 3));
}

#[test]
fn error_is_zero_for_an_empty_expectation() {
    let mut net = Network::create(1, 1);
    let e = net.error(&vec![true], &vec![]);
    assert_eq!((e.num, e.den), (0, 1));
}

#[test]
fn error_set_is_the_exact_mean_and_updates_the_store() {
    let mut net = Network::create(1, 1);
    let mut set = TrainingSet::new();
    // identity: eval([t]) == [t, f, f]
    set.push(TrainingPair::new(vec![true], vec![false]));  // error 1/1
    set.push(TrainingPair::new(vec![true], vec![true, false, true]));  // error 1/3
    let e = net.error_set(&set);
    // mean of 1/1 and 1/3 is 2/3, carried as 4/6
    assert_eq!((e.num, e.den), (4, 6));
    let stored = net.error_store();
    assert_eq!((stored.num, stored.den), (4, 6));
}

#[test]
fn error_set_of_an_empty_set_is_zero() {
    let mut net = Network::create(2, 2);
    let set = TrainingSet::new();
    let e = net.error_set(&set);
    assert_eq!((e.num, e.den), (0, 1));
    let stored = net.error_store();
    assert_eq!((stored.num, stored.den), (0, 1));
}

#[test]
fn fits_word_decides_whether_the_exact_mean_fits() {
    let mut small = TrainingSet::new();
    small.push(TrainingPair::new(vec![true], vec![true]));
    small.push(TrainingPair::new(vec![false], vec![false, true]));
    assert!(small.fits_word());
    assert!(TrainingSet::new().fits_word());
    // eleven expectations of 64 wires each: the product of denominators
    // alone is 2^66, past what a 64-bit word can carry
    let mut huge = TrainingSet::new();
    for _ in 0..11 {
        huge.push(TrainingPair::new(vec![true], vec![false; 64]));
    }
    assert!(!huge.fits_word());
}

#[test]
fn a_fresh_network_stores_the_worst_score() {
    let net = Network::create(2, 2);
    let stored = net.error_store();
    assert_eq!((stored.num, stored.den), (1, 1));
}

#[test]
fn ratio_comparisons_are_exact() {
    let third = Ratio::new(1, 3);
    let half = Ratio::new(1, 2);
    let third_again = Ratio::new(2, 6);
    assert!(third.lt(&half));
    assert!(!half.lt(&third));
    assert!(!third.lt(&third_again));
    assert!(!third_again.lt(&third));
    assert!(third.le(&third_again));
    assert!(third_again.le(&third));
    assert!(third.le(&half));
    assert!(!half.le(&third));
}

#[test]
fn ratio_comparisons_do_not_round_large_values() {
    // 1/3 against a 18-digit truncation of its decimal expansion: a float
    // mean would not separate them
    let exact = Ratio::new(1_000_000_000_000_000_000, 3_000_000_000_000_000_000);
    let truncated = Ratio::new(333_333_333_333_333_333, 1_000_000_000_000_000_000);
    assert!(truncated.lt(&exact));
    assert!(!exact.lt(&truncated));
}

#[test]
fn scaled_comparison_applies_the_tolerance_exactly() {
    let half = Ratio::new(1, 2);
    let third = Ratio::new(1, 3);
    let bar = Ratio::new(3, 2);
    // 1/2 against (1/3) * (3/2) == 1/2: not strictly below
    assert!(!half.lt_scaled(&third, &bar));
    // 1/3 against (1/2) * (3/2) == 3/4: strictly below
    assert!(third.lt_scaled(&half, &bar));
    let one = Ratio::one();
    // bar of one reduces to the plain comparison
    assert!(third.lt_scaled(&half, &one));
    assert!(!half.lt_scaled(&third, &one));
}

#[test]
fn seeded_sources_reproduce_a_run() {
    let mut rng_a = RandomSource::from_seed(99);
    let mut rng_b = RandomSource::from_seed(99);
    let mut net_a = Network::create(2, 2);
    let mut net_b = Network::create(2, 2);
    net_a.random_switch(&mut rng_a, 200);
    net_b.random_switch(&mut rng_b, 200);
    for v in all_inputs(6) {
        assert_eq!(net_a.eval(&v), net_b.eval(&v));
    }
}

#[test]
fn differently_seeded_sources_diverge() {
    let mut rng_a = RandomSource::from_seed(1);
    let mut rng_b = RandomSource::from_seed(2);
    let mut net_a = Network::create(2, 2);
    let mut net_b = Network::create(2, 2);
    net_a.random_switch(&mut rng_a, 200);
    net_b.random_switch(&mut rng_b, 200);
    let mut same = true;
    for v in all_inputs(6) {
        if net_a.eval(&v) != net_b.eval(&v) {
            same = false;
        }
    }
    assert!(!same, "two long runs from different seeds produced identical networks");
}
