use switchnet::network::{Network, TrainingPair, TrainingSet};
use switchnet::ratio::Ratio;
use switchnet::rng::RandomSource;

fn xor_set() -> TrainingSet {
    let mut set = TrainingSet::new();
    set.push(TrainingPair::new(vec![true, false], vec![true]));
    set.push(TrainingPair::new(vec![false, true], vec![true]));
    set.push(TrainingPair::new(vec![false, false], vec![false]));
    set.push(TrainingPair::new(vec![true, true], vec![false]));
    set
}

#[test]
fn network_random_switch_preserves_every_layer() {
    let mut rng = RandomSource::from_seed(31);
    let mut net = Network::create(2, 3);
    for _ in 0..50 {
        net.random_switch(&mut rng, 4);
        for l in net.layers.iter() {
            assert!(l.is_valid());
        }
    }
}

#[test]
fn train_for_set_never_raises_a_consistent_store_under_a_bar_of_one() {
    let mut rng = RandomSource::from_seed(41);
    let mut net = Network::create(2, 2);
    net.random_switch(&mut rng, 50);
    let set = xor_set();
    net.error_set(&set);
    let one = Ratio::one();
    let mut prev = net.error_store();
    for _ in 0..3000 {
        net.train_for_set(&mut rng, &set, 2, one);
        let cur = net.error_store();
        assert!(cur.le(&prev), "stored error rose from {:?} to {:?}", prev, cur);
        prev = cur;
    }
}

#[test]
fn smart_train_for_set_never_raises_a_consistent_store_under_a_bar_of_one() {
    let mut rng = RandomSource::from_seed(43);
    let mut net = Network::create(2, 3);
    net.random_switch(&mut rng, 50);
    let set = xor_set();
    net.error_set(&set);
    let one = Ratio::one();
    let mut prev = net.error_store();
    for _ in 0..1000 {
        net.smart_train_for_set(&mut rng, &set, 2, one);
        let cur = net.error_store();
        assert!(cur.le(&prev), "stored error rose from {:?} to {:?}", prev, cur);
        prev = cur;
    }
}

#[test]
fn accepted_candidates_report_their_stored_score() {
    let mut rng = RandomSource::from_seed(47);
    let mut net = Network::create(2, 3);
    net.random_switch(&mut rng, 50);
    let set = xor_set();
    net.error_set(&set);
    let one = Ratio::one();
    let mut accepts = 0;
    for _ in 0..2000 {
        let before = net.error_store();
        if net.train_for_set(&mut rng, &set, 2, one) {
            accepts += 1;
            let after = net.error_store();
            assert!(after.lt(&before), "an accepted mutation did not improve the score");
        }
    }
    assert!(accepts > 0, "no mutation was ever accepted");
}

#[test]
fn smart_invert_and_smart_switch_keep_the_network_well_formed() {
    let mut rng = RandomSource::from_seed(53);
    let mut net = Network::create(2, 3);
    net.random_switch(&mut rng, 30);
    let pair = TrainingPair::new(vec![true, false], vec![true]);
    for _ in 0..200 {
        net.smart_invert(&mut rng, &pair, 2);
        net.smart_switch(&mut rng, &pair, 2);
        assert_eq!(net.width(), 2);
        assert_eq!(net.depth(), 3);
        for l in net.layers.iter() {
            assert!(l.is_valid());
        }
    }
}

// With two layers the split depth of smart_invert is forced to one, so the
// repair is deterministic: the example below disagrees on all three wires
// of the only block at the cut point, and one toggle of the second layer's
// invert flag makes the network exact.
#[test]
fn smart_invert_fixes_a_fully_mismatched_block() {
    let mut rng = RandomSource::from_seed(0);
    let mut net = Network::create(1, 2);
    let pair = TrainingPair::new(vec![true, true, false], vec![false, false, true]);
    let mut set = TrainingSet::new();
    set.push(pair.duplicate());
    let before = net.error_set(&set);
    assert_eq!((before.num, before.den), (3, 3));
    net.smart_invert(&mut rng, &pair, 1);
    let after = net.error_set(&set);
    assert!(after.is_zero());
    assert_eq!(net.layers[1].invert_flags(), vec![true]);
    assert_eq!(net.layers[0].invert_flags(), vec![false]);
}

// With two layers the split depth of smart_switch is forced to zero, and
// with one disagreeing position on each side the single swap is forced
// too: it exchanges the first two entries of the first layer's permutation
// and makes the network exact.
#[test]
fn smart_switch_repairs_a_swapped_pair() {
    let mut rng = RandomSource::from_seed(0);
    let mut net = Network::create(1, 2);
    let pair = TrainingPair::new(vec![true, false, false], vec![false, true, false]);
    let mut set = TrainingSet::new();
    set.push(pair.duplicate());
    let before = net.error_set(&set);
    assert_eq!((before.num, before.den), (2, 3));
    net.smart_switch(&mut rng, &pair, 1);
    let after = net.error_set(&set);
    assert!(after.is_zero());
    assert_eq!(net.layers[0].map_entries(), vec![1, 0, 2]);
    assert_eq!(net.layers[1].map_entries(), vec![0, 1, 2]);
}

// The four-row exclusive-or task.  Two layers of three-wire blocks cannot
// place the exclusive-or of two wires on the compared wire, so the network
// is given three layers; a generous search ceiling is allowed rather than
// a fixed iteration count.
#[test]
fn blind_training_reaches_zero_error_on_the_xor_set() {
    let mut rng = RandomSource::from_seed(1);
    let mut net = Network::create(2, 3);
    net.random_switch(&mut rng, 60);
    let set = xor_set();
    net.error_set(&set);
    let bar = Ratio::new(21, 20);
    let mut reached_zero = false;
    for _ in 0..2_000_000 {
        net.train_for_set(&mut rng, &set, 2, bar);
        if net.error_store().is_zero() {
            reached_zero = true;
            break;
        }
    }
    assert!(reached_zero, "the search budget was exhausted before the error reached zero");
    // the score is the truth: every row evaluates to its expected bit
    let e = net.error_set(&set);
    assert!(e.is_zero());
    let out = net.eval(&vec![true, false]);
    assert!(out[0]);
    let out = net.eval(&vec![false, true]);
    assert!(out[0]);
    let out = net.eval(&vec![false, false]);
    assert!(!out[0]);
    let out = net.eval(&vec![true, true]);
    assert!(!out[0]);
}

#[test]
fn mixed_training_reaches_zero_error_on_the_xor_set() {
    let mut rng = RandomSource::from_seed(2);
    let mut net = Network::create(2, 3);
    net.random_switch(&mut rng, 60);
    let set = xor_set();
    net.error_set(&set);
    let bar = Ratio::new(21, 20);
    let mut reached_zero = false;
    for round in 0..500_000u64 {
        if round % 4 == 0 {
            net.smart_train_for_set(&mut rng, &set, 2, bar);
        } else {
            net.train_for_set(&mut rng, &set, 2, bar);
        }
        if net.error_store().is_zero() {
            reached_zero = true;
            break;
        }
    }
    assert!(reached_zero, "the search budget was exhausted before the error reached zero");
}
