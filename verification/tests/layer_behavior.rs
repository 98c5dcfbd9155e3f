use switchnet::layer::{check_permutation, Layer};
use switchnet::rng::RandomSource;

fn all_inputs(wires: usize) -> Vec<Vec<bool>> {
    let mut out = Vec::new();
    for bits in 0..(1u32 << wires) {
        let mut v = Vec::new();
        for i in 0..wires {
            v.push(bits & (1 << i) != 0);
        }
        out.push(v);
    }
    out
}

#[test]
fn identity_layer_passes_through_when_select_is_false() {
    let mut l = Layer::create(1);
    let out = l.eval(&vec![true, false, false]);
    assert_eq!(out, vec![true, false, false]);
}

#[test]
fn identity_layer_swaps_when_select_is_true() {
    let mut l = Layer::create(1);
    let out = l.eval(&vec![true, false, true]);
    assert_eq!(out, vec![false, true, true]);
}

#[test]
fn reverse_undoes_eval_on_identity_layer() {
    let mut l = Layer::create(1);
    let a = vec![true, false, false];
    let b = vec![true, false, true];
    let out_a = l.eval(&a);
    assert_eq!(l.reverse(&out_a), a);
    let out_b = l.eval(&b);
    assert_eq!(l.reverse(&out_b), b);
}

#[test]
fn invert_flag_flips_all_three_wires() {
    let l = Layer::from_parts(vec![0, 1, 2], vec![true]);
    let mut l = l.expect("identity permutation must be accepted");
    let out = l.eval(&vec![false, false, false]);
    assert_eq!(out, vec![true, true, true]);
    let back = l.reverse(&out);
    assert_eq!(back, vec![false, false, false]);
}

#[test]
fn permutation_routes_wires_before_the_blocks() {
    // entry i reads upstream wire input_map[i]
    let mut l = Layer::from_parts(vec![1, 0, 2], vec![false]).unwrap();
    let out = l.eval(&vec![true, false, false]);
    assert_eq!(out, vec![false, true, false]);
}

#[test]
fn from_parts_rejects_malformed_permutations() {
    assert!(Layer::from_parts(vec![0, 0, 2], vec![false]).is_none());
    assert!(Layer::from_parts(vec![0, 1], vec![false]).is_none());
    assert!(Layer::from_parts(vec![0, 1, 3], vec![false]).is_none());
    assert!(Layer::from_parts(vec![0, 1, 2, 3, 4, 5], vec![false]).is_none());
    assert!(Layer::from_parts(vec![2, 1, 0], vec![false]).is_some());
}

#[test]
fn check_permutation_decides_bijections() {
    assert!(check_permutation(&vec![]));
    assert!(check_permutation(&vec![0]));
    assert!(check_permutation(&vec![2, 0, 1]));
    assert!(!check_permutation(&vec![2, 2, 1]));
    assert!(!check_permutation(&vec![0, 1, 5]));
}

#[test]
fn random_switch_preserves_the_permutation_invariant() {
    let mut rng = RandomSource::from_seed(11);
    let mut l = Layer::create(2);
    for _ in 0..500 {
        l.random_switch(&mut rng);
        assert!(l.is_valid());
        assert!(check_permutation(&l.map_entries()));
    }
}

#[test]
fn controlled_switch_swaps_two_entries() {
    let mut l = Layer::create(1);
    l.controlled_switch(0, 2);
    assert_eq!(l.map_entries(), vec![2, 1, 0]);
    assert!(l.is_valid());
    l.controlled_switch(0, 2);
    assert_eq!(l.map_entries(), vec![0, 1, 2]);
}

#[test]
fn toggle_invert_flips_one_flag() {
    let mut l = Layer::create(2);
    l.toggle_invert(1);
    assert_eq!(l.invert_flags(), vec![false, true]);
    l.toggle_invert(1);
    assert_eq!(l.invert_flags(), vec![false, false]);
}

#[test]
fn reverse_undoes_eval_on_a_scrambled_layer_for_every_input() {
    let mut rng = RandomSource::from_seed(3);
    let mut l = Layer::create(2);
    for _ in 0..100 {
        l.random_switch(&mut rng);
    }
    assert!(l.is_valid());
    for v in all_inputs(6) {
        let out = l.eval(&v);
        assert_eq!(l.reverse(&out), v, "round trip failed for {:?}", v);
    }
}

#[test]
fn eval_caches_the_evaluated_vectors() {
    let mut l = Layer::create(1);
    assert!(l.last_inputs().is_none());
    assert!(l.last_outputs().is_none());
    let input = vec![true, false, true];
    let out = l.eval(&input);
    assert_eq!(l.last_inputs(), Some(input));
    assert_eq!(l.last_outputs(), Some(out));
}

#[test]
fn duplicate_is_an_independent_value_copy() {
    let mut rng = RandomSource::from_seed(5);
    let mut l = Layer::create(2);
    for _ in 0..20 {
        l.random_switch(&mut rng);
    }
    let mut copy = l.duplicate();
    assert_eq!(copy.map_entries(), l.map_entries());
    assert_eq!(copy.invert_flags(), l.invert_flags());
    copy.controlled_switch(0, 1);
    assert_ne!(copy.map_entries(), l.map_entries());
}
