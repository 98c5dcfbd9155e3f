//! Whole-network mutation and the training strategies.
//!
//! Training is speculative: duplicate the network, mutate the copy, score
//! both, and keep the copy only if it beats the incumbent under the
//! acceptance tolerance.  The blind strategy mutates at random; the
//! informed strategies split the network at a random depth, compare the
//! forward evaluation of the input with the reverse evaluation of the
//! desired output at the cut point, and direct the edits at the
//! disagreeing wires.

use vstd::prelude::*;
use crate::layer::{LayerModel, invert_toggled, map_swapped};
use crate::network::{
    Network, TrainingPair, TrainingSet, net_eval_seq, net_reverse_seq, set_error_den,
    set_error_num, set_fits, stack_wf,
};
use crate::ratio::{frac_lt, Ratio};
use crate::rng::RandomSource;
use crate::wires::padded;

verus! {

/// One blind mutation of a single layer: an invert flag toggled, or two
/// entries of the permutation swapped.
pub open spec fn layer_mutation(a: LayerModel, b: LayerModel) -> bool {
    (exists|k: int| 0 <= k < a.width() && b == invert_toggled(a, k)) || (exists|i: int, j: int|
        0 <= i < a.wires() && 0 <= j < a.wires() && i != j && b == map_swapped(a, i, j))
}

/// One blind mutation somewhere in the stack.
pub open spec fn blind_step(a: Seq<LayerModel>, b: Seq<LayerModel>) -> bool {
    exists|l: int|
        0 <= l < a.len() && b == #[trigger] a.update(l, b[l]) && layer_mutation(a[l], b[l])
}

/// `b` arises from `a` by exactly `k` blind mutations.
pub open spec fn blind_reach(a: Seq<LayerModel>, b: Seq<LayerModel>, k: int) -> bool
    decreases k,
{
    if k <= 0 {
        a == b
    } else {
        exists|c: Seq<LayerModel>| blind_reach(a, c, k - 1) && #[trigger] blind_step(c, b)
    }
}

/// Appending one blind step extends reachability by one mutation.
pub proof fn lemma_blind_reach_step(
    a: Seq<LayerModel>,
    c: Seq<LayerModel>,
    b: Seq<LayerModel>,
    k: int,
)
    requires
        k >= 0,
        blind_reach(a, c, k),
        blind_step(c, b),
    ensures
        blind_reach(a, b, k + 1),
{
    assert(blind_reach(a, c, (k + 1) - 1));
}

/// A blind mutation preserves a layer's invariant and its width.
pub proof fn lemma_mutation_preserves_wf(a: LayerModel, b: LayerModel)
    requires
        a.wf(),
        layer_mutation(a, b),
    ensures
        b.wf(),
        b.width() == a.width(),
{
    if !(exists|k: int| 0 <= k < a.width() && b == invert_toggled(a, k)) {
        let (i, j) = choose|i: int, j: int|
            0 <= i < a.wires() && 0 <= j < a.wires() && i != j && b == map_swapped(a, i, j);
        crate::layer::lemma_swap_is_permutation(a.input_map, i, j);
    }
}

/// The permutation invariant is maintained under any sequence of blind
/// mutations: every layer of every reachable stack keeps a bijection as
/// its input map.
pub proof fn lemma_blind_reach_preserves_wf(
    a: Seq<LayerModel>,
    b: Seq<LayerModel>,
    k: int,
    width: int,
)
    requires
        blind_reach(a, b, k),
        stack_wf(a, width),
    ensures
        stack_wf(b, width),
    decreases k,
{
    if k > 0 {
        let c = choose|c: Seq<LayerModel>| blind_reach(a, c, k - 1) && #[trigger] blind_step(c, b);
        lemma_blind_reach_preserves_wf(a, c, k - 1, width);
        let l = choose|l: int|
            0 <= l < c.len() && b == #[trigger] c.update(l, b[l]) && layer_mutation(c[l], b[l]);
        lemma_mutation_preserves_wf(c[l], b[l]);
        assert forall|i: int|
            0 <= i < b.len() implies (#[trigger] b[i]).wf() && b[i].width() == width by {
            if i != l {
                assert(b[i] == c[i]);
            }
        }
    }
}

/// Number of positions below `upto` where the forward and backward
/// cut-point values disagree and the backward value is `want`.
pub open spec fn disagree_count(fwd: Seq<bool>, bwd: Seq<bool>, want: bool, upto: int) -> int
    decreases upto,
{
    if upto <= 0 {
        0
    } else {
        disagree_count(fwd, bwd, want, upto - 1) + if fwd[upto - 1] != bwd[upto - 1] && bwd[upto
            - 1] == want {
            1int
        } else {
            0int
        }
    }
}

/// `b` arises from `a` by exactly `k` controlled switches, each exchanging
/// a disagreeing position whose backward value is false with a disagreeing
/// position whose backward value is true.
pub open spec fn paired_swaps_reach(
    a: LayerModel,
    b: LayerModel,
    k: int,
    fwd: Seq<bool>,
    bwd: Seq<bool>,
) -> bool
    decreases k,
{
    if k <= 0 {
        a == b
    } else {
        exists|c: LayerModel, i: int, j: int|
            paired_swaps_reach(a, c, k - 1, fwd, bwd) && 0 <= i < c.wires() && 0 <= j < c.wires()
                && i != j && fwd[i] != bwd[i] && !bwd[i] && fwd[j] != bwd[j] && bwd[j] && b
                == #[trigger] map_swapped(c, i, j)
    }
}

/// Appending one controlled switch between a "wants false" and a "wants
/// true" position extends reachability by one step.
pub proof fn lemma_paired_swaps_step(
    a: LayerModel,
    c: LayerModel,
    b: LayerModel,
    k: int,
    i: int,
    j: int,
    fwd: Seq<bool>,
    bwd: Seq<bool>,
)
    requires
        k >= 0,
        paired_swaps_reach(a, c, k, fwd, bwd),
        0 <= i < c.wires(),
        0 <= j < c.wires(),
        i != j,
        fwd[i] != bwd[i],
        !bwd[i],
        fwd[j] != bwd[j],
        bwd[j],
        b == map_swapped(c, i, j),
    ensures
        paired_swaps_reach(a, b, k + 1, fwd, bwd),
{
    assert(paired_swaps_reach(a, c, (k + 1) - 1, fwd, bwd));
}

/// `m` with its invert flags replaced and its permutation kept.
pub open spec fn invert_replaced(m: LayerModel, inv: Seq<bool>) -> LayerModel {
    LayerModel { input_map: m.input_map, invert: inv }
}

/// All three wires of block `k` disagree between the forward and backward
/// cut-point values.
pub open spec fn block_mismatch(fwd: Seq<bool>, bwd: Seq<bool>, k: int) -> bool {
    fwd[3 * k] != bwd[3 * k] && fwd[3 * k + 1] != bwd[3 * k + 1] && fwd[3 * k + 2] != bwd[3 * k
        + 2]
}

/// The invert flags of the informed pass: scan the blocks from `k` up with
/// `budget` toggles left, and toggle exactly the blocks whose three wires
/// all disagree between the forward and backward cut-point values,
/// stopping once the budget is spent.
pub open spec fn smart_invert_from(
    inv: Seq<bool>,
    fwd: Seq<bool>,
    bwd: Seq<bool>,
    k: int,
    budget: int,
) -> Seq<bool>
    decreases inv.len() - k,
{
    if k < 0 || k >= inv.len() || budget <= 0 {
        inv
    } else if block_mismatch(fwd, bwd, k) {
        smart_invert_from(inv.update(k, !inv[k]), fwd, bwd, k + 1, budget - 1)
    } else {
        smart_invert_from(inv, fwd, bwd, k + 1, budget)
    }
}

/// The acceptance test of the trainer, on two error numerators over one
/// common denominator `d`: the candidate score `a/d` beats the incumbent
/// score `b/d` scaled by the tolerance `bar`.
pub open spec fn improves(a: int, b: int, d: int, bar: Ratio) -> bool {
    frac_lt(a, d, b * bar.num, d * bar.den)
}

/// With a tolerance of at most one, acceptance means a strictly smaller
/// numerator.
pub proof fn lemma_improves_strict(a: int, b: int, d: int, bar: Ratio)
    by (nonlinear_arith)
    requires
        improves(a, b, d, bar),
        bar.wf(),
        bar.num <= bar.den,
        d >= 1,
        b >= 0,
    ensures
        a < b,
{
}

impl Network {
    /// Apply `count` blind mutations, each to a uniformly random layer.
    /// Every intermediate stack keeps the permutation invariant.
    pub fn random_switch(&mut self, rng: &mut RandomSource, count: usize)
        requires
            old(self).wf(),
            old(self).models().len() >= 1,
            old(self).spec_width() >= 1,
        ensures
            final(self).wf(),
            final(self).spec_width() == old(self).spec_width(),
            final(self).models().len() == old(self).models().len(),
            final(self).stored_error() == old(self).stored_error(),
            blind_reach(old(self).models(), final(self).models(), count as int),
    {
        let mut t: usize = 0;
        while t < count
            invariant
                t <= count,
                self.wf(),
                self.spec_width() == old(self).spec_width(),
                self.spec_width() >= 1,
                self.models().len() == old(self).models().len(),
                self.models().len() >= 1,
                self.stored_error() == old(self).stored_error(),
                blind_reach(old(self).models(), self.models(), t as int),
            decreases count - t,
        {
            let l = rng.below(self.layers.len());
            let ghost before = self.models();
            assert(before[l as int].wf() && before[l as int].width() == self.spec_width());
            self.layers[l].random_switch(rng);
            proof {
                let after = self.models();
                assert(after =~= before.update(l as int, after[l as int]));
                assert(layer_mutation(before[l as int], after[l as int]));
                assert(blind_step(before, after));
                lemma_blind_reach_step(old(self).models(), before, after, t as int);
                assert(self.wf()) by {
                    assert(forall|i: int|
                        0 <= i < after.len() && i != l as int ==> after[i] == before[i]);
                }
            }
            t += 1;
        }
    }

    /// Greedy randomized hill-climbing against a whole example set: clone
    /// the network, apply `switches` blind mutations to the clone, and
    /// accept the clone's layers only if its exact score beats the
    /// incumbent score scaled by `error_bar` — first against the cached
    /// score, then re-verified against a freshly recomputed one.  On
    /// acceptance the stored score is the accepted clone's exact score;
    /// a rejection after the re-check leaves the freshly recomputed score
    /// stored.  With a tolerance of at most one, the stored score of a
    /// consistently scored network never increases.
    pub fn train_for_set(
        &mut self,
        rng: &mut RandomSource,
        set: &TrainingSet,
        switches: usize,
        error_bar: Ratio,
    ) -> (accepted: bool)
        requires
            old(self).wf(),
            old(self).models().len() >= 1,
            old(self).spec_width() >= 1,
            set.fits(old(self).wires_spec()),
            set_fits(set.pairs@),
            error_bar.wf(),
        ensures
            final(self).wf(),
            final(self).spec_width() == old(self).spec_width(),
            final(self).models().len() == old(self).models().len(),
            !accepted ==> final(self).models() == old(self).models() && (final(self).stored_error()
                == old(self).stored_error() || (final(self).stored_error().num == set_error_num(
                old(self).models(),
                old(self).wires_spec(),
                set.pairs@,
            ) && final(self).stored_error().den == set_error_den(set.pairs@))),
            accepted ==> {
                &&& blind_reach(old(self).models(), final(self).models(), switches as int)
                &&& final(self).stored_error().num == set_error_num(
                    final(self).models(),
                    old(self).wires_spec(),
                    set.pairs@,
                )
                &&& final(self).stored_error().den == set_error_den(set.pairs@)
                &&& improves(
                    set_error_num(final(self).models(), old(self).wires_spec(), set.pairs@),
                    set_error_num(old(self).models(), old(self).wires_spec(), set.pairs@),
                    set_error_den(set.pairs@),
                    error_bar,
                )
            },
            // monotonic acceptance: a consistently scored network under a
            // tolerance of at most one never sees its stored score rise
            (old(self).stored_error().num == set_error_num(
                old(self).models(),
                old(self).wires_spec(),
                set.pairs@,
            ) && old(self).stored_error().den == set_error_den(set.pairs@) && error_bar.num
                <= error_bar.den) ==> final(self).stored_error().value_le(
                old(self).stored_error(),
            ),
    {
        let ghost w = old(self).wires_spec();
        let ghost pairs = set.pairs@;
        let mut cand = self.duplicate();
        cand.random_switch(rng, switches);
        let new_err = cand.error_set(set);
        let stored = self.error_store;
        let ghost num_new = set_error_num(cand.models(), w, pairs);
        let ghost den_all = set_error_den(pairs);
        let ghost num_old = set_error_num(old(self).models(), w, pairs);
        proof {
            crate::network::lemma_set_sum_bounds(old(self).models(), w, pairs);
        }
        if new_err.lt_scaled(&stored, &error_bar) {
            let cur = self.error_set(set);
            if new_err.lt_scaled(&cur, &error_bar) {
                let ghost cand_models = cand.models();
                self.layers = cand.layers;
                self.error_store = new_err;
                proof {
                    assert(self.models() =~= cand_models);
                    proof_monotone_accept(num_new, num_old, den_all, error_bar, new_err, old(self).stored_error());
                }
                return true;
            }
            return false;
        }
        false
    }

    /// Informed invert repair: split the network at a random depth
    /// `l` in `[1, depth - 1]`, forward-evaluate the example's input
    /// through the layers before the cut and reverse-evaluate its desired
    /// output through the layers after it (the cut-point reconciliation),
    /// and toggle the invert flag of every block whose three wires all
    /// disagree between the two, up to `max_inverts` toggles.
    pub fn smart_invert(&mut self, rng: &mut RandomSource, pair: &TrainingPair, max_inverts: usize)
        requires
            old(self).wf(),
            old(self).models().len() >= 2,
            pair.fits(old(self).wires_spec()),
        ensures
            final(self).wf(),
            final(self).spec_width() == old(self).spec_width(),
            final(self).models().len() == old(self).models().len(),
            final(self).stored_error() == old(self).stored_error(),
            exists|l: int|
                1 <= l < old(self).models().len() && final(self).models() == old(
                    self,
                ).models().update(
                    l,
                    invert_replaced(
                        #[trigger] old(self).models()[l],
                        smart_invert_from(
                            old(self).models()[l].invert,
                            net_eval_seq(
                                old(self).models().take(l),
                                padded(pair.input@, old(self).wires_spec()),
                            ),
                            net_reverse_seq(
                                old(self).models().skip(l),
                                padded(pair.output@, old(self).wires_spec()),
                            ),
                            0,
                            max_inverts as int,
                        ),
                    ),
                ),
    {
        let ghost w = old(self).wires_spec();
        let n = self.layers.len();
        let l = 1 + rng.below(n - 1);
        let fwd = self.eval_prefix(l, &pair.input);
        let bwd = self.reverse_suffix(l, &pair.output);
        let ghost fwd_s = fwd@;
        let ghost bwd_s = bwd@;
        let ghost orig_inv = self.models()[l as int].invert;
        let width = self.width;
        assert(self.models()[l as int].wf() && self.models()[l as int].width() == width);
        let mut k: usize = 0;
        let mut flips: usize = 0;
        while k < width && flips < max_inverts
            invariant
                k <= width,
                flips <= max_inverts,
                1 <= l < self.models().len(),
                self.wf(),
                self.spec_width() == old(self).spec_width(),
                width == self.spec_width(),
                self.models().len() == old(self).models().len(),
                self.stored_error() == old(self).stored_error(),
                self.models() == old(self).models().update(
                    l as int,
                    invert_replaced(old(self).models()[l as int], self.models()[l as int].invert),
                ),
                self.models()[l as int].invert.len() == width,
                smart_invert_from(
                    self.models()[l as int].invert,
                    fwd_s,
                    bwd_s,
                    k as int,
                    max_inverts - flips,
                ) == smart_invert_from(orig_inv, fwd_s, bwd_s, 0, max_inverts as int),
                fwd@ == fwd_s,
                bwd@ == bwd_s,
                fwd_s.len() == 3 * width,
                bwd_s.len() == 3 * width,
            decreases width - k,
        {
            let ghost prev_models = self.models();
            let ghost inv_before = self.models()[l as int].invert;
            let base = 3 * k;
            let differs = (fwd[base] != bwd[base]) && (fwd[base + 1] != bwd[base + 1]) && (fwd[base
                + 2] != bwd[base + 2]);
            proof {
                assert(differs == block_mismatch(fwd_s, bwd_s, k as int));
            }
            if differs {
                assert(self.models()[l as int].wf());
                self.layers[l].toggle_invert(k);
                flips += 1;
                proof {
                    assert(self.models() =~= prev_models.update(
                        l as int,
                        self.models()[l as int],
                    ));
                    assert(self.models()[l as int] == invert_replaced(
                        old(self).models()[l as int],
                        self.models()[l as int].invert,
                    ));
                    assert(self.models() =~= old(self).models().update(
                        l as int,
                        invert_replaced(
                            old(self).models()[l as int],
                            self.models()[l as int].invert,
                        ),
                    ));
                    assert(self.models()[l as int].invert =~= inv_before.update(
                        k as int,
                        !inv_before[k as int],
                    ));
                    assert(smart_invert_from(
                        inv_before,
                        fwd_s,
                        bwd_s,
                        k as int,
                        max_inverts - (flips - 1),
                    ) == smart_invert_from(
                        self.models()[l as int].invert,
                        fwd_s,
                        bwd_s,
                        k as int + 1,
                        max_inverts - flips,
                    ));
                }
            } else {
                proof {
                    assert(smart_invert_from(inv_before, fwd_s, bwd_s, k as int, max_inverts
                        - flips) == smart_invert_from(
                        inv_before,
                        fwd_s,
                        bwd_s,
                        k as int + 1,
                        max_inverts - flips,
                    ));
                }
            }
            k += 1;
        }
        proof {
            assert(smart_invert_from(
                self.models()[l as int].invert,
                fwd_s,
                bwd_s,
                k as int,
                max_inverts - flips,
            ) == self.models()[l as int].invert);
            assert(self.models()[l as int].invert == smart_invert_from(
                orig_inv,
                fwd_s,
                bwd_s,
                0,
                max_inverts as int,
            ));
            // name the witness index so the existential postcondition finds it
            assert(old(self).models()[l as int] == old(self).models()[l as int]);
        }
    }

    /// Informed permutation repair: split the network at a random depth
    /// `l` in `[0, depth - 2]`, reconcile at the cut point as in
    /// `smart_invert`, collect the disagreeing wire positions into a
    /// "backward wants false" and a "backward wants true" list (each built
    /// by random-order insertion so pairing is randomized), and swap the
    /// permutation entries of layer `l` pair by pair, up to `max_switches`
    /// swaps or the shorter list's length.  Exactly that many swaps are
    /// applied, each exchanging a "wants false" with a "wants true"
    /// position; only the pairing among them is left to chance.
    pub fn smart_switch(&mut self, rng: &mut RandomSource, pair: &TrainingPair, max_switches: usize)
        requires
            old(self).wf(),
            old(self).models().len() >= 2,
            pair.fits(old(self).wires_spec()),
        ensures
            final(self).wf(),
            final(self).spec_width() == old(self).spec_width(),
            final(self).models().len() == old(self).models().len(),
            final(self).stored_error() == old(self).stored_error(),
            (exists|l: int|
                #![trigger old(self).models()[l]]
                {
                    let cfw = net_eval_seq(
                        old(self).models().take(l),
                        padded(pair.input@, old(self).wires_spec()),
                    );
                    let cbw = net_reverse_seq(
                        old(self).models().skip(l),
                        padded(pair.output@, old(self).wires_spec()),
                    );
                    let cnt = vstd::math::min(
                        max_switches as int,
                        vstd::math::min(
                            disagree_count(cfw, cbw, false, old(self).wires_spec()),
                            disagree_count(cfw, cbw, true, old(self).wires_spec()),
                        ),
                    );
                    0 <= l < old(self).models().len() - 1 && final(self).models() == old(
                        self,
                    ).models().update(l, final(self).models()[l]) && paired_swaps_reach(
                        old(self).models()[l],
                        final(self).models()[l],
                        cnt,
                        cfw,
                        cbw,
                    )
                }),
    {
        let n = self.layers.len();
        let l = rng.below(n - 1);
        let fwd = self.eval_prefix(l, &pair.input);
        let bwd = self.reverse_suffix(l, &pair.output);
        let wires = 3 * self.width;
        let mut need_false: Vec<usize> = Vec::new();
        let mut need_true: Vec<usize> = Vec::new();
        let mut p: usize = 0;
        while p < wires
            invariant
                p <= wires,
                wires == 3 * self.spec_width(),
                fwd@.len() == wires,
                bwd@.len() == wires,
                need_false@.len() == disagree_count(fwd@, bwd@, false, p as int),
                need_true@.len() == disagree_count(fwd@, bwd@, true, p as int),
                need_false@.len() <= p,
                need_true@.len() <= p,
                forall|q: int|
                    0 <= q < need_false@.len() ==> (#[trigger] need_false@[q]) < wires && fwd@[
                        need_false@[q] as int
                    ] != bwd@[need_false@[q] as int] && !bwd@[need_false@[q] as int],
                forall|q: int|
                    0 <= q < need_true@.len() ==> (#[trigger] need_true@[q]) < wires && fwd@[
                        need_true@[q] as int
                    ] != bwd@[need_true@[q] as int] && bwd@[need_true@[q] as int],
            decreases wires - p,
        {
            if fwd[p] != bwd[p] {
                if !bwd[p] {
                    let ghost before = need_false@;
                    let pos = rng.below(need_false.len() + 1);
                    need_false.insert(pos, p);
                    proof {
                        before.insert_ensures(pos as int, p);
                        assert forall|q: int|
                            0 <= q < need_false@.len() implies (#[trigger] need_false@[q]) < wires
                            && fwd@[need_false@[q] as int] != bwd@[need_false@[q] as int] && !bwd@[
                            need_false@[q] as int
                        ] by {
                            if q < pos {
                                assert(need_false@[q] == before[q]);
                            } else if q == pos {
                                assert(need_false@[q] == p);
                            } else {
                                assert(need_false@[q] == before[q - 1]);
                            }
                        }
                    }
                } else {
                    let ghost before = need_true@;
                    let pos = rng.below(need_true.len() + 1);
                    need_true.insert(pos, p);
                    proof {
                        before.insert_ensures(pos as int, p);
                        assert forall|q: int|
                            0 <= q < need_true@.len() implies (#[trigger] need_true@[q]) < wires
                            && fwd@[need_true@[q] as int] != bwd@[need_true@[q] as int] && bwd@[
                            need_true@[q] as int
                        ] by {
                            if q < pos {
                                assert(need_true@[q] == before[q]);
                            } else if q == pos {
                                assert(need_true@[q] == p);
                            } else {
                                assert(need_true@[q] == before[q - 1]);
                            }
                        }
                    }
                }
            }
            p += 1;
        }
        let nf = need_false.len();
        let nt = need_true.len();
        let mut count = if nf < nt {
            nf
        } else {
            nt
        };
        if max_switches < count {
            count = max_switches;
        }
        let ghost cnt = vstd::math::min(
            max_switches as int,
            vstd::math::min(
                disagree_count(fwd@, bwd@, false, wires as int),
                disagree_count(fwd@, bwd@, true, wires as int),
            ),
        );
        assert(count == cnt);
        let ghost orig_layer = self.models()[l as int];
        let mut t: usize = 0;
        while t < count
            invariant
                t <= count,
                count <= max_switches,
                count <= need_false@.len(),
                count <= need_true@.len(),
                0 <= l < self.models().len() - 1,
                self.wf(),
                self.spec_width() == old(self).spec_width(),
                wires == 3 * self.spec_width(),
                self.models().len() == old(self).models().len(),
                self.stored_error() == old(self).stored_error(),
                orig_layer == old(self).models()[l as int],
                self.models() == old(self).models().update(l as int, self.models()[l as int]),
                paired_swaps_reach(orig_layer, self.models()[l as int], t as int, fwd@, bwd@),
                forall|q: int|
                    0 <= q < need_false@.len() ==> (#[trigger] need_false@[q]) < wires && fwd@[
                        need_false@[q] as int
                    ] != bwd@[need_false@[q] as int] && !bwd@[need_false@[q] as int],
                forall|q: int|
                    0 <= q < need_true@.len() ==> (#[trigger] need_true@[q]) < wires && fwd@[
                        need_true@[q] as int
                    ] != bwd@[need_true@[q] as int] && bwd@[need_true@[q] as int],
                bwd@.len() == wires,
                fwd@.len() == wires,
            decreases count - t,
        {
            let ghost prev_models = self.models();
            let ghost before_model = self.models()[l as int];
            let a = need_false[t];
            let b = need_true[t];
            assert(a != b) by {
                assert(!bwd@[a as int] && bwd@[b as int]);
            }
            assert(self.models()[l as int].wf() && self.models()[l as int].width()
                == self.spec_width());
            assert(a < wires && b < wires);
            self.layers[l].controlled_switch(a, b);
            proof {
                assert(self.models() =~= prev_models.update(l as int, self.models()[l as int]));
                assert(self.models() =~= old(self).models().update(
                    l as int,
                    self.models()[l as int],
                ));
                lemma_paired_swaps_step(
                    orig_layer,
                    before_model,
                    self.models()[l as int],
                    t as int,
                    a as int,
                    b as int,
                    fwd@,
                    bwd@,
                );
                assert(self.wf()) by {
                    assert(forall|i: int|
                        0 <= i < self.models().len() && i != l as int ==> self.models()[i]
                            == prev_models[i]);
                }
            }
            t += 1;
        }
        proof {
            assert(paired_swaps_reach(orig_layer, self.models()[l as int], cnt, fwd@, bwd@));
            assert(self.models() =~= old(self).models().update(l as int, self.models()[l as int]));
            // name the witness index so the existential postcondition finds it
            assert(old(self).models()[l as int] == old(self).models()[l as int]);
        }
    }

    /// Informed hill-climbing: clone the network, apply one `smart_invert`
    /// and one `smart_switch` to the clone — each against a uniformly
    /// random example of the set, each with `switches` as its edit budget —
    /// and accept or reject exactly as `train_for_set` does, with the same
    /// double check before acceptance.
    pub fn smart_train_for_set(
        &mut self,
        rng: &mut RandomSource,
        set: &TrainingSet,
        switches: usize,
        error_bar: Ratio,
    ) -> (accepted: bool)
        requires
            old(self).wf(),
            old(self).models().len() >= 2,
            set.pairs@.len() >= 1,
            set.fits(old(self).wires_spec()),
            set_fits(set.pairs@),
            error_bar.wf(),
        ensures
            final(self).wf(),
            final(self).spec_width() == old(self).spec_width(),
            final(self).models().len() == old(self).models().len(),
            !accepted ==> final(self).models() == old(self).models() && (final(self).stored_error()
                == old(self).stored_error() || (final(self).stored_error().num == set_error_num(
                old(self).models(),
                old(self).wires_spec(),
                set.pairs@,
            ) && final(self).stored_error().den == set_error_den(set.pairs@))),
            accepted ==> {
                &&& final(self).stored_error().num == set_error_num(
                    final(self).models(),
                    old(self).wires_spec(),
                    set.pairs@,
                )
                &&& final(self).stored_error().den == set_error_den(set.pairs@)
                &&& improves(
                    set_error_num(final(self).models(), old(self).wires_spec(), set.pairs@),
                    set_error_num(old(self).models(), old(self).wires_spec(), set.pairs@),
                    set_error_den(set.pairs@),
                    error_bar,
                )
            },
            (old(self).stored_error().num == set_error_num(
                old(self).models(),
                old(self).wires_spec(),
                set.pairs@,
            ) && old(self).stored_error().den == set_error_den(set.pairs@) && error_bar.num
                <= error_bar.den) ==> final(self).stored_error().value_le(
                old(self).stored_error(),
            ),
    {
        let ghost w = old(self).wires_spec();
        let ghost pairs = set.pairs@;
        let mut cand = self.duplicate();
        let pick_a = rng.below(set.pairs.len());
        assert(set.pairs@[pick_a as int].fits(w));
        {
            let chosen = &set.pairs[pick_a];
            cand.smart_invert(rng, chosen, switches);
        }
        let pick_b = rng.below(set.pairs.len());
        assert(set.pairs@[pick_b as int].fits(w));
        {
            let chosen = &set.pairs[pick_b];
            cand.smart_switch(rng, chosen, switches);
        }
        let new_err = cand.error_set(set);
        let stored = self.error_store;
        let ghost num_new = set_error_num(cand.models(), w, pairs);
        let ghost den_all = set_error_den(pairs);
        let ghost num_old = set_error_num(old(self).models(), w, pairs);
        proof {
            crate::network::lemma_set_sum_bounds(old(self).models(), w, pairs);
        }
        if new_err.lt_scaled(&stored, &error_bar) {
            let cur = self.error_set(set);
            if new_err.lt_scaled(&cur, &error_bar) {
                let ghost cand_models = cand.models();
                self.layers = cand.layers;
                self.error_store = new_err;
                proof {
                    assert(self.models() =~= cand_models);
                    proof_monotone_accept(
                        num_new,
                        num_old,
                        den_all,
                        error_bar,
                        new_err,
                        old(self).stored_error(),
                    );
                }
                return true;
            }
            return false;
        }
        false
    }
}

/// The stored-score part of the monotonic-acceptance argument: an accepted
/// score with the same denominator and a strictly smaller numerator is no
/// larger in value.
proof fn proof_monotone_accept(
    num_new: int,
    num_old: int,
    den: int,
    bar: Ratio,
    new_store: Ratio,
    old_store: Ratio,
)
    requires
        improves(num_new, num_old, den, bar),
        den >= 1,
        num_old >= 0,
        num_new >= 0,
        new_store.num == num_new,
        new_store.den == den,
    ensures
        (old_store.num == num_old && old_store.den == den && bar.num <= bar.den && bar.wf())
            ==> new_store.value_le(old_store),
{
    if old_store.num == num_old && old_store.den == den && bar.num <= bar.den && bar.wf() {
        lemma_improves_strict(num_new, num_old, den, bar);
        assert(num_new * den <= num_old * den) by (nonlinear_arith)
            requires
                num_new <= num_old,
                den >= 0,
        ;
    }
}

} // verus!
