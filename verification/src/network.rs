//! An ordered stack of layers of common width.
//!
//! A network folds a padded wire vector forward through its layers, or a
//! desired output backward through the exact inverse of each layer in
//! reverse order, and scores itself against training examples with an
//! exact rational mismatch fraction.

use vstd::prelude::*;
use crate::layer::{
    Layer, LayerModel, layer_eval_seq, layer_reverse_seq, lemma_layer_round_trip,
};
use crate::ratio::Ratio;
use crate::wires::{copy_bools, count_mismatches, mismatches, pad_to, padded};

verus! {

/// Every layer of the stack is well formed and has the given width.
pub open spec fn stack_wf(layers: Seq<LayerModel>, width: int) -> bool {
    forall|i: int|
        0 <= i < layers.len() ==> (#[trigger] layers[i]).wf() && layers[i].width() == width
}

/// Forward evaluation of a stack: fold through every layer, first layer
/// first.
pub open spec fn net_eval_seq(layers: Seq<LayerModel>, x: Seq<bool>) -> Seq<bool>
    decreases layers.len(),
{
    if layers.len() == 0 {
        x
    } else {
        net_eval_seq(layers.drop_first(), layer_eval_seq(layers[0], x))
    }
}

/// Reverse evaluation of a stack: fold through every layer's inverse, last
/// layer first.
pub open spec fn net_reverse_seq(layers: Seq<LayerModel>, y: Seq<bool>) -> Seq<bool>
    decreases layers.len(),
{
    if layers.len() == 0 {
        y
    } else {
        net_reverse_seq(layers.drop_last(), layer_reverse_seq(layers.last(), y))
    }
}

/// Appending a layer to a stack composes its evaluation after the stack's.
pub proof fn lemma_net_eval_push(layers: Seq<LayerModel>, c: LayerModel, x: Seq<bool>)
    ensures
        net_eval_seq(layers.push(c), x) == layer_eval_seq(c, net_eval_seq(layers, x)),
    decreases layers.len(),
{
    if layers.len() == 0 {
        assert(layers.push(c)[0] == c);
        assert(layers.push(c).drop_first() =~= Seq::<LayerModel>::empty());
        assert(net_eval_seq(layers.push(c), x) == net_eval_seq(
            Seq::<LayerModel>::empty(),
            layer_eval_seq(c, x),
        ));
        assert(net_eval_seq(layers, x) == x);
    } else {
        assert(layers.push(c).drop_first() =~= layers.drop_first().push(c));
        assert(layers.push(c)[0] == layers[0]);
        assert(net_eval_seq(layers.push(c), x) == net_eval_seq(
            layers.drop_first().push(c),
            layer_eval_seq(layers[0], x),
        ));
        lemma_net_eval_push(layers.drop_first(), c, layer_eval_seq(layers[0], x));
        assert(net_eval_seq(layers, x) == net_eval_seq(
            layers.drop_first(),
            layer_eval_seq(layers[0], x),
        ));
    }
}

/// Prepending a layer to a stack composes its inverse before the stack's.
pub proof fn lemma_net_reverse_first(layers: Seq<LayerModel>, y: Seq<bool>)
    requires
        layers.len() > 0,
    ensures
        net_reverse_seq(layers, y) == layer_reverse_seq(
            layers[0],
            net_reverse_seq(layers.drop_first(), y),
        ),
    decreases layers.len(),
{
    if layers.len() == 1 {
        assert(layers.drop_last() =~= Seq::<LayerModel>::empty());
        assert(layers.drop_first() =~= Seq::<LayerModel>::empty());
        assert(layers.last() == layers[0]);
        let z = layer_reverse_seq(layers.last(), y);
        assert(net_reverse_seq(layers, y) == net_reverse_seq(layers.drop_last(), z));
        assert(net_reverse_seq(layers.drop_last(), z) == z);
        assert(net_reverse_seq(layers.drop_first(), y) == y);
    } else {
        let z = layer_reverse_seq(layers.last(), y);
        assert(net_reverse_seq(layers, y) == net_reverse_seq(layers.drop_last(), z));
        lemma_net_reverse_first(layers.drop_last(), z);
        assert(layers.drop_last()[0] == layers[0]);
        assert(layers.drop_last().drop_first() =~= layers.drop_first().drop_last());
        assert(layers.drop_first().last() == layers.last());
        assert(net_reverse_seq(layers.drop_last(), z) == layer_reverse_seq(
            layers[0],
            net_reverse_seq(layers.drop_last().drop_first(), z),
        ));
        assert(layers.drop_first().len() > 0);
        assert(net_reverse_seq(layers.drop_first(), y) == net_reverse_seq(
            layers.drop_first().drop_last(),
            layer_reverse_seq(layers.drop_first().last(), y),
        ));
    }
}

/// Forward evaluation preserves the wire count.
pub proof fn lemma_net_eval_len(layers: Seq<LayerModel>, width: int, x: Seq<bool>)
    requires
        stack_wf(layers, width),
        x.len() == 3 * width,
    ensures
        net_eval_seq(layers, x).len() == 3 * width,
    decreases layers.len(),
{
    if layers.len() > 0 {
        assert(layers[0].wf() && layers[0].width() == width);
        assert(layer_eval_seq(layers[0], x).len() == 3 * width);
        assert(stack_wf(layers.drop_first(), width)) by {
            assert forall|i: int|
                0 <= i < layers.drop_first().len() implies (#[trigger] layers.drop_first()[i]).wf()
                && layers.drop_first()[i].width() == width by {
                assert(layers.drop_first()[i] == layers[i + 1]);
            }
        }
        lemma_net_eval_len(layers.drop_first(), width, layer_eval_seq(layers[0], x));
    }
}

/// The round-trip law for a whole network: reverse evaluation is the exact
/// algebraic inverse of forward evaluation on full-width wire vectors.
pub proof fn lemma_network_round_trip(layers: Seq<LayerModel>, width: int, x: Seq<bool>)
    requires
        stack_wf(layers, width),
        x.len() == 3 * width,
    ensures
        net_reverse_seq(layers, net_eval_seq(layers, x)) == x,
    decreases layers.len(),
{
    if layers.len() > 0 {
        let c = layers.last();
        let s = layers.drop_last();
        assert(layers =~= s.push(c));
        assert(stack_wf(s, width)) by {
            assert forall|i: int|
                0 <= i < s.len() implies (#[trigger] s[i]).wf() && s[i].width() == width by {
                assert(s[i] == layers[i]);
            }
        }
        lemma_net_eval_push(s, c, x);
        lemma_net_eval_len(s, width, x);
        let e = net_eval_seq(s, x);
        assert(c.wf() && c.width() == width);
        assert(c.wires() == 3 * width);
        lemma_layer_round_trip(c, e);
        assert(layer_reverse_seq(c, layer_eval_seq(c, e)) == e);
        assert(net_eval_seq(layers, x) == layer_eval_seq(c, e));
        assert(net_reverse_seq(layers, layer_eval_seq(c, e)) == net_reverse_seq(
            s,
            layer_reverse_seq(c, layer_eval_seq(c, e)),
        ));
        lemma_network_round_trip(s, width, x);
    }
}

/// One training example: an input vector and the output it should map to,
/// both zero-padded up to the wire count before use.
pub struct TrainingPair {
    pub input: Vec<bool>,
    pub output: Vec<bool>,
}

impl TrainingPair {
    pub fn new(input: Vec<bool>, output: Vec<bool>) -> (r: TrainingPair)
        ensures
            r.input@ == input@,
            r.output@ == output@,
    {
        TrainingPair { input, output }
    }

    /// Both vectors fit on `wires` wires.
    pub open spec fn fits(&self, wires: int) -> bool {
        self.input@.len() <= wires && self.output@.len() <= wires
    }

    pub fn duplicate(&self) -> (r: TrainingPair)
        ensures
            r.input@ == self.input@,
            r.output@ == self.output@,
    {
        TrainingPair { input: copy_bools(&self.input), output: copy_bools(&self.output) }
    }
}

/// An ordered collection of training examples; the order is irrelevant for
/// scoring.
pub struct TrainingSet {
    pub pairs: Vec<TrainingPair>,
}

impl TrainingSet {
    pub fn new() -> (r: TrainingSet)
        ensures
            r.pairs@.len() == 0,
    {
        TrainingSet { pairs: Vec::new() }
    }

    pub fn push(&mut self, pair: TrainingPair)
        ensures
            final(self).pairs@ == old(self).pairs@.push(pair),
    {
        self.pairs.push(pair);
    }

    pub fn len(&self) -> (n: usize)
        ensures
            n == self.pairs@.len(),
    {
        self.pairs.len()
    }

    /// Every pair fits on `wires` wires.
    pub open spec fn fits(&self, wires: int) -> bool {
        forall|i: int| 0 <= i < self.pairs@.len() ==> (#[trigger] self.pairs@[i]).fits(wires)
    }

    /// Whether the exact mean error over this set fits the word that
    /// carries it: the product of the per-example denominators, scaled by
    /// the number of examples, must not exceed `u64::MAX`.  `error_set`
    /// asks for this bound.
    pub fn fits_word(&self) -> (r: bool)
        ensures
            r == set_fits(self.pairs@),
    {
        let n = self.pairs.len();
        if n == 0 {
            return true;
        }
        let mut acc: u128 = 1;
        let mut i: usize = 0;
        proof {
            assert(self.pairs@.take(0) =~= Seq::<TrainingPair>::empty());
        }
        while i < n
            invariant
                i <= n,
                n == self.pairs@.len(),
                n >= 1,
                acc == set_sum_den(self.pairs@.take(i as int)),
                acc <= u64::MAX,
            decreases n - i,
        {
            let ghost prefix = self.pairs@.take(i as int);
            let ghost next = self.pairs@.take(i as int + 1);
            let out_len = self.pairs[i].output.len();
            let d: u128 = if out_len == 0 {
                1
            } else {
                out_len as u128
            };
            proof {
                assert(next.drop_last() =~= prefix);
                assert(next.last() == self.pairs@[i as int]);
                assert(d == pair_den(self.pairs@[i as int]));
                lemma_set_sum_bounds(Seq::empty(), 0, prefix);
                assert(acc * d < 0x1_0000_0000_0000_0000_0000_0000_0000_0000) by (nonlinear_arith)
                    requires
                        acc <= 0xffff_ffff_ffff_ffff,
                        d <= 0xffff_ffff_ffff_ffff,
                ;
            }
            let grown = acc * d;
            if grown > 0xffff_ffff_ffff_ffff {
                proof {
                    lemma_set_den_prefix(self.pairs@, i as int + 1);
                    lemma_set_sum_bounds(Seq::empty(), 0, self.pairs@);
                    let full = set_sum_den(self.pairs@);
                    assert(full <= full * n) by (nonlinear_arith)
                        requires
                            full >= 1,
                            n >= 1,
                    ;
                }
                return false;
            }
            acc = grown;
            i += 1;
        }
        proof {
            assert(self.pairs@.take(n as int) =~= self.pairs@);
            assert((acc * (n as u128)) < 0x1_0000_0000_0000_0000_0000_0000_0000_0000)
                by (nonlinear_arith)
                requires
                    acc <= 0xffff_ffff_ffff_ffff,
                    (n as u128) <= 0xffff_ffff_ffff_ffff,
            ;
        }
        let total = acc * (n as u128);
        total <= 0xffff_ffff_ffff_ffff
    }
}

/// Mismatch count of one example against the network's forward evaluation,
/// compared over the expected vector's length alone.
pub open spec fn pair_mismatches(layers: Seq<LayerModel>, wires: int, p: TrainingPair) -> int {
    mismatches(net_eval_seq(layers, padded(p.input@, wires)), p.output@)
}

/// The denominator of one example's error: the compared length, or one for
/// an empty expectation (whose error is zero by definition).
pub open spec fn pair_den(p: TrainingPair) -> int {
    if p.output@.len() == 0 {
        1
    } else {
        p.output@.len() as int
    }
}

/// Numerator of the exact sum of the examples' error fractions, kept over
/// the product of their denominators.
pub open spec fn set_sum_num(layers: Seq<LayerModel>, wires: int, pairs: Seq<TrainingPair>) -> int
    decreases pairs.len(),
{
    if pairs.len() == 0 {
        0
    } else {
        set_sum_num(layers, wires, pairs.drop_last()) * pair_den(pairs.last()) + pair_mismatches(
            layers,
            wires,
            pairs.last(),
        ) * set_sum_den(pairs.drop_last())
    }
}

/// Denominator of the exact sum of the examples' error fractions: the
/// product of the per-example denominators.
pub open spec fn set_sum_den(pairs: Seq<TrainingPair>) -> int
    decreases pairs.len(),
{
    if pairs.len() == 0 {
        1
    } else {
        set_sum_den(pairs.drop_last()) * pair_den(pairs.last())
    }
}

/// Numerator of the mean error over a set.
pub open spec fn set_error_num(layers: Seq<LayerModel>, wires: int, pairs: Seq<TrainingPair>) -> int {
    set_sum_num(layers, wires, pairs)
}

/// Denominator of the mean error over a set: the sum's denominator scaled
/// by the number of examples, or one for an empty set (whose error is zero
/// by definition).
pub open spec fn set_error_den(pairs: Seq<TrainingPair>) -> int {
    if pairs.len() == 0 {
        1
    } else {
        set_sum_den(pairs) * pairs.len()
    }
}

/// The exact mean error fits the machine word that carries it.
pub open spec fn set_fits(pairs: Seq<TrainingPair>) -> bool {
    set_error_den(pairs) <= u64::MAX
}

/// Basic bounds of the error sums: the denominator is positive and the
/// numerator lies between zero and `len` times the denominator, since each
/// example's error is a fraction in `[0, 1]`.
pub proof fn lemma_set_sum_bounds(layers: Seq<LayerModel>, wires: int, pairs: Seq<TrainingPair>)
    ensures
        set_sum_den(pairs) >= 1,
        0 <= set_sum_num(layers, wires, pairs),
        set_sum_num(layers, wires, pairs) <= pairs.len() * set_sum_den(pairs),
    decreases pairs.len(),
{
    if pairs.len() == 0 {
    } else {
        let rest = pairs.drop_last();
        let p = pairs.last();
        lemma_set_sum_bounds(layers, wires, rest);
        let m = pair_mismatches(layers, wires, p);
        let d = pair_den(p);
        crate::wires::lemma_mismatches_upto_bounds(
            net_eval_seq(layers, padded(p.input@, wires)),
            p.output@,
            p.output@.len() as int,
        );
        assert(0 <= m <= d);
        let num0 = set_sum_num(layers, wires, rest);
        let den0 = set_sum_den(rest);
        let k = rest.len() as int;
        assert(den0 * d >= 1 && 0 <= num0 * d + m * den0 && num0 * d + m * den0 <= (k + 1) * (den0
            * d)) by (nonlinear_arith)
            requires
                den0 >= 1,
                d >= 1,
                0 <= num0 <= k * den0,
                0 <= m <= d,
                k >= 0,
        ;
    }
}

/// The error numerator is zero exactly when every example is matched on
/// every compared wire.
pub proof fn lemma_set_sum_zero(layers: Seq<LayerModel>, wires: int, pairs: Seq<TrainingPair>)
    ensures
        set_sum_num(layers, wires, pairs) == 0 <==> (forall|i: int|
            0 <= i < pairs.len() ==> pair_mismatches(layers, wires, #[trigger] pairs[i]) == 0),
    decreases pairs.len(),
{
    if pairs.len() > 0 {
        let rest = pairs.drop_last();
        let p = pairs.last();
        lemma_set_sum_zero(layers, wires, rest);
        lemma_set_sum_bounds(layers, wires, rest);
        crate::wires::lemma_mismatches_upto_bounds(
            net_eval_seq(layers, padded(p.input@, wires)),
            p.output@,
            p.output@.len() as int,
        );
        let m = pair_mismatches(layers, wires, p);
        let num0 = set_sum_num(layers, wires, rest);
        let den0 = set_sum_den(rest);
        let d = pair_den(p);
        assert(num0 * d + m * den0 == 0 <==> (num0 == 0 && m == 0)) by (nonlinear_arith)
            requires
                den0 >= 1,
                d >= 1,
                num0 >= 0,
                m >= 0,
        ;
        assert forall|i: int| 0 <= i < rest.len() implies rest[i] == pairs[i] by {}
        if num0 == 0 && m == 0 {
            assert forall|i: int|
                0 <= i < pairs.len() implies pair_mismatches(layers, wires, #[trigger] pairs[i])
                == 0 by {
                if i < rest.len() {
                    assert(pairs[i] == rest[i]);
                } else {
                    assert(pairs[i] == p);
                }
            }
        }
    }
}

/// A prefix of the set has a denominator no larger than the whole set's.
pub proof fn lemma_set_den_prefix(pairs: Seq<TrainingPair>, i: int)
    requires
        0 <= i <= pairs.len(),
    ensures
        set_sum_den(pairs.take(i)) <= set_sum_den(pairs),
    decreases pairs.len() - i,
{
    if i == pairs.len() {
        assert(pairs.take(i) =~= pairs);
    } else {
        assert(pairs.take(i + 1).drop_last() =~= pairs.take(i));
        assert(pairs.take(i + 1).last() == pairs[i]);
        lemma_set_den_prefix(pairs, i + 1);
        let den_i = set_sum_den(pairs.take(i));
        let d = pair_den(pairs[i]);
        lemma_set_sum_bounds(Seq::empty(), 0, pairs.take(i));
        assert(den_i <= den_i * d) by (nonlinear_arith)
            requires
                den_i >= 1,
                d >= 1,
        ;
    }
}

/// A network: a stack of layers of common width, and the cached score of
/// the last `error_set` call.
pub struct Network {
    pub layers: Vec<Layer>,
    pub width: usize,
    pub error_store: Ratio,
}

impl Network {
    /// The mathematical models of the layers, in order.
    pub open spec fn models(&self) -> Seq<LayerModel> {
        Seq::new(self.layers@.len(), |i: int| self.layers@[i].model())
    }

    /// The common width.
    pub open spec fn spec_width(&self) -> int {
        self.width as int
    }

    /// The cached aggregate error.  It is explicitly updated: it matches
    /// the layers only if `error_set` has run since the last mutation.
    pub open spec fn stored_error(&self) -> Ratio {
        self.error_store
    }

    /// The wire count shared by every layer.
    pub open spec fn wires_spec(&self) -> int {
        3 * self.spec_width()
    }

    /// Structural invariant: all layers well formed, all of the common
    /// width, the wire count representable, the cached score well formed.
    pub open spec fn wf(&self) -> bool {
        &&& stack_wf(self.models(), self.spec_width())
        &&& 3 * self.spec_width() <= usize::MAX
        &&& self.stored_error().wf()
    }

    /// Number of layers.
    pub fn depth(&self) -> (d: usize)
        ensures
            d == self.models().len(),
    {
        self.layers.len()
    }

    /// Number of blocks per layer.
    pub fn width(&self) -> (w: usize)
        ensures
            w == self.spec_width(),
    {
        self.width
    }

    /// Number of wires per layer.
    pub fn wires(&self) -> (n: usize)
        requires
            self.wf(),
        ensures
            n == self.wires_spec(),
    {
        3 * self.width
    }

    /// The cached aggregate error of the last `error_set` call.
    pub fn error_store(&self) -> (r: Ratio)
        ensures
            r == self.stored_error(),
    {
        self.error_store
    }

    /// A fresh network: `depth` identity layers of the given width, and the
    /// worst possible cached score.  A burn-in pass of `random_switch`
    /// scrambles the identity permutations before training begins.
    pub fn create(width: usize, depth: usize) -> (r: Network)
        requires
            width <= usize::MAX / 3,
        ensures
            r.wf(),
            r.spec_width() == width,
            r.models().len() == depth,
            forall|d: int|
                0 <= d < depth ==> {
                    &&& (#[trigger] r.models()[d]).wf()
                    &&& r.models()[d].width() == width
                    &&& (forall|i: int| 0 <= i < 3 * width ==> r.models()[d].input_map[i] == i)
                    &&& (forall|k: int| 0 <= k < width ==> !r.models()[d].invert[k])
                },
            r.stored_error() == (Ratio { num: 1, den: 1 }),
    {
        let mut layers: Vec<Layer> = Vec::new();
        let mut d: usize = 0;
        while d < depth
            invariant
                d <= depth,
                layers@.len() == d,
                width <= usize::MAX / 3,
                forall|p: int|
                    0 <= p < d ==> {
                        &&& (#[trigger] layers@[p].model()).wf()
                        &&& layers@[p].model().width() == width
                        &&& (forall|i: int|
                            0 <= i < 3 * width ==> layers@[p].model().input_map[i] == i)
                        &&& (forall|k: int| 0 <= k < width ==> !layers@[p].model().invert[k])
                    },
            decreases depth - d,
        {
            layers.push(Layer::create(width));
            d += 1;
        }
        Network { layers, width, error_store: Ratio::one() }
    }

    /// An independent deep copy, for speculative mutation.
    pub fn duplicate(&self) -> (r: Network)
        ensures
            r.models() == self.models(),
            r.spec_width() == self.spec_width(),
            r.stored_error() == self.stored_error(),
    {
        let mut layers: Vec<Layer> = Vec::new();
        let mut d: usize = 0;
        while d < self.layers.len()
            invariant
                d <= self.layers@.len(),
                layers@.len() == d,
                forall|p: int| 0 <= p < d ==> (#[trigger] layers@[p].model()) == self.layers@[p].model(),
            decreases self.layers@.len() - d,
        {
            layers.push(self.layers[d].duplicate());
            d += 1;
        }
        let r = Network { layers, width: self.width, error_store: self.error_store };
        proof {
            assert(r.models() =~= self.models());
        }
        r
    }

    /// Forward-evaluate the zero-padded input through the first `upto`
    /// layers: the forward half of cut-point reconciliation.
    pub fn eval_prefix(&mut self, upto: usize, input: &Vec<bool>) -> (r: Vec<bool>)
        requires
            old(self).wf(),
            upto <= old(self).models().len(),
            input@.len() <= old(self).wires_spec(),
        ensures
            final(self).wf(),
            final(self).models() == old(self).models(),
            final(self).spec_width() == old(self).spec_width(),
            final(self).stored_error() == old(self).stored_error(),
            r@ == net_eval_seq(
                old(self).models().take(upto as int),
                padded(input@, old(self).wires_spec()),
            ),
            r@.len() == old(self).wires_spec(),
    {
        let n = 3 * self.width;
        let ghost x = padded(input@, n as int);
        let mut cur = pad_to(input, n);
        let mut d: usize = 0;
        while d < upto
            invariant
                d <= upto,
                upto <= self.models().len(),
                self.wf(),
                self.models() == old(self).models(),
                self.spec_width() == old(self).spec_width(),
                self.stored_error() == old(self).stored_error(),
                n == 3 * self.spec_width(),
                cur@.len() == n,
                cur@ == net_eval_seq(self.models().take(d as int), x),
            decreases upto - d,
        {
            assert(self.models()[d as int].wf() && self.models()[d as int].width()
                == self.spec_width());
            let out = self.layers[d].eval(&cur);
            proof {
                assert(self.models() =~= old(self).models());
                assert(self.models().take(d + 1).drop_last() =~= self.models().take(d as int));
                lemma_net_eval_push(
                    old(self).models().take(d as int),
                    old(self).models()[d as int],
                    x,
                );
                assert(old(self).models().take(d as int).push(old(self).models()[d as int])
                    =~= old(self).models().take(d + 1));
            }
            cur = out;
            d += 1;
        }
        cur
    }

    /// Reverse-evaluate the zero-padded desired output through the layers
    /// from `from` to the end, last layer first: the backward half of
    /// cut-point reconciliation.
    pub fn reverse_suffix(&self, from: usize, output: &Vec<bool>) -> (r: Vec<bool>)
        requires
            self.wf(),
            from <= self.models().len(),
            output@.len() <= self.wires_spec(),
        ensures
            r@ == net_reverse_seq(
                self.models().skip(from as int),
                padded(output@, self.wires_spec()),
            ),
            r@.len() == self.wires_spec(),
    {
        let n = 3 * self.width;
        let ghost y = padded(output@, n as int);
        let mut cur = pad_to(output, n);
        let mut d: usize = self.layers.len();
        while d > from
            invariant
                from <= d <= self.models().len(),
                self.wf(),
                n == 3 * self.spec_width(),
                cur@.len() == n,
                cur@ == net_reverse_seq(self.models().skip(d as int), y),
            decreases d,
        {
            assert(self.models()[d - 1].wf() && self.models()[d - 1].width() == self.spec_width());
            let out = self.layers[d - 1].reverse(&cur);
            proof {
                lemma_net_reverse_first(self.models().skip(d - 1), y);
                assert(self.models().skip(d - 1)[0] == self.models()[d - 1]);
                assert(self.models().skip(d - 1).drop_first() =~= self.models().skip(d as int));
            }
            cur = out;
            d -= 1;
        }
        cur
    }

    /// Forward-evaluate the zero-padded input through the whole network.
    pub fn eval(&mut self, input: &Vec<bool>) -> (r: Vec<bool>)
        requires
            old(self).wf(),
            input@.len() <= old(self).wires_spec(),
        ensures
            final(self).wf(),
            final(self).models() == old(self).models(),
            final(self).spec_width() == old(self).spec_width(),
            final(self).stored_error() == old(self).stored_error(),
            r@ == net_eval_seq(old(self).models(), padded(input@, old(self).wires_spec())),
            r@.len() == old(self).wires_spec(),
    {
        let depth = self.layers.len();
        let r = self.eval_prefix(depth, input);
        proof {
            assert(old(self).models().take(depth as int) =~= old(self).models());
        }
        r
    }

    /// Reverse-evaluate the zero-padded desired output through the whole
    /// network: the exact algebraic inverse of `eval`.
    pub fn reverse(&self, output: &Vec<bool>) -> (r: Vec<bool>)
        requires
            self.wf(),
            output@.len() <= self.wires_spec(),
        ensures
            r@ == net_reverse_seq(self.models(), padded(output@, self.wires_spec())),
            r@.len() == self.wires_spec(),
    {
        let r = self.reverse_suffix(0, output);
        proof {
            assert(self.models().skip(0) =~= self.models());
        }
        r
    }

    /// The mismatch fraction of one example: forward-evaluate the input and
    /// compare bit-for-bit against the expected vector, over its length.
    /// Zero exactly when every compared wire agrees, and zero by definition
    /// for an empty expectation.
    pub fn error(&mut self, input: &Vec<bool>, expected: &Vec<bool>) -> (r: Ratio)
        requires
            old(self).wf(),
            input@.len() <= old(self).wires_spec(),
            expected@.len() <= old(self).wires_spec(),
        ensures
            final(self).wf(),
            final(self).models() == old(self).models(),
            final(self).spec_width() == old(self).spec_width(),
            final(self).stored_error() == old(self).stored_error(),
            r.num == mismatches(
                net_eval_seq(old(self).models(), padded(input@, old(self).wires_spec())),
                expected@,
            ),
            r.den == (if expected@.len() == 0 {
                1int
            } else {
                expected@.len() as int
            }),
            r.wf(),
            r.num <= r.den,
            r.num == 0 <==> (forall|i: int|
                0 <= i < expected@.len()
                    ==> net_eval_seq(old(self).models(), padded(input@, old(self).wires_spec()))[i]
                    == expected@[i]),
    {
        let out = self.eval(input);
        let m = count_mismatches(&out, expected);
        proof {
            crate::wires::lemma_mismatches_upto_zero(out@, expected@, expected@.len() as int);
            crate::wires::lemma_mismatches_upto_bounds(out@, expected@, expected@.len() as int);
        }
        if expected.len() == 0 {
            Ratio::zero()
        } else {
            Ratio::new(m as u64, expected.len() as u64)
        }
    }

    /// The mean of `error` over all examples of the set, as one exact
    /// fraction; updates and returns the stored score.  Zero by definition
    /// for an empty set.  The set must be small enough for the exact
    /// denominator to fit the carrying word.
    pub fn error_set(&mut self, set: &TrainingSet) -> (r: Ratio)
        requires
            old(self).wf(),
            set.fits(old(self).wires_spec()),
            set_fits(set.pairs@),
        ensures
            final(self).wf(),
            final(self).models() == old(self).models(),
            final(self).spec_width() == old(self).spec_width(),
            r.num == set_error_num(old(self).models(), old(self).wires_spec(), set.pairs@),
            r.den == set_error_den(set.pairs@),
            r.wf(),
            r.num <= r.den,
            final(self).stored_error() == r,
            r.num == 0 <==> (forall|i: int|
                0 <= i < set.pairs@.len() ==> pair_mismatches(
                    old(self).models(),
                    old(self).wires_spec(),
                    #[trigger] set.pairs@[i],
                ) == 0),
    {
        let ghost ms = old(self).models();
        let ghost w = old(self).wires_spec();
        let n = set.pairs.len();
        if n == 0 {
            let r = Ratio::zero();
            self.error_store = r;
            proof {
                assert(self.models() =~= old(self).models());
            }
            return r;
        }
        let mut num: u64 = 0;
        let mut den: u64 = 1;
        let mut i: usize = 0;
        proof {
            assert(set.pairs@.take(0) =~= Seq::<TrainingPair>::empty());
        }
        while i < n
            invariant
                i <= n,
                n == set.pairs@.len(),
                self.wf(),
                self.models() == ms,
                self.spec_width() == old(self).spec_width(),
                w == self.wires_spec(),
                set.fits(w),
                set_fits(set.pairs@),
                num == set_sum_num(ms, w, set.pairs@.take(i as int)),
                den == set_sum_den(set.pairs@.take(i as int)),
            decreases n - i,
        {
            let ghost prefix = set.pairs@.take(i as int);
            let ghost next = set.pairs@.take(i as int + 1);
            assert(set.pairs@[i as int].fits(w));
            let e = {
                let p = &set.pairs[i];
                self.error(&p.input, &p.output)
            };
            proof {
                assert(next.drop_last() =~= prefix);
                assert(next.last() == set.pairs@[i as int]);
                lemma_set_sum_bounds(ms, w, prefix);
                lemma_set_den_prefix(set.pairs@, i as int + 1);
                lemma_set_sum_bounds(ms, w, next);
                // the next accumulator values, as unbounded integers
                let num1 = set_sum_num(ms, w, next);
                let den1 = set_sum_den(next);
                assert(den1 == den * e.den && num1 == num * e.den + e.num * den);
                assert(den1 * n <= set_sum_den(set.pairs@) * n) by (nonlinear_arith)
                    requires
                        den1 <= set_sum_den(set.pairs@),
                        n >= 1,
                ;
                assert(den1 <= den1 * n) by (nonlinear_arith)
                    requires
                        den1 >= 1,
                        n >= 1,
                ;
                assert(num1 <= den1 * n) by (nonlinear_arith)
                    requires
                        num1 <= next.len() * den1,
                        next.len() <= n,
                        den1 >= 1,
                ;
            }
            let num128 = (num as u128) * (e.den as u128) + (e.num as u128) * (den as u128);
            let den128 = (den as u128) * (e.den as u128);
            num = num128 as u64;
            den = den128 as u64;
            i += 1;
        }
        proof {
            assert(set.pairs@.take(n as int) =~= set.pairs@);
            lemma_set_sum_bounds(ms, w, set.pairs@);
            let bigd = set_sum_den(set.pairs@);
            let bign = set_sum_num(ms, w, set.pairs@);
            assert(bign <= bigd * n) by (nonlinear_arith)
                requires
                    bign <= set.pairs@.len() * bigd,
                    set.pairs@.len() == n,
                    bigd >= 1,
            ;
            assert(bigd <= bigd * n) by (nonlinear_arith)
                requires
                    bigd >= 1,
                    n >= 1,
            ;
        }
        let total_den128 = (den as u128) * (n as u128);
        let r = Ratio::new(num, total_den128 as u64);
        self.error_store = r;
        proof {
            assert(self.models() =~= old(self).models());
            lemma_set_sum_zero(ms, w, set.pairs@);
        }
        r
    }
}

} // verus!
