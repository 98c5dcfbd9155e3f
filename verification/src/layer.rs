//! One stage of the switching network.
//!
//! A layer routes `3 * width` wires through a permutation, then lets each
//! three-wire block conditionally swap its first two wires (the third wire
//! of the block is the select line) and exclusive-or all three with the
//! block's invert flag.  Every step is a bijection, so a layer has an exact
//! algebraic inverse, implemented by `reverse`.

use vstd::prelude::*;
use vstd::seq_lib::seq_to_set_is_finite;
use vstd::set_lib::{lemma_int_range, lemma_len_subset, lemma_subset_equality, set_int_range};
use crate::rng::RandomSource;
use crate::wires::copy_bools;
use crate::wires::copy_indices;

verus! {

/// The mathematical content of a layer: its permutation and invert flags.
/// The cached wire vectors of the concrete type are diagnostic only and do
/// not belong to the model.
pub ghost struct LayerModel {
    pub input_map: Seq<usize>,
    pub invert: Seq<bool>,
}

/// `m` is a bijection on `[0, m.len())`: every entry is in range and no two
/// entries collide.
pub open spec fn is_permutation(m: Seq<usize>) -> bool {
    &&& forall|i: int| 0 <= i < m.len() ==> (#[trigger] m[i]) < m.len()
    &&& forall|i: int, j: int|
        #![trigger m[i], m[j]]
        0 <= i < m.len() && 0 <= j < m.len() && m[i] == m[j] ==> i == j
}

impl LayerModel {
    /// Number of three-wire blocks.
    pub open spec fn width(self) -> int {
        self.invert.len() as int
    }

    /// Number of wires.
    pub open spec fn wires(self) -> int {
        self.input_map.len() as int
    }

    /// Structural invariant: the map is a permutation over exactly three
    /// wires per block.
    pub open spec fn wf(self) -> bool {
        &&& self.input_map.len() == 3 * self.invert.len()
        &&& self.input_map.len() <= usize::MAX
        &&& is_permutation(self.input_map)
    }
}

/// The wires selected by the permutation: entry `i` reads upstream wire
/// `m[i]`.
pub open spec fn gathered(m: Seq<usize>, x: Seq<bool>) -> Seq<bool> {
    Seq::new(m.len(), |i: int| x[m[i] as int])
}

/// The conditional swap of each three-wire block: wherever the block's
/// third wire is true, the first two wires change places.  The transform is
/// an involution, since the select wire itself always passes through.
pub open spec fn routed(g: Seq<bool>) -> Seq<bool> {
    Seq::new(
        g.len(),
        |i: int|
            {
                let b = 3 * (i / 3);
                if b + 2 < g.len() && g[b + 2] {
                    if i % 3 == 0 {
                        g[i + 1]
                    } else if i % 3 == 1 {
                        g[i - 1]
                    } else {
                        g[i]
                    }
                } else {
                    g[i]
                }
            },
    )
}

/// Each wire exclusive-or'd with its block's invert flag.
pub open spec fn xored(inv: Seq<bool>, v: Seq<bool>) -> Seq<bool> {
    Seq::new(v.len(), |i: int| v[i] != inv[i / 3])
}

/// Forward evaluation of one layer: gather through the permutation, apply
/// the conditional swaps, then the invert flags.
pub open spec fn layer_eval_seq(m: LayerModel, x: Seq<bool>) -> Seq<bool> {
    xored(m.invert, routed(gathered(m.input_map, x)))
}

/// Some position of the permutation maps onto wire `t`.
pub open spec fn has_preimage(m: Seq<usize>, t: int) -> bool {
    exists|i: int| 0 <= i < m.len() && m[i] == t as usize
}

/// The position that the permutation maps onto wire `t`.
pub open spec fn perm_index_of(m: Seq<usize>, t: int) -> int {
    choose|i: int| 0 <= i < m.len() && m[i] == t as usize
}

/// The inverse of gathering: place entry `i` back on upstream wire `m[i]`.
pub open spec fn scattered(m: Seq<usize>, v: Seq<bool>) -> Seq<bool> {
    Seq::new(m.len(), |t: int| v[perm_index_of(m, t)])
}

/// Reverse evaluation of one layer: undo the invert flags, inspect the
/// un-inverted select wires to undo the conditional swaps, then scatter
/// through the inverse permutation.
pub open spec fn layer_reverse_seq(m: LayerModel, y: Seq<bool>) -> Seq<bool> {
    scattered(m.input_map, routed(xored(m.invert, y)))
}

/// An injection of `[0, n)` into `[0, n)` is onto.
pub proof fn lemma_permutation_onto(m: Seq<usize>)
    requires
        is_permutation(m),
    ensures
        forall|t: int| 0 <= t < m.len() ==> #[trigger] has_preimage(m, t),
{
    broadcast use seq_to_set_is_finite;

    let n = m.len() as int;
    let s: Seq<int> = Seq::new(m.len(), |i: int| m[i] as int);
    assert(s.no_duplicates());
    s.unique_seq_to_set();
    let range = set_int_range(0, n);
    lemma_int_range(0, n);
    assert(s.to_set().subset_of(range)) by {
        assert forall|t: int| s.to_set().contains(t) implies range.contains(t) by {
            let i = choose|i: int| 0 <= i < s.len() && s[i] == t;
            assert(m[i] < m.len());
        }
    }
    lemma_len_subset(s.to_set(), range);
    lemma_subset_equality(s.to_set(), range);
    assert forall|t: int| 0 <= t < m.len() implies #[trigger] has_preimage(m, t) by {
        assert(range.contains(t));
        assert(s.to_set().contains(t));
        assert(s.contains(t));
        let i = choose|i: int| 0 <= i < s.len() && s[i] == t;
        assert(0 <= i < m.len() && m[i] == t as usize);
    }
}

/// Swapping two entries preserves the permutation invariant.
pub proof fn lemma_swap_is_permutation(m: Seq<usize>, i: int, j: int)
    requires
        is_permutation(m),
        0 <= i < m.len(),
        0 <= j < m.len(),
    ensures
        is_permutation(m.update(i, m[j]).update(j, m[i])),
{
    let sw = m.update(i, m[j]).update(j, m[i]);
    assert forall|p: int, q: int|
        #![trigger sw[p], sw[q]]
        0 <= p < sw.len() && 0 <= q < sw.len() && sw[p] == sw[q] implies p == q by {
        assert(m[p] == m[p]);
        assert(m[q] == m[q]);
        assert(m[i] == m[i]);
        assert(m[j] == m[j]);
    }
}

/// The conditional swap is its own inverse.
pub proof fn lemma_routed_involution(g: Seq<bool>)
    requires
        g.len() % 3 == 0,
    ensures
        routed(routed(g)) =~= g,
{
    let r = routed(g);
    assert forall|i: int| 0 <= i < g.len() implies routed(r)[i] == g[i] by {
        let b = 3 * (i / 3);
        assert(b + 2 < g.len()) by {
            assert(g.len() % 3 == 0 && 0 <= i < g.len());
            assert(3 * (i / 3) + i % 3 == i) by {
                vstd::arithmetic::div_mod::lemma_fundamental_div_mod(i, 3);
            }
            assert(i < g.len() ==> 3 * (i / 3) + 3 <= g.len()) by (nonlinear_arith)
                requires
                    g.len() % 3 == 0,
                    0 <= i < g.len(),
            ;
        }
        assert(3 * (i / 3) + i % 3 == i) by {
            vstd::arithmetic::div_mod::lemma_fundamental_div_mod(i, 3);
        }
        assert((b + 2) / 3 == i / 3 && (b + 2) % 3 == 2) by (nonlinear_arith)
            requires
                b == 3 * (i / 3),
                0 <= i,
        ;
        // the select wire passes through unchanged
        assert(r[b + 2] == g[b + 2]);
        if i % 3 == 0 {
            assert((i + 1) / 3 == i / 3 && (i + 1) % 3 == 1) by (nonlinear_arith)
                requires
                    i % 3 == 0,
                    0 <= i,
            ;
        } else if i % 3 == 1 {
            assert((i - 1) / 3 == i / 3 && (i - 1) % 3 == 0) by (nonlinear_arith)
                requires
                    i % 3 == 1,
                    0 <= i,
            ;
        }
    }
}

/// Exclusive-or with the same flags twice restores the wires.
pub proof fn lemma_xored_involution(inv: Seq<bool>, v: Seq<bool>)
    ensures
        xored(inv, xored(inv, v)) =~= v,
{
}

/// The round-trip law for a single layer: `reverse` is the exact algebraic
/// inverse of `eval` on full-width wire vectors.
#[verifier::rlimit(30)]
pub proof fn lemma_layer_round_trip(m: LayerModel, x: Seq<bool>)
    requires
        m.wf(),
        x.len() == m.wires(),
    ensures
        layer_reverse_seq(m, layer_eval_seq(m, x)) =~= x,
{
    let g = gathered(m.input_map, x);
    let y = layer_eval_seq(m, x);
    let u = xored(m.invert, y);
    assert(u =~= routed(g)) by {
        lemma_xored_involution(m.invert, routed(g));
    }
    assert(g.len() % 3 == 0) by {
        assert(g.len() == 3 * m.invert.len());
        assert((3 * m.invert.len()) % 3 == 0) by (nonlinear_arith);
    }
    assert(routed(u) =~= g) by {
        lemma_routed_involution(g);
    }
    assert(layer_reverse_seq(m, y) == scattered(m.input_map, g));
    lemma_permutation_onto(m.input_map);
    assert forall|t: int| 0 <= t < m.wires() implies scattered(m.input_map, g)[t] == x[t] by {
        assert(has_preimage(m.input_map, t));
        let i = perm_index_of(m.input_map, t);
        assert(0 <= i < m.input_map.len() && m.input_map[i] == t as usize);
        assert(g[i] == x[t]);
    }
}

/// The view of an optional cached wire vector.
pub open spec fn cache_view(c: Option<Vec<bool>>) -> Option<Seq<bool>> {
    match c {
        Some(v) => Some(v@),
        None => None,
    }
}

/// `m` with entries `i` and `j` exchanged.
pub open spec fn map_swapped(m: LayerModel, i: int, j: int) -> LayerModel {
    LayerModel {
        input_map: m.input_map.update(i, m.input_map[j]).update(j, m.input_map[i]),
        invert: m.invert,
    }
}

/// `m` with the invert flag of block `k` toggled.
pub open spec fn invert_toggled(m: LayerModel, k: int) -> LayerModel {
    LayerModel { input_map: m.input_map, invert: m.invert.update(k, !m.invert[k]) }
}

/// One stage of the network: a permutation over `3 * width` wires, one
/// invert flag per three-wire block, and the cached wire vectors of the
/// last forward evaluation.
pub struct Layer {
    input_map: Vec<usize>,
    invert: Vec<bool>,
    inputs: Option<Vec<bool>>,
    outputs: Option<Vec<bool>>,
}

/// Whether `m` is a permutation, decided by marking the entries seen.
pub fn check_permutation(m: &Vec<usize>) -> (r: bool)
    ensures
        r == is_permutation(m@),
{
    let n = m.len();
    let mut seen: Vec<bool> = Vec::new();
    let mut t: usize = 0;
    while t < n
        invariant
            t <= n,
            seen@.len() == t,
            forall|p: int| 0 <= p < t ==> !seen@[p],
        decreases n - t,
    {
        seen.push(false);
        t += 1;
    }
    let mut i: usize = 0;
    while i < n
        invariant
            i <= n,
            n == m@.len(),
            seen@.len() == n,
            forall|j: int| 0 <= j < i ==> (#[trigger] m@[j]) < n,
            forall|j1: int, j2: int|
                #![trigger m@[j1], m@[j2]]
                0 <= j1 < i && 0 <= j2 < i && m@[j1] == m@[j2] ==> j1 == j2,
            forall|p: int|
                0 <= p < n ==> (seen@[p] <==> exists|j: int|
                    0 <= j < i && (#[trigger] m@[j]) == p as usize),
        decreases n - i,
    {
        let e = m[i];
        if e >= n {
            return false;
        }
        if seen[e] {
            proof {
                let j = choose|j: int| 0 <= j < i && (#[trigger] m@[j]) == e as int as usize;
                assert(m@[j] == m@[i as int]);
            }
            return false;
        }
        seen[e] = true;
        proof {
            assert(m@[i as int] == e as int as usize);
        }
        i += 1;
    }
    true
}

impl Layer {
    /// The mathematical model of the layer.
    pub closed spec fn model(&self) -> LayerModel {
        LayerModel { input_map: self.input_map@, invert: self.invert@ }
    }

    /// The cached input of the last forward evaluation, if any.
    pub closed spec fn cached_inputs(&self) -> Option<Seq<bool>> {
        cache_view(self.inputs)
    }

    /// The cached output of the last forward evaluation, if any.
    pub closed spec fn cached_outputs(&self) -> Option<Seq<bool>> {
        cache_view(self.outputs)
    }

    /// Number of three-wire blocks.
    pub fn width(&self) -> (w: usize)
        ensures
            w == self.model().width(),
    {
        self.invert.len()
    }

    /// Number of wires.
    pub fn wires(&self) -> (n: usize)
        ensures
            n == self.model().wires(),
    {
        self.input_map.len()
    }

    /// A fresh layer: the identity permutation and all-false invert flags.
    pub fn create(width: usize) -> (r: Layer)
        requires
            width <= usize::MAX / 3,
        ensures
            r.model().wf(),
            r.model().width() == width,
            forall|i: int| 0 <= i < 3 * width ==> r.model().input_map[i] == i,
            forall|k: int| 0 <= k < width ==> !r.model().invert[k],
            r.cached_inputs() is None,
            r.cached_outputs() is None,
    {
        let n = 3 * width;
        let mut input_map: Vec<usize> = Vec::new();
        let mut i: usize = 0;
        while i < n
            invariant
                i <= n,
                input_map@.len() == i,
                forall|p: int| 0 <= p < i ==> input_map@[p] == p,
            decreases n - i,
        {
            input_map.push(i);
            i += 1;
        }
        let mut invert: Vec<bool> = Vec::new();
        let mut k: usize = 0;
        while k < width
            invariant
                k <= width,
                invert@.len() == k,
                forall|p: int| 0 <= p < k ==> !invert@[p],
            decreases width - k,
        {
            invert.push(false);
            k += 1;
        }
        Layer { input_map, invert, inputs: None, outputs: None }
    }

    /// Build a layer from an explicit permutation and invert flags,
    /// rejecting malformed parts: the permutation must cover exactly three
    /// wires per block and be a bijection.
    pub fn from_parts(input_map: Vec<usize>, invert: Vec<bool>) -> (r: Option<Layer>)
        ensures
            (input_map@.len() == 3 * invert@.len() && is_permutation(input_map@)) <==> r is Some,
            match r {
                Some(l) => {
                    &&& l.model().wf()
                    &&& l.model().input_map == input_map@
                    &&& l.model().invert == invert@
                    &&& l.cached_inputs() is None
                    &&& l.cached_outputs() is None
                },
                None => true,
            },
    {
        let n = input_map.len();
        if n % 3 != 0 || n / 3 != invert.len() {
            proof {
                vstd::arithmetic::div_mod::lemma_fundamental_div_mod(n as int, 3);
            }
            return None;
        }
        proof {
            vstd::arithmetic::div_mod::lemma_fundamental_div_mod(n as int, 3);
        }
        if !check_permutation(&input_map) {
            return None;
        }
        Some(Layer { input_map, invert, inputs: None, outputs: None })
    }

    /// An independent value copy, cheap enough for speculative mutation.
    pub fn duplicate(&self) -> (r: Layer)
        ensures
            r.model() == self.model(),
            r.cached_inputs() == self.cached_inputs(),
            r.cached_outputs() == self.cached_outputs(),
    {
        let inputs = match &self.inputs {
            Some(v) => Some(copy_bools(v)),
            None => None,
        };
        let outputs = match &self.outputs {
            Some(v) => Some(copy_bools(v)),
            None => None,
        };
        Layer {
            input_map: copy_indices(&self.input_map),
            invert: copy_bools(&self.invert),
            inputs,
            outputs,
        }
    }

    /// A copy of the input cached by the last forward evaluation, if any.
    pub fn last_inputs(&self) -> (r: Option<Vec<bool>>)
        ensures
            cache_view(r) == self.cached_inputs(),
    {
        match &self.inputs {
            Some(v) => Some(copy_bools(v)),
            None => None,
        }
    }

    /// A copy of the output cached by the last forward evaluation, if any.
    pub fn last_outputs(&self) -> (r: Option<Vec<bool>>)
        ensures
            cache_view(r) == self.cached_outputs(),
    {
        match &self.outputs {
            Some(v) => Some(copy_bools(v)),
            None => None,
        }
    }

    /// A copy of the permutation.
    pub fn map_entries(&self) -> (r: Vec<usize>)
        ensures
            r@ == self.model().input_map,
    {
        copy_indices(&self.input_map)
    }

    /// A copy of the invert flags.
    pub fn invert_flags(&self) -> (r: Vec<bool>)
        ensures
            r@ == self.model().invert,
    {
        copy_bools(&self.invert)
    }

    /// Whether the layer satisfies its structural invariant.
    pub fn is_valid(&self) -> (r: bool)
        ensures
            r == self.model().wf(),
    {
        let n = self.input_map.len();
        proof {
            vstd::arithmetic::div_mod::lemma_fundamental_div_mod(n as int, 3);
        }
        n % 3 == 0 && n / 3 == self.invert.len() && check_permutation(&self.input_map)
    }

    /// Swap two chosen entries of the permutation; used by the informed
    /// strategies once target positions are known.
    pub fn controlled_switch(&mut self, i: usize, j: usize)
        requires
            old(self).model().wf(),
            i < old(self).model().wires(),
            j < old(self).model().wires(),
            i != j,
        ensures
            final(self).model().wf(),
            final(self).model() == map_swapped(old(self).model(), i as int, j as int),
    {
        let a = self.input_map[i];
        let b = self.input_map[j];
        self.input_map[i] = b;
        self.input_map[j] = a;
        proof {
            lemma_swap_is_permutation(old(self).input_map@, i as int, j as int);
        }
    }

    /// Toggle the invert flag of block `k`.
    pub fn toggle_invert(&mut self, k: usize)
        requires
            old(self).model().wf(),
            k < old(self).model().width(),
        ensures
            final(self).model().wf(),
            final(self).model() == invert_toggled(old(self).model(), k as int),
    {
        let flag = self.invert[k];
        self.invert[k] = !flag;
    }

    /// The blind mutation primitive: with probability one in four, toggle a
    /// uniformly random invert flag; otherwise swap two distinct uniformly
    /// random entries of the permutation.  Either way the permutation
    /// invariant is preserved.
    pub fn random_switch(&mut self, rng: &mut RandomSource)
        requires
            old(self).model().wf(),
            old(self).model().width() >= 1,
        ensures
            final(self).model().wf(),
            final(self).model().width() == old(self).model().width(),
            (exists|k: int|
                0 <= k < old(self).model().width() && final(self).model() == invert_toggled(
                    old(self).model(),
                    k,
                )) || (exists|i: int, j: int|
                0 <= i < old(self).model().wires() && 0 <= j < old(self).model().wires() && i != j
                    && final(self).model() == map_swapped(old(self).model(), i, j)),
    {
        if rng.below(4) == 0 {
            let k = rng.below(self.invert.len());
            self.toggle_invert(k);
        } else {
            let n = self.input_map.len();
            let i = rng.below(n);
            let off = rng.below(n - 1);
            let j = if off < n - 1 - i {
                i + 1 + off
            } else {
                off - (n - 1 - i)
            };
            self.controlled_switch(i, j);
        }
    }

    /// Forward evaluation: gather the wires through the permutation, let
    /// each block's select wire decide whether its first two wires swap,
    /// apply the invert flags, and cache the evaluated vectors.
    pub fn eval(&mut self, input: &Vec<bool>) -> (r: Vec<bool>)
        requires
            old(self).model().wf(),
            input@.len() == old(self).model().wires(),
        ensures
            final(self).model() == old(self).model(),
            r@ == layer_eval_seq(old(self).model(), input@),
            final(self).cached_inputs() == Some(input@),
            final(self).cached_outputs() == Some(r@),
    {
        let n = self.input_map.len();
        let width = self.invert.len();
        let mut g: Vec<bool> = Vec::new();
        let mut i: usize = 0;
        while i < n
            invariant
                i <= n,
                n == self.input_map@.len(),
                input@.len() == n,
                is_permutation(self.input_map@),
                g@.len() == i,
                forall|p: int| 0 <= p < i ==> g@[p] == input@[self.input_map@[p] as int],
            decreases n - i,
        {
            let src = self.input_map[i];
            g.push(input[src]);
            i += 1;
        }
        assert(g@ =~= gathered(self.input_map@, input@));
        let mut out: Vec<bool> = Vec::new();
        let mut k: usize = 0;
        while k < width
            invariant
                k <= width,
                n == 3 * width,
                g@ == gathered(self.input_map@, input@),
                g@.len() == n,
                self.invert@.len() == width,
                out@.len() == 3 * k,
                forall|p: int| 0 <= p < 3 * k ==> out@[p] == xored(self.invert@, routed(g@))[p],
            decreases width - k,
        {
            let b = 3 * k;
            let g0 = g[b];
            let g1 = g[b + 1];
            let s = g[b + 2];
            let inv = self.invert[k];
            if s {
                out.push(g1 != inv);
                out.push(g0 != inv);
            } else {
                out.push(g0 != inv);
                out.push(g1 != inv);
            }
            out.push(s != inv);
            proof {
                let kk = k as int;
                assert((3 * kk) / 3 == kk && (3 * kk) % 3 == 0 && (3 * kk + 1) / 3 == kk && (3 * kk
                    + 1) % 3 == 1 && (3 * kk + 2) / 3 == kk && (3 * kk + 2) % 3 == 2)
                    by (nonlinear_arith)
                    requires
                        0 <= kk,
                ;
            }
            k += 1;
        }
        assert(out@ =~= layer_eval_seq(old(self).model(), input@));
        self.inputs = Some(copy_bools(input));
        self.outputs = Some(copy_bools(&out));
        out
    }

    /// Reverse evaluation: the exact algebraic inverse of `eval`.  Undo the
    /// invert flags, read each block's un-inverted select wire to undo the
    /// conditional swap, and scatter the wires back through the inverse of
    /// the permutation.
    pub fn reverse(&self, output: &Vec<bool>) -> (r: Vec<bool>)
        requires
            self.model().wf(),
            output@.len() == self.model().wires(),
        ensures
            r@ == layer_reverse_seq(self.model(), output@),
    {
        let n = self.input_map.len();
        let width = self.invert.len();
        let mut v: Vec<bool> = Vec::new();
        let mut k: usize = 0;
        while k < width
            invariant
                k <= width,
                n == 3 * width,
                output@.len() == n,
                self.invert@.len() == width,
                v@.len() == 3 * k,
                forall|p: int| 0 <= p < 3 * k ==> v@[p] == routed(xored(self.invert@, output@))[p],
            decreases width - k,
        {
            let b = 3 * k;
            let inv = self.invert[k];
            let u0 = output[b] != inv;
            let u1 = output[b + 1] != inv;
            let u2 = output[b + 2] != inv;
            if u2 {
                v.push(u1);
                v.push(u0);
            } else {
                v.push(u0);
                v.push(u1);
            }
            v.push(u2);
            proof {
                let kk = k as int;
                assert((3 * kk) / 3 == kk && (3 * kk) % 3 == 0 && (3 * kk + 1) / 3 == kk && (3 * kk
                    + 1) % 3 == 1 && (3 * kk + 2) / 3 == kk && (3 * kk + 2) % 3 == 2)
                    by (nonlinear_arith)
                    requires
                        0 <= kk,
                ;
            }
            k += 1;
        }
        assert(v@ =~= routed(xored(self.invert@, output@)));
        let mut r: Vec<bool> = Vec::new();
        let mut t: usize = 0;
        while t < n
            invariant
                t <= n,
                r@.len() == t,
            decreases n - t,
        {
            r.push(false);
            t += 1;
        }
        let mut idx: usize = 0;
        while idx < n
            invariant
                idx <= n,
                n == self.input_map@.len(),
                r@.len() == n,
                v@.len() == n,
                is_permutation(self.input_map@),
                forall|j: int| 0 <= j < idx ==> r@[self.input_map@[j] as int] == v@[j],
            decreases n - idx,
        {
            let pos = self.input_map[idx];
            r[pos] = v[idx];
            idx += 1;
        }
        proof {
            lemma_permutation_onto(self.input_map@);
            assert forall|t2: int| 0 <= t2 < n implies r@[t2] == scattered(
                self.input_map@,
                v@,
            )[t2] by {
                assert(has_preimage(self.input_map@, t2));
                let i = perm_index_of(self.input_map@, t2);
                assert(0 <= i < n && self.input_map@[i] == t2 as usize);
                assert(r@[self.input_map@[i] as int] == v@[i]);
            }
            assert(r@ =~= scattered(self.input_map@, v@));
            assert(scattered(self.input_map@, v@) == layer_reverse_seq(self.model(), output@));
        }
        r
    }
}

} // verus!
