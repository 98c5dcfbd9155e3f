//! Boolean wire vectors: zero padding and bitwise comparison.

use vstd::prelude::*;

verus! {

/// `x` zero-extended (or viewed) over `n` wire positions.
pub open spec fn padded(x: Seq<bool>, n: int) -> Seq<bool> {
    Seq::new(n as nat, |i: int| if i < x.len() { x[i] } else { false })
}

/// Number of positions below `k` at which `a` and `b` differ.
pub open spec fn mismatches_upto(a: Seq<bool>, b: Seq<bool>, k: int) -> int
    decreases k,
{
    if k <= 0 {
        0
    } else {
        mismatches_upto(a, b, k - 1) + if a[k - 1] != b[k - 1] {
            1int
        } else {
            0int
        }
    }
}

/// Number of positions at which `a` disagrees with `b`, compared over the
/// length of `b` alone.
pub open spec fn mismatches(a: Seq<bool>, b: Seq<bool>) -> int {
    mismatches_upto(a, b, b.len() as int)
}

pub proof fn lemma_mismatches_upto_bounds(a: Seq<bool>, b: Seq<bool>, k: int)
    requires
        k >= 0,
    ensures
        0 <= mismatches_upto(a, b, k) <= k,
    decreases k,
{
    if k > 0 {
        lemma_mismatches_upto_bounds(a, b, k - 1);
    }
}

pub proof fn lemma_mismatches_upto_zero(a: Seq<bool>, b: Seq<bool>, k: int)
    requires
        k >= 0,
    ensures
        mismatches_upto(a, b, k) == 0 <==> (forall|i: int| 0 <= i < k ==> a[i] == b[i]),
    decreases k,
{
    if k > 0 {
        lemma_mismatches_upto_zero(a, b, k - 1);
        lemma_mismatches_upto_bounds(a, b, k - 1);
    }
}

/// Zero-pad a wire vector up to `n` positions.
pub fn pad_to(x: &Vec<bool>, n: usize) -> (r: Vec<bool>)
    requires
        x@.len() <= n,
    ensures
        r@ == padded(x@, n as int),
{
    let mut r: Vec<bool> = Vec::new();
    let mut i: usize = 0;
    while i < n
        invariant
            i <= n,
            x@.len() <= n,
            r@.len() == i,
            forall|j: int| 0 <= j < i ==> r@[j] == (if j < x@.len() {
                x@[j]
            } else {
                false
            }),
        decreases n - i,
    {
        if i < x.len() {
            r.push(x[i]);
        } else {
            r.push(false);
        }
        i += 1;
    }
    assert(r@ =~= padded(x@, n as int));
    r
}

/// Count the positions where `a` disagrees with `b`, over `b`'s length.
pub fn count_mismatches(a: &Vec<bool>, b: &Vec<bool>) -> (r: usize)
    requires
        b@.len() <= a@.len(),
    ensures
        r == mismatches(a@, b@),
        r <= b@.len(),
{
    let mut count: usize = 0;
    let mut i: usize = 0;
    while i < b.len()
        invariant
            i <= b@.len() <= a@.len(),
            count == mismatches_upto(a@, b@, i as int),
            count <= i,
        decreases b@.len() - i,
    {
        if a[i] != b[i] {
            count += 1;
        }
        i += 1;
    }
    count
}

/// An exact copy of a wire vector.
pub fn copy_bools(x: &Vec<bool>) -> (r: Vec<bool>)
    ensures
        r@ == x@,
{
    let mut r: Vec<bool> = Vec::new();
    let mut i: usize = 0;
    while i < x.len()
        invariant
            i <= x@.len(),
            r@ == x@.take(i as int),
        decreases x@.len() - i,
    {
        r.push(x[i]);
        assert(r@ =~= x@.take(i as int + 1));
        i += 1;
    }
    assert(r@ =~= x@);
    r
}

/// An exact copy of an index vector.
pub fn copy_indices(x: &Vec<usize>) -> (r: Vec<usize>)
    ensures
        r@ == x@,
{
    let mut r: Vec<usize> = Vec::new();
    let mut i: usize = 0;
    while i < x.len()
        invariant
            i <= x@.len(),
            r@ == x@.take(i as int),
        decreases x@.len() - i,
    {
        r.push(x[i]);
        assert(r@ =~= x@.take(i as int + 1));
        i += 1;
    }
    assert(r@ =~= x@);
    r
}

} // verus!
