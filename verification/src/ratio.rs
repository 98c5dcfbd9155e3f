//! Exact rational scores.
//!
//! Error scores are mismatch fractions, so they are ratios of machine
//! integers.  Keeping them as exact fractions (instead of rounding through a
//! floating-point mean) makes the acceptance test of the trainer a precise
//! integer comparison.  Fractions are compared without overflow by the
//! classical continued-fraction descent: compare integer parts, then flip
//! and compare the remainders.

use vstd::prelude::*;
use vstd::arithmetic::div_mod::lemma_fundamental_div_mod;

verus! {

/// `an / ad < bn / bd`, as a cross-multiplication over unbounded integers.
/// Meaningful whenever both denominators are positive.
pub open spec fn frac_lt(an: int, ad: int, bn: int, bd: int) -> bool {
    an * bd < bn * ad
}

/// A nonnegative fraction `num / den`.
#[derive(Clone, Copy, Debug, PartialEq, Eq, Structural)]
pub struct Ratio {
    pub num: u64,
    pub den: u64,
}

impl Ratio {
    /// A fraction is well formed when its denominator is positive.
    pub open spec fn wf(&self) -> bool {
        self.den >= 1
    }

    /// `self < other` as rational values.
    pub open spec fn value_lt(self, other: Ratio) -> bool {
        frac_lt(self.num as int, self.den as int, other.num as int, other.den as int)
    }

    /// `self <= other` as rational values.
    pub open spec fn value_le(self, other: Ratio) -> bool {
        self.num * other.den <= other.num * self.den
    }

    pub fn new(num: u64, den: u64) -> (r: Ratio)
        requires
            den >= 1,
        ensures
            r.num == num,
            r.den == den,
            r.wf(),
    {
        Ratio { num, den }
    }

    pub fn zero() -> (r: Ratio)
        ensures
            r.num == 0,
            r.den == 1,
            r.wf(),
    {
        Ratio { num: 0, den: 1 }
    }

    pub fn one() -> (r: Ratio)
        ensures
            r.num == 1,
            r.den == 1,
            r.wf(),
    {
        Ratio { num: 1, den: 1 }
    }

    /// Whether the value is exactly zero.
    pub fn is_zero(&self) -> (r: bool)
        ensures
            r == (self.num == 0),
    {
        self.num == 0
    }

    /// Exact comparison `self < other`.
    pub fn lt(&self, other: &Ratio) -> (r: bool)
        requires
            self.wf(),
            other.wf(),
        ensures
            r == self.value_lt(*other),
    {
        frac_lt_exec(self.num as u128, self.den as u128, other.num as u128, other.den as u128)
    }

    /// Exact comparison `self <= other`.
    pub fn le(&self, other: &Ratio) -> (r: bool)
        requires
            self.wf(),
            other.wf(),
        ensures
            r == self.value_le(*other),
    {
        !frac_lt_exec(other.num as u128, other.den as u128, self.num as u128, self.den as u128)
    }

    /// Exact comparison `self < other * bar`, the acceptance test of the
    /// trainer: `bar` is the tolerance multiplier applied to the incumbent
    /// score `other`.
    pub fn lt_scaled(&self, other: &Ratio, bar: &Ratio) -> (r: bool)
        requires
            self.wf(),
            other.wf(),
            bar.wf(),
        ensures
            r == frac_lt(
                self.num as int,
                self.den as int,
                other.num * bar.num,
                other.den * bar.den,
            ),
    {
        proof {
            assert((other.num as u128) * (bar.num as u128) < 0x1_0000_0000_0000_0000_0000_0000_0000_0000)
                by (nonlinear_arith)
                requires
                    other.num <= 0xffff_ffff_ffff_ffff,
                    bar.num <= 0xffff_ffff_ffff_ffff,
            ;
            assert((other.den as u128) * (bar.den as u128) < 0x1_0000_0000_0000_0000_0000_0000_0000_0000)
                by (nonlinear_arith)
                requires
                    other.den <= 0xffff_ffff_ffff_ffff,
                    bar.den <= 0xffff_ffff_ffff_ffff,
            ;
            assert((other.den as u128) * (bar.den as u128) >= 1) by (nonlinear_arith)
                requires
                    other.den >= 1,
                    bar.den >= 1,
            ;
        }
        let n: u128 = (other.num as u128) * (bar.num as u128);
        let d: u128 = (other.den as u128) * (bar.den as u128);
        frac_lt_exec(self.num as u128, self.den as u128, n, d)
    }
}

/// The division-and-remainder facts needed for one descent step of the
/// fraction comparison.
proof fn lemma_frac_lt_step(an: int, ad: int, bn: int, bd: int, qa: int, ra: int, qb: int, rb: int)
    by (nonlinear_arith)
    requires
        ad >= 1,
        bd >= 1,
        an == ad * qa + ra,
        0 <= ra < ad,
        bn == bd * qb + rb,
        0 <= rb < bd,
    ensures
        qa < qb ==> an * bd < bn * ad,
        qb < qa ==> bn * ad <= an * bd,
        qa == qb ==> (an * bd < bn * ad <==> ra * bd < rb * ad),
{
}

/// Exact comparison of two nonnegative fractions without overflow, by
/// continued-fraction descent.
fn frac_lt_exec(an: u128, ad: u128, bn: u128, bd: u128) -> (r: bool)
    requires
        ad >= 1,
        bd >= 1,
    ensures
        r == frac_lt(an as int, ad as int, bn as int, bd as int),
    decreases ad + bd,
{
    let qa = an / ad;
    let ra = an % ad;
    let qb = bn / bd;
    let rb = bn % bd;
    proof {
        lemma_fundamental_div_mod(an as int, ad as int);
        lemma_fundamental_div_mod(bn as int, bd as int);
        lemma_frac_lt_step(
            an as int,
            ad as int,
            bn as int,
            bd as int,
            qa as int,
            ra as int,
            qb as int,
            rb as int,
        );
    }
    if qa != qb {
        qa < qb
    } else if rb == 0 {
        // the remainders compare as ra * bd < 0, which never holds
        proof {
            assert((ra as int) * (bd as int) >= 0 && (rb as int) * (ad as int) == 0)
                by (nonlinear_arith)
                requires
                    ra >= 0,
                    bd >= 0,
                    rb == 0,
            ;
        }
        false
    } else if ra == 0 {
        // the remainders compare as 0 < rb * ad, which holds since rb >= 1
        proof {
            assert((rb as int) * (ad as int) >= 1 && (ra as int) * (bd as int) == 0)
                by (nonlinear_arith)
                requires
                    rb >= 1,
                    ad >= 1,
                    ra == 0,
            ;
        }
        true
    } else {
        // ra / ad < rb / bd  <==>  bd / rb < ad / ra
        let r = frac_lt_exec(bd, rb, ad, ra);
        proof {
            assert(((ra as int) * (bd as int) < (rb as int) * (ad as int)) <==> ((bd as int) * (
            ra as int) < (ad as int) * (rb as int))) by (nonlinear_arith);
        }
        r
    }
}

} // verus!
