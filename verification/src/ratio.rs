//! The exact observation ratio: a raw pair of unsigned counters.

use vstd::prelude::*;

verus! {

use core::cmp::Ordering;
use vstd::std_specs::cmp::PartialOrdSpec;

/// A set of counted observations: `matches` trials out of `observations`
/// satisfied the condition being measured.
///
/// The pair is never reduced to lowest terms; whatever counts arithmetic
/// produces are preserved exactly.  No relation between the two fields is
/// enforced — raw construction through [`CountingRatio::ratio`] and the
/// arithmetic operations may make `matches` exceed `observations`.
#[derive(Copy, Clone, PartialEq, Eq, Structural, Debug)]
pub struct CountingRatio {
    pub matches: u64,
    pub observations: u64,
}

/// The custom comparison used to order ratios, written over the raw counts.
///
/// Two ratios with zero `matches` are equal; a ratio with zero `matches` is
/// below any ratio with nonzero `matches`; two ratios with nonzero `matches`
/// and equal `observations` are treated as equal regardless of their
/// `matches` (a known quirk, preserved deliberately); otherwise the ratios
/// compare by cross-multiplication, with no floating point and no reduction.
pub open spec fn ratio_cmp(a: CountingRatio, b: CountingRatio) -> Ordering {
    if a.matches == 0 && b.matches == 0 {
        Ordering::Equal
    } else if a.matches == 0 {
        Ordering::Less
    } else if b.matches == 0 {
        Ordering::Greater
    } else if a.observations == b.observations {
        Ordering::Equal
    } else if (a.matches as nat) * (b.observations as nat) < (b.matches as nat) * (a.observations
        as nat) {
        Ordering::Less
    } else if (a.matches as nat) * (b.observations as nat) == (b.matches as nat) * (a.observations
        as nat) {
        Ordering::Equal
    } else {
        Ordering::Greater
    }
}

impl CountingRatio {
    /// The empty set of observations: `0/0`.
    pub fn new() -> (r: Self)
        ensures
            r.matches == 0,
            r.observations == 0,
    {
        CountingRatio { matches: 0, observations: 0 }
    }

    /// Raw construction from explicit counts, with no validation.
    pub fn ratio(matches: u64, observations: u64) -> (r: Self)
        ensures
            r.matches == matches,
            r.observations == observations,
    {
        CountingRatio { matches, observations }
    }

    /// Records one trial; it counts as a match iff `condition_met`.
    pub fn observe(&mut self, condition_met: bool)
        requires
            old(self).observations < u64::MAX,
            condition_met ==> old(self).matches < u64::MAX,
        ensures
            final(self).observations == old(self).observations + 1,
            final(self).matches == old(self).matches + if condition_met {
                1int
            } else {
                0int
            },
    {
        self.observations = self.observations + 1;
        if condition_met {
            self.matches = self.matches + 1;
        }
    }

    /// Records one gated trial.  When the prior condition fails, nothing is
    /// recorded at all — the trial is excluded from the denominator, not
    /// merely scored as a non-match.  When the prior condition holds, this
    /// behaves exactly like [`CountingRatio::observe`] on the posterior
    /// condition.
    pub fn observe_with_prior(&mut self, prior_condition_met: bool, posterior_condition_met: bool)
        requires
            prior_condition_met ==> old(self).observations < u64::MAX,
            prior_condition_met && posterior_condition_met ==> old(self).matches < u64::MAX,
        ensures
            !prior_condition_met ==> *final(self) == *old(self),
            prior_condition_met ==> final(self).observations == old(self).observations + 1,
            prior_condition_met ==> final(self).matches == old(self).matches
                + if posterior_condition_met {
                1int
            } else {
                0int
            },
    {
        if prior_condition_met {
            self.observations = self.observations + 1;
            if posterior_condition_met {
                self.matches = self.matches + 1;
            }
        }
    }

    /// True iff at least one observation has been recorded, so that the
    /// proportion is a well-defined number.
    pub fn defined(&self) -> (r: bool)
        ensures
            r == (self.observations > 0),
    {
        self.observations > 0
    }

    /// Merges two independent observation sets: the sum is componentwise on
    /// both counters, never a reduced-fraction sum.
    pub fn plus(self, rhs: Self) -> (r: Self)
        requires
            self.matches + rhs.matches <= u64::MAX,
            self.observations + rhs.observations <= u64::MAX,
        ensures
            r.matches == self.matches + rhs.matches,
            r.observations == self.observations + rhs.observations,
    {
        CountingRatio {
            matches: self.matches + rhs.matches,
            observations: self.observations + rhs.observations,
        }
    }

    /// Combines two ratios by componentwise product of `matches` and of
    /// `observations`; not equivalent to multiplying the proportions as
    /// real numbers unless the caller accounts for the denominators.
    pub fn times(self, rhs: Self) -> (r: Self)
        requires
            self.matches * rhs.matches <= u64::MAX,
            self.observations * rhs.observations <= u64::MAX,
        ensures
            r.matches == self.matches * rhs.matches,
            r.observations == self.observations * rhs.observations,
    {
        CountingRatio {
            matches: self.matches * rhs.matches,
            observations: self.observations * rhs.observations,
        }
    }

    /// Divides by `rhs` through cross-multiplication:
    /// `(a/b) / (c/d) = (a*d)/(b*c)`, using integer operations only.
    pub fn divided_by(self, rhs: Self) -> (r: Self)
        requires
            self.matches * rhs.observations <= u64::MAX,
            self.observations * rhs.matches <= u64::MAX,
        ensures
            r.matches == self.matches * rhs.observations,
            r.observations == self.observations * rhs.matches,
    {
        CountingRatio {
            matches: self.matches * rhs.observations,
            observations: self.observations * rhs.matches,
        }
    }

    /// In-place form of [`CountingRatio::plus`].
    pub fn plus_assign(&mut self, rhs: Self)
        requires
            old(self).matches + rhs.matches <= u64::MAX,
            old(self).observations + rhs.observations <= u64::MAX,
        ensures
            final(self).matches == old(self).matches + rhs.matches,
            final(self).observations == old(self).observations + rhs.observations,
    {
        self.matches = self.matches + rhs.matches;
        self.observations = self.observations + rhs.observations;
    }

    /// In-place form of [`CountingRatio::times`].
    pub fn times_assign(&mut self, rhs: Self)
        requires
            old(self).matches * rhs.matches <= u64::MAX,
            old(self).observations * rhs.observations <= u64::MAX,
        ensures
            final(self).matches == old(self).matches * rhs.matches,
            final(self).observations == old(self).observations * rhs.observations,
    {
        self.matches = self.matches * rhs.matches;
        self.observations = self.observations * rhs.observations;
    }

    /// In-place form of [`CountingRatio::divided_by`].
    pub fn divided_by_assign(&mut self, rhs: Self)
        requires
            old(self).matches * rhs.observations <= u64::MAX,
            old(self).observations * rhs.matches <= u64::MAX,
        ensures
            final(self).matches == old(self).matches * rhs.observations,
            final(self).observations == old(self).observations * rhs.matches,
    {
        let m = self.matches * rhs.observations;
        let o = self.observations * rhs.matches;
        self.matches = m;
        self.observations = o;
    }

    /// Scales the numerator alone by a raw count, leaving the denominator
    /// unchanged.  This deliberately asymmetric operation weights a
    /// conditional probability by a count while keeping the original
    /// denominator; it exists solely to support ranking comparisons and is
    /// not a general-purpose scalar multiply.
    pub fn scale_numerator(self, count: u64) -> (r: Self)
        requires
            self.matches * count <= u64::MAX,
        ensures
            r.matches == self.matches * count,
            r.observations == self.observations,
    {
        CountingRatio { matches: self.matches * count, observations: self.observations }
    }
}

impl PartialOrd for CountingRatio {
    fn partial_cmp(&self, other: &Self) -> Option<Ordering> {
        if self.matches == 0 && other.matches == 0 {
            Some(Ordering::Equal)
        } else if self.matches == 0 {
            Some(Ordering::Less)
        } else if other.matches == 0 {
            Some(Ordering::Greater)
        } else if self.observations == other.observations {
            Some(Ordering::Equal)
        } else {
            let sm: u128 = self.matches as u128;
            let oo: u128 = other.observations as u128;
            let om: u128 = other.matches as u128;
            let so: u128 = self.observations as u128;
            proof {
                assert(sm * oo <= 0xffff_ffff_ffff_ffffu128 * 0xffff_ffff_ffff_ffffu128 && om * so
                    <= 0xffff_ffff_ffff_ffffu128 * 0xffff_ffff_ffff_ffffu128) by (nonlinear_arith)
                    requires
                        sm <= 0xffff_ffff_ffff_ffffu128,
                        oo <= 0xffff_ffff_ffff_ffffu128,
                        om <= 0xffff_ffff_ffff_ffffu128,
                        so <= 0xffff_ffff_ffff_ffffu128,
                ;
            }
            let left: u128 = sm * oo;
            let right: u128 = om * so;
            if left < right {
                Some(Ordering::Less)
            } else if left == right {
                Some(Ordering::Equal)
            } else {
                Some(Ordering::Greater)
            }
        }
    }
}

impl vstd::std_specs::cmp::PartialOrdSpecImpl for CountingRatio {
    open spec fn obeys_partial_cmp_spec() -> bool {
        true
    }

    open spec fn partial_cmp_spec(&self, other: &Self) -> Option<Ordering> {
        Some(ratio_cmp(*self, *other))
    }
}

/// Law: for ratios whose `matches` are both nonzero and whose
/// `observations` differ, the custom order is exactly the
/// cross-multiplication order — `a` is below `b` iff
/// `a.matches * b.observations < b.matches * a.observations`.
pub proof fn lemma_order_cross_multiplication(a: CountingRatio, b: CountingRatio)
    requires
        a.matches > 0,
        b.matches > 0,
        a.observations != b.observations,
    ensures
        ratio_cmp(a, b) == Ordering::Less <==> (a.matches as nat) * (b.observations as nat) < (
        b.matches as nat) * (a.observations as nat),
        a.partial_cmp_spec(&b) == Some(Ordering::Less) <==> (a.matches as nat) * (b.observations
            as nat) < (b.matches as nat) * (a.observations as nat),
{
}

/// Law: swapping the arguments of the custom comparison reverses its
/// verdict — `Less` becomes `Greater`, `Greater` becomes `Less`, and
/// `Equal` stays `Equal`.
pub proof fn lemma_cmp_antisymmetric(a: CountingRatio, b: CountingRatio)
    ensures
        ratio_cmp(a, b) == Ordering::Less <==> ratio_cmp(b, a) == Ordering::Greater,
        ratio_cmp(a, b) == Ordering::Equal <==> ratio_cmp(b, a) == Ordering::Equal,
{
}

} // verus!
