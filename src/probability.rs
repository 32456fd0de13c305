use vstd::prelude::*;

verus! {

/// The fixed-point value of certainty: probabilities are parts of `PROB_ONE`.
pub const PROB_ONE: u64 = 1_000_000_000;

/// A probability, as a number of parts of `PROB_ONE`, at most `PROB_ONE`.
#[derive(Debug, Clone, Copy, PartialEq, Eq, Structural)]
pub struct Probability(pub u64);

/// Forward catalytic release: `kcat / 10000`, with `kcat` in thousandths.
pub open spec fn release_of(kcat: int) -> int {
    kcat * 100
}

/// Reverse dissociation: a tenth of the release probability.
pub open spec fn dissociation_of(kcat: int) -> int {
    kcat * 10
}

/// Whether binding is certain: `kcat >= 300` and `km <= 80`.
pub open spec fn binding_is_certain(km: int, kcat: int) -> bool {
    kcat >= 300_000 && km <= 80_000
}

/// Binding, `s / (0.448 (1 + s²) km)` with `s` the sum of the two other
/// probabilities, scaled to parts of `PROB_ONE` and rounded down; `km` and
/// `kcat` in thousandths.
pub open spec fn binding_of(km: int, kcat: int) -> int {
    if binding_is_certain(km, kcat) {
        PROB_ONE as int
    } else {
        (11 * kcat * 100_000_000_000_000_000_000_000) / (448 * km * (10_000_000_000_000_000
            + 121 * kcat * kcat))
    }
}

/// Whether the three probabilities of a reaction with these constants are
/// defined and within `0..=PROB_ONE`.
pub open spec fn kinetics_valid(km: int, kcat: int) -> bool {
    &&& release_of(kcat) <= PROB_ONE
    &&& (binding_is_certain(km, kcat) || km > 0)
    &&& binding_of(km, kcat) <= PROB_ONE
}

impl Probability {
    pub fn new(x: u64) -> (r: Option<Probability>)
        ensures
            x <= PROB_ONE ==> r == Some(Probability(x)),
            x > PROB_ONE ==> r is None,
    {
        if x <= PROB_ONE {
            Some(Probability(x))
        } else {
            None
        }
    }

    /// The binding, dissociation and release probabilities of a reaction
    /// with Michaelis constant `km` and turnover number `kcat`, both in
    /// thousandths; `None` when one of them is undefined or above one.
    pub fn calc_probability(km: u64, kcat: u64) -> (r: Option<(Probability, Probability, Probability)>)
        ensures
            kinetics_valid(km as int, kcat as int) ==> r == Some(
                (
                    Probability(binding_of(km as int, kcat as int) as u64),
                    Probability(dissociation_of(kcat as int) as u64),
                    Probability(release_of(kcat as int) as u64),
                ),
            ),
            !kinetics_valid(km as int, kcat as int) ==> r is None,
    {
        if kcat > 10_000_000 {
            return None;
        }
        let release: u64 = kcat * 100;
        let back: u64 = kcat * 10;
        let bind: u64 = if kcat >= 300_000 && km <= 80_000 {
            PROB_ONE
        } else {
            if km == 0 {
                return None;
            }
            let k = kcat as u128;
            assert(k * k <= 10_000_000 * 10_000_000) by (nonlinear_arith)
                requires
                    k <= 10_000_000,
            ;
            let spread: u128 = 10_000_000_000_000_000 + 121 * (k * k);
            assert(448 * (km as int) <= 448 * 0xffff_ffff_ffff_ffff);
            assert((448 * (km as int)) * spread <= (448 * 0xffff_ffff_ffff_ffff) * 22_100_000_000_000_000) by (nonlinear_arith)
                requires
                    448 * (km as int) <= 448 * 0xffff_ffff_ffff_ffff,
                    0 <= spread <= 22_100_000_000_000_000,
                    km >= 0,
            ;
            let den: u128 = (448 * (km as u128)) * spread;
            assert(den > 0) by (nonlinear_arith)
                requires
                    den == (448 * (km as int)) * spread,
                    km > 0,
                    spread > 0,
            ;
            let num: u128 = 11 * k * 100_000_000_000_000_000_000_000;
            let q: u128 = num / den;
            assert(121 * (k * k) == 121 * (kcat as int) * (kcat as int)) by (nonlinear_arith)
                requires
                    k == kcat,
            ;
            assert(q == binding_of(km as int, kcat as int));
            if q > PROB_ONE as u128 {
                return None;
            }
            q as u64
        };
        Some((Probability(bind), Probability(back), Probability(release)))
    }

    pub fn get(&self) -> (r: u64)
        ensures
            r == self.0,
    {
        self.0
    }
}

} // verus!
