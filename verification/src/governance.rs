//! The governed parameters and their setters.
use crate::fixed::ONE_BITS;
use crate::math::{from_ppb, lemma_from_ppb, ratio_from_ppb, PPB};
use crate::pallet::{Pallet, State};
use crate::types::Params;
use vstd::prelude::*;

verus! {

/// The most that the cap may be, in billionths.
pub const MAX_KAPPA_PPB: u64 = 2_000_000_000;

/// The most that the loan to value may be, in billionths.
pub const MAX_LTV_PPB: u64 = 999_999_999;

/// One TAO, in rao.
pub const TAO: u64 = 1_000_000_000;

/// The number in the range nearest to `n`.
pub open spec fn clamped(n: u64, low: u64, high: u64) -> u64
    recommends
        low <= high,
{
    if n < low {
        low
    } else if n > high {
        high
    } else {
        n
    }
}

fn clamp_to(n: u64, low: u64, high: u64) -> (r: u64)
    requires
        low <= high,
    ensures
        r == clamped(n, low, high),
{
    if n < low {
        low
    } else if n > high {
        high
    } else {
        n
    }
}

/// The fraction with these bits is `ppb` billionths, rounded down to its last bit.
pub open spec fn is_billionths(bits: int, ppb: int) -> bool {
    bits * 1_000_000_000 <= ppb * ONE_BITS < (bits + 1) * 1_000_000_000
}

/// A number of billionths as a fraction is that number of billionths.
proof fn lemma_is_billionths(ppb: u64)
    requires
        ppb <= 4 * PPB,
    ensures
        is_billionths(from_ppb(ppb).bits as int, ppb as int),
{
    lemma_from_ppb(ppb);
    vstd::arithmetic::div_mod::lemma_fundamental_div_mod(ppb * ONE_BITS, PPB as int);
}

/// Billionths keep their order as fractions.
proof fn lemma_ppb_ordered(a: u64, b: u64)
    requires
        a <= b <= 4 * PPB,
    ensures
        from_ppb(a).bits <= from_ppb(b).bits,
        a > 0 ==> from_ppb(a).bits > 0,
        a >= 0 ==> from_ppb(a).bits >= 0,
        a < b ==> from_ppb(a).bits < from_ppb(b).bits,
        from_ppb(PPB).bits == ONE_BITS,
        from_ppb(MAX_KAPPA_PPB).bits == 2 * ONE_BITS,
{
    lemma_from_ppb(a);
    lemma_from_ppb(b);
    lemma_from_ppb(PPB);
    lemma_from_ppb(MAX_KAPPA_PPB);
}

impl Params {
    /// The parameters at launch: both sides are off, half of the collateral of a small position
    /// is lent, the daily decay runs from a tenth of a percent to one and a half, and a buffer of
    /// one TAO is dust.
    pub open spec fn at_launch(
        kappa_ppb: u64,
        min_input: u64,
        short_default_grace: u64,
        long_default_grace: u64,
        max_positions: u32,
    ) -> Params {
        Params {
            shorts_enabled: false,
            longs_enabled: false,
            kappa: from_ppb(clamped(kappa_ppb, 1, MAX_KAPPA_PPB)),
            base_ltv: from_ppb(500_000_000),
            decay_min: from_ppb(1_000_000),
            decay_max: from_ppb(15_000_000),
            dust: TAO,
            short_default_grace,
            long_default_grace,
            min_input,
            max_positions,
        }
    }

    /// The parameters at launch, with what is left to choose.
    pub fn launch(
        kappa_ppb: u64,
        min_input: u64,
        short_default_grace: u64,
        long_default_grace: u64,
        max_positions: u32,
    ) -> (r: Params)
        ensures
            r == Params::at_launch(
                kappa_ppb,
                min_input,
                short_default_grace,
                long_default_grace,
                max_positions,
            ),
            r.valid(),
            !r.shorts_enabled,
            !r.longs_enabled,
            1 <= kappa_ppb <= 2_000_000_000 ==> is_billionths(
                r.kappa.bits as int,
                kappa_ppb as int,
            ),
            kappa_ppb == 0 ==> is_billionths(r.kappa.bits as int, 1),
            kappa_ppb > 2_000_000_000 ==> is_billionths(r.kappa.bits as int, 2_000_000_000),
            is_billionths(r.base_ltv.bits as int, 500_000_000),
            is_billionths(r.decay_min.bits as int, 1_000_000),
            is_billionths(r.decay_max.bits as int, 15_000_000),
            r.dust == 1_000_000_000,
            r.short_default_grace == short_default_grace,
            r.long_default_grace == long_default_grace,
            r.min_input == min_input,
            r.max_positions == max_positions,
    {
        let kappa_ppb = clamp_to(kappa_ppb, 1, MAX_KAPPA_PPB);
        proof {
            lemma_ppb_ordered(kappa_ppb, MAX_KAPPA_PPB);
            lemma_ppb_ordered(500_000_000, PPB);
            lemma_ppb_ordered(1_000_000, 15_000_000);
            lemma_ppb_ordered(15_000_000, PPB);
            lemma_is_billionths(kappa_ppb);
            lemma_is_billionths(500_000_000);
            lemma_is_billionths(1_000_000);
            lemma_is_billionths(15_000_000);
        }
        Params {
            shorts_enabled: false,
            longs_enabled: false,
            kappa: ratio_from_ppb(kappa_ppb),
            base_ltv: ratio_from_ppb(500_000_000),
            decay_min: ratio_from_ppb(1_000_000),
            decay_max: ratio_from_ppb(15_000_000),
            dust: TAO,
            short_default_grace,
            long_default_grace,
            min_input,
            max_positions,
        }
    }
}

impl Pallet {
    /// Switch shorts on or off.
    pub fn set_shorts_enabled(&mut self, enabled: bool)
        ensures
            final(self)@ == (State {
                params: Params { shorts_enabled: enabled, ..old(self)@.params },
                ..old(self)@
            }),
            old(self)@.params.valid() ==> final(self)@.params.valid(),
    {
        self.params.shorts_enabled = enabled;
    }

    /// Switch longs on or off.
    pub fn set_longs_enabled(&mut self, enabled: bool)
        ensures
            final(self)@ == (State {
                params: Params { longs_enabled: enabled, ..old(self)@.params },
                ..old(self)@
            }),
            old(self)@.params.valid() ==> final(self)@.params.valid(),
    {
        self.params.longs_enabled = enabled;
    }

    /// Set the cap, in billionths of the reference reserve. It stays above zero, so that the
    /// market cannot be frozen by it, and at two at most.
    pub fn set_short_kappa_ppb(&mut self, kappa_ppb: u64)
        ensures
            final(self)@ == (State {
                params: Params {
                    kappa: from_ppb(clamped(kappa_ppb, 1, MAX_KAPPA_PPB)),
                    ..old(self)@.params
                },
                ..old(self)@
            }),
            old(self)@.params.valid() ==> final(self)@.params.valid(),
            1 <= kappa_ppb <= 2_000_000_000 ==> is_billionths(
                final(self)@.params.kappa.bits as int,
                kappa_ppb as int,
            ),
            kappa_ppb == 0 ==> is_billionths(final(self)@.params.kappa.bits as int, 1),
            kappa_ppb > 2_000_000_000 ==> is_billionths(
                final(self)@.params.kappa.bits as int,
                2_000_000_000,
            ),
    {
        let kappa_ppb = clamp_to(kappa_ppb, 1, MAX_KAPPA_PPB);
        proof {
            lemma_ppb_ordered(kappa_ppb, MAX_KAPPA_PPB);
            lemma_is_billionths(kappa_ppb);
        }
        self.params.kappa = ratio_from_ppb(kappa_ppb);
    }

    /// Set the loan to value, in billionths. It stays above zero and below one.
    pub fn set_short_base_ltv_ppb(&mut self, ltv_ppb: u64)
        ensures
            final(self)@ == (State {
                params: Params {
                    base_ltv: from_ppb(clamped(ltv_ppb, 1, MAX_LTV_PPB)),
                    ..old(self)@.params
                },
                ..old(self)@
            }),
            old(self)@.params.valid() ==> final(self)@.params.valid(),
            1 <= ltv_ppb <= 999_999_999 ==> is_billionths(
                final(self)@.params.base_ltv.bits as int,
                ltv_ppb as int,
            ),
            ltv_ppb == 0 ==> is_billionths(final(self)@.params.base_ltv.bits as int, 1),
            ltv_ppb > 999_999_999 ==> is_billionths(
                final(self)@.params.base_ltv.bits as int,
                999_999_999,
            ),
    {
        let ltv_ppb = clamp_to(ltv_ppb, 1, MAX_LTV_PPB);
        proof {
            lemma_ppb_ordered(ltv_ppb, PPB);
            lemma_is_billionths(ltv_ppb);
        }
        self.params.base_ltv = ratio_from_ppb(ltv_ppb);
    }

    /// Set the ends of the daily decay, in billionths. Both stay at one at most, and in order.
    pub fn set_decay_bounds_ppb(&mut self, min_ppb: u64, max_ppb: u64)
        ensures
            ({
                let low = clamped(min_ppb, 0, PPB);
                let high = clamped(max_ppb, low, PPB);
                final(self)@ == (State {
                    params: Params {
                        decay_min: from_ppb(low),
                        decay_max: from_ppb(high),
                        ..old(self)@.params
                    },
                    ..old(self)@
                })
            }),
            old(self)@.params.valid() ==> final(self)@.params.valid(),
            ({
                let least = final(self)@.params.decay_min.bits as int;
                let most = final(self)@.params.decay_max.bits as int;
                &&& min_ppb <= 1_000_000_000 ==> is_billionths(least, min_ppb as int)
                &&& min_ppb > 1_000_000_000 ==> is_billionths(least, 1_000_000_000)
                &&& min_ppb <= max_ppb <= 1_000_000_000 ==> is_billionths(most, max_ppb as int)
                &&& max_ppb > 1_000_000_000 ==> is_billionths(most, 1_000_000_000)
                &&& max_ppb < min_ppb ==> least <= most && (max_ppb <= 1_000_000_000 ==> most
                    == least)
            }),
    {
        let low = clamp_to(min_ppb, 0, PPB);
        let high = clamp_to(max_ppb, low, PPB);
        proof {
            lemma_ppb_ordered(low, high);
            lemma_ppb_ordered(high, PPB);
            lemma_is_billionths(low);
            lemma_is_billionths(high);
        }
        self.params.decay_min = ratio_from_ppb(low);
        self.params.decay_max = ratio_from_ppb(high);
    }

    /// Set the buffer from which on down a short may be defaulted.
    pub fn set_short_dust(&mut self, dust: u64)
        ensures
            final(self)@ == (State {
                params: Params { dust, ..old(self)@.params },
                ..old(self)@
            }),
            old(self)@.params.valid() ==> final(self)@.params.valid(),
    {
        self.params.dust = dust;
    }

    /// Set the blocks in which a short may not be defaulted after its owner's last action.
    pub fn set_short_default_grace(&mut self, blocks: u64)
        ensures
            final(self)@ == (State {
                params: Params { short_default_grace: blocks, ..old(self)@.params },
                ..old(self)@
            }),
            old(self)@.params.valid() ==> final(self)@.params.valid(),
    {
        self.params.short_default_grace = blocks;
    }

    /// Set the blocks in which a long may not be defaulted after its owner's last action.
    pub fn set_long_default_grace(&mut self, blocks: u64)
        ensures
            final(self)@ == (State {
                params: Params { long_default_grace: blocks, ..old(self)@.params },
                ..old(self)@
            }),
            old(self)@.params.valid() ==> final(self)@.params.valid(),
    {
        self.params.long_default_grace = blocks;
    }

    /// Set the least that a short may be opened with.
    pub fn set_short_min_input(&mut self, min_input: u64)
        ensures
            final(self)@ == (State {
                params: Params { min_input, ..old(self)@.params },
                ..old(self)@
            }),
            old(self)@.params.valid() ==> final(self)@.params.valid(),
    {
        self.params.min_input = min_input;
    }

    /// Set the most positions that a subnet may have.
    pub fn set_short_max_positions(&mut self, max: u32)
        ensures
            final(self)@ == (State {
                params: Params { max_positions: max, ..old(self)@.params },
                ..old(self)@
            }),
            old(self)@.params.valid() ==> final(self)@.params.valid(),
    {
        self.params.max_positions = max;
    }
}

} // verus!
