//! The decay of a block: what decays goes back to the pool.
use crate::fixed::Fixed;
use crate::math::{
    block_decay, daily_decay, log_loss, mul_amount, neg_ln_one_minus, per_block, scaled,
    short_daily_decay,
};
use crate::pallet::{pool_credited, sat_add, sat_sub, transfer_tao, transferred, Pallet, State};
use crate::types::ShortAgg;
use vstd::prelude::*;

verus! {

/// The decay of the next block on a subnet.
pub open spec fn next_decay(s: State, netuid: u16) -> Fixed {
    block_decay(daily_decay(s.params, s.subnet(netuid), s.agg(netuid).b_sigma))
}

/// The sums after they have lost the share `delta`, and the accumulator after that.
pub open spec fn decayed_agg(agg: ShortAgg, delta: Fixed) -> ShortAgg {
    ShortAgg {
        r_sigma: sat_sub(agg.r_sigma, scaled(agg.r_sigma, delta)),
        e_sigma: sat_sub(agg.e_sigma, scaled(agg.e_sigma, delta)),
        b_sigma: sat_sub(agg.b_sigma, scaled(agg.b_sigma, delta)),
        omega: agg.omega.plus(log_loss(delta)),
        ..agg
    }
}

/// What of the buffers and the escrows decays.
pub open spec fn restored_amount(agg: ShortAgg, delta: Fixed) -> u64 {
    sat_add(scaled(agg.r_sigma, delta), scaled(agg.e_sigma, delta))
}

/// The state after the decay of a block on one subnet. What has decayed moves from custody to the
/// pool; where it cannot, nothing decays.
pub open spec fn decay_tick(s: State, netuid: u16) -> State {
    let agg = s.agg(netuid);
    let delta = next_decay(s, netuid);
    let restore = restored_amount(agg, delta);
    let aggregates = s.aggregates.insert(netuid, decayed_agg(agg, delta));
    if (agg.r_sigma == 0 && agg.e_sigma == 0 && agg.b_sigma == 0) || delta.bits <= 0 {
        s
    } else if restore == 0 {
        State { aggregates, ..s }
    } else if !s.subnets.contains_key(netuid) {
        s
    } else {
        match transferred(s.balances, s.custody(netuid), s.subnet(netuid).account, restore) {
            Err(_) => s,
            Ok(balances) => State { aggregates, balances, ..pool_credited(s, netuid, restore) },
        }
    }
}

/// The state after the decay of a block on the given subnets, one after the other.
pub open spec fn decay_ticks(s: State, order: Seq<u16>) -> State
    decreases order.len(),
{
    if order.len() == 0 {
        s
    } else {
        decay_tick(decay_ticks(s, order.drop_last()), order.last())
    }
}

/// The list names each subnet of the set once, and no other.
pub open spec fn lists(order: Seq<u16>, subnets: Set<u16>) -> bool {
    order.no_duplicates() && forall|k: u16| order.contains(k) <==> subnets.contains(k)
}

/// The decay of some subnets leaves the parameters and the market of every other subnet alone.
pub proof fn lemma_decay_apart(s: State, order: Seq<u16>, netuid: u16)
    requires
        !order.contains(netuid),
    ensures
        decay_ticks(s, order).params == s.params,
        decay_ticks(s, order).subnet(netuid) == s.subnet(netuid),
        decay_ticks(s, order).agg(netuid) == s.agg(netuid),
    decreases order.len(),
{
    if order.len() > 0 {
        let less = order.drop_last();
        assert(order.last() != netuid) by {
            assert(order.contains(order[order.len() - 1]));
        }
        assert forall|k: u16| less.contains(k) implies order.contains(k) by {
            let i = choose|i: int| 0 <= i < less.len() && less[i] == k;
            assert(order[i] == k);
        }
        lemma_decay_apart(s, less, netuid);
    }
}

impl Pallet {
    /// The decay of a block on one subnet.
    pub fn run_subnet_short_decay(&mut self, netuid: u16)
        requires
            old(self)@.decay_bounded(netuid),
        ensures
            final(self)@ == decay_tick(old(self)@, netuid),
    {
        let mut agg = self.aggregate(netuid);
        if agg.r_sigma == 0 && agg.e_sigma == 0 && agg.b_sigma == 0 {
            return;
        }
        let subnet = self.subnet_or_empty(netuid);
        let delta = per_block(short_daily_decay(&self.params, &subnet, agg.b_sigma));
        if delta.bits <= 0 {
            return;
        }
        let dr = mul_amount(agg.r_sigma, delta);
        let de = mul_amount(agg.e_sigma, delta);
        let db = mul_amount(agg.b_sigma, delta);
        let restore = dr.saturating_add(de);
        // The TAO moves first: where it cannot, neither the sums nor the accumulator change, so
        // that no position decays ahead of what still lies in custody.
        if restore != 0 {
            if !self.subnets.contains_key(&netuid) {
                return;
            }
            let custody = self.short_custody_account(netuid);
            if let Err(_) = transfer_tao(&mut self.balances, custody, subnet.account, restore) {
                return;
            }
            self.credit_pool(netuid, restore);
        }
        agg.r_sigma = agg.r_sigma.saturating_sub(dr);
        agg.e_sigma = agg.e_sigma.saturating_sub(de);
        agg.b_sigma = agg.b_sigma.saturating_sub(db);
        agg.omega = agg.omega.saturating_add(neg_ln_one_minus(delta));
        self.aggregates.insert(netuid, agg);
    }

    /// The decay of a block on every tracked subnet. The subnets come in no particular order.
    pub fn run_short_decay(&mut self)
        requires
            forall|netuid: u16|
                old(self)@.active.contains(netuid) ==> #[trigger] old(self)@.decay_bounded(netuid),
        ensures
            exists|order: Seq<u16>|
                lists(order, old(self)@.active) && final(self)@ == #[trigger] decay_ticks(
                    old(self)@,
                    order,
                ),
    {
        let active = self.active.keys();
        let ghost before = self@;
        let mut i: usize = 0;
        assert(active@.take(0) =~= Seq::<u16>::empty());
        while i < active.len()
            invariant
                i <= active@.len(),
                lists(active@, before.active),
                forall|netuid: u16|
                    before.active.contains(netuid) ==> #[trigger] before.decay_bounded(netuid),
                self@ == decay_ticks(before, active@.take(i as int)),
            decreases active@.len() - i,
        {
            let netuid = active[i];
            proof {
                let done = active@.take(i as int);
                assert(active@.take(i + 1).drop_last() =~= done);
                assert(active@.contains(netuid)) by {
                    assert(active@[i as int] == netuid);
                }
                assert(before.decay_bounded(netuid));
                assert(!done.contains(netuid)) by {
                    if done.contains(netuid) {
                        let j = choose|j: int| 0 <= j < done.len() && done[j] == netuid;
                        assert(active@[j] == active@[i as int]);
                    }
                }
                lemma_decay_apart(before, done, netuid);
            }
            self.run_subnet_short_decay(netuid);
            i = i + 1;
        }
        proof {
            assert(active@.take(i as int) =~= active@);
            assert(lists(active@, before.active) && self@ == decay_ticks(before, active@));
        }
    }
}

} // verus!
