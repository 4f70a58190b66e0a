//! The two ledgers of stakes, by hotkey and in total, say the same.
use crate::accounts::{AccountId, Origin, OwnerKey, StakeKey};
use crate::close::{close_outcome, default_outcome, slice_of};
use crate::decay::{decay_tick, decay_ticks};
use crate::math::{from_ppb, materialized};
use crate::open::{open_outcome, top_up_outcome};
use crate::pallet::State;
use crate::settle::{settle_each, settled, terminal_terms, TerminalTerms};
use crate::storage::{amount_of, lemma_sum_bound, lemma_sum_with, sum_of, with_amount};
use crate::types::Params;
use vstd::prelude::*;

verus! {

/// What a coldkey has staked on a subnet, by hotkey.
pub open spec fn stakes_of(s: State, netuid: u16, coldkey: AccountId) -> Map<AccountId, u64> {
    Map::new(
        |hotkey: AccountId| s.stakes.contains_key(StakeKey { netuid, hotkey, coldkey }),
        |hotkey: AccountId| s.stakes[StakeKey { netuid, hotkey, coldkey }],
    )
}

/// What a coldkey has staked on a subnet in total is the sum of what it has staked at each hotkey.
pub open spec fn tallied(s: State) -> bool {
    &&& s.stakes.dom().finite()
    &&& forall|netuid: u16, coldkey: AccountId|
        amount_of(s.coldkey_stakes, OwnerKey { netuid, coldkey }) == sum_of(
            #[trigger] stakes_of(s, netuid, coldkey),
        )
}

/// A coldkey stakes at finitely many hotkeys.
proof fn lemma_stakes_finite(s: State, netuid: u16, coldkey: AccountId)
    requires
        s.stakes.dom().finite(),
    ensures
        stakes_of(s, netuid, coldkey).dom().finite(),
{
    let f = |k: StakeKey| k.hotkey;
    let all = s.stakes.dom().map(f);
    let some = stakes_of(s, netuid, coldkey).dom();
    s.stakes.dom().lemma_map_finite(f);
    assert forall|h: AccountId| some.contains(h) implies all.contains(h) by {
        let k = StakeKey { netuid, hotkey: h, coldkey };
        assert(s.stakes.dom().contains(k) && f(k) == h);
    }
    vstd::set_lib::lemma_set_subset_finite(all, some);
}

/// No stake at a hotkey is more than the total.
pub proof fn law_total_covers_each_stake(
    s: State,
    netuid: u16,
    hotkey: AccountId,
    coldkey: AccountId,
)
    requires
        tallied(s),
    ensures
        s.stake(netuid, hotkey, coldkey) <= amount_of(
            s.coldkey_stakes,
            OwnerKey { netuid, coldkey },
        ),
{
    let of = stakes_of(s, netuid, coldkey);
    lemma_stakes_finite(s, netuid, coldkey);
    lemma_sum_bound(of, hotkey);
    assert(amount_of(of, hotkey) == s.stake(netuid, hotkey, coldkey));
}

/// At the start nothing is staked.
pub proof fn law_stakes_are_tallied_at_the_start(pallet_id: u64, params: Params)
    ensures
        tallied(State::initial(pallet_id, params)),
{
    let s = State::initial(pallet_id, params);
    assert forall|netuid: u16, coldkey: AccountId|
        amount_of(s.coldkey_stakes, OwnerKey { netuid, coldkey }) == sum_of(
            #[trigger] stakes_of(s, netuid, coldkey),
        ) by {
        assert(stakes_of(s, netuid, coldkey) =~= Map::<AccountId, u64>::empty());
    }
}

/// What leaves both ledgers alone keeps them in step.
pub proof fn law_same_stakes_stay_tallied(s: State, after: State)
    requires
        tallied(s),
        after.stakes == s.stakes,
        after.coldkey_stakes == s.coldkey_stakes,
    ensures
        tallied(after),
{
    assert forall|netuid: u16, coldkey: AccountId|
        amount_of(after.coldkey_stakes, OwnerKey { netuid, coldkey }) == sum_of(
            #[trigger] stakes_of(after, netuid, coldkey),
        ) by {
        assert(stakes_of(after, netuid, coldkey) =~= stakes_of(s, netuid, coldkey));
    }
}

/// Closing takes what is repaid out of both ledgers, at one hotkey and in total.
pub proof fn law_close_keeps_stakes_tallied(
    s: State,
    origin: Origin,
    netuid: u16,
    fraction_ppb: u64,
)
    requires
        tallied(s),
    ensures
        close_outcome(s, origin, netuid, fraction_ppb) matches Ok(after) ==> {
            let coldkey = origin->Signed_0;
            let pos = materialized(s.position(netuid, coldkey), s.agg(netuid).omega);
            let q = slice_of(pos, from_ppb(fraction_ppb)).q;
            let owner = OwnerKey { netuid, coldkey };
            &&& tallied(after)
            &&& after.stake(netuid, pos.hotkey, coldkey) == s.stake(netuid, pos.hotkey, coldkey) - q
            &&& amount_of(after.coldkey_stakes, owner) == amount_of(s.coldkey_stakes, owner) - q
        },
{
    if let Ok(after) = close_outcome(s, origin, netuid, fraction_ppb) {
        let coldkey = origin->Signed_0;
        let pos = materialized(s.position(netuid, coldkey), s.agg(netuid).omega);
        let q = slice_of(pos, from_ppb(fraction_ppb)).q;
        let hotkey = pos.hotkey;
        let key = StakeKey { netuid, hotkey, coldkey };
        let owner = OwnerKey { netuid, coldkey };
        let stake = s.stake(netuid, hotkey, coldkey);
        law_total_covers_each_stake(s, netuid, hotkey, coldkey);
        let left = (stake - q) as u64;
        assert(after.stakes == with_amount(s.stakes, key, left));
        let was = stakes_of(s, netuid, coldkey);
        lemma_stakes_finite(s, netuid, coldkey);
        lemma_sum_with(s.stakes, key, left);
        lemma_sum_with(was, hotkey, left);
        assert forall|n: u16, c: AccountId|
            amount_of(after.coldkey_stakes, OwnerKey { netuid: n, coldkey: c }) == sum_of(
                #[trigger] stakes_of(after, n, c),
            ) by {
            assert(amount_of(s.coldkey_stakes, OwnerKey { netuid: n, coldkey: c }) == sum_of(
                stakes_of(s, n, c),
            ));
            if n == netuid && c == coldkey {
                assert(stakes_of(after, n, c) =~= with_amount(was, hotkey, left));
                assert(amount_of(was, hotkey) == stake);
            } else {
                assert(stakes_of(after, n, c) =~= stakes_of(s, n, c));
            }
        }
    }
}

/// Opening, topping up, defaulting and decay leave the stakes alone.
pub proof fn law_operations_keep_stakes_tallied(
    s: State,
    origin: Origin,
    hotkey: AccountId,
    coldkey: AccountId,
    netuid: u16,
    amount: u64,
    max_q: u64,
)
    requires
        tallied(s),
    ensures
        open_outcome(s, origin, hotkey, netuid, amount, max_q) matches Ok(after) ==> tallied(after),
        top_up_outcome(s, origin, netuid, amount) matches Ok(after) ==> tallied(after),
        default_outcome(s, origin, coldkey, netuid) matches Ok(after) ==> tallied(after),
        tallied(decay_tick(s, netuid)),
{
    if let Ok(after) = open_outcome(s, origin, hotkey, netuid, amount, max_q) {
        law_same_stakes_stay_tallied(s, after);
    }
    if let Ok(after) = top_up_outcome(s, origin, netuid, amount) {
        law_same_stakes_stay_tallied(s, after);
    }
    if let Ok(after) = default_outcome(s, origin, coldkey, netuid) {
        law_same_stakes_stay_tallied(s, after);
    }
    law_same_stakes_stay_tallied(s, decay_tick(s, netuid));
}

/// So does the decay of a block on many subnets.
pub proof fn law_decay_run_keeps_stakes_tallied(s: State, order: Seq<u16>)
    requires
        tallied(s),
    ensures
        tallied(decay_ticks(s, order)),
    decreases order.len(),
{
    if order.len() > 0 {
        law_decay_run_keeps_stakes_tallied(s, order.drop_last());
        law_same_stakes_stay_tallied(decay_ticks(s, order.drop_last()), decay_ticks(s, order));
    }
}

proof fn lemma_settle_each_keeps_stakes(
    s: State,
    netuid: u16,
    order: Seq<AccountId>,
    terms: TerminalTerms,
)
    ensures
        settle_each(s, netuid, order, terms).stakes == s.stakes,
        settle_each(s, netuid, order, terms).coldkey_stakes == s.coldkey_stakes,
    decreases order.len(),
{
    if order.len() > 0 {
        lemma_settle_each_keeps_stakes(s, netuid, order.drop_last(), terms);
    }
}

/// So does the settlement of a subnet.
pub proof fn law_settlement_keeps_stakes_tallied(s: State, netuid: u16, order: Seq<AccountId>)
    requires
        tallied(s),
    ensures
        tallied(settled(s, netuid, order)),
{
    lemma_settle_each_keeps_stakes(s, netuid, order, terminal_terms(s, netuid));
    law_same_stakes_stay_tallied(s, settled(s, netuid, order));
}

} // verus!
