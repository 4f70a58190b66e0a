//! The books agree: the counts, the tracked subnets and the open interest say what the positions
//! say.
use crate::accounts::{AccountId, Origin, OwnerKey};
use crate::close::{close_outcome, default_outcome};
use crate::decay::{decay_tick, decay_ticks};
use crate::fixed::Fixed;
use crate::laws::sums::{
    lemma_sum_over_agrees, lemma_sum_over_bound, lemma_sum_over_insert, lemma_sum_over_remove,
    sum_over,
};
use crate::math::{collateral, lemma_scaled, materialized, reference_reserve};
use crate::open::{open_outcome, top_up_outcome};
use crate::pallet::State;
use crate::settle::{lists_owners, settle_each, settled, terminal_terms, TerminalTerms};
use vstd::prelude::*;

verus! {

/// The owners of the shorts of a subnet.
pub open spec fn owners(s: State, netuid: u16) -> Set<AccountId> {
    Set::new(|coldkey: AccountId| s.has_position(netuid, coldkey))
}

/// Every count is the number of positions.
pub open spec fn counted(s: State) -> bool {
    forall|netuid: u16| #[trigger] s.count(netuid) == owners(s, netuid).len()
}

/// The tracked subnets are those with live sums: one of the four is not zero.
pub open spec fn live_ones_visited(s: State) -> bool {
    forall|netuid: u16| #[trigger]
        s.active.contains(netuid) <==> !(s.agg(netuid).r_sigma == 0 && s.agg(netuid).e_sigma == 0
            && s.agg(netuid).b_sigma == 0 && s.agg(netuid).q_sigma == 0)
}

/// A subnet has finitely many owners.
pub proof fn lemma_owners_finite(s: State, netuid: u16)
    requires
        s.positions.dom().finite(),
    ensures
        owners(s, netuid).finite(),
{
    let f = |k: OwnerKey| k.coldkey;
    let all = s.positions.dom().map(f);
    s.positions.dom().lemma_map_finite(f);
    assert(owners(s, netuid).subset_of(all)) by {
        assert forall|c: AccountId| owners(s, netuid).contains(c) implies all.contains(c) by {
            let k = OwnerKey { netuid, coldkey: c };
            assert(s.positions.dom().contains(k) && f(k) == c);
        }
    }
    vstd::set_lib::lemma_set_subset_finite(all, owners(s, netuid));
}

/// The owners after a position is put in.
pub proof fn lemma_owners_insert(s: State, after: State, key: OwnerKey)
    requires
        s.positions.dom().finite(),
        after.positions.dom() == s.positions.dom().insert(key),
    ensures
        owners(after, key.netuid) == owners(s, key.netuid).insert(key.coldkey),
        forall|netuid: u16|
            netuid != key.netuid ==> #[trigger] owners(after, netuid) == owners(s, netuid),
        owners(s, key.netuid).finite(),
{
    lemma_owners_finite(s, key.netuid);
    assert forall|netuid: u16, c: AccountId| #[trigger]
        after.has_position(netuid, c) == (s.has_position(netuid, c) || (netuid == key.netuid && c
            == key.coldkey)) by {
        assert(after.positions.dom().contains(OwnerKey { netuid, coldkey: c })
            == s.positions.dom().insert(key).contains(OwnerKey { netuid, coldkey: c }));
    }
    assert(owners(after, key.netuid) =~= owners(s, key.netuid).insert(key.coldkey));
    assert forall|netuid: u16| netuid != key.netuid implies #[trigger] owners(after, netuid)
        == owners(s, netuid) by {
        assert(owners(after, netuid) =~= owners(s, netuid));
    }
}

/// The owners after a position is taken out.
pub proof fn lemma_owners_remove(s: State, after: State, key: OwnerKey)
    requires
        s.positions.dom().finite(),
        after.positions.dom() == s.positions.dom().remove(key),
    ensures
        owners(after, key.netuid) == owners(s, key.netuid).remove(key.coldkey),
        forall|netuid: u16|
            netuid != key.netuid ==> #[trigger] owners(after, netuid) == owners(s, netuid),
        owners(s, key.netuid).finite(),
{
    lemma_owners_finite(s, key.netuid);
    assert forall|netuid: u16, c: AccountId| #[trigger]
        after.has_position(netuid, c) == (s.has_position(netuid, c) && !(netuid == key.netuid && c
            == key.coldkey)) by {
        assert(after.positions.dom().contains(OwnerKey { netuid, coldkey: c })
            == s.positions.dom().remove(key).contains(OwnerKey { netuid, coldkey: c }));
    }
    assert(owners(after, key.netuid) =~= owners(s, key.netuid).remove(key.coldkey));
    assert forall|netuid: u16| netuid != key.netuid implies #[trigger] owners(after, netuid)
        == owners(s, netuid) by {
        assert(owners(after, netuid) =~= owners(s, netuid));
    }
}

/// Opening keeps the counts right: one more for a new position, and no more for a merge.
pub proof fn law_open_keeps_counts(
    s: State,
    origin: Origin,
    hotkey: AccountId,
    netuid: u16,
    input: u64,
    max_q: u64,
)
    requires
        s.positions.dom().finite(),
        counted(s),
    ensures
        open_outcome(s, origin, hotkey, netuid, input, max_q) matches Ok(after) ==> counted(after)
            && (s.count(netuid) <= s.params.max_positions ==> after.count(netuid)
            <= s.params.max_positions),
{
    if let Ok(after) = open_outcome(s, origin, hotkey, netuid, input, max_q) {
        let key = OwnerKey { netuid, coldkey: origin->Signed_0 };
        assert(after.positions.dom() =~= s.positions.dom().insert(key));
        lemma_owners_insert(s, after, key);
        assert(s.count(netuid) == owners(s, netuid).len());
        if s.has_position(netuid, key.coldkey) {
            assert(owners(s, netuid).insert(key.coldkey) =~= owners(s, netuid));
        }
        assert forall|n: u16| #[trigger] after.count(n) == owners(after, n).len() by {
            assert(s.count(n) == owners(s, n).len());
        }
    }
}

/// A top-up keeps the counts right.
pub proof fn law_top_up_keeps_counts(s: State, origin: Origin, netuid: u16, amount: u64)
    requires
        s.positions.dom().finite(),
        counted(s),
    ensures
        top_up_outcome(s, origin, netuid, amount) matches Ok(after) ==> counted(after),
{
    if let Ok(after) = top_up_outcome(s, origin, netuid, amount) {
        let key = OwnerKey { netuid, coldkey: origin->Signed_0 };
        assert(after.positions.dom() =~= s.positions.dom().insert(key));
        lemma_owners_insert(s, after, key);
        assert(owners(s, netuid).insert(key.coldkey) =~= owners(s, netuid));
        assert forall|n: u16| #[trigger] after.count(n) == owners(after, n).len() by {
            assert(s.count(n) == owners(s, n).len());
        }
    }
}

/// Closing keeps the counts right: one less where the position goes.
pub proof fn law_close_keeps_counts(s: State, origin: Origin, netuid: u16, fraction_ppb: u64)
    requires
        s.positions.dom().finite(),
        counted(s),
    ensures
        close_outcome(s, origin, netuid, fraction_ppb) matches Ok(after) ==> counted(after),
{
    if let Ok(after) = close_outcome(s, origin, netuid, fraction_ppb) {
        let key = OwnerKey { netuid, coldkey: origin->Signed_0 };
        assert(s.count(netuid) == owners(s, netuid).len());
        lemma_owners_finite(s, netuid);
        assert(owners(s, netuid).contains(key.coldkey));
        if after.positions.contains_key(key) {
            assert(after.positions.dom() =~= s.positions.dom().insert(key));
            lemma_owners_insert(s, after, key);
            assert(owners(s, netuid).insert(key.coldkey) =~= owners(s, netuid));
        } else {
            assert(after.positions.dom() =~= s.positions.dom().remove(key));
            lemma_owners_remove(s, after, key);
        }
        assert forall|n: u16| #[trigger] after.count(n) == owners(after, n).len() by {
            assert(s.count(n) == owners(s, n).len());
        }
    }
}

/// A default keeps the counts right: one less.
pub proof fn law_default_keeps_counts(s: State, origin: Origin, coldkey: AccountId, netuid: u16)
    requires
        s.positions.dom().finite(),
        counted(s),
    ensures
        default_outcome(s, origin, coldkey, netuid) matches Ok(after) ==> counted(after),
{
    if let Ok(after) = default_outcome(s, origin, coldkey, netuid) {
        let key = OwnerKey { netuid, coldkey };
        assert(s.count(netuid) == owners(s, netuid).len());
        lemma_owners_finite(s, netuid);
        assert(owners(s, netuid).contains(coldkey));
        assert(after.positions.dom() =~= s.positions.dom().remove(key));
        lemma_owners_remove(s, after, key);
        assert forall|n: u16| #[trigger] after.count(n) == owners(after, n).len() by {
            assert(s.count(n) == owners(s, n).len());
        }
    }
}

/// The decay of a block leaves every position and every count as it is.
pub proof fn law_decay_keeps_positions(s: State, netuid: u16)
    ensures
        decay_tick(s, netuid).positions == s.positions,
        decay_tick(s, netuid).counts == s.counts,
        counted(s) ==> counted(decay_tick(s, netuid)),
{
    let after = decay_tick(s, netuid);
    if counted(s) {
        assert forall|n: u16| #[trigger] after.count(n) == owners(after, n).len() by {
            assert(s.count(n) == owners(s, n).len());
            assert(owners(after, n) =~= owners(s, n));
        }
    }
}

/// What the settlement of the listed positions does to the positions, and what it leaves alone.
pub proof fn lemma_settle_each_positions(
    s: State,
    netuid: u16,
    order: Seq<AccountId>,
    terms: TerminalTerms,
)
    ensures
        ({
            let after = settle_each(s, netuid, order, terms);
            &&& forall|k: OwnerKey| #[trigger]
                after.positions.contains_key(k) <==> s.positions.contains_key(k) && !(k.netuid
                    == netuid && order.contains(k.coldkey))
            &&& forall|k: OwnerKey|
                after.positions.contains_key(k) ==> #[trigger] after.positions[k] == s.positions[k]
            &&& after.counts == s.counts
            &&& after.aggregates == s.aggregates
            &&& after.active == s.active
            &&& after.pallet_id == s.pallet_id
        }),
    decreases order.len(),
{
    if order.len() > 0 {
        let less = order.drop_last();
        lemma_settle_each_positions(s, netuid, less, terms);
        assert(order =~= less.push(order.last()));
        crate::settle::lemma_push_contains(less, order.last());
    }
}

/// The settlement of a subnet leaves it without positions, counts, sums and tracking, and every
/// other subnet as it was.
pub proof fn law_settlement_clears_the_books(s: State, netuid: u16, order: Seq<AccountId>)
    requires
        lists_owners(order, s, netuid),
    ensures
        owners(settled(s, netuid, order), netuid) == Set::<AccountId>::empty(),
        settled(s, netuid, order).count(netuid) == 0,
        !settled(s, netuid, order).aggregates.contains_key(netuid),
        !settled(s, netuid, order).active.contains(netuid),
        counted(s) ==> counted(settled(s, netuid, order)),
        live_ones_visited(s) ==> live_ones_visited(settled(s, netuid, order)),
{
    let terms = terminal_terms(s, netuid);
    let each = settle_each(s, netuid, order, terms);
    let after = settled(s, netuid, order);
    lemma_settle_each_positions(s, netuid, order, terms);
    assert(after.positions == each.positions);
    assert forall|c: AccountId| !#[trigger] after.has_position(netuid, c) by {
        if after.has_position(netuid, c) {
            assert(each.positions.contains_key(OwnerKey { netuid, coldkey: c }));
            assert(s.has_position(netuid, c));
        }
    }
    assert(owners(after, netuid) =~= Set::<AccountId>::empty());
    if counted(s) {
        assert forall|n: u16| #[trigger] after.count(n) == owners(after, n).len() by {
            assert(s.count(n) == owners(s, n).len());
            if n != netuid {
                assert forall|c: AccountId| #[trigger] after.has_position(n, c) == s.has_position(
                    n,
                    c,
                ) by {
                    assert(each.positions.contains_key(OwnerKey { netuid: n, coldkey: c })
                        == s.positions.contains_key(OwnerKey { netuid: n, coldkey: c }));
                }
                assert(owners(after, n) =~= owners(s, n));
            }
        }
    }
    if live_ones_visited(s) {
        assert forall|n: u16| #[trigger] after.active.contains(n) <==> after.agg(n).is_live() by {
            assert(s.active.contains(n) <==> s.agg(n).is_live());
        }
    }
}

/// Opening keeps the tracking right: a subnet with a new short is live and tracked.
pub proof fn law_open_keeps_tracking(
    s: State,
    origin: Origin,
    hotkey: AccountId,
    netuid: u16,
    input: u64,
    max_q: u64,
)
    requires
        live_ones_visited(s),
    ensures
        open_outcome(s, origin, hotkey, netuid, input, max_q) matches Ok(after) ==> live_ones_visited(after)
            && after.active.contains(netuid),
{
    if let Ok(after) = open_outcome(s, origin, hotkey, netuid, input, max_q) {
        assert(after.agg(netuid).r_sigma > 0);
        assert forall|n: u16| #[trigger] after.active.contains(n) <==> after.agg(n).is_live() by {
            assert(s.active.contains(n) <==> s.agg(n).is_live());
        }
    }
}

/// A top-up keeps the tracking right on a subnet that is tracked.
pub proof fn law_top_up_keeps_tracking(s: State, origin: Origin, netuid: u16, amount: u64)
    requires
        live_ones_visited(s),
        s.active.contains(netuid),
    ensures
        top_up_outcome(s, origin, netuid, amount) matches Ok(after) ==> live_ones_visited(after),
{
    if let Ok(after) = top_up_outcome(s, origin, netuid, amount) {
        assert forall|n: u16| #[trigger] after.active.contains(n) <==> after.agg(n).is_live() by {
            assert(s.active.contains(n) <==> s.agg(n).is_live());
        }
    }
}

/// Closing keeps the tracking right.
pub proof fn law_close_keeps_tracking(s: State, origin: Origin, netuid: u16, fraction_ppb: u64)
    requires
        live_ones_visited(s),
    ensures
        close_outcome(s, origin, netuid, fraction_ppb) matches Ok(after) ==> live_ones_visited(after),
{
    if let Ok(after) = close_outcome(s, origin, netuid, fraction_ppb) {
        assert forall|n: u16| #[trigger] after.active.contains(n) <==> after.agg(n).is_live() by {
            assert(s.active.contains(n) <==> s.agg(n).is_live());
        }
    }
}

/// A default keeps the tracking right.
pub proof fn law_default_keeps_tracking(s: State, origin: Origin, coldkey: AccountId, netuid: u16)
    requires
        live_ones_visited(s),
    ensures
        default_outcome(s, origin, coldkey, netuid) matches Ok(after) ==> live_ones_visited(after),
{
    if let Ok(after) = default_outcome(s, origin, coldkey, netuid) {
        assert forall|n: u16| #[trigger] after.active.contains(n) <==> after.agg(n).is_live() by {
            assert(s.active.contains(n) <==> s.agg(n).is_live());
        }
    }
}

/// The decay of a block keeps the tracking right: what is live stays live.
pub proof fn law_decay_keeps_tracking(s: State, netuid: u16)
    requires
        s.decay_bounded(netuid),
        live_ones_visited(s),
    ensures
        live_ones_visited(decay_tick(s, netuid)),
{
    let after = decay_tick(s, netuid);
    let agg = s.agg(netuid);
    let delta = crate::decay::next_decay(s, netuid);
    crate::laws::decaying::lemma_next_decay(s, netuid);
    lemma_scaled(agg.r_sigma, delta);
    lemma_scaled(agg.e_sigma, delta);
    lemma_scaled(agg.b_sigma, delta);
    assert forall|n: u16| #[trigger] after.active.contains(n) <==> after.agg(n).is_live() by {
        assert(s.active.contains(n) <==> s.agg(n).is_live());
    }
}

/// When the last position of a subnet closes or defaults, its sums go too, and the decay no
/// longer visits it.
pub proof fn law_last_position_clears_the_subnet(
    s: State,
    origin: Origin,
    coldkey: AccountId,
    netuid: u16,
    fraction_ppb: u64,
)
    requires
        s.positions.dom().finite(),
        counted(s),
    ensures
        close_outcome(s, origin, netuid, fraction_ppb) matches Ok(after) ==> (owners(after, netuid)
            == Set::<AccountId>::empty() ==> !after.active.contains(netuid)
            && !after.aggregates.contains_key(netuid)),
        default_outcome(s, origin, coldkey, netuid) matches Ok(after) ==> (owners(after, netuid)
            == Set::<AccountId>::empty() ==> !after.active.contains(netuid)
            && !after.aggregates.contains_key(netuid)),
{
    if let Ok(after) = default_outcome(s, origin, coldkey, netuid) {
        law_default_keeps_counts(s, origin, coldkey, netuid);
        assert(after.count(netuid) == owners(after, netuid).len());
    }
    if let Ok(after) = close_outcome(s, origin, netuid, fraction_ppb) {
        law_close_keeps_counts(s, origin, netuid, fraction_ppb);
        assert(after.count(netuid) == owners(after, netuid).len());
        if owners(after, netuid) == Set::<AccountId>::empty() {
            let key = OwnerKey { netuid, coldkey: origin->Signed_0 };
            assert(!owners(after, netuid).contains(key.coldkey));
            assert(!after.has_position(netuid, key.coldkey));
        }
    }
}

/// What the shorts of a subnet owe.
pub open spec fn owed(s: State, netuid: u16) -> int {
    sum_over(owners(s, netuid), |c: AccountId| s.position(netuid, c).q_liability as int)
}

/// The open interest is what the positions owe.
pub open spec fn interest_matches(s: State, netuid: u16) -> bool {
    s.agg(netuid).q_sigma == owed(s, netuid)
}

/// A sum over the owners of a subnet, after one of them has another position.
pub proof fn lemma_sum_after_insert(
    s: State,
    after: State,
    key: OwnerKey,
    g: spec_fn(AccountId) -> int,
    h: spec_fn(AccountId) -> int,
)
    requires
        s.positions.dom().finite(),
        after.positions.dom() == s.positions.dom().insert(key),
        forall|c: AccountId|
            c != key.coldkey && s.has_position(key.netuid, c) ==> #[trigger] g(c) == h(c),
    ensures
        sum_over(owners(after, key.netuid), h) == sum_over(owners(s, key.netuid), g) + h(
            key.coldkey,
        ) - (if s.has_position(key.netuid, key.coldkey) {
            g(key.coldkey)
        } else {
            0
        }),
        owners(after, key.netuid).finite(),
        owners(s, key.netuid).finite(),
{
    lemma_owners_insert(s, after, key);
    let before = owners(s, key.netuid);
    let rest = before.remove(key.coldkey);
    assert(before.insert(key.coldkey) =~= rest.insert(key.coldkey));
    lemma_sum_over_insert(rest, h, key.coldkey);
    lemma_sum_over_agrees(rest, g, h);
    if s.has_position(key.netuid, key.coldkey) {
        lemma_sum_over_remove(before, g, key.coldkey);
    } else {
        assert(rest =~= before);
    }
}

/// A sum over the owners of a subnet, after one of them has left.
pub proof fn lemma_sum_after_remove(
    s: State,
    after: State,
    key: OwnerKey,
    g: spec_fn(AccountId) -> int,
    h: spec_fn(AccountId) -> int,
)
    requires
        s.positions.dom().finite(),
        s.has_position(key.netuid, key.coldkey),
        after.positions.dom() == s.positions.dom().remove(key),
        forall|c: AccountId|
            c != key.coldkey && s.has_position(key.netuid, c) ==> #[trigger] g(c) == h(c),
    ensures
        sum_over(owners(after, key.netuid), h) == sum_over(owners(s, key.netuid), g) - g(
            key.coldkey,
        ),
        owners(after, key.netuid).finite(),
        owners(s, key.netuid).finite(),
{
    lemma_owners_remove(s, after, key);
    let before = owners(s, key.netuid);
    lemma_sum_over_remove(before, g, key.coldkey);
    lemma_sum_over_agrees(before.remove(key.coldkey), g, h);
}

/// Opening keeps the open interest right, as long as it fits.
pub proof fn law_open_keeps_interest(
    s: State,
    origin: Origin,
    hotkey: AccountId,
    netuid: u16,
    input: u64,
    max_q: u64,
)
    requires
        s.positions.dom().finite(),
        interest_matches(s, netuid),
    ensures
        open_outcome(s, origin, hotkey, netuid, input, max_q) matches Ok(after) ==> (
        after.agg(netuid).q_sigma < u64::MAX ==> interest_matches(after, netuid)),
{
    if let Ok(after) = open_outcome(s, origin, hotkey, netuid, input, max_q) {
        let coldkey = origin->Signed_0;
        let key = OwnerKey { netuid, coldkey };
        let g = |c: AccountId| s.position(netuid, c).q_liability as int;
        let h = |c: AccountId| after.position(netuid, c).q_liability as int;
        assert(after.positions.dom() =~= s.positions.dom().insert(key));
        lemma_sum_after_insert(s, after, key, g, h);
        lemma_sum_over_bound(owners(s, netuid), g, coldkey);
    }
}

/// A top-up and the decay of a block leave what is owed and the open interest as they are.
pub proof fn law_liabilities_are_fixed(s: State, origin: Origin, netuid: u16, amount: u64)
    requires
        s.positions.dom().finite(),
    ensures
        decay_tick(s, netuid).agg(netuid).q_sigma == s.agg(netuid).q_sigma,
        decay_tick(s, netuid).positions == s.positions,
        top_up_outcome(s, origin, netuid, amount) matches Ok(after) ==> owed(after, netuid) == owed(
            s,
            netuid,
        ) && after.agg(netuid).q_sigma == s.agg(netuid).q_sigma && (forall|n: u16, c: AccountId|
            s.has_position(n, c) ==> (#[trigger] after.position(n, c)).q_liability == s.position(
                n,
                c,
            ).q_liability && after.position(n, c).p_floor == s.position(n, c).p_floor),
{
    if let Ok(after) = top_up_outcome(s, origin, netuid, amount) {
        let coldkey = origin->Signed_0;
        let key = OwnerKey { netuid, coldkey };
        let g = |c: AccountId| s.position(netuid, c).q_liability as int;
        let h = |c: AccountId| after.position(netuid, c).q_liability as int;
        assert(after.positions.dom() =~= s.positions.dom().insert(key));
        lemma_sum_after_insert(s, after, key, g, h);
    }
}

/// Every position has a floor.
pub open spec fn floored(s: State) -> bool {
    forall|netuid: u16, coldkey: AccountId| #[trigger]
        s.has_position(netuid, coldkey) ==> s.position(netuid, coldkey).p_floor > 0
}

/// No position comes to be without a floor, and none outlives it: not by opening, topping up or
/// closing, and the decay leaves the floors alone.
pub proof fn law_floors_stay(
    s: State,
    origin: Origin,
    hotkey: AccountId,
    netuid: u16,
    amount: u64,
    max_q: u64,
)
    requires
        floored(s),
        (origin matches Origin::Signed(coldkey) ==> s.position_wholly_bounded(netuid, coldkey)),
    ensures
        open_outcome(s, origin, hotkey, netuid, amount, max_q) matches Ok(after) ==> amount > 0
            && floored(after),
        top_up_outcome(s, origin, netuid, amount) matches Ok(after) ==> floored(after),
        close_outcome(s, origin, netuid, amount) matches Ok(after) ==> floored(after),
        floored(decay_tick(s, netuid)),
{
    if let Ok(after) = open_outcome(s, origin, hotkey, netuid, amount, max_q) {
        if amount == 0 {
            lemma_nothing_collateralized(
                reference_reserve(s.subnet(netuid)),
                Fixed::whole(s.agg(netuid).b_sigma as int),
                s.params.base_ltv,
            );
        }
        assert forall|n: u16, c: AccountId| #[trigger] after.has_position(n, c) implies
            after.position(n, c).p_floor > 0 by {
            if n != netuid || c != origin->Signed_0 {
                assert(s.has_position(n, c));
            }
        }
    }
    if let Ok(after) = top_up_outcome(s, origin, netuid, amount) {
        assert forall|n: u16, c: AccountId| #[trigger] after.has_position(n, c) implies
            after.position(n, c).p_floor > 0 by {
            assert(s.has_position(n, c));
        }
    }
    if let Ok(after) = close_outcome(s, origin, netuid, amount) {
        let coldkey = origin->Signed_0;
        let pos = materialized(s.position(netuid, coldkey), s.agg(netuid).omega);
        crate::math::lemma_materialized(s.position(netuid, coldkey), s.agg(netuid).omega);
        crate::laws::closing::lemma_slice(pos, amount);
        assert forall|n: u16, c: AccountId| #[trigger] after.has_position(n, c) implies
            after.position(n, c).p_floor > 0 by {
            assert(s.has_position(n, c));
        }
    }
    let after = decay_tick(s, netuid);
    assert forall|n: u16, c: AccountId| #[trigger] after.has_position(n, c) implies after.position(
        n,
        c,
    ).p_floor > 0 by {
        assert(s.has_position(n, c));
    }
}

proof fn lemma_nothing_collateralized(reserve: Fixed, s: Fixed, ltv: Fixed)
    ensures
        collateral(Fixed::nil(), reserve, s, ltv) is None,
{
    let two = Fixed::whole(2);
    assert(two.times(Fixed::nil()).bits == 0) by {
        assert(two.bits * 0 == 0);
    }
    assert forall|d: Fixed| (#[trigger] Fixed::nil().over(d)).bits == 0 by {
        let ad = if d.bits < 0 {
            -d.bits
        } else {
            d.bits as int
        };
        if d.bits != 0 {
            assert(0int / ad == 0) by (nonlinear_arith)
                requires
                    ad > 0,
            ;
        }
    }
    assert(two.times(Fixed::nil()) == Fixed::nil());
}

/// Closing keeps the open interest right.
pub proof fn law_close_keeps_interest(s: State, origin: Origin, netuid: u16, fraction_ppb: u64)
    requires
        s.positions.dom().finite(),
        counted(s),
        interest_matches(s, netuid),
        (origin matches Origin::Signed(coldkey) ==> s.position_wholly_bounded(netuid, coldkey)),
        floored(s),
    ensures
        close_outcome(s, origin, netuid, fraction_ppb) matches Ok(after) ==> interest_matches(
            after,
            netuid,
        ),
{
    if let Ok(after) = close_outcome(s, origin, netuid, fraction_ppb) {
        let coldkey = origin->Signed_0;
        let key = OwnerKey { netuid, coldkey };
        let pos = materialized(s.position(netuid, coldkey), s.agg(netuid).omega);
        crate::math::lemma_materialized(s.position(netuid, coldkey), s.agg(netuid).omega);
        crate::laws::closing::lemma_slice(pos, fraction_ppb);
        assert(s.has_position(netuid, coldkey));
        let g = |c: AccountId| s.position(netuid, c).q_liability as int;
        let h = |c: AccountId| after.position(netuid, c).q_liability as int;
        lemma_owners_finite(s, netuid);
        lemma_sum_over_bound(owners(s, netuid), g, coldkey);
        assert(owners(s, netuid).contains(coldkey));
        if after.positions.contains_key(key) {
            assert(after.positions.dom() =~= s.positions.dom().insert(key));
            lemma_sum_after_insert(s, after, key, g, h);
        } else {
            assert(after.positions.dom() =~= s.positions.dom().remove(key));
            lemma_sum_after_remove(s, after, key, g, h);
            law_close_keeps_counts(s, origin, netuid, fraction_ppb);
            assert(after.count(netuid) == owners(after, netuid).len());
        }
    }
}

/// A default keeps the open interest right.
pub proof fn law_default_keeps_interest(s: State, origin: Origin, coldkey: AccountId, netuid: u16)
    requires
        s.positions.dom().finite(),
        counted(s),
        interest_matches(s, netuid),
    ensures
        default_outcome(s, origin, coldkey, netuid) matches Ok(after) ==> interest_matches(
            after,
            netuid,
        ),
{
    if let Ok(after) = default_outcome(s, origin, coldkey, netuid) {
        let key = OwnerKey { netuid, coldkey };
        let g = |c: AccountId| s.position(netuid, c).q_liability as int;
        let h = |c: AccountId| after.position(netuid, c).q_liability as int;
        assert(after.positions.dom() =~= s.positions.dom().remove(key));
        lemma_sum_after_remove(s, after, key, g, h);
        lemma_sum_over_bound(owners(s, netuid), g, coldkey);
        assert(owners(s, netuid).contains(coldkey));
        law_default_keeps_counts(s, origin, coldkey, netuid);
        assert(after.count(netuid) == owners(after, netuid).len());
    }
}

/// What the short side knows of another subnet is the same in both states.
pub open spec fn same_elsewhere(s: State, after: State, netuid: u16) -> bool {
    &&& after.params == s.params
    &&& after.block == s.block
    &&& forall|n: u16|
        n != netuid ==> (#[trigger] after.agg(n)) == s.agg(n) && after.subnet(n) == s.subnet(n)
            && after.count(n) == s.count(n) && after.active.contains(n) == s.active.contains(n)
    &&& forall|k: OwnerKey|
        k.netuid != netuid ==> (#[trigger] after.positions.contains_key(k)
            == s.positions.contains_key(k)) && after.positions[k] == s.positions[k]
}

proof fn lemma_open_stays_on_its_subnet(
    s: State,
    origin: Origin,
    hotkey: AccountId,
    netuid: u16,
    amount: u64,
    max_q: u64,
)
    ensures
        open_outcome(s, origin, hotkey, netuid, amount, max_q) matches Ok(after) ==> same_elsewhere(
            s,
            after,
            netuid,
        ),
{
}

proof fn lemma_top_up_stays_on_its_subnet(
    s: State,
    origin: Origin,
    netuid: u16,
    amount: u64,
)
    ensures
        top_up_outcome(s, origin, netuid, amount) matches Ok(after) ==> same_elsewhere(
            s,
            after,
            netuid,
        ),
{
}

proof fn lemma_close_stays_on_its_subnet(
    s: State,
    origin: Origin,
    netuid: u16,
    amount: u64,
)
    ensures
        close_outcome(s, origin, netuid, amount) matches Ok(after) ==> same_elsewhere(
            s,
            after,
            netuid,
        ),
{
}

proof fn lemma_default_stays_on_its_subnet(
    s: State,
    origin: Origin,
    coldkey: AccountId,
    netuid: u16,
)
    ensures
        default_outcome(s, origin, coldkey, netuid) matches Ok(after) ==> same_elsewhere(
            s,
            after,
            netuid,
        ),
{
}

proof fn lemma_decay_stays_on_its_subnet(s: State, netuid: u16)
    ensures
        same_elsewhere(s, decay_tick(s, netuid), netuid),
{
}

/// What happens on one subnet leaves the pools, the sums, the counts, the tracking and the
/// positions of all others alone.
pub proof fn law_subnets_are_independent(
    s: State,
    origin: Origin,
    hotkey: AccountId,
    coldkey: AccountId,
    netuid: u16,
    amount: u64,
    max_q: u64,
)
    ensures
        open_outcome(s, origin, hotkey, netuid, amount, max_q) matches Ok(after) ==> same_elsewhere(
            s,
            after,
            netuid,
        ),
        top_up_outcome(s, origin, netuid, amount) matches Ok(after) ==> same_elsewhere(
            s,
            after,
            netuid,
        ),
        close_outcome(s, origin, netuid, amount) matches Ok(after) ==> same_elsewhere(
            s,
            after,
            netuid,
        ),
        default_outcome(s, origin, coldkey, netuid) matches Ok(after) ==> same_elsewhere(
            s,
            after,
            netuid,
        ),
        same_elsewhere(s, decay_tick(s, netuid), netuid),
{
    lemma_open_stays_on_its_subnet(s, origin, hotkey, netuid, amount, max_q);
    lemma_top_up_stays_on_its_subnet(s, origin, netuid, amount);
    lemma_close_stays_on_its_subnet(s, origin, netuid, amount);
    lemma_default_stays_on_its_subnet(s, origin, coldkey, netuid);
    lemma_decay_stays_on_its_subnet(s, netuid);
}

/// The decay of a block on many subnets leaves every position as it is, and keeps the counts and
/// the tracking right.
pub proof fn law_decay_run_keeps_the_books(s: State, order: Seq<u16>)
    requires
        order.no_duplicates(),
        forall|n: u16| order.contains(n) ==> #[trigger] s.decay_bounded(n),
    ensures
        decay_ticks(s, order).positions == s.positions,
        counted(s) ==> counted(decay_ticks(s, order)),
        live_ones_visited(s) ==> live_ones_visited(decay_ticks(s, order)),
    decreases order.len(),
{
    if order.len() > 0 {
        let less = order.drop_last();
        let last = order.last();
        assert(order[order.len() - 1] == last);
        assert(order.contains(last));
        assert(s.decay_bounded(last));
        assert forall|n: u16| less.contains(n) implies #[trigger] s.decay_bounded(n) by {
            let i = choose|i: int| 0 <= i < less.len() && less[i] == n;
            assert(order[i] == n);
            assert(order.contains(n));
        }
        assert(!less.contains(last)) by {
            if less.contains(last) {
                let i = choose|i: int| 0 <= i < less.len() && less[i] == last;
                assert(order[i] == order[order.len() - 1]);
            }
        }
        law_decay_run_keeps_the_books(s, less);
        crate::decay::lemma_decay_apart(s, less, last);
        let before = decay_ticks(s, less);
        law_decay_keeps_positions(before, last);
        if live_ones_visited(s) {
            law_decay_keeps_tracking(before, last);
        }
    }
}

} // verus!
