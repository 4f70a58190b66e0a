//! Custody holds what the shorts of a subnet are due.
use crate::accounts::{custody_of, AccountId, Origin, OwnerKey};
use crate::close::{close_outcome, default_outcome, slice_of};
use crate::decay::{decay_tick, decay_ticks, decayed_agg, next_decay, restored_amount};
use crate::fixed::{Fixed, ONE_BITS};
use crate::laws::books::{
    counted, floored, interest_matches, law_close_keeps_counts, law_default_keeps_counts,
    law_subnets_are_independent, lemma_owners_finite, lemma_sum_after_insert,
    lemma_sum_after_remove, live_ones_visited, owners, same_elsewhere,
};
use crate::laws::closing::lemma_slice;
use crate::laws::decaying::{all_apart, lemma_next_decay};
use crate::laws::ledger::{
    law_transfer_conserves, lemma_close_moves, lemma_default_moves, lemma_open_moves, sound,
};
use crate::laws::sums::{
    lemma_sum_over_agrees, lemma_sum_over_bound, lemma_sum_over_ordered, lemma_sum_over_plus,
    lemma_sum_over_times, sum_over,
};
use crate::math::{
    from_ppb, lemma_materialized, lemma_scaled, materialized, remaining_share, scaled,
};
use crate::open::{admission, open_outcome, top_up_outcome};
use crate::pallet::{sat_add, sat_sub, State};
use crate::types::{Params, ShortPosition};
use vstd::prelude::*;

verus! {

broadcast use crate::math::lemma_remaining_share;

/// The floors of the shorts of a subnet.
pub open spec fn floors(s: State, netuid: u16) -> int {
    sum_over(owners(s, netuid), |c: AccountId| s.position(netuid, c).p_floor as int)
}

/// What custody has beyond the floors and the sums of the buffers and the escrows.
pub open spec fn margin(s: State, netuid: u16) -> int {
    s.balance(s.custody(netuid)) - floors(s, netuid) - s.agg(netuid).r_sigma - s.agg(netuid).e_sigma
}

/// What is left of a unit of the position at the present, in bits.
pub open spec fn share_bits(s: State, netuid: u16, coldkey: AccountId) -> int {
    remaining_share(s.position(netuid, coldkey).omega_entry, s.agg(netuid).omega).bits as int
}

/// The buffers that are due, in bits.
pub open spec fn buffers_due(s: State, netuid: u16) -> int {
    sum_over(
        owners(s, netuid),
        |c: AccountId| s.position(netuid, c).r_stored * share_bits(s, netuid, c),
    )
}

/// The escrows that are due, in bits.
pub open spec fn escrows_due(s: State, netuid: u16) -> int {
    sum_over(
        owners(s, netuid),
        |c: AccountId| s.position(netuid, c).e_stored * share_bits(s, netuid, c),
    )
}

/// The sums cover what is due.
pub open spec fn covered(s: State, netuid: u16) -> bool {
    &&& buffers_due(s, netuid) <= s.agg(netuid).r_sigma * ONE_BITS
    &&& escrows_due(s, netuid) <= s.agg(netuid).e_sigma * ONE_BITS
}

/// Custody holds the floors and the sums, and the sums cover what is due.
pub open spec fn backed(s: State, netuid: u16) -> bool {
    margin(s, netuid) >= 0 && covered(s, netuid)
}

/// What a position is due at the present: its floor, its buffer and its escrow.
pub open spec fn due(s: State, netuid: u16, coldkey: AccountId) -> int {
    let pos = materialized(s.position(netuid, coldkey), s.agg(netuid).omega);
    pos.p_floor + pos.r_stored + pos.e_stored
}

/// What all shorts of a subnet are due at the present.
pub open spec fn obligations(s: State, netuid: u16) -> int {
    sum_over(owners(s, netuid), |c: AccountId| due(s, netuid, c))
}

/// Each subnet has a custody account of its own, and so has each module.
pub proof fn law_custody_accounts_are_distinct(a: u64, b: u64, m: u16, n: u16)
    ensures
        custody_of(a, m) == custody_of(b, n) <==> a == b && m == n,
{
}

/// The custody account of a subnet in its bytes, the first of them the lowest: `modl`, the module, a
/// length of four times four, `shrt`, the subnet, and zeros.
pub proof fn law_custody_account_in_bytes(pallet_id: u64, netuid: u16)
    ensures
        custody_of(pallet_id, netuid).lo == 0x7268_7310_0000_0000_0000_0000_6c64_6f6d + pallet_id
            * 0x1_0000_0000,
        custody_of(pallet_id, netuid).hi == 0x74 + netuid * 0x100,
{
}

/// A scaled amount in bits is the product, and less than one unit below it.
pub proof fn lemma_scaled_bits(n: u64, f: Fixed)
    requires
        crate::fixed::fits(n),
        0 <= f.bits <= ONE_BITS,
    ensures
        scaled(n, f) * ONE_BITS <= n * f.bits,
        n * f.bits < (scaled(n, f) + 1) * ONE_BITS,
{
    lemma_scaled(n, f);
    let x = n * f.bits;
    vstd::arithmetic::div_mod::lemma_fundamental_div_mod(x, ONE_BITS as int);
}

/// What all shorts are due is no more than the floors and what is due in bits.
pub proof fn lemma_obligations_in_bits(s: State, netuid: u16)
    requires
        s.positions.dom().finite(),
        forall|c: AccountId| #[trigger] s.position_bounded(netuid, c),
    ensures
        obligations(s, netuid) * ONE_BITS <= floors(s, netuid) * ONE_BITS + buffers_due(s, netuid)
            + escrows_due(s, netuid),
{
    let all = owners(s, netuid);
    let one = ONE_BITS as int;
    let omega = s.agg(netuid).omega;
    lemma_owners_finite(s, netuid);
    let p = |c: AccountId| s.position(netuid, c).p_floor as int;
    let r = |c: AccountId| materialized(s.position(netuid, c), omega).r_stored as int;
    let e = |c: AccountId| materialized(s.position(netuid, c), omega).e_stored as int;
    let r_bits = |c: AccountId| s.position(netuid, c).r_stored * share_bits(s, netuid, c);
    let e_bits = |c: AccountId| s.position(netuid, c).e_stored * share_bits(s, netuid, c);
    let r_one = |c: AccountId| r(c) * one;
    let e_one = |c: AccountId| e(c) * one;
    assert forall|c: AccountId| all.contains(c) implies #[trigger] r_one(c) <= r_bits(c) by {
        assert(s.position_bounded(netuid, c));
        lemma_scaled_bits(
            s.position(netuid, c).r_stored,
            remaining_share(s.position(netuid, c).omega_entry, omega),
        );
    }
    assert forall|c: AccountId| all.contains(c) implies #[trigger] e_one(c) <= e_bits(c) by {
        assert(s.position_bounded(netuid, c));
        lemma_scaled_bits(
            s.position(netuid, c).e_stored,
            remaining_share(s.position(netuid, c).omega_entry, omega),
        );
    }
    lemma_sum_over_ordered(all, r_one, r_bits);
    lemma_sum_over_ordered(all, e_one, e_bits);
    lemma_sum_over_times(all, r, one);
    lemma_sum_over_times(all, e, one);
    lemma_sum_over_agrees(all, r_one, |c: AccountId| r(c) * one);
    lemma_sum_over_agrees(all, e_one, |c: AccountId| e(c) * one);
    let pr = |c: AccountId| p(c) + r(c);
    lemma_sum_over_plus(all, p, r);
    lemma_sum_over_agrees(all, pr, |c: AccountId| p(c) + r(c));
    lemma_sum_over_plus(all, pr, e);
    lemma_sum_over_agrees(
        all,
        |c: AccountId| due(s, netuid, c),
        |c: AccountId| pr(c) + e(c),
    );
}

/// Where the sums cover what is due and custody holds the sums, custody holds all obligations.
pub proof fn law_custody_covers_obligations(s: State, netuid: u16)
    requires
        s.positions.dom().finite(),
        forall|c: AccountId| #[trigger] s.position_bounded(netuid, c),
        backed(s, netuid),
    ensures
        obligations(s, netuid) <= s.balance(s.custody(netuid)),
{
    lemma_obligations_in_bits(s, netuid);
}

/// The three sums over the owners, after one of them has another position that starts at the
/// present accumulator.
proof fn lemma_after_insert(s: State, after: State, netuid: u16, coldkey: AccountId)
    requires
        s.positions.dom().finite(),
        s.position_bounded(netuid, coldkey),
        after.agg(netuid).omega == s.agg(netuid).omega,
        after.has_position(netuid, coldkey),
        after.positions == s.positions.insert(
            OwnerKey { netuid, coldkey },
            after.position(netuid, coldkey),
        ),
        after.position(netuid, coldkey).omega_entry == s.agg(netuid).omega,
    ensures
        ({
            let pos = after.position(netuid, coldkey);
            let was = if s.has_position(netuid, coldkey) {
                materialized(s.position(netuid, coldkey), s.agg(netuid).omega)
            } else {
                ShortPosition { p_floor: 0, r_stored: 0, e_stored: 0, ..pos }
            };
            &&& floors(after, netuid) == floors(s, netuid) + pos.p_floor - was.p_floor
            &&& buffers_due(after, netuid) <= buffers_due(s, netuid) + (pos.r_stored - was.r_stored)
                * ONE_BITS
            &&& escrows_due(after, netuid) <= escrows_due(s, netuid) + (pos.e_stored - was.e_stored)
                * ONE_BITS
            &&& was.p_floor <= floors(s, netuid)
            &&& was.r_stored * ONE_BITS <= buffers_due(s, netuid)
            &&& was.e_stored * ONE_BITS <= escrows_due(s, netuid)
        }),
{
    let key = OwnerKey { netuid, coldkey };
    let one = ONE_BITS as int;
    let p0 = |c: AccountId| s.position(netuid, c).p_floor as int;
    let p1 = |c: AccountId| after.position(netuid, c).p_floor as int;
    let r0 = |c: AccountId| s.position(netuid, c).r_stored * share_bits(s, netuid, c);
    let r1 = |c: AccountId| after.position(netuid, c).r_stored * share_bits(after, netuid, c);
    let e0 = |c: AccountId| s.position(netuid, c).e_stored * share_bits(s, netuid, c);
    let e1 = |c: AccountId| after.position(netuid, c).e_stored * share_bits(after, netuid, c);
    assert(after.positions.dom() =~= s.positions.dom().insert(key));
    lemma_sum_after_insert(s, after, key, p0, p1);
    lemma_sum_after_insert(s, after, key, r0, r1);
    lemma_sum_after_insert(s, after, key, e0, e1);
    lemma_dues_bound(s, netuid, coldkey);
    assert(share_bits(after, netuid, coldkey) == one);
    assert(r1(coldkey) == after.position(netuid, coldkey).r_stored * one);
    assert(e1(coldkey) == after.position(netuid, coldkey).e_stored * one);
    if s.has_position(netuid, coldkey) {
        let f = remaining_share(s.position(netuid, coldkey).omega_entry, s.agg(netuid).omega);
        lemma_scaled_bits(s.position(netuid, coldkey).r_stored, f);
        lemma_scaled_bits(s.position(netuid, coldkey).e_stored, f);
    }
}

/// The sums over the owners are not negative, and no less than the part of each.
proof fn lemma_dues_bound(s: State, netuid: u16, coldkey: AccountId)
    requires
        s.positions.dom().finite(),
        s.position_bounded(netuid, coldkey),
    ensures
        floors(s, netuid) >= 0,
        buffers_due(s, netuid) >= 0,
        escrows_due(s, netuid) >= 0,
        s.has_position(netuid, coldkey) ==> ({
            let pos = materialized(s.position(netuid, coldkey), s.agg(netuid).omega);
            &&& pos.p_floor <= floors(s, netuid)
            &&& pos.r_stored * ONE_BITS <= buffers_due(s, netuid)
            &&& pos.e_stored * ONE_BITS <= escrows_due(s, netuid)
        }),
{
    let all = owners(s, netuid);
    lemma_owners_finite(s, netuid);
    let p0 = |c: AccountId| s.position(netuid, c).p_floor as int;
    let r0 = |c: AccountId| s.position(netuid, c).r_stored * share_bits(s, netuid, c);
    let e0 = |c: AccountId| s.position(netuid, c).e_stored * share_bits(s, netuid, c);
    assert forall|c: AccountId| all.contains(c) implies #[trigger] r0(c) >= 0 by {
        let n = s.position(netuid, c).r_stored as int;
        let f = share_bits(s, netuid, c);
        assert(n * f >= 0) by (nonlinear_arith)
            requires
                n >= 0,
                f >= 0,
        ;
    }
    assert forall|c: AccountId| all.contains(c) implies #[trigger] e0(c) >= 0 by {
        let n = s.position(netuid, c).e_stored as int;
        let f = share_bits(s, netuid, c);
        assert(n * f >= 0) by (nonlinear_arith)
            requires
                n >= 0,
                f >= 0,
        ;
    }
    lemma_sum_over_bound(all, p0, coldkey);
    lemma_sum_over_bound(all, r0, coldkey);
    lemma_sum_over_bound(all, e0, coldkey);
    if s.has_position(netuid, coldkey) {
        assert(all.contains(coldkey));
        let f = remaining_share(s.position(netuid, coldkey).omega_entry, s.agg(netuid).omega);
        lemma_scaled_bits(s.position(netuid, coldkey).r_stored, f);
        lemma_scaled_bits(s.position(netuid, coldkey).e_stored, f);
    }
}

/// The three sums over the owners, after one of them has left.
proof fn lemma_after_remove(s: State, after: State, netuid: u16, coldkey: AccountId)
    requires
        s.positions.dom().finite(),
        s.has_position(netuid, coldkey),
        s.position_bounded(netuid, coldkey),
        after.agg(netuid).omega == s.agg(netuid).omega,
        after.positions == s.positions.remove(OwnerKey { netuid, coldkey }),
    ensures
        ({
            let was = materialized(s.position(netuid, coldkey), s.agg(netuid).omega);
            &&& floors(after, netuid) == floors(s, netuid) - was.p_floor
            &&& buffers_due(after, netuid) <= buffers_due(s, netuid) - was.r_stored * ONE_BITS
            &&& escrows_due(after, netuid) <= escrows_due(s, netuid) - was.e_stored * ONE_BITS
        }),
{
    let key = OwnerKey { netuid, coldkey };
    let p0 = |c: AccountId| s.position(netuid, c).p_floor as int;
    let p1 = |c: AccountId| after.position(netuid, c).p_floor as int;
    let r0 = |c: AccountId| s.position(netuid, c).r_stored * share_bits(s, netuid, c);
    let r1 = |c: AccountId| after.position(netuid, c).r_stored * share_bits(after, netuid, c);
    let e0 = |c: AccountId| s.position(netuid, c).e_stored * share_bits(s, netuid, c);
    let e1 = |c: AccountId| after.position(netuid, c).e_stored * share_bits(after, netuid, c);
    assert(after.positions.dom() =~= s.positions.dom().remove(key));
    lemma_sum_after_remove(s, after, key, p0, p1);
    lemma_sum_after_remove(s, after, key, r0, r1);
    lemma_sum_after_remove(s, after, key, e0, e1);
    let f = remaining_share(s.position(netuid, coldkey).omega_entry, s.agg(netuid).omega);
    lemma_scaled_bits(s.position(netuid, coldkey).r_stored, f);
    lemma_scaled_bits(s.position(netuid, coldkey).e_stored, f);
}

/// What opening does to custody and to what it has to hold.
pub proof fn lemma_open_custody(
    s: State,
    origin: Origin,
    hotkey: AccountId,
    netuid: u16,
    input: u64,
    max_q: u64,
)
    requires
        sound(s),
        (origin matches Origin::Signed(coldkey) ==> s.position_bounded(netuid, coldkey) && coldkey
            != s.custody(netuid)),
        s.subnet(netuid).account != s.custody(netuid),
    ensures
        open_outcome(s, origin, hotkey, netuid, input, max_q) matches Ok(after) ==> {
            let terms = admission(s, origin, hotkey, netuid, input, max_q)->Ok_0.1;
            let custody = s.custody(netuid);
            &&& after.custody(netuid) == custody
            &&& after.balance(custody) == s.balance(custody) + input + terms.n + terms.e
            &&& after.agg(netuid).r_sigma == sat_add(s.agg(netuid).r_sigma, terms.n)
            &&& after.agg(netuid).e_sigma == sat_add(s.agg(netuid).e_sigma, terms.e)
            &&& 0 <= floors(s, netuid)
            &&& floors(after, netuid) <= floors(s, netuid) + input
            &&& floors(s, netuid) + input <= u64::MAX ==> floors(after, netuid) == floors(s, netuid)
                + input
            &&& buffers_due(after, netuid) <= buffers_due(s, netuid) + terms.n * ONE_BITS
            &&& escrows_due(after, netuid) <= escrows_due(s, netuid) + terms.e * ONE_BITS
        },
{
    if let Ok(after) = open_outcome(s, origin, hotkey, netuid, input, max_q) {
        let coldkey = origin->Signed_0;
        let custody = s.custody(netuid);
        lemma_open_moves(s, origin, hotkey, netuid, input, max_q);
        assert(after.custody(netuid) == custody);
        if s.has_position(netuid, coldkey) {
            lemma_materialized(s.position(netuid, coldkey), s.agg(netuid).omega);
        }
        assert(after.positions =~= s.positions.insert(
            OwnerKey { netuid, coldkey },
            after.position(netuid, coldkey),
        ));
        lemma_after_insert(s, after, netuid, coldkey);
        lemma_dues_bound(s, netuid, coldkey);
    }
}

/// Opening puts into custody what it books: a backed subnet stays backed, with the same margin.
pub proof fn law_open_keeps_custody_backed(
    s: State,
    origin: Origin,
    hotkey: AccountId,
    netuid: u16,
    input: u64,
    max_q: u64,
)
    requires
        sound(s),
        backed(s, netuid),
        (origin matches Origin::Signed(coldkey) ==> s.position_bounded(netuid, coldkey) && coldkey
            != s.custody(netuid)),
        s.subnet(netuid).account != s.custody(netuid),
    ensures
        open_outcome(s, origin, hotkey, netuid, input, max_q) matches Ok(after) ==> backed(
            after,
            netuid,
        ) && margin(after, netuid) == margin(s, netuid),
{
    lemma_open_custody(s, origin, hotkey, netuid, input, max_q);
}

/// What a top-up does to custody and to what it has to hold.
pub proof fn lemma_top_up_custody(s: State, origin: Origin, netuid: u16, amount: u64)
    requires
        sound(s),
        (origin matches Origin::Signed(coldkey) ==> s.position_bounded(netuid, coldkey) && coldkey
            != s.custody(netuid)),
    ensures
        top_up_outcome(s, origin, netuid, amount) matches Ok(after) ==> {
            let custody = s.custody(netuid);
            &&& after.custody(netuid) == custody
            &&& after.balance(custody) == s.balance(custody) + amount
            &&& after.agg(netuid).r_sigma == sat_add(s.agg(netuid).r_sigma, amount)
            &&& after.agg(netuid).e_sigma == s.agg(netuid).e_sigma
            &&& floors(after, netuid) == floors(s, netuid)
            &&& 0 <= floors(s, netuid)
            &&& buffers_due(after, netuid) <= buffers_due(s, netuid) + amount * ONE_BITS
            &&& escrows_due(after, netuid) <= escrows_due(s, netuid)
        },
{
    if let Ok(after) = top_up_outcome(s, origin, netuid, amount) {
        let coldkey = origin->Signed_0;
        law_transfer_conserves(s.balances, coldkey, s.custody(netuid), amount);
        assert(after.custody(netuid) == s.custody(netuid));
        lemma_materialized(s.position(netuid, coldkey), s.agg(netuid).omega);
        assert(after.positions =~= s.positions.insert(
            OwnerKey { netuid, coldkey },
            after.position(netuid, coldkey),
        ));
        lemma_after_insert(s, after, netuid, coldkey);
        lemma_dues_bound(s, netuid, coldkey);
    }
}

/// A top-up puts into custody what it books.
pub proof fn law_top_up_keeps_custody_backed(s: State, origin: Origin, netuid: u16, amount: u64)
    requires
        sound(s),
        backed(s, netuid),
        (origin matches Origin::Signed(coldkey) ==> s.position_bounded(netuid, coldkey) && coldkey
            != s.custody(netuid)),
    ensures
        top_up_outcome(s, origin, netuid, amount) matches Ok(after) ==> backed(after, netuid)
            && margin(after, netuid) == margin(s, netuid),
{
    lemma_top_up_custody(s, origin, netuid, amount);
}

/// What leaves custody, and what leaves what it has to hold, when the given amounts of a position
/// leave.
pub open spec fn custody_released(
    s: State,
    after: State,
    netuid: u16,
    p: u64,
    r: u64,
    e: u64,
) -> bool {
    let custody = s.custody(netuid);
    &&& after.custody(netuid) == custody
    &&& after.balance(custody) >= s.balance(custody) - p - r - e
    &&& p <= floors(s, netuid)
    &&& r * ONE_BITS <= buffers_due(s, netuid)
    &&& e * ONE_BITS <= escrows_due(s, netuid)
    &&& if after.aggregates.contains_key(netuid) {
        &&& after.agg(netuid).r_sigma == sat_sub(s.agg(netuid).r_sigma, r)
        &&& after.agg(netuid).e_sigma == sat_sub(s.agg(netuid).e_sigma, e)
        &&& floors(after, netuid) == floors(s, netuid) - p
        &&& buffers_due(after, netuid) <= buffers_due(s, netuid) - r * ONE_BITS
        &&& escrows_due(after, netuid) <= escrows_due(s, netuid) - e * ONE_BITS
    } else {
        &&& floors(after, netuid) == 0
        &&& buffers_due(after, netuid) == 0
        &&& escrows_due(after, netuid) == 0
    }
}

/// What closing does to custody and to what it has to hold.
pub proof fn lemma_close_custody(s: State, origin: Origin, netuid: u16, fraction_ppb: u64)
    requires
        sound(s),
        counted(s),
        (origin matches Origin::Signed(coldkey) ==> s.position_wholly_bounded(netuid, coldkey) && coldkey
            != s.custody(netuid)),
        s.subnet(netuid).account != s.custody(netuid),
    ensures
        close_outcome(s, origin, netuid, fraction_ppb) matches Ok(after) ==> {
            let pos = materialized(s.position(netuid, origin->Signed_0), s.agg(netuid).omega);
            let slice = slice_of(pos, from_ppb(fraction_ppb));
            custody_released(s, after, netuid, slice.p, slice.r, slice.e)
        },
{
    if let Ok(after) = close_outcome(s, origin, netuid, fraction_ppb) {
        let coldkey = origin->Signed_0;
        let key = OwnerKey { netuid, coldkey };
        let pos = materialized(s.position(netuid, coldkey), s.agg(netuid).omega);
        let slice = slice_of(pos, from_ppb(fraction_ppb));
        lemma_materialized(s.position(netuid, coldkey), s.agg(netuid).omega);
        lemma_slice(pos, fraction_ppb);
        lemma_dues_bound(s, netuid, coldkey);
        assert(sat_add(slice.p, slice.r) == slice.p + slice.r);
        lemma_close_moves(s, origin, netuid, fraction_ppb);
        assert(after.custody(netuid) == s.custody(netuid));
        law_close_keeps_counts(s, origin, netuid, fraction_ppb);
        assert(after.count(netuid) == owners(after, netuid).len());
        if after.positions.contains_key(key) {
            assert(after.positions =~= s.positions.insert(key, after.position(netuid, coldkey)));
            lemma_after_insert(s, after, netuid, coldkey);
        } else {
            assert(after.positions =~= s.positions.remove(key));
            if after.aggregates.contains_key(netuid) {
                lemma_after_remove(s, after, netuid, coldkey);
            } else {
                lemma_no_owners(s, after, netuid, coldkey);
            }
        }
    }
}

/// Closing takes out of custody what it books: a backed subnet stays backed, and the margin does
/// not shrink.
pub proof fn law_close_keeps_custody_backed(
    s: State,
    origin: Origin,
    netuid: u16,
    fraction_ppb: u64,
)
    requires
        sound(s),
        counted(s),
        backed(s, netuid),
        (origin matches Origin::Signed(coldkey) ==> s.position_wholly_bounded(netuid, coldkey) && coldkey
            != s.custody(netuid)),
        s.subnet(netuid).account != s.custody(netuid),
    ensures
        close_outcome(s, origin, netuid, fraction_ppb) matches Ok(after) ==> backed(after, netuid)
            && margin(after, netuid) >= margin(s, netuid),
{
    lemma_close_custody(s, origin, netuid, fraction_ppb);
}

/// A subnet without owners is backed by anything.
proof fn lemma_no_owners(s: State, after: State, netuid: u16, coldkey: AccountId)
    requires
        s.positions.dom().finite(),
        after.positions == s.positions.remove(OwnerKey { netuid, coldkey }),
        after.count(netuid) == owners(after, netuid).len(),
        after.count(netuid) == 0,
        !after.aggregates.contains_key(netuid),
    ensures
        floors(after, netuid) == 0,
        buffers_due(after, netuid) == 0,
        escrows_due(after, netuid) == 0,
        floors(s, netuid) >= 0,
{
    lemma_owners_finite(after, netuid);
    lemma_owners_finite(s, netuid);
    lemma_sum_over_bound(
        owners(s, netuid),
        |c: AccountId| s.position(netuid, c).p_floor as int,
        coldkey,
    );
}

/// What a default does to custody and to what it has to hold.
pub proof fn lemma_default_custody(s: State, origin: Origin, coldkey: AccountId, netuid: u16)
    requires
        sound(s),
        counted(s),
        s.position_bounded(netuid, coldkey),
        s.subnet(netuid).account != s.custody(netuid),
    ensures
        default_outcome(s, origin, coldkey, netuid) matches Ok(after) ==> {
            let pos = materialized(s.position(netuid, coldkey), s.agg(netuid).omega);
            custody_released(s, after, netuid, pos.p_floor, pos.r_stored, pos.e_stored)
        },
{
    if let Ok(after) = default_outcome(s, origin, coldkey, netuid) {
        let key = OwnerKey { netuid, coldkey };
        let pos = materialized(s.position(netuid, coldkey), s.agg(netuid).omega);
        lemma_materialized(s.position(netuid, coldkey), s.agg(netuid).omega);
        lemma_dues_bound(s, netuid, coldkey);
        assert(sat_add(pos.r_stored, pos.e_stored) == pos.r_stored + pos.e_stored);
        lemma_default_moves(s, origin, coldkey, netuid);
        assert(after.custody(netuid) == s.custody(netuid));
        law_default_keeps_counts(s, origin, coldkey, netuid);
        assert(after.count(netuid) == owners(after, netuid).len());
        assert(after.positions =~= s.positions.remove(key));
        if after.aggregates.contains_key(netuid) {
            lemma_after_remove(s, after, netuid, coldkey);
        } else {
            lemma_no_owners(s, after, netuid, coldkey);
        }
    }
}

/// A default takes out of custody what it books.
pub proof fn law_default_keeps_custody_backed(
    s: State,
    origin: Origin,
    coldkey: AccountId,
    netuid: u16,
)
    requires
        sound(s),
        counted(s),
        backed(s, netuid),
        s.position_bounded(netuid, coldkey),
        s.subnet(netuid).account != s.custody(netuid),
    ensures
        default_outcome(s, origin, coldkey, netuid) matches Ok(after) ==> backed(after, netuid)
            && margin(after, netuid) >= margin(s, netuid),
{
    lemma_default_custody(s, origin, coldkey, netuid);
}

/// The decay of a block takes out of custody what it takes off the sums: the margin stays. The
/// sums go on covering what is due as long as what is left of each unit shrinks by the decay of
/// the block, at least.
pub proof fn law_decay_keeps_custody_margin(s: State, netuid: u16)
    requires
        sound(s),
        s.decay_bounded(netuid),
        s.subnet(netuid).account != s.custody(netuid),
    ensures
        margin(decay_tick(s, netuid), netuid) == margin(s, netuid),
        covered(s, netuid) && (forall|c: AccountId| #[trigger]
            s.has_position(netuid, c) ==> share_bits(decay_tick(s, netuid), netuid, c) * ONE_BITS
                <= share_bits(s, netuid, c) * (ONE_BITS - next_decay(s, netuid).bits)) ==> covered(
            decay_tick(s, netuid),
            netuid,
        ),
{
    let after = decay_tick(s, netuid);
    let agg = s.agg(netuid);
    let delta = next_decay(s, netuid);
    let restore = restored_amount(agg, delta);
    let custody = s.custody(netuid);
    let pool = s.subnet(netuid).account;
    lemma_next_decay(s, netuid);
    lemma_scaled(agg.r_sigma, delta);
    lemma_scaled(agg.e_sigma, delta);
    lemma_owners_finite(s, netuid);
    lemma_sum_over_bound(
        owners(s, netuid),
        |c: AccountId| s.position(netuid, c).p_floor as int,
        custody,
    );
    assert(owners(after, netuid) =~= owners(s, netuid));
    lemma_sum_over_agrees(
        owners(s, netuid),
        |c: AccountId| s.position(netuid, c).p_floor as int,
        |c: AccountId| after.position(netuid, c).p_floor as int,
    );
    law_transfer_conserves(s.balances, custody, pool, restore);
    assert(restore == scaled(agg.r_sigma, delta) + scaled(agg.e_sigma, delta));
    assert(after.custody(netuid) == custody);
    if after != s {
        assert(after.agg(netuid) == decayed_agg(agg, delta));
        assert(after.balance(custody) == s.balance(custody) - restore);
        if covered(s, netuid) && (forall|c: AccountId| #[trigger]
            s.has_position(netuid, c) ==> share_bits(after, netuid, c) * ONE_BITS <= share_bits(
                s,
                netuid,
                c,
            ) * (ONE_BITS - delta.bits)) {
            let r0 = |c: AccountId| s.position(netuid, c).r_stored * share_bits(s, netuid, c);
            let r1 = |c: AccountId|
                after.position(netuid, c).r_stored * share_bits(after, netuid, c);
            let e0 = |c: AccountId| s.position(netuid, c).e_stored * share_bits(s, netuid, c);
            let e1 = |c: AccountId|
                after.position(netuid, c).e_stored * share_bits(after, netuid, c);
            assert forall|c: AccountId| owners(s, netuid).contains(c) implies #[trigger] r1(c)
                * ONE_BITS <= r0(c) * (ONE_BITS - delta.bits) by {
                assert(s.has_position(netuid, c));
                lemma_share_shrinks(
                    s.position(netuid, c).r_stored as int,
                    share_bits(s, netuid, c),
                    share_bits(after, netuid, c),
                    delta,
                );
            }
            assert forall|c: AccountId| owners(s, netuid).contains(c) implies #[trigger] e1(c)
                * ONE_BITS <= e0(c) * (ONE_BITS - delta.bits) by {
                assert(s.has_position(netuid, c));
                lemma_share_shrinks(
                    s.position(netuid, c).e_stored as int,
                    share_bits(s, netuid, c),
                    share_bits(after, netuid, c),
                    delta,
                );
            }
            lemma_due_shrinks(owners(s, netuid), r0, r1, delta, agg.r_sigma);
            lemma_due_shrinks(owners(s, netuid), e0, e1, delta, agg.e_sigma);
        }
    }
}

proof fn lemma_share_shrinks(n: int, before: int, now: int, delta: Fixed)
    requires
        n >= 0,
        now * ONE_BITS <= before * (ONE_BITS - delta.bits),
    ensures
        (n * now) * ONE_BITS <= (n * before) * (ONE_BITS - delta.bits),
{
    let one = ONE_BITS as int;
    let keep = ONE_BITS - delta.bits;
    assert((n * now) * one <= (n * before) * keep) by (nonlinear_arith)
        requires
            n >= 0,
            now * one <= before * keep,
    ;
}

proof fn lemma_due_shrinks(
    all: Set<AccountId>,
    b: spec_fn(AccountId) -> int,
    a: spec_fn(AccountId) -> int,
    delta: Fixed,
    sigma: u64,
)
    requires
        all.finite(),
        crate::fixed::fits(sigma),
        0 <= delta.bits < ONE_BITS,
        forall|c: AccountId| all.contains(c) ==> #[trigger] a(c) * ONE_BITS <= b(c) * (ONE_BITS
            - delta.bits),
        sum_over(all, b) <= sigma * ONE_BITS,
    ensures
        sum_over(all, a) <= (sigma - scaled(sigma, delta)) * ONE_BITS,
{
    let one = ONE_BITS as int;
    let keep = one - delta.bits;
    let b_keep = |c: AccountId| b(c) * keep;
    let a_one = |c: AccountId| a(c) * one;
    assert forall|c: AccountId| all.contains(c) implies #[trigger] a_one(c) <= b_keep(c) by {
        assert(a(c) * ONE_BITS <= b(c) * (ONE_BITS - delta.bits));
    }
    lemma_sum_over_ordered(all, a_one, b_keep);
    lemma_sum_over_times(all, a, one);
    lemma_sum_over_times(all, b, keep);
    lemma_sum_over_agrees(all, a_one, |c: AccountId| a(c) * one);
    lemma_sum_over_agrees(all, b_keep, |c: AccountId| b(c) * keep);
    let sa = sum_over(all, a);
    let sb = sum_over(all, b);
    lemma_scaled_bits(sigma, delta);
    let left = sigma - scaled(sigma, delta);
    assert(sigma * keep <= left * one) by (nonlinear_arith)
        requires
            scaled(sigma, delta) * one <= sigma * delta.bits,
            left == sigma - scaled(sigma, delta),
            keep == one - delta.bits,
    ;
    assert(sa * one <= (left * one) * one) by (nonlinear_arith)
        requires
            sa * one <= sb * keep,
            sb <= sigma * one,
            sigma * keep <= left * one,
            keep > 0,
            one > 0,
    ;
    assert(sa <= left * one) by (nonlinear_arith)
        requires
            sa * one <= (left * one) * one,
            one > 0,
    ;
}

/// At the start everything holds: there is nothing yet that could be wrong.
pub proof fn law_everything_holds_at_the_start(pallet_id: u64, params: Params, netuid: u16)
    ensures
        sound(State::initial(pallet_id, params)),
        counted(State::initial(pallet_id, params)),
        live_ones_visited(State::initial(pallet_id, params)),
        floored(State::initial(pallet_id, params)),
        interest_matches(State::initial(pallet_id, params), netuid),
        backed(State::initial(pallet_id, params), netuid),
        margin(State::initial(pallet_id, params), netuid) == 0,
{
    let s = State::initial(pallet_id, params);
    assert forall|n: u16| #[trigger] owners(s, n) == Set::<AccountId>::empty() by {
        assert(owners(s, n) =~= Set::<AccountId>::empty());
    }
    assert(owners(s, netuid) == Set::<AccountId>::empty());
}

/// Custody of a subnet holds as much beyond the floors and the sums in both states, and has to hold
/// as much.
pub open spec fn same_custody(s: State, after: State, netuid: u16) -> bool {
    &&& margin(after, netuid) == margin(s, netuid)
    &&& floors(after, netuid) == floors(s, netuid)
    &&& buffers_due(after, netuid) == buffers_due(s, netuid)
    &&& escrows_due(after, netuid) == escrows_due(s, netuid)
    &&& after.agg(netuid) == s.agg(netuid)
}

/// What happens on one subnet leaves the custody of every other alone, unless the trader or the
/// pool is that custody.
pub proof fn law_other_custody_is_untouched(
    s: State,
    origin: Origin,
    hotkey: AccountId,
    coldkey: AccountId,
    netuid: u16,
    other: u16,
    amount: u64,
    max_q: u64,
)
    requires
        sound(s),
        other != netuid,
        s.subnet(netuid).account != s.custody(other),
        (origin matches Origin::Signed(signer) ==> signer != s.custody(other)),
    ensures
        open_outcome(s, origin, hotkey, netuid, amount, max_q) matches Ok(after) ==> same_custody(
            s,
            after,
            other,
        ),
        top_up_outcome(s, origin, netuid, amount) matches Ok(after) ==> same_custody(
            s,
            after,
            other,
        ),
        close_outcome(s, origin, netuid, amount) matches Ok(after) ==> same_custody(
            s,
            after,
            other,
        ),
        default_outcome(s, origin, coldkey, netuid) matches Ok(after) ==> same_custody(
            s,
            after,
            other,
        ),
        same_custody(s, decay_tick(s, netuid), other),
{
    let custody = s.custody(netuid);
    let pool = s.subnet(netuid).account;
    law_custody_accounts_are_distinct(s.pallet_id, s.pallet_id, netuid, other);
    law_subnets_are_independent(s, origin, hotkey, coldkey, netuid, amount, max_q);
    lemma_open_moves(s, origin, hotkey, netuid, amount, max_q);
    if let Ok(after) = open_outcome(s, origin, hotkey, netuid, amount, max_q) {
        assert(after.balance(s.custody(other)) == s.balance(s.custody(other)));
        lemma_same_custody(s, after, netuid, other);
    }
    if let Ok(after) = top_up_outcome(s, origin, netuid, amount) {
        law_transfer_conserves(s.balances, origin->Signed_0, custody, amount);
        lemma_same_custody(s, after, netuid, other);
    }
    lemma_close_moves(s, origin, netuid, amount);
    if let Ok(after) = close_outcome(s, origin, netuid, amount) {
        assert(after.balance(s.custody(other)) == s.balance(s.custody(other)));
        lemma_same_custody(s, after, netuid, other);
    }
    lemma_default_moves(s, origin, coldkey, netuid);
    if let Ok(after) = default_outcome(s, origin, coldkey, netuid) {
        assert(after.balance(s.custody(other)) == s.balance(s.custody(other)));
        lemma_same_custody(s, after, netuid, other);
    }
    law_transfer_conserves(
        s.balances,
        custody,
        pool,
        restored_amount(s.agg(netuid), next_decay(s, netuid)),
    );
    lemma_same_custody(s, decay_tick(s, netuid), netuid, other);
}

proof fn lemma_same_custody(s: State, after: State, netuid: u16, other: u16)
    requires
        s.positions.dom().finite(),
        other != netuid,
        same_elsewhere(s, after, netuid),
        after.pallet_id == s.pallet_id,
        after.balance(s.custody(other)) == s.balance(s.custody(other)),
    ensures
        same_custody(s, after, other),
{
    lemma_owners_finite(s, other);
    assert forall|c: AccountId| #[trigger] after.has_position(other, c) == s.has_position(other, c)
        && after.position(other, c) == s.position(other, c) by {
        let k = OwnerKey { netuid: other, coldkey: c };
        assert(after.positions.contains_key(k) == s.positions.contains_key(k));
    }
    assert(owners(after, other) =~= owners(s, other));
    assert(after.agg(other) == s.agg(other));
    assert forall|c: AccountId| owners(s, other).contains(c) implies s.position(other, c)
        == #[trigger] after.position(other, c) by {
        assert(after.has_position(other, c) == s.has_position(other, c));
    }
    lemma_sum_over_agrees(
        owners(s, other),
        |c: AccountId| s.position(other, c).p_floor as int,
        |c: AccountId| after.position(other, c).p_floor as int,
    );
    lemma_sum_over_agrees(
        owners(s, other),
        |c: AccountId| s.position(other, c).r_stored * share_bits(s, other, c),
        |c: AccountId| after.position(other, c).r_stored * share_bits(after, other, c),
    );
    lemma_sum_over_agrees(
        owners(s, other),
        |c: AccountId| s.position(other, c).e_stored * share_bits(s, other, c),
        |c: AccountId| after.position(other, c).e_stored * share_bits(after, other, c),
    );
}

/// The decay of a block on many subnets keeps the margin of each, where their accounts are apart.
pub proof fn law_decay_run_keeps_custody_margins(s: State, order: Seq<u16>, netuid: u16)
    requires
        sound(s),
        order.no_duplicates(),
        all_apart(s, order),
        forall|n: u16| order.contains(n) ==> #[trigger] s.decay_bounded(n),
        forall|i: int|
            0 <= i < order.len() ==> s.subnet(#[trigger] order[i]).account != s.custody(order[i]),
        order.contains(netuid),
    ensures
        margin(decay_ticks(s, order), netuid) == margin(s, netuid),
{
    lemma_run_margin(s, order, netuid);
}

proof fn lemma_run_margin(s: State, order: Seq<u16>, netuid: u16)
    requires
        sound(s),
        order.no_duplicates(),
        forall|i: int|
            0 <= i < order.len() ==> s.subnet(#[trigger] order[i]).account != s.custody(netuid),
        order.contains(netuid) ==> s.decay_bounded(netuid),
    ensures
        sound(decay_ticks(s, order)),
        margin(decay_ticks(s, order), netuid) == margin(s, netuid),
        decay_ticks(s, order).pallet_id == s.pallet_id,
    decreases order.len(),
{
    if order.len() > 0 {
        let less = order.drop_last();
        let last = order.last();
        crate::laws::ledger::law_decay_run_conserves_tao(s, order);
        crate::laws::ledger::law_decay_run_conserves_tao(s, less);
        assert forall|i: int| 0 <= i < less.len() implies s.subnet(#[trigger] less[i]).account
            != s.custody(netuid) by {
            assert(less[i] == order[i]);
        }
        assert(less.contains(netuid) ==> order.contains(netuid)) by {
            if less.contains(netuid) {
                let i = choose|i: int| 0 <= i < less.len() && less[i] == netuid;
                assert(order[i] == netuid);
            }
        }
        lemma_run_margin(s, less, netuid);
        let before = decay_ticks(s, less);
        assert(order[order.len() - 1] == last);
        crate::laws::decaying::lemma_ticks_keep_accounts(s, less);
        assert(before.subnet(last).account == s.subnet(last).account);
        if last == netuid {
            assert(order.contains(netuid));
            assert(!less.contains(netuid)) by {
                if less.contains(netuid) {
                    let i = choose|i: int| 0 <= i < less.len() && less[i] == netuid;
                    assert(order[i] == order[order.len() - 1]);
                }
            }
            crate::decay::lemma_decay_apart(s, less, netuid);
            law_decay_keeps_custody_margin(before, netuid);
        } else {
            law_other_custody_is_untouched(
                before,
                Origin::Root,
                before.custody(last),
                before.custody(last),
                last,
                netuid,
                0,
                0,
            );
        }
    }
}

} // verus!
