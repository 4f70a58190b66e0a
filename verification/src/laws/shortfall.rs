//! How far custody may fall short, and what that comes from.
//!
//! The sums of a subnet decay by the share of each block, the positions by an exponential of the
//! accumulated logarithms. Each is rounded on its own, so a position may come out a little above
//! its part of the sums. Nothing but that ever makes custody fall short.
use crate::accounts::{AccountId, Origin};
use crate::close::{close_outcome, default_outcome, slice_of};
use crate::decay::{decay_tick, decayed_agg, next_decay};
use crate::fixed::{fits, Fixed, ONE_BITS};
use crate::laws::books::{counted, lemma_owners_finite, owners};
use crate::laws::custody::{
    backed, buffers_due, custody_released, escrows_due, law_decay_keeps_custody_margin,
    lemma_close_custody, lemma_default_custody, lemma_obligations_in_bits, lemma_open_custody,
    lemma_scaled_bits, lemma_top_up_custody, margin, obligations, same_custody, share_bits,
};
use crate::laws::compounding::ticked;
use crate::laws::decaying::lemma_next_decay;
use crate::laws::ledger::{law_decay_conserves_tao, sound};
use crate::laws::sums::{
    lemma_sum_over_agrees, lemma_sum_over_bound, lemma_sum_over_ordered, lemma_sum_over_plus,
    lemma_sum_over_times, sum_over,
};
use crate::math::{from_ppb, lemma_scaled, materialized, scaled};
use crate::open::{open_outcome, top_up_outcome};
use crate::pallet::State;
use vstd::prelude::*;

verus! {

broadcast use crate::math::lemma_remaining_share;

/// `x`, and zero for less than zero.
pub open spec fn positive_part(x: int) -> int {
    if x < 0 {
        0
    } else {
        x
    }
}

/// How far custody may fall short of what the shorts of a subnet are due, in bits: what it lacks
/// of the floors and the sums, and what the sums lack of the buffers and of the escrows.
pub open spec fn shortfall(s: State, netuid: u16) -> int {
    let agg = s.agg(netuid);
    positive_part(-(margin(s, netuid) * ONE_BITS)) + positive_part(
        buffers_due(s, netuid) - agg.r_sigma * ONE_BITS,
    ) + positive_part(escrows_due(s, netuid) - agg.e_sigma * ONE_BITS)
}

/// By how much more than the decay of the next block what is left of a unit of a position comes
/// out after it, in bits of bits.
pub open spec fn share_excess(s: State, netuid: u16, coldkey: AccountId) -> int {
    positive_part(
        share_bits(decay_tick(s, netuid), netuid, coldkey) * ONE_BITS - share_bits(
            s,
            netuid,
            coldkey,
        ) * (ONE_BITS - next_decay(s, netuid).bits),
    )
}

/// What the next block makes the buffers exceed their sum by, in bits of bits.
pub open spec fn buffer_gap(s: State, netuid: u16) -> int {
    sum_over(
        owners(s, netuid),
        |c: AccountId| s.position(netuid, c).r_stored * share_excess(s, netuid, c),
    )
}

/// What the next block makes the escrows exceed their sum by, in bits of bits.
pub open spec fn escrow_gap(s: State, netuid: u16) -> int {
    sum_over(
        owners(s, netuid),
        |c: AccountId| s.position(netuid, c).e_stored * share_excess(s, netuid, c),
    )
}

/// There is no shortfall where, and only where, custody backs the shorts.
pub proof fn law_no_shortfall_is_backing(s: State, netuid: u16)
    ensures
        shortfall(s, netuid) == 0 <==> backed(s, netuid),
        shortfall(s, netuid) >= 0,
{
}

/// Custody holds what the shorts of a subnet are due but for the shortfall, and all of it where
/// the shortfall is less than one rao.
pub proof fn law_obligations_within_the_shortfall(s: State, netuid: u16)
    requires
        s.positions.dom().finite(),
        forall|c: AccountId| #[trigger] s.position_bounded(netuid, c),
    ensures
        obligations(s, netuid) * ONE_BITS <= s.balance(s.custody(netuid)) * ONE_BITS + shortfall(
            s,
            netuid,
        ),
        shortfall(s, netuid) < ONE_BITS ==> obligations(s, netuid) <= s.balance(s.custody(netuid)),
{
    lemma_obligations_in_bits(s, netuid);
}

/// Opening adds nothing to the shortfall, as long as the sums fit.
pub proof fn law_open_adds_no_shortfall(
    s: State,
    origin: Origin,
    hotkey: AccountId,
    netuid: u16,
    input: u64,
    max_q: u64,
)
    requires
        sound(s),
        (origin matches Origin::Signed(coldkey) ==> s.position_bounded(netuid, coldkey) && coldkey
            != s.custody(netuid)),
        s.subnet(netuid).account != s.custody(netuid),
    ensures
        open_outcome(s, origin, hotkey, netuid, input, max_q) matches Ok(after) ==> (after.agg(
            netuid,
        ).r_sigma < u64::MAX && after.agg(netuid).e_sigma < u64::MAX ==> shortfall(after, netuid)
            <= shortfall(s, netuid)),
{
    lemma_open_custody(s, origin, hotkey, netuid, input, max_q);
}

/// A top-up adds nothing to the shortfall, as long as the sum of the buffers fits.
pub proof fn law_top_up_adds_no_shortfall(s: State, origin: Origin, netuid: u16, amount: u64)
    requires
        sound(s),
        (origin matches Origin::Signed(coldkey) ==> s.position_bounded(netuid, coldkey) && coldkey
            != s.custody(netuid)),
    ensures
        top_up_outcome(s, origin, netuid, amount) matches Ok(after) ==> (after.agg(netuid).r_sigma
            < u64::MAX ==> shortfall(after, netuid) <= shortfall(s, netuid)),
{
    lemma_top_up_custody(s, origin, netuid, amount);
}

/// What leaves with what it was booked for adds nothing to the shortfall. Where a sum holds less
/// than leaves, the sum lacks that much less and custody that much more.
proof fn lemma_release_adds_no_shortfall(
    s: State,
    after: State,
    netuid: u16,
    p: u64,
    r: u64,
    e: u64,
)
    requires
        custody_released(s, after, netuid, p, r, e),
    ensures
        shortfall(after, netuid) <= shortfall(s, netuid),
{
}

/// Closing adds nothing to the shortfall.
pub proof fn law_close_adds_no_shortfall(s: State, origin: Origin, netuid: u16, fraction_ppb: u64)
    requires
        sound(s),
        counted(s),
        (origin matches Origin::Signed(coldkey) ==> s.position_wholly_bounded(netuid, coldkey)
            && coldkey != s.custody(netuid)),
        s.subnet(netuid).account != s.custody(netuid),
    ensures
        close_outcome(s, origin, netuid, fraction_ppb) matches Ok(after) ==> shortfall(after, netuid)
            <= shortfall(s, netuid),
{
    lemma_close_custody(s, origin, netuid, fraction_ppb);
    if let Ok(after) = close_outcome(s, origin, netuid, fraction_ppb) {
        let pos = materialized(s.position(netuid, origin->Signed_0), s.agg(netuid).omega);
        let slice = slice_of(pos, from_ppb(fraction_ppb));
        lemma_release_adds_no_shortfall(s, after, netuid, slice.p, slice.r, slice.e);
    }
}

/// A default adds nothing to the shortfall.
pub proof fn law_default_adds_no_shortfall(
    s: State,
    origin: Origin,
    coldkey: AccountId,
    netuid: u16,
)
    requires
        sound(s),
        counted(s),
        s.position_bounded(netuid, coldkey),
        s.subnet(netuid).account != s.custody(netuid),
    ensures
        default_outcome(s, origin, coldkey, netuid) matches Ok(after) ==> shortfall(after, netuid)
            <= shortfall(s, netuid),
{
    lemma_default_custody(s, origin, coldkey, netuid);
    if let Ok(after) = default_outcome(s, origin, coldkey, netuid) {
        let pos = materialized(s.position(netuid, coldkey), s.agg(netuid).omega);
        lemma_release_adds_no_shortfall(
            s,
            after,
            netuid,
            pos.p_floor,
            pos.r_stored,
            pos.e_stored,
        );
    }
}

/// The decay of a block adds to the shortfall at most what the shares of the positions come out
/// above the decay of the block, rounded down to bits.
pub proof fn law_decay_adds_the_gap(s: State, netuid: u16)
    requires
        sound(s),
        s.decay_bounded(netuid),
        s.subnet(netuid).account != s.custody(netuid),
    ensures
        shortfall(decay_tick(s, netuid), netuid) <= shortfall(s, netuid) + buffer_gap(s, netuid) / (
        ONE_BITS as int) + escrow_gap(s, netuid) / (ONE_BITS as int),
        buffer_gap(s, netuid) >= 0,
        escrow_gap(s, netuid) >= 0,
{
    let after = decay_tick(s, netuid);
    let agg = s.agg(netuid);
    let delta = next_decay(s, netuid);
    let all = owners(s, netuid);
    lemma_next_decay(s, netuid);
    lemma_owners_finite(s, netuid);
    law_decay_keeps_custody_margin(s, netuid);
    let r = |c: AccountId| s.position(netuid, c).r_stored as int;
    let e = |c: AccountId| s.position(netuid, c).e_stored as int;
    lemma_gap_is_positive(s, netuid, all, r);
    lemma_gap_is_positive(s, netuid, all, e);
    lemma_sum_over_agrees(
        all,
        |c: AccountId| r(c) * share_excess(s, netuid, c),
        |c: AccountId| s.position(netuid, c).r_stored * share_excess(s, netuid, c),
    );
    lemma_sum_over_agrees(
        all,
        |c: AccountId| e(c) * share_excess(s, netuid, c),
        |c: AccountId| s.position(netuid, c).e_stored * share_excess(s, netuid, c),
    );
    vstd::arithmetic::div_mod::lemma_div_pos_is_pos(buffer_gap(s, netuid), ONE_BITS as int);
    vstd::arithmetic::div_mod::lemma_div_pos_is_pos(escrow_gap(s, netuid), ONE_BITS as int);
    if after != s {
        assert(after.agg(netuid) == decayed_agg(agg, delta));
        lemma_scaled(agg.r_sigma, delta);
        lemma_scaled(agg.e_sigma, delta);
        assert(owners(after, netuid) =~= all);
        lemma_due_follows(s, netuid, all, r, delta, agg.r_sigma);
        lemma_due_follows(s, netuid, all, e, delta, agg.e_sigma);
        lemma_sum_over_agrees(
            all,
            |c: AccountId| r(c) * share_bits(s, netuid, c),
            |c: AccountId| s.position(netuid, c).r_stored * share_bits(s, netuid, c),
        );
        lemma_sum_over_agrees(
            all,
            |c: AccountId| e(c) * share_bits(s, netuid, c),
            |c: AccountId| s.position(netuid, c).e_stored * share_bits(s, netuid, c),
        );
        lemma_sum_over_agrees(
            all,
            |c: AccountId| r(c) * share_bits(after, netuid, c),
            |c: AccountId| after.position(netuid, c).r_stored * share_bits(after, netuid, c),
        );
        lemma_sum_over_agrees(
            all,
            |c: AccountId| e(c) * share_bits(after, netuid, c),
            |c: AccountId| after.position(netuid, c).e_stored * share_bits(after, netuid, c),
        );
    }
}

/// What the next `k` blocks add to the shortfall at most.
pub open spec fn gaps(s: State, netuid: u16, k: nat) -> int
    decreases k,
{
    if k == 0 {
        0
    } else {
        let t = ticked(s, netuid, (k - 1) as nat);
        gaps(s, netuid, (k - 1) as nat) + buffer_gap(t, netuid) / (ONE_BITS as int) + escrow_gap(
            t,
            netuid,
        ) / (ONE_BITS as int)
    }
}

/// The decay of many blocks adds to the shortfall at most the sum of their gaps.
pub proof fn law_many_blocks_add_their_gaps(s: State, netuid: u16, k: nat)
    requires
        sound(s),
        s.subnet(netuid).account != s.custody(netuid),
        forall|j: nat| j < k ==> (#[trigger] ticked(s, netuid, j)).decay_bounded(netuid),
    ensures
        shortfall(ticked(s, netuid, k), netuid) <= shortfall(s, netuid) + gaps(s, netuid, k),
        sound(ticked(s, netuid, k)),
        ticked(s, netuid, k).subnet(netuid).account == s.subnet(netuid).account,
        ticked(s, netuid, k).pallet_id == s.pallet_id,
    decreases k,
{
    if k > 0 {
        let j = (k - 1) as nat;
        assert forall|i: nat| i < j implies (#[trigger] ticked(s, netuid, i)).decay_bounded(
            netuid,
        ) by {
            assert(i < k);
        }
        law_many_blocks_add_their_gaps(s, netuid, j);
        let t = ticked(s, netuid, j);
        assert(t.decay_bounded(netuid));
        law_decay_conserves_tao(t, netuid);
        law_decay_adds_the_gap(t, netuid);
    }
}

/// What leaves the custody of a subnet alone leaves its shortfall alone.
pub proof fn law_shortfalls_are_independent(s: State, after: State, netuid: u16)
    requires
        same_custody(s, after, netuid),
    ensures
        shortfall(after, netuid) == shortfall(s, netuid),
{
}

proof fn lemma_gap_is_positive(
    s: State,
    netuid: u16,
    all: Set<AccountId>,
    n: spec_fn(AccountId) -> int,
)
    requires
        all.finite(),
        forall|c: AccountId| all.contains(c) ==> #[trigger] n(c) >= 0,
    ensures
        sum_over(all, |c: AccountId| n(c) * share_excess(s, netuid, c)) >= 0,
{
    let gap = |c: AccountId| n(c) * share_excess(s, netuid, c);
    assert forall|c: AccountId| all.contains(c) implies #[trigger] gap(c) >= 0 by {
        let x = share_excess(s, netuid, c);
        assert(n(c) >= 0);
        assert(n(c) * x >= 0) by (nonlinear_arith)
            requires
                n(c) >= 0,
                x >= 0,
        ;
    }
    lemma_sum_over_bound(all, gap, s.custody(netuid));
}

/// What is due follows the sum down, but for the gap.
proof fn lemma_due_follows(
    s: State,
    netuid: u16,
    all: Set<AccountId>,
    n: spec_fn(AccountId) -> int,
    delta: Fixed,
    sigma: u64,
)
    requires
        all.finite(),
        fits(sigma),
        delta == next_decay(s, netuid),
        0 <= delta.bits < ONE_BITS,
        forall|c: AccountId| all.contains(c) ==> #[trigger] n(c) >= 0,
    ensures
        ({
            let after = decay_tick(s, netuid);
            let was = sum_over(all, |c: AccountId| n(c) * share_bits(s, netuid, c));
            let now = sum_over(all, |c: AccountId| n(c) * share_bits(after, netuid, c));
            let gap = sum_over(all, |c: AccountId| n(c) * share_excess(s, netuid, c));
            positive_part(now - (sigma - scaled(sigma, delta)) * ONE_BITS) <= positive_part(
                was - sigma * ONE_BITS,
            ) + gap / (ONE_BITS as int)
        }),
{
    let after = decay_tick(s, netuid);
    let one = ONE_BITS as int;
    let keep = one - delta.bits;
    let was_of = |c: AccountId| n(c) * share_bits(s, netuid, c);
    let now_of = |c: AccountId| n(c) * share_bits(after, netuid, c);
    let gap_of = |c: AccountId| n(c) * share_excess(s, netuid, c);
    let was_keep = |c: AccountId| was_of(c) * keep;
    let now_one = |c: AccountId| now_of(c) * one;
    let bound = |c: AccountId| was_keep(c) + gap_of(c);
    assert forall|c: AccountId| all.contains(c) implies #[trigger] now_one(c) <= bound(c) by {
        let (x, y, z) = (
            share_bits(s, netuid, c),
            share_bits(after, netuid, c),
            share_excess(s, netuid, c),
        );
        let m = n(c);
        assert((m * y) * one <= (m * x) * keep + m * z) by (nonlinear_arith)
            requires
                m >= 0,
                y * one <= x * keep + z,
        {
            assert(m * (y * one) <= m * (x * keep + z));
        }
    }
    lemma_sum_over_ordered(all, now_one, bound);
    lemma_sum_over_times(all, now_of, one);
    lemma_sum_over_agrees(all, now_one, |c: AccountId| now_of(c) * one);
    lemma_sum_over_times(all, was_of, keep);
    lemma_sum_over_agrees(all, was_keep, |c: AccountId| was_of(c) * keep);
    lemma_sum_over_plus(all, was_keep, gap_of);
    lemma_sum_over_agrees(all, bound, |c: AccountId| was_keep(c) + gap_of(c));
    let (was, now, gap) = (sum_over(all, was_of), sum_over(all, now_of), sum_over(all, gap_of));
    lemma_gap_is_positive(s, netuid, all, n);
    lemma_scaled_bits(sigma, delta);
    lemma_scaled(sigma, delta);
    let left = sigma - scaled(sigma, delta);
    let over = positive_part(was - sigma * one);
    assert(sigma * keep <= left * one) by (nonlinear_arith)
        requires
            scaled(sigma, delta) * one <= sigma * delta.bits,
            left == sigma - scaled(sigma, delta),
            keep == one - delta.bits,
    ;
    let excess = now - left * one;
    assert(excess * one <= over * one + gap) by (nonlinear_arith)
        requires
            now * one <= was * keep + gap,
            was <= sigma * one + over,
            sigma * keep <= left * one,
            over >= 0,
            0 < keep <= one,
            excess == now - left * one,
    {
        assert(was * keep <= (sigma * one + over) * keep);
        assert((sigma * one + over) * keep == (sigma * keep) * one + over * keep);
        assert((sigma * keep) * one <= (left * one) * one);
        assert(over * keep <= over * one);
        assert(excess * one == now * one - (left * one) * one);
    }
    vstd::arithmetic::div_mod::lemma_fundamental_div_mod(gap, one);
    vstd::arithmetic::div_mod::lemma_div_pos_is_pos(gap, one);
    let g = gap / one;
    assert(excess <= over + g) by (nonlinear_arith)
        requires
            excess * one <= over * one + gap,
            gap == one * g + gap % one,
            0 <= gap % one < one,
            one > 0,
    {
        assert((excess - over - g) * one < one);
    }
}

} // verus!
