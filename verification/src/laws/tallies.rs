//! The sums of a subnet are what its positions come to.
use crate::accounts::{AccountId, Origin, OwnerKey};
use crate::close::{close_outcome, default_outcome};
use crate::decay::{decay_tick, decayed_agg, next_decay};
use crate::fixed::{fits, ONE_BITS};
use crate::laws::books::{
    counted, lemma_owners_finite, lemma_sum_after_insert, lemma_sum_after_remove, owners,
};
use crate::laws::bounds::{entries_past, lemma_decay_of_a_block};
use crate::laws::custody::share_bits;
use crate::laws::following::{law_share_follows_the_block, BLOCK_UNITS};
use crate::laws::ledger::sound;
use crate::laws::moves::{
    all_sums_fit, held, law_close_books_both_sides, law_default_books_both_sides,
    law_open_books_both_sides, law_top_up_books_both_sides, lessened, one_position_changes,
    position_fits,
};
use crate::laws::parts::{lemma_sum_left, loss_to_eight};
use crate::laws::sums::{
    lemma_sum_over_agrees, lemma_sum_over_ordered, lemma_sum_over_plus, lemma_sum_over_times,
    sum_over,
};
use crate::math::{lemma_materialized, scaled};
use crate::open::{open_outcome, top_up_outcome};
use crate::pallet::State;
use vstd::prelude::*;

verus! {

broadcast use crate::math::lemma_remaining_share;

/// The buffers of the shorts of a subnet at the present.
pub open spec fn buffers_held(s: State, netuid: u16) -> int {
    sum_over(owners(s, netuid), |c: AccountId| held(s, netuid, c).r_stored as int)
}

/// The escrows of the shorts of a subnet at the present.
pub open spec fn escrows_held(s: State, netuid: u16) -> int {
    sum_over(owners(s, netuid), |c: AccountId| held(s, netuid, c).e_stored as int)
}

/// The footprints of the shorts of a subnet at the present.
pub open spec fn footprints_held(s: State, netuid: u16) -> int {
    sum_over(owners(s, netuid), |c: AccountId| held(s, netuid, c).b_stored as int)
}

/// A call that changes one position changes the sum over all of them by as much.
proof fn lemma_held_changes(s: State, after: State, netuid: u16, coldkey: AccountId)
    requires
        s.positions.dom().finite(),
        one_position_changes(s, after, netuid, coldkey),
        s.has_position(netuid, coldkey) || after.has_position(netuid, coldkey),
        after.agg(netuid).omega == s.agg(netuid).omega || (!after.has_position(netuid, coldkey)
            && owners(s, netuid).len() <= 1),
    ensures
        ({
            let (was, is) = (held(s, netuid, coldkey), held(after, netuid, coldkey));
            &&& buffers_held(after, netuid) == buffers_held(s, netuid) + is.r_stored - was.r_stored
            &&& escrows_held(after, netuid) == escrows_held(s, netuid) + is.e_stored - was.e_stored
            &&& footprints_held(after, netuid) == footprints_held(s, netuid) + is.b_stored
                - was.b_stored
        }),
{
    let key = OwnerKey { netuid, coldkey };
    lemma_owners_finite(s, netuid);
    let all = owners(s, netuid);
    assert forall|c: AccountId| c != coldkey && s.has_position(netuid, c) implies #[trigger] held(
        after,
        netuid,
        c,
    ) == held(s, netuid, c) by {
        if after.agg(netuid).omega != s.agg(netuid).omega {
            assert(all.contains(coldkey));
            assert(all.remove(coldkey).contains(c));
            assert(all.remove(coldkey).len() > 0) by {
                vstd::set_lib::lemma_set_empty_equivalency_len(all.remove(coldkey));
            }
        }
        assert(after.has_position(netuid, c));
    }
    let r = |c: AccountId| held(s, netuid, c).r_stored as int;
    let e = |c: AccountId| held(s, netuid, c).e_stored as int;
    let b = |c: AccountId| held(s, netuid, c).b_stored as int;
    let r2 = |c: AccountId| held(after, netuid, c).r_stored as int;
    let e2 = |c: AccountId| held(after, netuid, c).e_stored as int;
    let b2 = |c: AccountId| held(after, netuid, c).b_stored as int;
    if after.has_position(netuid, coldkey) {
        assert(after.positions.dom() =~= s.positions.dom().insert(key));
        lemma_sum_after_insert(s, after, key, r, r2);
        lemma_sum_after_insert(s, after, key, e, e2);
        lemma_sum_after_insert(s, after, key, b, b2);
    } else {
        assert(after.positions.dom() =~= s.positions.dom().remove(key));
        lemma_sum_after_remove(s, after, key, r, r2);
        lemma_sum_after_remove(s, after, key, e, e2);
        lemma_sum_after_remove(s, after, key, b, b2);
    }
}

/// What is stored at the present is held as it is.
proof fn lemma_fresh(s: State, netuid: u16, coldkey: AccountId)
    requires
        s.has_position(netuid, coldkey),
        s.position(netuid, coldkey).bounded(),
        s.position(netuid, coldkey).omega_entry == s.agg(netuid).omega,
    ensures
        held(s, netuid, coldkey) == s.position(netuid, coldkey),
{
    lemma_materialized(s.position(netuid, coldkey), s.agg(netuid).omega);
}

/// Opening raises the sums by what it raises the buffers, the escrows and the footprints that the
/// positions hold.
pub proof fn law_open_tallies(
    s: State,
    origin: Origin,
    hotkey: AccountId,
    netuid: u16,
    input: u64,
    max_q: u64,
)
    requires
        sound(s),
        s.subnet(netuid).bounded(),
        fits(input),
        s.subnet(netuid).account != s.custody(netuid),
        (origin matches Origin::Signed(c) ==> c != s.custody(netuid) && c
            != s.subnet(netuid).account && s.position_bounded(netuid, c)),
    ensures
        open_outcome(s, origin, hotkey, netuid, input, max_q) matches Ok(after) ==> {
            let c = origin->Signed_0;
            let (old_sums, sums) = (s.agg(netuid), after.agg(netuid));
            after.position_bounded(netuid, c) && position_fits(after.position(netuid, c))
                && all_sums_fit(sums) ==> {
                &&& sums.r_sigma - old_sums.r_sigma == buffers_held(after, netuid) - buffers_held(
                    s,
                    netuid,
                )
                &&& sums.e_sigma - old_sums.e_sigma == escrows_held(after, netuid) - escrows_held(
                    s,
                    netuid,
                )
                &&& sums.b_sigma - old_sums.b_sigma == footprints_held(after, netuid)
                    - footprints_held(s, netuid)
            }
        },
{
    law_open_books_both_sides(s, origin, hotkey, netuid, input, max_q);
    if let Ok(after) = open_outcome(s, origin, hotkey, netuid, input, max_q) {
        let c = origin->Signed_0;
        lemma_held_changes(s, after, netuid, c);
        if after.position_bounded(netuid, c) {
            lemma_fresh(after, netuid, c);
        }
    }
}

/// A top-up raises the sum of the buffers by what it raises the buffers, and nothing else.
pub proof fn law_top_up_tallies(s: State, origin: Origin, netuid: u16, amount: u64)
    requires
        sound(s),
        (origin matches Origin::Signed(c) ==> c != s.custody(netuid) && s.position_bounded(
            netuid,
            c,
        )),
    ensures
        top_up_outcome(s, origin, netuid, amount) matches Ok(after) ==> {
            let c = origin->Signed_0;
            let (old_sums, sums) = (s.agg(netuid), after.agg(netuid));
            after.position_bounded(netuid, c) && sums.r_sigma < u64::MAX ==> {
                &&& sums.r_sigma - old_sums.r_sigma == buffers_held(after, netuid) - buffers_held(
                    s,
                    netuid,
                )
                &&& escrows_held(after, netuid) == escrows_held(s, netuid)
                &&& footprints_held(after, netuid) == footprints_held(s, netuid)
            }
        },
{
    law_top_up_books_both_sides(s, origin, netuid, amount);
    if let Ok(after) = top_up_outcome(s, origin, netuid, amount) {
        let c = origin->Signed_0;
        lemma_held_changes(s, after, netuid, c);
        if after.position_bounded(netuid, c) {
            lemma_fresh(after, netuid, c);
        }
    }
}

/// Closing lowers the sums by what it lowers the buffers, the escrows and the footprints that the
/// positions hold, as far as the sums go; and they go with the last position.
pub proof fn law_close_tallies(s: State, origin: Origin, netuid: u16, ppb: u64)
    requires
        sound(s),
        counted(s),
        s.subnet(netuid).account != s.custody(netuid),
        (origin matches Origin::Signed(c) ==> c != s.custody(netuid) && c
            != s.subnet(netuid).account && s.position_wholly_bounded(netuid, c) && (s.has_position(
            netuid,
            c,
        ) ==> held(s, netuid, c).p_floor > 0)),
    ensures
        close_outcome(s, origin, netuid, ppb) matches Ok(after) ==> {
            let (old_sums, sums) = (s.agg(netuid), after.agg(netuid));
            if owners(after, netuid).len() == 0 {
                !after.aggregates.contains_key(netuid)
            } else {
                &&& sums.r_sigma == lessened(
                    old_sums.r_sigma,
                    buffers_held(s, netuid) - buffers_held(after, netuid),
                )
                &&& sums.e_sigma == lessened(
                    old_sums.e_sigma,
                    escrows_held(s, netuid) - escrows_held(after, netuid),
                )
                &&& sums.b_sigma == lessened(
                    old_sums.b_sigma,
                    footprints_held(s, netuid) - footprints_held(after, netuid),
                )
            }
        },
{
    law_close_books_both_sides(s, origin, netuid, ppb);
    if let Ok(after) = close_outcome(s, origin, netuid, ppb) {
        let c = origin->Signed_0;
        lemma_materialized(s.position(netuid, c), s.agg(netuid).omega);
        lemma_held_changes(s, after, netuid, c);
        if after.has_position(netuid, c) {
            lemma_fresh(after, netuid, c);
        }
        lemma_owners_left(s, after, netuid, c);
    }
}

/// How many owners are left.
pub proof fn lemma_owners_left(s: State, after: State, netuid: u16, coldkey: AccountId)
    requires
        s.positions.dom().finite(),
        s.has_position(netuid, coldkey),
        one_position_changes(s, after, netuid, coldkey),
    ensures
        after.has_position(netuid, coldkey) ==> owners(after, netuid).len() > 0,
        !after.has_position(netuid, coldkey) ==> owners(after, netuid).len() == owners(
            s,
            netuid,
        ).len() - 1,
{
    let key = OwnerKey { netuid, coldkey };
    lemma_owners_finite(s, netuid);
    if after.has_position(netuid, coldkey) {
        assert(after.positions.dom() =~= s.positions.dom().insert(key));
        lemma_owners_finite(after, netuid);
        assert(owners(after, netuid).contains(coldkey));
        vstd::set_lib::lemma_set_empty_equivalency_len(owners(after, netuid));
    } else {
        assert(after.positions.dom() =~= s.positions.dom().remove(key));
        crate::laws::books::lemma_owners_remove(s, after, key);
        assert(owners(s, netuid).contains(coldkey));
    }
}

/// A default lowers the sums by all that the position holds, as far as the sums go; and they go with
/// the last position.
pub proof fn law_default_tallies(s: State, origin: Origin, coldkey: AccountId, netuid: u16)
    requires
        sound(s),
        counted(s),
        s.subnet(netuid).account != s.custody(netuid),
        s.position_bounded(netuid, coldkey),
    ensures
        default_outcome(s, origin, coldkey, netuid) matches Ok(after) ==> {
            let (old_sums, sums) = (s.agg(netuid), after.agg(netuid));
            if owners(after, netuid).len() == 0 {
                !after.aggregates.contains_key(netuid)
            } else {
                &&& sums.r_sigma == lessened(
                    old_sums.r_sigma,
                    buffers_held(s, netuid) - buffers_held(after, netuid),
                )
                &&& sums.e_sigma == lessened(
                    old_sums.e_sigma,
                    escrows_held(s, netuid) - escrows_held(after, netuid),
                )
                &&& sums.b_sigma == lessened(
                    old_sums.b_sigma,
                    footprints_held(s, netuid) - footprints_held(after, netuid),
                )
            }
        },
{
    law_default_books_both_sides(s, origin, coldkey, netuid);
    if let Ok(after) = default_outcome(s, origin, coldkey, netuid) {
        lemma_held_changes(s, after, netuid, coldkey);
        lemma_owners_left(s, after, netuid, coldkey);
    }
}

/// What is stored as footprints.
pub open spec fn footprints_stored(s: State, netuid: u16) -> int {
    sum_over(owners(s, netuid), |c: AccountId| s.position(netuid, c).b_stored as int)
}

/// The footprints at the present, in bits.
pub open spec fn footprints_due(s: State, netuid: u16) -> int {
    sum_over(
        owners(s, netuid),
        |c: AccountId| s.position(netuid, c).b_stored * share_bits(s, netuid, c),
    )
}

/// By how much the sum of the footprints and the footprints themselves are apart, in bits.
pub open spec fn footprint_drift(s: State, netuid: u16) -> int {
    s.agg(netuid).b_sigma * ONE_BITS - footprints_due(s, netuid)
}

/// The decay of a block lowers the sum of the footprints as it lowers the footprints. The two come
/// apart by no more than a number of bits for each rao that was written down as a footprint, and a
/// rao for the rounding of the sum, while no position has gone through a loss of more than eight.
pub proof fn law_decay_keeps_footprints_tallied(s: State, netuid: u16)
    requires
        sound(s),
        entries_past(s),
        s.decay_bounded(netuid),
        s.agg(netuid).omega.bits + ONE_BITS <= i128::MAX,
        forall|c: AccountId| #[trigger]
            s.has_position(netuid, c) ==> loss_to_eight(decay_tick(s, netuid), netuid, c),
    ensures
        ({
            let after = decay_tick(s, netuid);
            let units = BLOCK_UNITS * footprints_stored(s, netuid);
            let (was, is) = (footprint_drift(s, netuid), footprint_drift(after, netuid));
            &&& -units <= is || was - units <= is
            &&& is <= units + ONE_BITS || is <= was + units + ONE_BITS
        }),
{
    let after = decay_tick(s, netuid);
    let one = ONE_BITS as int;
    let all = owners(s, netuid);
    lemma_owners_finite(s, netuid);
    let n = |c: AccountId| s.position(netuid, c).b_stored as int;
    let was_of = |c: AccountId| s.position(netuid, c).b_stored * share_bits(s, netuid, c);
    let now_of = |c: AccountId| after.position(netuid, c).b_stored * share_bits(after, netuid, c);
    let stored = sum_over(all, n);
    assert(stored >= 0) by {
        crate::laws::sums::lemma_sum_over_bound(all, n, s.custody(netuid));
    }
    if after != s {
        let delta = next_decay(s, netuid);
        lemma_decay_of_a_block(s, netuid);
        let keep = one - delta.bits;
        let u = BLOCK_UNITS * one;
        let up = |c: AccountId| was_of(c) * keep;
        let slack = |c: AccountId| n(c) * u;
        let now_one = |c: AccountId| now_of(c) * one;
        let high = |c: AccountId| up(c) + slack(c);
        let now_slack = |c: AccountId| now_one(c) + slack(c);
        assert(owners(after, netuid) =~= all);
        assert forall|c: AccountId| all.contains(c) implies #[trigger] now_one(c) <= high(c) && up(c)
            <= now_slack(c) by {
            assert(s.has_position(netuid, c));
            assert(loss_to_eight(after, netuid, c));
            law_share_follows_the_block(
                s.position(netuid, c).omega_entry,
                s.agg(netuid).omega,
                delta,
            );
            let (x, y, m) = (share_bits(s, netuid, c), share_bits(after, netuid, c), n(c));
            assert((m * y) * one <= (m * x) * keep + m * u && (m * x) * keep <= (m * y) * one + m * u)
                by (nonlinear_arith)
                requires
                    m >= 0,
                    y * one <= x * keep + u,
                    x * keep <= y * one + u,
            {
                assert(m * (y * one) <= m * (x * keep + u));
                assert(m * (x * keep) <= m * (y * one + u));
            }
        }
        lemma_sum_over_ordered(all, now_one, high);
        assert forall|c: AccountId| all.contains(c) implies #[trigger] up(c) <= now_slack(c) by {
            assert(now_one(c) <= high(c));
        }
        lemma_sum_over_ordered(all, up, now_slack);
        lemma_sum_over_plus(all, up, slack);
        lemma_sum_over_plus(all, now_one, slack);
        lemma_sum_over_agrees(all, high, |c: AccountId| up(c) + slack(c));
        lemma_sum_over_agrees(all, now_slack, |c: AccountId| now_one(c) + slack(c));
        lemma_sum_over_times(all, was_of, keep);
        lemma_sum_over_times(all, now_of, one);
        lemma_sum_over_times(all, n, u);
        lemma_sum_over_agrees(all, up, |c: AccountId| was_of(c) * keep);
        lemma_sum_over_agrees(all, now_one, |c: AccountId| now_of(c) * one);
        lemma_sum_over_agrees(all, slack, |c: AccountId| n(c) * u);
        let (was, now) = (sum_over(all, was_of), sum_over(all, now_of));
        assert(now * one <= was * keep + stored * u && was * keep <= now * one + stored * u);
        let sigma = s.agg(netuid).b_sigma;
        assert(after.agg(netuid) == decayed_agg(s.agg(netuid), delta));
        lemma_sum_left(sigma, delta);
        let next = sigma - scaled(sigma, delta);
        assert(after.agg(netuid).b_sigma == next);
        assert(was == footprints_due(s, netuid));
        assert(now == footprints_due(after, netuid));
        lemma_drift(sigma as int, next, was, now, stored, keep);
    }
}

proof fn lemma_drift(sigma: int, next: int, was: int, now: int, stored: int, keep: int)
    requires
        0 <= keep <= ONE_BITS,
        stored >= 0,
        sigma * keep <= next * ONE_BITS < sigma * keep + ONE_BITS,
        now * ONE_BITS <= was * keep + stored * (BLOCK_UNITS * ONE_BITS),
        was * keep <= now * ONE_BITS + stored * (BLOCK_UNITS * ONE_BITS),
    ensures
        ({
            let units = BLOCK_UNITS * stored;
            let (old_drift, drift) = (sigma * ONE_BITS - was, next * ONE_BITS - now);
            &&& -units <= drift || old_drift - units <= drift
            &&& drift <= units + ONE_BITS || drift <= old_drift + units + ONE_BITS
        }),
{
    let one = ONE_BITS as int;
    let units = BLOCK_UNITS * stored;
    let (x, y) = (sigma * one - was, next * one - now);
    assert(stored * (BLOCK_UNITS * one) == units * one) by (nonlinear_arith)
        requires
            units == BLOCK_UNITS * stored,
    ;
    let xk = x * keep;
    assert(xk == (sigma * keep) * one - was * keep) by (nonlinear_arith)
        requires
            xk == x * keep,
            x == sigma * one - was,
    ;
    let no = next * one;
    assert((sigma * keep) * one <= no * one && no * one <= (sigma * keep + one) * one)
        by (nonlinear_arith)
        requires
            sigma * keep <= no,
            no <= sigma * keep + one,
            one > 0,
    ;
    assert(y * one == no * one - now * one) by (nonlinear_arith)
        requires
            y == no - now,
    ;
    assert((sigma * keep + one) * one == (sigma * keep) * one + one * one) by (nonlinear_arith);
    assert(xk - units * one <= y * one && y * one <= xk + units * one + one * one);
    assert(-units <= y || x - units <= y) by (nonlinear_arith)
        requires
            xk - units * one <= y * one,
            xk == x * keep,
            0 <= keep <= one,
            one > 0,
    {
        if x >= 0 {
            assert(xk >= 0);
            assert((-units) * one <= y * one);
        } else {
            assert(x * keep >= x * one);
            assert((x - units) * one <= y * one);
        }
    }
    assert(y <= units + one || y <= x + units + one) by (nonlinear_arith)
        requires
            y * one <= xk + units * one + one * one,
            xk == x * keep,
            0 <= keep <= one,
            one > 0,
    {
        if x >= 0 {
            assert(x * keep <= x * one);
            assert(y * one <= (x + units + one) * one);
        } else {
            assert(xk <= 0);
            assert(y * one <= (units + one) * one);
        }
    }
}

} // verus!
