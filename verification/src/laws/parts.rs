//! A position is a part of its sums, and stays that part through decay.
use crate::accounts::AccountId;
use crate::decay::{decayed_agg, next_decay};
use crate::fixed::{fits, Fixed, AMOUNT_LIMIT, ONE_BITS};
use crate::laws::bounds::{
    entries_past, law_decay_keeps_entries_past, law_decay_stays_in_range,
    law_many_decays_keep_entries_past, lemma_decay_of_a_block,
};
use crate::laws::compounding::{law_one_day_of_decay, one_day_left, ticked};
use crate::laws::custody::{lemma_scaled_bits, share_bits};
use crate::laws::following::{law_share_follows_the_block, BLOCK_UNITS};
use crate::laws::ledger::sound;
use crate::math::{lemma_scaled, materialized, scaled, BLOCKS_PER_DAY};
use crate::pallet::State;
use vstd::prelude::*;

verus! {

broadcast use crate::math::lemma_remaining_share;

/// A share has followed a sum for `k` blocks: it was `part` of a unit when the sum was `was`, and
/// is `share` now that the sum is `now`. It has shrunk as the sum has, but for a number of units in
/// the last place for each block, and for the rao that the sum may have been rounded up by.
pub open spec fn followed(part: int, was: int, share: int, now: int, k: nat) -> bool {
    &&& share * was <= part * now + (BLOCK_UNITS * k) * was
    &&& part * now <= share * was + (BLOCK_UNITS * k) * was + k * part
}

/// It has shrunk at least as the sum has.
pub open spec fn shrunk_with(part: int, was: int, share: int, now: int, k: nat) -> bool {
    share * was <= part * now + (BLOCK_UNITS * k) * was
}

/// One more block.
proof fn lemma_followed(
    part: int,
    was: int,
    share: int,
    now: int,
    k: nat,
    next_share: int,
    next: int,
    keep: int,
)
    requires
        part >= 0,
        was >= 0,
        0 <= keep <= ONE_BITS,
        next_share * ONE_BITS <= share * keep + BLOCK_UNITS * ONE_BITS,
        now * keep <= next * ONE_BITS < now * keep + ONE_BITS,
        shrunk_with(part, was, share, now, k),
    ensures
        shrunk_with(part, was, next_share, next, k + 1),
        followed(part, was, share, now, k) && share * keep <= next_share * ONE_BITS + BLOCK_UNITS
            * ONE_BITS ==> followed(part, was, next_share, next, k + 1),
{
    let one = ONE_BITS as int;
    let u = BLOCK_UNITS as int;
    let uk = u * k;
    let un = u * (k + 1);
    assert(un == uk + u) by (nonlinear_arith)
        requires
            uk == u * k,
            un == u * (k + 1),
    ;
    let (x, y) = (share * was, part * now);
    let z = uk * was;
    assert(x * keep <= (y + z) * keep) by (nonlinear_arith)
        requires
            x <= y + z,
            keep >= 0,
    ;
    assert(z >= 0) by (nonlinear_arith)
        requires
            z == uk * was,
            uk >= 0,
            was >= 0,
    ;
    assert(z * keep <= z * one) by (nonlinear_arith)
        requires
            z >= 0,
            keep <= one,
    ;
    assert((y + z) * keep == y * keep + z * keep) by (nonlinear_arith);
    assert(y * keep <= (part * next) * one) by (nonlinear_arith)
        requires
            y == part * now,
            now * keep <= next * one,
            part >= 0,
    {
        assert(part * (now * keep) <= part * (next * one));
        assert((part * now) * keep == part * (now * keep));
        assert((part * next) * one == part * (next * one));
    }
    assert((next_share * was) * one <= x * keep + (u * was) * one) by (nonlinear_arith)
        requires
            next_share * one <= share * keep + u * one,
            x == share * was,
            was >= 0,
    {
        assert(was * (next_share * one) <= was * (share * keep + u * one));
        assert(was * (next_share * one) == (next_share * was) * one);
        assert(was * (share * keep + u * one) == (share * was) * keep + (u * was) * one);
    }
    assert(un * was == z + u * was) by (nonlinear_arith)
        requires
            un == uk + u,
            z == uk * was,
    ;
    assert(next_share * was <= part * next + un * was) by (nonlinear_arith)
        requires
            (next_share * was) * one <= (part * next) * one + z * one + (u * was) * one,
            un * was == z + u * was,
            one > 0,
    ;
    if followed(part, was, share, now, k) && share * keep <= next_share * one + u * one {
        let kp = k * part;
        assert(kp >= 0) by (nonlinear_arith)
            requires
                kp == k * part,
                part >= 0,
                k >= 0,
        ;
        assert(y * keep <= (x + z + kp) * keep) by (nonlinear_arith)
            requires
                y <= x + z + kp,
                keep >= 0,
        ;
        assert((x + z + kp) * keep == x * keep + z * keep + kp * keep) by (nonlinear_arith);
        assert(kp * keep <= kp * one) by (nonlinear_arith)
            requires
                kp >= 0,
                keep <= one,
        ;
        assert(x * keep <= (next_share * was) * one + (u * was) * one) by (nonlinear_arith)
            requires
                share * keep <= next_share * one + u * one,
                x == share * was,
                was >= 0,
        {
            assert(was * (share * keep) <= was * (next_share * one + u * one));
            assert(was * (share * keep) == (share * was) * keep);
            assert(was * (next_share * one + u * one) == (next_share * was) * one + (u * was) * one);
        }
        assert((part * next) * one <= y * keep + part * one) by (nonlinear_arith)
            requires
                y == part * now,
                next * one <= now * keep + one,
                part >= 0,
        {
            assert(part * (next * one) <= part * (now * keep + one));
            assert(part * (now * keep + one) == (part * now) * keep + part * one);
            assert((part * next) * one == part * (next * one));
        }
        assert((k + 1) * part == kp + part) by (nonlinear_arith)
            requires
                kp == k * part,
        ;
        assert(part * next <= next_share * was + un * was + (kp + part)) by (nonlinear_arith)
            requires
                (part * next) * one <= (next_share * was) * one + (u * was) * one + z * one + kp * one
                    + part * one,
                un * was == z + u * was,
                one > 0,
        ;
    }
}

/// What a block leaves of a sum.
pub proof fn lemma_sum_left(sigma: u64, delta: Fixed)
    requires
        fits(sigma),
        0 <= delta.bits <= ONE_BITS,
    ensures
        scaled(sigma, delta) <= sigma,
        ({
            let next = sigma - scaled(sigma, delta);
            sigma * (ONE_BITS - delta.bits) <= next * ONE_BITS < sigma * (ONE_BITS - delta.bits)
                + ONE_BITS
        }),
{
    lemma_scaled_bits(sigma, delta);
    lemma_scaled(sigma, delta);
    let one = ONE_BITS as int;
    let (m, d, x) = (sigma as int, delta.bits as int, scaled(sigma, delta) as int);
    assert(m * (one - d) == m * one - m * d) by (nonlinear_arith);
    assert((m - x) * one == m * one - x * one) by (nonlinear_arith);
}

/// A share has shrunk at least as each of the three sums that decay.
pub open spec fn shrunk_with_sums(
    s: State,
    after: State,
    netuid: u16,
    coldkey: AccountId,
    k: nat,
) -> bool {
    let (part, share) = (share_bits(s, netuid, coldkey), share_bits(after, netuid, coldkey));
    let (was, now) = (s.agg(netuid), after.agg(netuid));
    &&& shrunk_with(part, was.r_sigma as int, share, now.r_sigma as int, k)
    &&& shrunk_with(part, was.e_sigma as int, share, now.e_sigma as int, k)
    &&& shrunk_with(part, was.b_sigma as int, share, now.b_sigma as int, k)
}

/// A share has followed each of the three sums that decay.
pub open spec fn followed_sums(
    s: State,
    after: State,
    netuid: u16,
    coldkey: AccountId,
    k: nat,
) -> bool {
    let (part, share) = (share_bits(s, netuid, coldkey), share_bits(after, netuid, coldkey));
    let (was, now) = (s.agg(netuid), after.agg(netuid));
    &&& followed(part, was.r_sigma as int, share, now.r_sigma as int, k)
    &&& followed(part, was.e_sigma as int, share, now.e_sigma as int, k)
    &&& followed(part, was.b_sigma as int, share, now.b_sigma as int, k)
}

/// The loss that a position has gone through is no more than eight: more than three parts in ten
/// thousand of it are left.
pub open spec fn loss_to_eight(s: State, netuid: u16, coldkey: AccountId) -> bool {
    s.agg(netuid).omega.bits - s.position(netuid, coldkey).omega_entry.bits <= 8 * ONE_BITS
}

/// A share, a sum and a block.
proof fn lemma_sum_followed(
    part: int,
    was: u64,
    share: int,
    now: u64,
    k: nat,
    next_share: int,
    delta: Fixed,
)
    requires
        part >= 0,
        fits(now),
        0 <= delta.bits <= ONE_BITS,
        next_share * ONE_BITS <= share * (ONE_BITS - delta.bits) + BLOCK_UNITS * ONE_BITS,
        shrunk_with(part, was as int, share, now as int, k),
    ensures
        scaled(now, delta) <= now,
        shrunk_with(part, was as int, next_share, now - scaled(now, delta), k + 1),
        followed(part, was as int, share, now as int, k) && share * (ONE_BITS - delta.bits)
            <= next_share * ONE_BITS + BLOCK_UNITS * ONE_BITS ==> followed(
            part,
            was as int,
            next_share,
            now - scaled(now, delta),
            k + 1,
        ),
{
    lemma_sum_left(now, delta);
    lemma_followed(
        part,
        was as int,
        share,
        now as int,
        k,
        next_share,
        now - scaled(now, delta),
        ONE_BITS - delta.bits,
    );
}

/// A block in which nothing decays.
proof fn lemma_still(part: int, was: int, share: int, now: int, k: nat)
    requires
        part >= 0,
        was >= 0,
    ensures
        shrunk_with(part, was, share, now, k) ==> shrunk_with(part, was, share, now, k + 1),
        followed(part, was, share, now, k) ==> followed(part, was, share, now, k + 1),
{
    let u = BLOCK_UNITS as int;
    assert((u * (k + 1)) * was >= (u * k) * was) by (nonlinear_arith)
        requires
            was >= 0,
            u >= 0,
    {
        assert(u * (k + 1) == u * k + u);
        assert((u * k + u) * was == (u * k) * was + u * was);
        assert(u * was >= 0);
    }
    assert((k + 1) * part >= k * part) by (nonlinear_arith)
        requires
            part >= 0,
    ;
}

/// A position stays its part of the sums. Over any number of blocks, what is left of a unit of it
/// shrinks by no less than the sums of the buffers, the escrows and the footprints do, but for a
/// number of units in the last place for each block; and by no more, but for as many units and the
/// rounding of the sums, while the loss is no more than eight.
pub proof fn law_position_stays_its_part(s: State, netuid: u16, coldkey: AccountId, k: nat)
    requires
        entries_past(s),
        s.has_position(netuid, coldkey),
        forall|j: nat| j < k ==> (#[trigger] ticked(s, netuid, j)).decay_bounded(netuid),
        s.agg(netuid).omega.bits + k * ONE_BITS <= i128::MAX,
    ensures
        ({
            let after = ticked(s, netuid, k);
            &&& shrunk_with_sums(s, after, netuid, coldkey, k)
            &&& loss_to_eight(after, netuid, coldkey) ==> followed_sums(
                s,
                after,
                netuid,
                coldkey,
                k,
            )
            &&& after.positions == s.positions
            &&& after.agg(netuid).omega.bits <= s.agg(netuid).omega.bits + k * ONE_BITS
        }),
    decreases k,
{
    let part = share_bits(s, netuid, coldkey);
    let first = s.agg(netuid);
    if k > 0 {
        let j = (k - 1) as nat;
        assert forall|i: nat| i < j implies (#[trigger] ticked(s, netuid, i)).decay_bounded(
            netuid,
        ) by {
            assert(i < k);
        }
        assert(k * ONE_BITS == j * ONE_BITS + ONE_BITS) by (nonlinear_arith)
            requires
                k == j + 1,
        ;
        law_position_stays_its_part(s, netuid, coldkey, j);
        law_many_decays_keep_entries_past(s, Seq::empty(), netuid, j);
        let t = ticked(s, netuid, j);
        let after = ticked(s, netuid, k);
        assert(t.decay_bounded(netuid));
        assert(t.has_position(netuid, coldkey));
        law_decay_keeps_entries_past(t, netuid);
        let share = share_bits(t, netuid, coldkey);
        let agg = t.agg(netuid);
        if after == t {
            lemma_still(part, first.r_sigma as int, share, agg.r_sigma as int, j);
            lemma_still(part, first.e_sigma as int, share, agg.e_sigma as int, j);
            lemma_still(part, first.b_sigma as int, share, agg.b_sigma as int, j);
        } else {
            let delta = next_decay(t, netuid);
            let next = share_bits(after, netuid, coldkey);
            lemma_decay_of_a_block(t, netuid);
            law_share_follows_the_block(
                t.position(netuid, coldkey).omega_entry,
                agg.omega,
                delta,
            );
            assert(after.agg(netuid) == decayed_agg(agg, delta));
            lemma_sum_followed(part, first.r_sigma, share, agg.r_sigma, j, next, delta);
            lemma_sum_followed(part, first.e_sigma, share, agg.e_sigma, j, next, delta);
            lemma_sum_followed(part, first.b_sigma, share, agg.b_sigma, j, next, delta);
        }
    } else {
        assert(k * ONE_BITS == 0);
        let (r, e, b) = (first.r_sigma as int, first.e_sigma as int, first.b_sigma as int);
        assert(0 * r == 0 && 0 * e == 0 && 0 * b == 0 && 0 * part == 0);
    }
}

/// The buffer of a position that is the whole of a sum is seen as the sum is: no more of it is
/// left, but for a number of units in the last place for each block, and no less, but for as many
/// units and a rao for each block.
proof fn lemma_whole_is_seen(was: u64, share: Fixed, now: int, k: nat)
    requires
        fits(was),
        0 <= share.bits <= ONE_BITS,
        followed(ONE_BITS as int, was as int, share.bits as int, now, k),
    ensures
        ({
            let seen = scaled(was, share);
            let units = (BLOCK_UNITS * k) * was;
            &&& seen * ONE_BITS <= now * ONE_BITS + units
            &&& now * ONE_BITS <= seen * ONE_BITS + units + (k + 1) * ONE_BITS
        }),
{
    let one = ONE_BITS as int;
    lemma_scaled_bits(was, share);
    let (w, f, seen) = (was as int, share.bits as int, scaled(was, share) as int);
    assert(f * w == w * f) by (nonlinear_arith);
    assert((seen + 1) * one == seen * one + one) by (nonlinear_arith);
    assert((k + 1) * one == k * one + one) by (nonlinear_arith);
}

/// The lone short of a subnet is seen as the sums are, after any number of blocks in which the loss
/// is no more than eight.
pub proof fn law_lone_position_follows_the_sums(s: State, netuid: u16, coldkey: AccountId, k: nat)
    requires
        entries_past(s),
        s.has_position(netuid, coldkey),
        s.position_bounded(netuid, coldkey),
        s.position(netuid, coldkey).omega_entry == s.agg(netuid).omega,
        s.position(netuid, coldkey).r_stored == s.agg(netuid).r_sigma,
        s.position(netuid, coldkey).e_stored == s.agg(netuid).e_sigma,
        forall|j: nat| j < k ==> (#[trigger] ticked(s, netuid, j)).decay_bounded(netuid),
        s.agg(netuid).omega.bits + k * ONE_BITS <= i128::MAX,
        loss_to_eight(ticked(s, netuid, k), netuid, coldkey),
    ensures
        ({
            let after = ticked(s, netuid, k);
            let was = s.agg(netuid);
            let now = after.agg(netuid);
            let pos = materialized(s.position(netuid, coldkey), now.omega);
            &&& pos.r_stored * ONE_BITS <= now.r_sigma * ONE_BITS + (BLOCK_UNITS * k) * was.r_sigma
            &&& now.r_sigma * ONE_BITS <= pos.r_stored * ONE_BITS + (BLOCK_UNITS * k) * was.r_sigma
                + (k + 1) * ONE_BITS
            &&& pos.e_stored * ONE_BITS <= now.e_sigma * ONE_BITS + (BLOCK_UNITS * k) * was.e_sigma
            &&& now.e_sigma * ONE_BITS <= pos.e_stored * ONE_BITS + (BLOCK_UNITS * k) * was.e_sigma
                + (k + 1) * ONE_BITS
        }),
{
    law_position_stays_its_part(s, netuid, coldkey, k);
    let after = ticked(s, netuid, k);
    let was = s.agg(netuid);
    let now = after.agg(netuid);
    let share = crate::math::remaining_share(was.omega, now.omega);
    assert(share_bits(s, netuid, coldkey) == ONE_BITS);
    lemma_whole_is_seen(was.r_sigma, share, now.r_sigma as int, k);
    lemma_whole_is_seen(was.e_sigma, share, now.e_sigma as int, k);
}

/// A day at a daily decay of one leaves of a lone buffer nearly the inverse of e, and it is seen
/// within a hundredth of what it was as the sum of the buffers is.
pub proof fn law_one_day_is_seen_by_the_position(s: State, netuid: u16, coldkey: AccountId)
    requires
        sound(s),
        entries_past(s),
        s.subnets.contains_key(netuid),
        s.subnet(netuid).account != s.custody(netuid),
        s.balance(s.custody(netuid)) >= s.agg(netuid).r_sigma + s.agg(netuid).e_sigma,
        s.params.decay_min.bits == ONE_BITS,
        s.params.decay_max.bits == ONE_BITS,
        s.has_position(netuid, coldkey),
        s.position_bounded(netuid, coldkey),
        s.position(netuid, coldkey).omega_entry == s.agg(netuid).omega,
        s.position(netuid, coldkey).r_stored == s.agg(netuid).r_sigma,
        s.position(netuid, coldkey).e_stored == s.agg(netuid).e_sigma,
        s.agg(netuid).r_sigma >= 1_000_000_000,
        s.decay_bounded(netuid),
        s.subnet(netuid).tao + s.agg(netuid).r_sigma + s.agg(netuid).e_sigma < AMOUNT_LIMIT,
        s.agg(netuid).omega.bits + BLOCKS_PER_DAY * ONE_BITS <= i128::MAX,
    ensures
        ({
            let after = ticked(s, netuid, BLOCKS_PER_DAY as nat);
            let was = s.agg(netuid).r_sigma;
            let now = after.agg(netuid).r_sigma;
            let pos = materialized(s.position(netuid, coldkey), after.agg(netuid).omega);
            let buffer = pos.r_stored;
            &&& one_day_left(was, now)
            &&& 100 * buffer <= 100 * now + was
            &&& 100 * now <= 100 * buffer + was
            &&& 35 * was <= 100 * buffer <= 38 * was
        }),
{
    let k = BLOCKS_PER_DAY as nat;
    assert forall|j: nat| j < k implies (#[trigger] ticked(s, netuid, j)).decay_bounded(netuid) by {
        law_decay_stays_in_range(s, netuid, j);
    }
    law_one_day_of_decay(s, netuid);
    law_position_stays_its_part(s, netuid, coldkey, k);
    lemma_day_of_losses(s, netuid, k);
    law_lone_position_follows_the_sums(s, netuid, coldkey, k);
    let after = ticked(s, netuid, k);
    let was = s.agg(netuid).r_sigma as int;
    let now = after.agg(netuid).r_sigma as int;
    let buffer = materialized(s.position(netuid, coldkey), after.agg(netuid).omega).r_stored as int;
    let one = ONE_BITS as int;
    assert((BLOCK_UNITS * k) * was == 51_120_000 * was);
    assert((k + 1) * one == 7201 * one);
    assert(100_000 * (51_120_000 * was) <= one * was) by (nonlinear_arith)
        requires
            was >= 0,
            one >= 5_112_000_000_000,
    ;
    assert(200 * buffer <= 200 * now + was) by (nonlinear_arith)
        requires
            buffer * one <= now * one + 51_120_000 * was,
            100_000 * (51_120_000 * was) <= one * was,
            was >= 0,
            one > 0,
    {
        assert(one * (200 * buffer) <= one * (200 * now + was));
    }
    assert(100 * now <= 100 * buffer + was) by (nonlinear_arith)
        requires
            now * one <= buffer * one + 51_120_000 * was + 7201 * one,
            100_000 * (51_120_000 * was) <= one * was,
            was >= 1_000_000_000,
            one > 0,
    {
        assert(2 * (one * 720_100) <= one * was) by {
            assert(2 * 720_100 <= was);
        }
        assert(one * (100 * now) <= one * (100 * buffer) + 100 * (51_120_000 * was) + one
            * 720_100);
        assert(one * (100 * now) <= one * (100 * buffer + was));
    }
}

/// The accumulator moves by little in a day.
proof fn lemma_day_of_losses(s: State, netuid: u16, k: nat)
    requires
        entries_past(s),
        forall|j: nat| j < k ==> (#[trigger] ticked(s, netuid, j)).decay_bounded(netuid),
        s.agg(netuid).omega.bits + k * ONE_BITS <= i128::MAX,
    ensures
        7000 * (ticked(s, netuid, k).agg(netuid).omega.bits - s.agg(netuid).omega.bits) <= k
            * ONE_BITS,
        entries_past(ticked(s, netuid, k)),
    decreases k,
{
    if k > 0 {
        let j = (k - 1) as nat;
        assert forall|i: nat| i < j implies (#[trigger] ticked(s, netuid, i)).decay_bounded(
            netuid,
        ) by {
            assert(i < k);
        }
        assert(k * ONE_BITS == j * ONE_BITS + ONE_BITS) by (nonlinear_arith)
            requires
                k == j + 1,
        ;
        lemma_day_of_losses(s, netuid, j);
        let t = ticked(s, netuid, j);
        assert(t.decay_bounded(netuid));
        lemma_decay_of_a_block(t, netuid);
        law_decay_keeps_entries_past(t, netuid);
    } else {
        assert(k * ONE_BITS == 0);
    }
}

} // verus!
