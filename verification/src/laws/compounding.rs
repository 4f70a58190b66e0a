//! The decay of many blocks.
use crate::decay::{decay_tick, next_decay, restored_amount};
use crate::dust::{gone, lasts, right_time};
use crate::fixed::{fits, Fixed, ONE_BITS};
use crate::laws::ledger::{law_decay_conserves_tao, law_transfer_conserves, sound};
use crate::math::{
    block_decay, curve, lemma_block_decay, lemma_log_loss, lemma_scaled, log_loss, scaled,
    BLOCKS_PER_DAY,
};
use crate::pallet::State;
use crate::types::Params;
use vstd::arithmetic::power::{lemma_pow0, lemma_pow1, lemma_pow_adds, lemma_pow_positive, pow};
use vstd::prelude::*;

verus! {

/// The state after the decay of `k` blocks on one subnet.
pub open spec fn ticked(s: State, netuid: u16, k: nat) -> State
    decreases k,
{
    if k == 0 {
        s
    } else {
        decay_tick(ticked(s, netuid, (k - 1) as nat), netuid)
    }
}

/// `now` is what is left of `was` after it has lost the share `delta` `k` times: no less than
/// `was * (1 - delta)^k`, and no more than that and `k`. Both sides are multiplied by the power of
/// the bits of one.
pub open spec fn compounded(was: u64, now: u64, delta: Fixed, k: nat) -> bool {
    let left = was * pow(ONE_BITS - delta.bits, k);
    let unit = pow(ONE_BITS as int, k);
    left <= now * unit <= left + k * unit
}

proof fn lemma_compounded_once(was: u64, before: u64, delta: Fixed, k: nat)
    requires
        fits(before),
        0 <= delta.bits < ONE_BITS,
        compounded(was, before, delta, k),
    ensures
        compounded(was, (before - scaled(before, delta)) as u64, delta, k + 1),
        scaled(before, delta) <= before,
{
    let one = ONE_BITS as int;
    let keep = one - delta.bits;
    let d = delta.bits as int;
    let m = before as int;
    let x = scaled(before, delta) as int;
    let now = m - x;
    lemma_scaled(before, delta);
    vstd::arithmetic::div_mod::lemma_fundamental_div_mod(m * d, one);
    assert(m * keep <= now * one < m * keep + one) by (nonlinear_arith)
        requires
            now == m - x,
            keep == one - d,
            m * d == one * x + (m * d) % one,
            0 <= (m * d) % one < one,
    ;
    let pk = pow(keep, k);
    let pu = pow(one, k);
    lemma_pow_positive(one, k);
    lemma_pow_adds(keep, k, 1);
    lemma_pow_adds(one, k, 1);
    lemma_pow1(keep);
    lemma_pow1(one);
    let left = was * pk;
    let kk = k as int;
    assert(was * (pk * keep) == left * keep) by (nonlinear_arith)
        requires
            left == was * pk,
    ;
    assert(left * keep <= now * (pu * one) <= left * keep + (kk + 1) * (pu * one))
        by (nonlinear_arith)
        requires
            left <= m * pu <= left + kk * pu,
            m * keep <= now * one < m * keep + one,
            0 < keep <= one,
            pu > 0,
            kk >= 0,
    {
        assert(now * (pu * one) == (now * one) * pu);
        assert((m * keep) * pu <= (now * one) * pu);
        assert((now * one) * pu <= (m * keep + one) * pu);
        assert((m * keep) * pu == (m * pu) * keep);
        assert(left * keep <= (m * pu) * keep);
        assert((m * pu) * keep <= (left + kk * pu) * keep);
        assert((left + kk * pu) * keep == left * keep + (kk * pu) * keep);
        assert((kk * pu) * keep <= (kk * pu) * one);
        assert((kk * pu) * one == kk * (pu * one));
        assert((m * keep + one) * pu == (m * keep) * pu + pu * one);
        assert((kk + 1) * (pu * one) == kk * (pu * one) + pu * one);
    }
}

/// While the decay of a block stays the same, the buffers, the escrows and the footprint of a
/// subnet shrink geometrically: after `k` blocks they are what they were times `(1 - delta)^k`,
/// and at most `k` rao more for the rounding.
pub proof fn law_decay_compounds(s: State, netuid: u16, delta: Fixed, k: nat)
    requires
        sound(s),
        s.agg(netuid).bounded(),
        s.subnets.contains_key(netuid),
        s.subnet(netuid).account != s.custody(netuid),
        s.balance(s.custody(netuid)) >= s.agg(netuid).r_sigma + s.agg(netuid).e_sigma,
        0 <= delta.bits < ONE_BITS,
        forall|j: nat| j < k ==> next_decay(#[trigger] ticked(s, netuid, j), netuid) == delta,
    ensures
        ({
            let was = s.agg(netuid);
            let now = ticked(s, netuid, k).agg(netuid);
            &&& compounded(was.r_sigma, now.r_sigma, delta, k)
            &&& compounded(was.e_sigma, now.e_sigma, delta, k)
            &&& compounded(was.b_sigma, now.b_sigma, delta, k)
        }),
{
    lemma_compounds(s, netuid, delta, k);
}

proof fn lemma_compounds(s: State, netuid: u16, delta: Fixed, k: nat)
    requires
        sound(s),
        s.agg(netuid).bounded(),
        s.subnets.contains_key(netuid),
        s.subnet(netuid).account != s.custody(netuid),
        s.balance(s.custody(netuid)) >= s.agg(netuid).r_sigma + s.agg(netuid).e_sigma,
        0 <= delta.bits < ONE_BITS,
        forall|j: nat| j < k ==> next_decay(#[trigger] ticked(s, netuid, j), netuid) == delta,
    ensures
        ({
            let was = s.agg(netuid);
            let after = ticked(s, netuid, k);
            let now = after.agg(netuid);
            &&& compounded(was.r_sigma, now.r_sigma, delta, k)
            &&& compounded(was.e_sigma, now.e_sigma, delta, k)
            &&& compounded(was.b_sigma, now.b_sigma, delta, k)
            &&& sound(after)
            &&& now.bounded()
            &&& after.subnets.contains_key(netuid)
            &&& after.subnet(netuid).account == s.subnet(netuid).account
            &&& after.pallet_id == s.pallet_id
            &&& after.balance(s.custody(netuid)) >= now.r_sigma + now.e_sigma
        }),
    decreases k,
{
    let was = s.agg(netuid);
    if k == 0 {
        lemma_pow0(ONE_BITS - delta.bits);
        lemma_pow0(ONE_BITS as int);
    } else {
        let j = (k - 1) as nat;
        assert forall|i: nat| i < j implies next_decay(#[trigger] ticked(s, netuid, i), netuid)
            == delta by {
            assert(i < k);
        }
        lemma_compounds(s, netuid, delta, j);
        let t = ticked(s, netuid, j);
        let agg = t.agg(netuid);
        assert(next_decay(t, netuid) == delta);
        lemma_compounded_once(was.r_sigma, agg.r_sigma, delta, j);
        lemma_compounded_once(was.e_sigma, agg.e_sigma, delta, j);
        lemma_compounded_once(was.b_sigma, agg.b_sigma, delta, j);
        lemma_scaled(agg.r_sigma, delta);
        lemma_scaled(agg.e_sigma, delta);
        lemma_scaled(agg.b_sigma, delta);
        law_decay_conserves_tao(t, netuid);
        law_transfer_conserves(
            t.balances,
            t.custody(netuid),
            t.subnet(netuid).account,
            restored_amount(agg, delta),
        );
    }
}

/// The time until dust is kept. While the decay of a block stays the same, a sum is still no less
/// than dust before that time, but for a small part of it and a few blocks; and after it, but for
/// as much, the sum is dust, and at most a rao a block more for the rounding.
pub proof fn law_time_to_dust_is_kept(
    was: u64,
    now: u64,
    dust: u64,
    delta: Fixed,
    blocks: u64,
    k: nat,
)
    requires
        right_time(was, dust, delta, blocks),
        compounded(was, now, delta, k),
    ensures
        BLOCKS_PER_DAY * (k + 4) <= (BLOCKS_PER_DAY - 2) * blocks ==> dust <= now,
        delta.bits >= 256 && BLOCKS_PER_DAY * k >= (BLOCKS_PER_DAY + 2) * (blocks + 5) ==> now
            <= dust + k,
{
    let unit = pow(ONE_BITS as int, k);
    let left = was * pow(ONE_BITS - delta.bits, k);
    lemma_pow_positive(ONE_BITS as int, k);
    if BLOCKS_PER_DAY * (k + 4) <= (BLOCKS_PER_DAY - 2) * blocks {
        assert(lasts(was, dust, delta, k));
        assert(dust <= now) by (nonlinear_arith)
            requires
                dust * unit <= left,
                left <= now * unit,
                unit > 0,
        ;
    }
    if delta.bits >= 256 && BLOCKS_PER_DAY * k >= (BLOCKS_PER_DAY + 2) * (blocks + 5) {
        assert(gone(was, dust, delta, k));
        assert(now <= dust + k) by (nonlinear_arith)
            requires
                left <= dust * unit,
                now * unit <= left + k * unit,
                unit > 0,
        {
            assert(now * unit <= (dust + k) * unit);
        }
    }
}

/// While the decay of a block stays the same and there is a buffer to decay, every block moves the
/// accumulator by the same loss.
pub proof fn law_accumulator_is_linear(s: State, netuid: u16, delta: Fixed, k: nat)
    requires
        sound(s),
        s.agg(netuid).bounded(),
        s.agg(netuid).r_sigma > 0,
        s.subnets.contains_key(netuid),
        s.subnet(netuid).account != s.custody(netuid),
        s.balance(s.custody(netuid)) >= s.agg(netuid).r_sigma + s.agg(netuid).e_sigma,
        0 < delta.bits < ONE_BITS,
        forall|j: nat| j < k ==> next_decay(#[trigger] ticked(s, netuid, j), netuid) == delta,
        s.agg(netuid).omega.bits + k * log_loss(delta).bits <= i128::MAX,
    ensures
        ticked(s, netuid, k).agg(netuid).omega.bits == s.agg(netuid).omega.bits + k * log_loss(
            delta,
        ).bits,
        ticked(s, netuid, k).agg(netuid).r_sigma > 0,
        ticked(s, netuid, k).positions == s.positions,
    decreases k,
{
    let loss = log_loss(delta).bits as int;
    lemma_log_loss(delta);
    assert(k * loss >= 0) by (nonlinear_arith)
        requires
            k >= 0,
            loss > 0,
    ;
    if k == 0 {
        assert(0 * loss == 0);
    } else {
        let j = (k - 1) as nat;
        assert(k * loss == j * loss + loss) by (nonlinear_arith)
            requires
                k == j + 1,
        ;
        assert forall|i: nat| i < j implies next_decay(#[trigger] ticked(s, netuid, i), netuid)
            == delta by {
            assert(i < k);
        }
        law_accumulator_is_linear(s, netuid, delta, j);
        lemma_compounds(s, netuid, delta, j);
        let t = ticked(s, netuid, j);
        let agg = t.agg(netuid);
        assert(next_decay(t, netuid) == delta);
        lemma_scaled(agg.r_sigma, delta);
        lemma_scaled(agg.e_sigma, delta);
        law_transfer_conserves(
            t.balances,
            t.custody(netuid),
            t.subnet(netuid).account,
            restored_amount(agg, delta),
        );
    }
}

/// Where the least and the greatest daily decay are the same, every market decays at that rate.
pub proof fn law_flat_curve_fixes_the_rate(params: Params, u: Fixed)
    requires
        params.decay_min == params.decay_max,
    ensures
        curve(params, u) == params.decay_min,
{
    let span = params.decay_max.minus(params.decay_min);
    assert(span.bits == 0);
    assert(span.times(u).bits == 0) by {
        assert(0 * u.bits == 0);
    }
    assert(span.times(u).times(u).bits == 0) by {
        assert(0 * u.bits == 0);
    }
}

proof fn lemma_flat_rate(s: State, netuid: u16, k: nat)
    requires
        s.params.decay_min == s.params.decay_max,
    ensures
        ticked(s, netuid, k).params == s.params,
        next_decay(ticked(s, netuid, k), netuid) == block_decay(s.params.decay_min),
    decreases k,
{
    if k > 0 {
        lemma_flat_rate(s, netuid, (k - 1) as nat);
    }
    let t = ticked(s, netuid, k);
    law_flat_curve_fixes_the_rate(
        s.params,
        crate::math::used_share(
            Fixed::whole(t.agg(netuid).b_sigma as int),
            t.params.kappa.times(crate::math::reference_reserve(t.subnet(netuid))),
        ),
    );
}

/// `keep^k` as a share of the same power of one lies between two numbers of parts in a million
/// million.
spec fn within(keep: int, k: nat, bounds: (int, int)) -> bool {
    let unit = pow(ONE_BITS as int, k);
    bounds.0 * unit <= 1_000_000_000_000 * pow(keep, k) <= bounds.1 * unit
}

proof fn lemma_compound(
    keep: int,
    i: nat,
    j: nat,
    a: (int, int),
    b: (int, int),
    c: (int, int),
)
    requires
        keep > 0,
        within(keep, i, a),
        within(keep, j, b),
        0 <= a.0,
        0 <= b.0,
        0 <= a.1,
        0 <= b.1,
        c.0 * 1_000_000_000_000 <= a.0 * b.0,
        a.1 * b.1 <= c.1 * 1_000_000_000_000,
    ensures
        within(keep, i + j, c),
{
    let one = ONE_BITS as int;
    let p = 1_000_000_000_000int;
    lemma_pow_adds(keep, i, j);
    lemma_pow_adds(one, i, j);
    lemma_pow_positive(one, i);
    lemma_pow_positive(one, j);
    lemma_pow_positive(keep, i);
    lemma_pow_positive(keep, j);
    let (x, y) = (pow(keep, i), pow(keep, j));
    let (u, v) = (pow(one, i), pow(one, j));
    let (al, bl, cl) = (a.0, b.0, c.0);
    let (ah, bh, ch) = (a.1, b.1, c.1);
    assert(cl * (u * v) <= p * (x * y)) by (nonlinear_arith)
        requires
            al * u <= p * x,
            bl * v <= p * y,
            cl * p <= al * bl,
            0 <= al,
            0 <= bl,
            u > 0,
            v > 0,
            p > 0,
    {
        assert((al * u) * (bl * v) <= (p * x) * (p * y));
        assert((al * u) * (bl * v) == (al * bl) * (u * v));
        assert((cl * p) * (u * v) <= (al * bl) * (u * v));
        assert((p * x) * (p * y) == p * (p * (x * y)));
        assert((cl * p) * (u * v) == p * (cl * (u * v)));
    }
    assert(p * (x * y) <= ch * (u * v)) by (nonlinear_arith)
        requires
            p * x <= ah * u,
            p * y <= bh * v,
            ah * bh <= ch * p,
            0 < x,
            0 < y,
            u > 0,
            v > 0,
            p > 0,
    {
        assert((p * x) * (p * y) <= (ah * u) * (bh * v));
        assert((ah * u) * (bh * v) == (ah * bh) * (u * v));
        assert((ah * bh) * (u * v) <= (ch * p) * (u * v));
        assert((p * x) * (p * y) == p * (p * (x * y)));
        assert((ch * p) * (u * v) == p * (ch * (u * v)));
    }
}

/// What a day of blocks leaves of a whole at the greatest rate, nearly the inverse of e:
/// `(1 - 1/7200)^7200`.
proof fn lemma_one_day()
    ensures
        within(
            ONE_BITS - (ONE_BITS as int) / (BLOCKS_PER_DAY as int),
            BLOCKS_PER_DAY as nat,
            (367_853_891_269, 367_853_896_614),
        ),
{
    let keep = ONE_BITS - (ONE_BITS as int) / (BLOCKS_PER_DAY as int);
    lemma_pow1(keep);
    lemma_pow1(ONE_BITS as int);
    assert(within(keep, 1, (999_861_111_111, 999_861_111_112)));
    lemma_compound(
        keep,
        1,
        1,
        (999_861_111_111, 999_861_111_112),
        (999_861_111_111, 999_861_111_112),
        (999_722_241_512, 999_722_241_515),
    );
    lemma_compound(
        keep,
        2,
        2,
        (999_722_241_512, 999_722_241_515),
        (999_722_241_512, 999_722_241_515),
        (999_444_560_173, 999_444_560_180),
    );
    lemma_compound(
        keep,
        4,
        4,
        (999_444_560_173, 999_444_560_180),
        (999_444_560_173, 999_444_560_180),
        (998_889_428_859, 998_889_428_874),
    );
    lemma_compound(
        keep,
        8,
        8,
        (998_889_428_859, 998_889_428_874),
        (998_889_428_859, 998_889_428_874),
        (997_780_091_086, 997_780_091_117),
    );
    lemma_compound(
        keep,
        16,
        16,
        (997_780_091_086, 997_780_091_117),
        (997_780_091_086, 997_780_091_117),
        (995_565_110_167, 995_565_110_230),
    );
    lemma_compound(
        keep,
        32,
        32,
        (995_565_110_167, 995_565_110_230),
        (995_565_110_167, 995_565_110_230),
        (991_149_888_581, 991_149_888_708),
    );
    lemma_compound(
        keep,
        64,
        32,
        (991_149_888_581, 991_149_888_708),
        (995_565_110_167, 995_565_110_230),
        (986_754_248_017, 986_754_248_207),
    );
    lemma_compound(
        keep,
        96,
        96,
        (986_754_248_017, 986_754_248_207),
        (986_754_248_017, 986_754_248_207),
        (973_683_945_979, 973_683_946_355),
    );
    lemma_compound(
        keep,
        192,
        192,
        (973_683_945_979, 973_683_946_355),
        (973_683_945_979, 973_683_946_355),
        (948_060_426_657, 948_060_427_390),
    );
    lemma_compound(
        keep,
        384,
        96,
        (948_060_426_657, 948_060_427_390),
        (986_754_248_017, 986_754_248_207),
        (935_502_653_380, 935_502_654_285),
    );
    lemma_compound(
        keep,
        480,
        480,
        (935_502_653_380, 935_502_654_285),
        (935_502_653_380, 935_502_654_285),
        (875_165_214_481, 875_165_216_175),
    );
    lemma_compound(
        keep,
        960,
        480,
        (875_165_214_481, 875_165_216_175),
        (935_502_653_380, 935_502_654_285),
        (818_719_380_292, 818_719_382_670),
    );
    lemma_compound(
        keep,
        1440,
        1440,
        (818_719_380_292, 818_719_382_670),
        (818_719_380_292, 818_719_382_670),
        (670_301_423_665, 670_301_427_560),
    );
    lemma_compound(
        keep,
        2880,
        2880,
        (670_301_423_665, 670_301_427_560),
        (670_301_423_665, 670_301_427_560),
        (449_303_998_567, 449_304_003_789),
    );
    lemma_compound(
        keep,
        5760,
        1440,
        (449_303_998_567, 449_304_003_789),
        (818_719_380_292, 818_719_382_670),
        (367_853_891_269, 367_853_896_614),
    );
}

/// At a daily decay of one, a day of blocks leaves a share of between 0.36785 and 0.36786 of the
/// buffers, the escrows and the footprint, and at most a rao a block more.
pub proof fn law_one_day_of_decay(s: State, netuid: u16)
    requires
        sound(s),
        s.agg(netuid).bounded(),
        s.subnets.contains_key(netuid),
        s.subnet(netuid).account != s.custody(netuid),
        s.balance(s.custody(netuid)) >= s.agg(netuid).r_sigma + s.agg(netuid).e_sigma,
        s.params.decay_min.bits == ONE_BITS,
        s.params.decay_max.bits == ONE_BITS,
    ensures
        ({
            let was = s.agg(netuid);
            let now = ticked(s, netuid, BLOCKS_PER_DAY as nat).agg(netuid);
            &&& one_day_left(was.r_sigma, now.r_sigma)
            &&& one_day_left(was.e_sigma, now.e_sigma)
            &&& one_day_left(was.b_sigma, now.b_sigma)
        }),
{
    let delta = block_decay(s.params.decay_min);
    let k = BLOCKS_PER_DAY as nat;
    lemma_block_decay(s.params.decay_min);
    assert forall|j: nat| j < k implies next_decay(#[trigger] ticked(s, netuid, j), netuid)
        == delta by {
        lemma_flat_rate(s, netuid, j);
    }
    law_decay_compounds(s, netuid, delta, k);
    let was = s.agg(netuid);
    let now = ticked(s, netuid, k).agg(netuid);
    lemma_one_day_left(was.r_sigma, now.r_sigma, delta);
    lemma_one_day_left(was.e_sigma, now.e_sigma, delta);
    lemma_one_day_left(was.b_sigma, now.b_sigma, delta);
}

/// What a day at a daily decay of one leaves of an amount.
pub open spec fn one_day_left(was: u64, now: u64) -> bool {
    36_785 * was <= 100_000 * now <= 36_786 * was + 100_000 * BLOCKS_PER_DAY
}

proof fn lemma_one_day_left(was: u64, now: u64, delta: Fixed)
    requires
        delta.bits == (ONE_BITS as int) / (BLOCKS_PER_DAY as int),
        compounded(was, now, delta, BLOCKS_PER_DAY as nat),
    ensures
        one_day_left(was, now),
{
    lemma_one_day();
    let one = ONE_BITS as int;
    let k = BLOCKS_PER_DAY as nat;
    let unit = pow(one, k);
    let x = pow(one - delta.bits, k);
    lemma_pow_positive(one, k);
    let (w, n) = (was as int, now as int);
    assert(36_785 * w <= 100_000 * n && 100_000 * n <= 36_786 * w + 100_000 * 7200)
        by (nonlinear_arith)
        requires
            w >= 0,
            unit > 0,
            w * x <= n * unit <= w * x + 7200 * unit,
            367_850_000_000 * unit <= 1_000_000_000_000 * x,
            1_000_000_000_000 * x <= 367_860_000_000 * unit,
    {
        assert(w * (367_850_000_000 * unit) <= w * (1_000_000_000_000 * x));
        assert(w * (1_000_000_000_000 * x) <= w * (367_860_000_000 * unit));
        assert((36_785 * w) * unit <= (100_000 * n) * unit);
        assert((100_000 * n) * unit <= (36_786 * w + 100_000 * 7200) * unit);
    }
}

} // verus!
