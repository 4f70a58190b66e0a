//! How long a buffer takes to decay to dust.
use crate::fixed::{lemma_over, log_ceiling, log_floor, near_logarithm, powered, Fixed, ONE_BITS};
use crate::laws::following::lemma_loss_of_a_block;
use crate::math::{log_loss, BLOCKS_PER_DAY};
use vstd::arithmetic::power::{
    lemma_pow0, lemma_pow1, lemma_pow_adds, lemma_pow_distributes, lemma_pow_positive, pow,
};
use vstd::prelude::*;

verus! {

/// An amount that loses the share `delta` `n` times is still no less than dust.
pub open spec fn lasts(r: u64, dust: u64, delta: Fixed, n: nat) -> bool {
    dust * pow(ONE_BITS as int, n) <= r * pow(ONE_BITS - delta.bits, n)
}

/// An amount that loses the share `delta` `n` times is no more than dust.
pub open spec fn gone(r: u64, dust: u64, delta: Fixed, n: nat) -> bool {
    r * pow(ONE_BITS - delta.bits, n) <= dust * pow(ONE_BITS as int, n)
}

/// A number of blocks is the time until an amount that loses the share `delta` each block is dust,
/// to within two parts in as many as a day has blocks and five blocks. (A decay of less than 256
/// units may be too little for the time to be written down.)
pub open spec fn right_time(r: u64, dust: u64, delta: Fixed, blocks: u64) -> bool {
    &&& forall|n: nat|
        BLOCKS_PER_DAY * (n + 4) <= (BLOCKS_PER_DAY - 2) * blocks ==> #[trigger] lasts(
            r,
            dust,
            delta,
            n,
        )
    &&& delta.bits >= 256 ==> forall|n: nat|
        BLOCKS_PER_DAY * n >= (BLOCKS_PER_DAY + 2) * (blocks + 5) ==> #[trigger] gone(
            r,
            dust,
            delta,
            n,
        )
}

/// A power grows with its base.
proof fn lemma_pow_base(a: int, b: int, n: nat)
    requires
        0 <= a <= b,
    ensures
        0 <= pow(a, n) <= pow(b, n),
    decreases n,
{
    if n == 0 {
        lemma_pow0(a);
        lemma_pow0(b);
    } else {
        let m = (n - 1) as nat;
        lemma_pow_base(a, b, m);
        lemma_pow_adds(a, 1, m);
        lemma_pow_adds(b, 1, m);
        lemma_pow1(a);
        lemma_pow1(b);
        let (x, y) = (pow(a, m), pow(b, m));
        assert(0 <= a * x && a * x <= b * y) by (nonlinear_arith)
            requires
                0 <= a <= b,
                0 <= x <= y,
        {
            assert(a * x <= b * x);
            assert(b * x <= b * y);
        }
    }
}

/// A ratio above its logarithm has not decayed to one after a time that the logarithm allows.
proof fn lemma_ratio_lasts(x: i128, log: i128, d: int, n: nat)
    requires
        x >= ONE_BITS,
        near_logarithm(x, log),
        0 <= d < ONE_BITS,
        log_floor(log) >= 0,
        (n * ONE_BITS) * d <= (ONE_BITS - d) * (log_floor(log)),
    ensures
        ONE_BITS * pow(ONE_BITS as int, n) <= x * pow(ONE_BITS - d, n),
{
    let one = ONE_BITS as int;
    let keep = one - d;
    let low = log_floor(log);
    let w = n * one;
    if n == 0 {
        lemma_pow0(one);
        lemma_pow0(keep);
    } else {
        let base = w + low;
        assert(powered(low, n) == pow(base, n));
        assert(powered(0, n) == pow(w, n));
        assert(powered(low, n) * ONE_BITS <= x * powered(0, n));
        assert(0 <= w * one && w * one <= keep * base) by (nonlinear_arith)
            requires
                w * d <= keep * low,
                keep == one - d,
                base == w + low,
                w >= 0,
                one > 0,
        {
            assert(keep * base == keep * w + keep * low);
            assert(w * one == keep * w + w * d);
        }
        lemma_pow_base(w * one, keep * base, n);
        lemma_pow_distributes(w, one, n);
        lemma_pow_distributes(keep, base, n);
        assert(w > 0) by (nonlinear_arith)
            requires
                w == n * one,
                n > 0,
                one > 0,
        ;
        lemma_pow_positive(w, n);
        lemma_pow_positive(keep, n);
        let (pw, po, pk, pb) = (pow(w, n), pow(one, n), pow(keep, n), pow(base, n));
        assert(one * po <= x * pk) by (nonlinear_arith)
            requires
                pw * po <= pk * pb,
                pb * one <= x * pw,
                pw > 0,
                pk > 0,
                one > 0,
        {
            assert(one * (pw * po) <= one * (pk * pb));
            assert(one * (pk * pb) == pk * (pb * one));
            assert(pk * (pb * one) <= pk * (x * pw));
            assert(pw * (one * po) <= pw * (x * pk));
        }
    }
}

/// A ratio has decayed to one after a time that its logarithm does not reach.
proof fn lemma_ratio_goes(x: i128, log: i128, d: int, n: nat)
    requires
        x >= ONE_BITS,
        near_logarithm(x, log),
        0 <= d < ONE_BITS,
        log + 4 <= n * d,
    ensures
        x * pow(ONE_BITS - d, n) <= ONE_BITS * pow(ONE_BITS as int, n),
{
    let one = ONE_BITS as int;
    let keep = one - d;
    let high = log_ceiling(log);
    let w = n * one;
    assert(n > 0) by {
        if n == 0 {
            assert(0 * d == 0);
        }
    }
    assert(n * keep == w - n * d && n * d <= w) by (nonlinear_arith)
        requires
            w == n * one,
            keep == one - d,
            d <= one,
            n > 0,
    {
        assert(n * d <= n * one);
    }
    assert(powered(-high, n) == pow(w - high, n));
    assert(powered(0, n) == pow(w, n));
    assert(n * keep > 0) by (nonlinear_arith)
        requires
            n > 0,
            keep > 0,
    ;
    lemma_pow_base(n * keep, w - high, n);
    lemma_pow_distributes(n as int, keep, n);
    lemma_pow_distributes(n as int, one, n);
    lemma_pow_positive(n as int, n);
    let (pn, pk, po, ph) = (pow(n as int, n), pow(keep, n), pow(one, n), pow(w - high, n));
    assert(x * pk <= one * po) by (nonlinear_arith)
        requires
            pn * pk <= ph,
            x * ph <= one * (pn * po),
            pn > 0,
            x > 0,
    {
        assert(x * (pn * pk) <= x * ph);
        assert(pn * (x * pk) <= pn * (one * po));
    }
}

/// The logarithm of a number is less than 65.
proof fn lemma_logarithm_bound(x: i128, log: i128)
    requires
        x >= ONE_BITS,
        near_logarithm(x, log),
    ensures
        log <= 65 * ONE_BITS,
{
    let one = ONE_BITS as int;
    let low = log_floor(log);
    if log > 65 * one {
        vstd::arithmetic::div_mod::lemma_fundamental_div_mod(log as int, 0x400_0000);
        assert(low >= 64 * one);
        let w = 64 * one;
        assert(powered(low, 64) == pow(w + low, 64));
        assert(powered(0, 64) == pow(w, 64));
        lemma_pow_base(2 * w, w + low, 64);
        lemma_pow_distributes(2, w, 64);
        lemma_pow_positive(w, 64);
        let (p2, pw, pl) = (pow(2, 64), pow(w, 64), pow(w + low, 64));
        assert(p2 == one) by {
            vstd::arithmetic::power2::lemma_pow2(64);
            vstd::arithmetic::power2::lemma2_to64_rest();
        }
        assert(one * one <= x) by (nonlinear_arith)
            requires
                p2 * pw <= pl,
                pl * one <= x * pw,
                p2 == one,
                pw > 0,
                one > 0,
        {
            assert((p2 * pw) * one <= pl * one);
            assert(pw * (one * one) <= pw * x);
        }
        assert(one * one == 0x1_0000_0000_0000_0000_0000_0000_0000_0000int) by (nonlinear_arith)
            requires
                one == 0x1_0000_0000_0000_0000,
        ;
    }
}

/// The time that the logarithm of a ratio takes at the loss of a block is the right one.
pub proof fn lemma_right_time(r: u64, dust: u64, x: i128, delta: Fixed, log: Fixed)
    requires
        0 < dust < r,
        x >= ONE_BITS,
        x * dust <= r * ONE_BITS < (x + 1) * dust,
        0 < delta.bits,
        BLOCKS_PER_DAY * delta.bits <= ONE_BITS,
        near_logarithm(x, log.bits),
    ensures
        right_time(r, dust, delta, log.over(log_loss(delta)).floor_amount()),
{
    let one = ONE_BITS as int;
    let d = delta.bits as int;
    let keep = one - d;
    let l = log_loss(delta).bits as int;
    let v = log.bits as int;
    lemma_loss_of_a_block(delta);
    lemma_logarithm_bound(x, log.bits);
    let q = log.over(log_loss(delta)).bits as int;
    let m = log.over(log_loss(delta)).floor_amount() as int;
    lemma_over(log, log_loss(delta));
    let e = (v * one) / l;
    vstd::arithmetic::div_mod::lemma_fundamental_div_mod(v * one, l);
    vstd::arithmetic::div_mod::lemma_fundamental_div_mod(q, one);
    assert(0 <= m && m * one <= q < (m + 1) * one);
    // The time is no longer than the logarithm allows.
    assert(m * l <= v) by (nonlinear_arith)
        requires
            m * one <= q,
            q == 0 || l * q <= v * one,
            0 <= m,
            v >= 0,
            l > 0,
            one > 0,
    {
        assert((m * one) * l <= l * q);
        assert((m * one) * l == (m * l) * one);
        if q == 0 {
            assert(m == 0);
        }
    }
    let low = log_floor(log.bits);
    assert forall|n: nat| 7200 * (n + 4) <= 7198 * m implies #[trigger] lasts(
        r,
        dust,
        delta,
        n,
    ) by {
        vstd::arithmetic::div_mod::lemma_fundamental_div_mod(v, 0x400_0000);
        let md = m * d;
        let nd = n * d;
        assert(md <= v && 7200 * nd + 28800 * d <= 7198 * md) by (nonlinear_arith)
            requires
                md == m * d,
                nd == n * d,
                m * l <= v,
                d <= l,
                m >= 0,
                d > 0,
                7200 * (n + 4) <= 7198 * m,
        {
            assert(m * d <= m * l);
            assert(d * (7200 * (n + 4)) <= d * (7198 * m));
        }
        // What is left of the logarithm after the roundings, times what the block keeps.
        assert(7200 * low >= 7200 * v - v / 9000 - 28800);
        assert(7199 * low >= 7200 * nd);
        assert(low >= 0);
        assert(7200 * keep >= 7199 * one);
        assert((n * one) * d <= keep * low) by (nonlinear_arith)
            requires
                nd == n * d,
                7199 * low >= 7200 * nd,
                7200 * keep >= 7199 * one,
                low >= 0,
                one > 0,
        {
            assert((n * one) * d == one * nd);
            assert(one * (7200 * nd) <= one * (7199 * low));
            assert((7199 * one) * low <= (7200 * keep) * low);
        }
        lemma_ratio_lasts(x, log.bits, d, n);
        lemma_pow_positive(keep, n);
        let (po, pk) = (pow(one, n), pow(keep, n));
        let (ri, di) = (r as int, dust as int);
        assert(di * po <= ri * pk) by (nonlinear_arith)
            requires
                one * po <= x * pk,
                x * di <= ri * one,
                di > 0,
                pk > 0,
                one > 0,
        {
            assert(di * (one * po) <= di * (x * pk));
            assert((x * di) * pk <= (ri * one) * pk);
            assert(one * (di * po) <= one * (ri * pk));
        }
    }
    if d >= 256 {
        // The quotient fits, and the time is no shorter than the logarithm asks.
        assert(e <= i128::MAX) by (nonlinear_arith)
            requires
                l * e <= v * one,
                v <= 65 * one,
                l >= 256,
                e >= 0,
                one == 0x1_0000_0000_0000_0000,
        {
            assert(256 * e <= l * e);
            assert(v * one <= (65 * one) * one);
        }
        assert(v < (m + 1) * l) by (nonlinear_arith)
            requires
                v * one < l * e + l,
                e == q,
                q + 1 <= (m + 1) * one,
                l > 0,
                one > 0,
        {
            assert(l * (q + 1) <= l * ((m + 1) * one));
            assert(l * ((m + 1) * one) == ((m + 1) * l) * one);
        }
        assert forall|n: nat| 7200 * n >= 7202 * (m + 5) implies #[trigger] gone(
            r,
            dust,
            delta,
            n,
        ) by {
            let k = (n - 1) as nat;
            assert(v + 4 <= k * d) by (nonlinear_arith)
                requires
                    v < (m + 1) * l,
                    7200 * l <= 7201 * d,
                    7200 * n >= 7202 * (m + 5),
                    k == n - 1,
                    m >= 0,
                    d >= 4,
            {
                assert(7200 * ((m + 1) * l) <= 7201 * ((m + 1) * d)) by {
                    assert((m + 1) * (7200 * l) <= (m + 1) * (7201 * d));
                }
                assert(d * (7200 * k) >= d * (7202 * (m + 5) - 7200));
                assert(d * (7202 * (m + 5) - 7200) == 7201 * ((m + 1) * d) + (m * d) + 21609 * d);
                assert(m * d >= 0);
            }
            lemma_ratio_goes(x, log.bits, d, k);
            lemma_pow_adds(keep, k, 1);
            lemma_pow_adds(one, k, 1);
            lemma_pow1(keep);
            lemma_pow1(one);
            lemma_pow_positive(keep, k);
            lemma_pow_positive(one, k);
            let (po, pk) = (pow(one, k), pow(keep, k));
            let (ri, di) = (r as int, dust as int);
            // One block more takes what the ratio was rounded down by.
            let y = x + 1;
            assert(y * keep <= x * one) by (nonlinear_arith)
                requires
                    y == x + 1,
                    keep == one - d,
                    x >= one,
                    d >= 1,
                    one > 0,
            {
                assert(y * keep == x * one - x * d + one - d);
                assert(x * d >= x);
            }
            assert(ri * (pk * keep) <= di * (po * one)) by (nonlinear_arith)
                requires
                    ri * one <= y * di,
                    y * keep <= x * one,
                    x * pk <= one * po,
                    di > 0,
                    pk > 0,
                    keep > 0,
                    one > 0,
            {
                assert((ri * one) * (pk * keep) <= (y * di) * (pk * keep));
                assert((y * di) * (pk * keep) == (y * keep) * (di * pk));
                assert((y * keep) * (di * pk) <= (x * one) * (di * pk)) by {
                    assert(di * pk > 0);
                }
                assert((x * one) * (di * pk) == (one * di) * (x * pk));
                assert((one * di) * (x * pk) <= (one * di) * (one * po)) by {
                    assert(one * di > 0);
                }
                assert(one * (ri * (pk * keep)) <= one * (di * (po * one)));
            }
        }
    }
}

} // verus!
