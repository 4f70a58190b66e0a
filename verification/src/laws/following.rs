//! A position follows its sums.
//!
//! The sums lose a share of each block, and a position an exponential of the accumulated losses.
//! Here stands how far the two come apart in a block: by no more than a number of units in the last
//! place, whatever the position has gone through.
use crate::fixed::{exp_fits, exp_sum, exp_term, Fixed, EXP_ORDER, ONE_BITS};
use crate::math::{log_loss, remaining_share, BLOCKS_PER_DAY, HALF_BITS, THIRD_BITS};
use crate::series::{
    lemma_fall, lemma_growth, lemma_inverse, lemma_last_terms, lemma_last_terms_to_eight,
    lemma_series_is_monotone, lemma_sum, lemma_term, raised_sum, sum_at,
};
use vstd::prelude::*;

verus! {

broadcast use crate::math::lemma_remaining_share;

/// How many units in the last place of a share a block may set a position off its sums.
pub const BLOCK_UNITS: i128 = 7100;

/// What the loss of a block is of its decay `d`: the first three terms of the logarithm, less the
/// roundings.
proof fn lemma_loss(delta: Fixed)
    requires
        0 <= delta.bits,
        BLOCKS_PER_DAY * delta.bits <= ONE_BITS,
    ensures
        ({
            let one = ONE_BITS as int;
            let d = delta.bits as int;
            let l = log_loss(delta).bits as int;
            &&& d <= l
            &&& 7000 * l <= one
            &&& one * l <= one * d + d * d
            &&& 2 * one * l >= 2 * one * d + d * d - 2 * one
            &&& 6 * (one * one) * l <= 6 * (one * one) * d + 3 * one * (d * d) + 2 * (d * d * d)
            &&& 6 * (one * one) * l >= 6 * (one * one) * d + 3 * one * (d * d) + 2 * (d * d * d) - 18
                * (one * one)
        }),
{
    let one = ONE_BITS as int;
    let d = delta.bits as int;
    let dd = d * d;
    let ddd = d * d * d;
    let d2 = dd / one;
    let h = (d2 * HALF_BITS) / one;
    let d3 = (d2 * d) / one;
    let th = (d3 * THIRD_BITS) / one;
    assert(0 <= dd && 7200 * dd <= one * d) by (nonlinear_arith)
        requires
            dd == d * d,
            0 <= d,
            7200 * d <= one,
    {
        assert((7200 * d) * d <= one * d);
    }
    vstd::arithmetic::div_mod::lemma_fundamental_div_mod(dd, one);
    vstd::arithmetic::div_mod::lemma_div_pos_is_pos(dd, one);
    assert(7200 * d2 <= d);
    let m = d2 * d;
    assert(0 <= m && 7200 * m <= one * d2) by (nonlinear_arith)
        requires
            m == d2 * d,
            0 <= d2,
            0 <= d,
            7200 * d <= one,
    {
        assert(d2 * (7200 * d) <= d2 * one);
    }
    vstd::arithmetic::div_mod::lemma_fundamental_div_mod(m, one);
    vstd::arithmetic::div_mod::lemma_div_pos_is_pos(m, one);
    assert(7200 * d3 <= d2);
    vstd::arithmetic::div_mod::lemma_fundamental_div_mod(d2 * HALF_BITS, one);
    vstd::arithmetic::div_mod::lemma_div_pos_is_pos(d2 * HALF_BITS, one);
    vstd::arithmetic::div_mod::lemma_fundamental_div_mod(d3 * THIRD_BITS, one);
    vstd::arithmetic::div_mod::lemma_div_pos_is_pos(d3 * THIRD_BITS, one);
    assert(2 * h <= d2 <= 2 * h + 1);
    assert(3 * th <= d3 <= 3 * th + 4);
    let l = log_loss(delta).bits as int;
    assert(delta.times(delta).bits == d2);
    assert(delta.times(delta).times(delta).bits == d3);
    assert(l == d + h + th);
    // The second order.
    assert(dd - 2 * one <= 2 * one * h && 2 * one * h <= dd) by (nonlinear_arith)
        requires
            2 * h <= d2 <= 2 * h + 1,
            one * d2 <= dd,
            dd < one * d2 + one,
            one > 0,
    {
        assert(one * (2 * h) <= one * d2);
        assert(one * d2 <= one * (2 * h + 1));
        assert(one * (2 * h) == 2 * one * h);
        assert(one * (2 * h + 1) == 2 * one * h + one);
    }
    // The third order.
    let md = one * m;
    assert(ddd - one * d <= md && md <= ddd) by (nonlinear_arith)
        requires
            md == one * (d2 * d),
            one * d2 <= dd,
            dd < one * d2 + one,
            ddd == dd * d,
            d >= 0,
    {
        assert((one * d2) * d <= dd * d);
        assert(dd * d <= (one * d2 + one) * d);
        assert((one * d2 + one) * d == (one * d2) * d + one * d);
        assert((one * d2) * d == one * (d2 * d));
    }
    let x = one * one;
    assert(one * (one * d3) <= md && md <= one * (one * d3) + x) by (nonlinear_arith)
        requires
            md == one * m,
            one * d3 <= m,
            m < one * d3 + one,
            x == one * one,
            one > 0,
    {
        assert(one * m <= one * (one * d3 + one));
        assert(one * (one * d3 + one) == one * (one * d3) + one * one);
    }
    assert(one * (one * d3) == x * d3) by (nonlinear_arith)
        requires
            x == one * one,
    ;
    assert(3 * (x * th) <= x * d3 && x * d3 <= 3 * (x * th) + 4 * x) by (nonlinear_arith)
        requires
            3 * th <= d3 <= 3 * th + 4,
            x > 0,
    {
        assert(x * (3 * th) <= x * d3);
        assert(x * d3 <= x * (3 * th + 4));
    }
    assert(one * d <= x) by (nonlinear_arith)
        requires
            d <= one,
            x == one * one,
            one > 0,
    ;
    assert(6 * x * l == 6 * x * d + 3 * one * (2 * one * h) + 2 * (3 * (x * th))) by (nonlinear_arith)
        requires
            l == d + h + th,
            x == one * one,
    {
        assert(3 * one * (2 * one * h) == 6 * x * h);
        assert(2 * (3 * (x * th)) == 6 * x * th);
        assert(6 * x * (d + h + th) == 6 * x * d + 6 * x * h + 6 * x * th);
    }
    assert(3 * one * (2 * one * h) <= 3 * one * dd && 3 * one * (2 * one * h) >= 3 * one * dd - 6
        * x) by (nonlinear_arith)
        requires
            dd - 2 * one <= 2 * one * h <= dd,
            one > 0,
            x == one * one,
    {
        assert((3 * one) * (dd - 2 * one) <= (3 * one) * (2 * one * h));
        assert((3 * one) * (2 * one * h) <= (3 * one) * dd);
        assert((3 * one) * (dd - 2 * one) == 3 * one * dd - 6 * (one * one));
    }
}

/// The loss of a block is less than the whole.
pub proof fn lemma_loss_of_a_block(delta: Fixed)
    requires
        0 <= delta.bits,
        BLOCKS_PER_DAY * delta.bits <= ONE_BITS,
    ensures
        delta.bits <= log_loss(delta).bits,
        7000 * log_loss(delta).bits <= ONE_BITS,
        7200 * log_loss(delta).bits <= 7201 * delta.bits,
{
    lemma_loss(delta);
    let one = ONE_BITS as int;
    let (d, l) = (delta.bits as int, log_loss(delta).bits as int);
    assert(7200 * l <= 7201 * d) by (nonlinear_arith)
        requires
            one * l <= one * d + d * d,
            0 <= d,
            7200 * d <= one,
            one > 0,
    {
        assert((7200 * d) * d <= one * d);
        assert(one * (7200 * l) <= one * (7201 * d));
    }
}

/// The loss of a block is the logarithm of what the block leaves, `-ln(1 - d)`, to the third order,
/// `d + d^2 / 2 + d^3 / 3`, but for three units in the last place.
pub proof fn law_loss_is_the_logarithm(delta: Fixed)
    requires
        0 <= delta.bits,
        BLOCKS_PER_DAY * delta.bits <= ONE_BITS,
    ensures
        ({
            let one = ONE_BITS as int;
            let d = delta.bits as int;
            let series = 6 * (one * one) * d + 3 * one * (d * d) + 2 * (d * d * d);
            series - 18 * (one * one) <= 6 * (one * one) * log_loss(delta).bits <= series
        }),
{
    lemma_loss(delta);
}

/// The cubic of the loss, times what a block leaves, is one but for its fourth order.
proof fn lemma_cubic_up(d: int, l: int, one: int)
    requires
        one > 7200,
        0 <= d <= l,
        7200 * d <= one,
        7000 * l <= one,
        2 * one * l >= 2 * one * d + d * d - 2 * one,
        6 * (one * one) * l >= 6 * (one * one) * d + 3 * one * (d * d) + 2 * (d * d * d) - 18 * (one
            * one),
    ensures
        one * (l * l) >= one * (d * d) + d * d * d - one * one,
        6 * (one * one * one) + 6 * (one * one) * l + 3 * one * (l * l) + l * l * l >= 6 * (one * one
            * one + one * one * d + one * (d * d) + d * d * d) - 21 * (one * one),
{
    let (dd, ddd) = (d * d, d * d * d);
    let (ll, lll) = (l * l, l * l * l);
    let x = one * one;
    let v = 2 * one * d + dd - 2 * one;
    assert(l * v <= l * (2 * one * l)) by (nonlinear_arith)
        requires
            v <= 2 * one * l,
            l >= 0,
    ;
    assert(l * (2 * one * l) == 2 * (one * ll)) by (nonlinear_arith)
        requires
            ll == l * l,
    ;
    assert(l * v == d * (2 * one * l) + l * dd - 2 * (one * l)) by (nonlinear_arith)
        requires
            v == 2 * one * d + dd - 2 * one,
    ;
    assert(d * (2 * one * l) >= d * v) by (nonlinear_arith)
        requires
            v <= 2 * one * l,
            d >= 0,
    ;
    assert(d * v == 2 * (one * dd) + ddd - 2 * (one * d)) by (nonlinear_arith)
        requires
            v == 2 * one * d + dd - 2 * one,
            dd == d * d,
            ddd == d * d * d,
    ;
    assert(l * dd >= ddd && dd >= 0) by (nonlinear_arith)
        requires
            l >= d,
            d >= 0,
            dd == d * d,
            ddd == d * d * d,
    {
        assert(l * dd >= d * dd);
        assert(d * dd == d * d * d);
    }
    assert(one * l + one * d <= x) by (nonlinear_arith)
        requires
            l + d <= one,
            x == one * one,
            one > 0,
    {
        assert(one * (l + d) <= one * one);
    }
    assert(one * ll >= one * dd + ddd - x);
    assert(lll >= ddd) by (nonlinear_arith)
        requires
            0 <= d <= l,
            lll == l * l * l,
            ddd == d * d * d,
    {
        assert(d * d <= l * l);
        assert((d * d) * d <= (l * l) * l);
    }
    assert(3 * one * ll == 3 * (one * ll) && 3 * one * dd == 3 * (one * dd)) by (nonlinear_arith);
    assert(6 * (one * one * one + one * one * d + one * dd + ddd) == 6 * (one * one * one) + 6 * x * d
        + 6 * (one * dd) + 6 * ddd) by (nonlinear_arith)
        requires
            x == one * one,
    ;
}

/// The fourth order, in units.
proof fn lemma_fourth_order(d: int, one: int)
    requires
        one == ONE_BITS,
        0 <= d,
        7200 * d <= one,
    ensures
        0 <= d * d * d * d <= 6865 * (one * one * one),
{
    let dd = d * d;
    let e = one * one;
    assert(0 <= dd && 51_840_000 * dd <= e) by (nonlinear_arith)
        requires
            dd == d * d,
            0 <= d,
            7200 * d <= one,
            e == one * one,
    {
        assert((7200 * d) * (7200 * d) <= one * one);
    }
    let q = dd * dd;
    assert(q == d * d * d * d) by (nonlinear_arith)
        requires
            q == dd * dd,
            dd == d * d,
    ;
    let c = one * one * one;
    assert(0 <= q && 2_687_385_600_000_000 * q <= c * one) by (nonlinear_arith)
        requires
            q == dd * dd,
            0 <= dd,
            51_840_000 * dd <= e,
            e == one * one,
            c == one * one * one,
    {
        assert((51_840_000 * dd) * (51_840_000 * dd) <= e * e);
        assert(e * e == c * one);
    }
    assert(c * one <= c * (6865 * 2_687_385_600_000_000)) by (nonlinear_arith)
        requires
            c >= 0,
            one == 0x1_0000_0000_0000_0000,
    ;
    assert(c >= 0) by (nonlinear_arith)
        requires
            c == one * one * one,
            one > 0,
    ;
}

/// The cubic of a loss that is taken back is what a block leaves but for its fourth order.
proof fn lemma_cubic_down(d: int, l: int, one: int)
    requires
        one > 7200,
        0 <= d <= l,
        7200 * d <= one,
        7000 * l <= one,
        one * l <= one * d + d * d,
        2 * one * l >= 2 * one * d + d * d - 2 * one,
        6 * (one * one) * l >= 6 * (one * one) * d + 3 * one * (d * d) + 2 * (d * d * d) - 18 * (one
            * one),
        6 * (one * one) * l <= 6 * (one * one) * d + 3 * one * (d * d) + 2 * (d * d * d),
    ensures
        one * (6 * (one * one * one) - 6 * (one * one) * l + 3 * one * (l * l) - l * l * l) >= 6 * (one
            * one * one) * (one - d) - 3 * (one * one * one) - 4 * (d * d * d * d),
{
    lemma_cubic_up(d, l, one);
    let (dd, ddd, dddd) = (d * d, d * d * d, d * d * d * d);
    let (ll, lll) = (l * l, l * l * l);
    let x = one * one;
    assert(x > 0) by (nonlinear_arith)
        requires
            x == one * one,
            one > 0,
    ;
    let w = d * (one + d);
    assert(w == one * d + dd) by (nonlinear_arith)
        requires
            w == d * (one + d),
            dd == d * d,
    ;
    let a = one * l;
    assert(a * a * a <= w * w * w) by (nonlinear_arith)
        requires
            0 <= a <= w,
    {
        assert(a * a <= w * w);
        assert((a * a) * a <= (w * w) * w);
    }
    assert(0 <= a) by (nonlinear_arith)
        requires
            a == one * l,
            one > 0,
            l >= 0,
    ;
    assert(a * a * a == x * (one * lll)) by (nonlinear_arith)
        requires
            a == one * l,
            x == one * one,
            lll == l * l * l,
    {
        assert((one * l) * (one * l) * (one * l) == (one * one) * (one * (l * l * l)));
    }
    let b = one + d;
    assert(w * w * w == ddd * (b * b * b)) by (nonlinear_arith)
        requires
            w == d * b,
            ddd == d * d * d,
    {
        assert((d * b) * (d * b) * (d * b) == (d * d * d) * (b * b * b));
    }
    assert(b * b * b <= x * (one + 4 * d)) by (nonlinear_arith)
        requires
            b == one + d,
            x == one * one,
            0 <= d,
            7200 * d <= one,
    {
        assert(b * b * b == one * one * one + 3 * (one * one * d) + 3 * (one * d * d) + d * d * d);
        assert(7200 * (d * d) <= one * d) by {
            assert((7200 * d) * d <= one * d);
        }
        assert(7200 * (one * d * d) <= one * one * d) by {
            assert(one * (7200 * (d * d)) <= one * (one * d));
        }
        assert(d * d * d <= one * d * d) by {
            assert(d * (d * d) <= one * (d * d));
        }
        assert(x * (one + 4 * d) == one * one * one + 4 * (one * one * d));
    }
    assert(ddd >= 0) by (nonlinear_arith)
        requires
            ddd == d * d * d,
            d >= 0,
    ;
    let c = one + 4 * d;
    assert(ddd * (b * b * b) <= ddd * (x * c)) by (nonlinear_arith)
        requires
            b * b * b <= x * c,
            ddd >= 0,
    ;
    assert(ddd * (x * c) == x * (ddd * c)) by (nonlinear_arith);
    assert(one * lll <= ddd * c) by (nonlinear_arith)
        requires
            x * (one * lll) <= x * (ddd * c),
            x > 0,
    ;
    assert(ddd * c == one * ddd + 4 * dddd) by (nonlinear_arith)
        requires
            c == one + 4 * d,
            ddd == d * d * d,
            dddd == d * d * d * d,
    ;
    let h = 6 * (one * x) - 6 * x * l + 3 * one * ll - lll;
    assert(3 * one * ll == 3 * (one * ll) && 3 * one * dd == 3 * (one * dd)) by (nonlinear_arith);
    let g = 6 * (one * x) - 6 * x * d + ddd - 3 * x;
    assert(h >= g - lll);
    assert(one * h >= one * g - one * lll) by (nonlinear_arith)
        requires
            h >= g - lll,
            one > 0,
    {
        assert(one * h >= one * (g - lll));
    }
    assert(one * g == 6 * (one * x) * (one - d) + one * ddd - 3 * (one * x)) by (nonlinear_arith)
        requires
            g == 6 * (one * x) - 6 * x * d + ddd - 3 * x,
    ;
    assert(one * one * one == one * x) by (nonlinear_arith)
        requires
            x == one * one,
    ;
}

/// The sums that a raised argument takes together, as a product less the last terms.
proof fn lemma_raised_as_product(y: int, l: int)
    requires
        y >= 0,
        7000 * l <= ONE_BITS,
        -ONE_BITS <= 7000 * l,
    ensures
        ({
            let one = ONE_BITS as int;
            let (t61, t62, t63) = (exp_term(y, 61), exp_term(y, 62), exp_term(y, 63));
            let s = exp_sum(y, EXP_ORDER as nat);
            raised_sum(y, l, EXP_ORDER as int) == s * (6 * one * one * one + 6 * one * one * l + 3
                * one * (l * l) + l * l * l) - (6 * one * one * (l * t63) + 3 * one * (l * l * (t63
                + t62)) + l * l * l * (t63 + t62 + t61))
        }),
{
    let one = ONE_BITS as int;
    let (t61, t62, t63) = (exp_term(y, 61), exp_term(y, 62), exp_term(y, 63));
    let s = exp_sum(y, EXP_ORDER as nat);
    assert(sum_at(y, 63) == s);
    assert(sum_at(y, 62) == s - t63);
    assert(sum_at(y, 61) == s - t63 - t62);
    assert(sum_at(y, 60) == s - t63 - t62 - t61);
    let (k3, k2, k1) = (6 * one * one * one, 6 * one * one, 3 * one);
    let (l2, l3) = (l * l, l * l * l);
    let (a, b, c) = (s - t63, s - t63 - t62, s - t63 - t62 - t61);
    assert(raised_sum(y, l, 63) == k3 * s + k2 * (l * a) + k1 * (l2 * b) + l3 * c);
    assert(k2 * (l * a) == s * (k2 * l) - k2 * (l * t63)) by (nonlinear_arith)
        requires
            a == s - t63,
    {
        assert(l * a == l * s - l * t63);
        assert(k2 * (l * s - l * t63) == k2 * (l * s) - k2 * (l * t63));
        assert(k2 * (l * s) == s * (k2 * l));
    }
    assert(k1 * (l2 * b) == s * (k1 * l2) - k1 * (l2 * (t63 + t62))) by (nonlinear_arith)
        requires
            b == s - t63 - t62,
    {
        let t = t63 + t62;
        assert(l2 * b == l2 * s - l2 * t);
        assert(k1 * (l2 * s - l2 * t) == k1 * (l2 * s) - k1 * (l2 * t));
        assert(k1 * (l2 * s) == s * (k1 * l2));
    }
    assert(l3 * c == s * l3 - l3 * (t63 + t62 + t61)) by (nonlinear_arith)
        requires
            c == s - t63 - t62 - t61,
    {
        let t = t63 + t62 + t61;
        assert(l3 * (s - t) == l3 * s - l3 * t);
        assert(l3 * s == s * l3);
    }
    assert(s * (k3 + k2 * l + k1 * l2 + l3) == k3 * s + s * (k2 * l) + s * (k1 * l2) + s * l3)
        by (nonlinear_arith);
}

/// The last terms weigh little against the sum, once they are divided by it.
proof fn lemma_last_terms_weigh_little(y: int, l: int, u: int)
    requires
        y >= 0,
        0 <= l,
        7000 * l <= ONE_BITS,
        u >= 0,
        u * exp_sum(y, EXP_ORDER as nat) <= ONE_BITS * ONE_BITS,
    ensures
        ({
            let one = ONE_BITS as int;
            let (t61, t62, t63) = (exp_term(y, 61), exp_term(y, 62), exp_term(y, 63));
            u * (6 * one * one * (l * t63) + 3 * one * (l * l * (t63 + t62)) + l * l * l * (t63 + t62
                + t61)) <= 141 * (one * one * one) * exp_sum(y, EXP_ORDER as nat)
        }),
{
    let one = ONE_BITS as int;
    let (t61, t62, t63) = (exp_term(y, 61), exp_term(y, 62), exp_term(y, 63));
    let s = exp_sum(y, EXP_ORDER as nat);
    lemma_term(y, 61);
    lemma_term(y, 62);
    lemma_term(y, 63);
    lemma_sum(y, EXP_ORDER as nat);
    lemma_last_terms(y);
    let t = t61 + t62 + t63;
    let x = one * one;
    let tau = 6 * one * one * (l * t63) + 3 * one * (l * l * (t63 + t62)) + l * l * l * (t63 + t62
        + t61);
    let lt = l * t;
    assert(lt >= 0 && l * t63 <= lt && l * (t63 + t62) <= lt) by (nonlinear_arith)
        requires
            lt == l * t,
            t == t61 + t62 + t63,
            l >= 0,
            t61 >= 0,
            t62 >= 0,
            t63 >= 0,
    {
        assert(l * t63 <= l * t);
        assert(l * (t63 + t62) <= l * t);
    }
    assert(6 * one * one * (l * t63) <= 6 * (x * lt)) by (nonlinear_arith)
        requires
            l * t63 <= lt,
            x == one * one,
            one > 0,
    {
        assert((6 * one * one) * (l * t63) <= (6 * one * one) * lt);
    }
    assert(3 * one * (l * l * (t63 + t62)) <= 3 * (x * lt)) by (nonlinear_arith)
        requires
            l * (t63 + t62) <= lt,
            x == one * one,
            0 <= l <= one,
            lt >= 0,
    {
        assert(l * l * (t63 + t62) == l * (l * (t63 + t62)));
        assert(l * (l * (t63 + t62)) <= l * lt);
        assert(l * lt <= one * lt);
        assert((3 * one) * (l * l * (t63 + t62)) <= (3 * one) * (one * lt));
        assert((3 * one) * (one * lt) == 3 * ((one * one) * lt));
    }
    assert(l * l * l * (t63 + t62 + t61) <= x * lt) by (nonlinear_arith)
        requires
            lt == l * t,
            t == t61 + t62 + t63,
            x == one * one,
            0 <= l <= one,
            lt >= 0,
    {
        assert(l * l <= one * one);
        assert(l * l * l * t == (l * l) * (l * t));
        assert((l * l) * lt <= (one * one) * lt);
    }
    assert(tau <= 10 * (x * lt));
    // What they are beside the square of the sum.
    let g = 0x2_0000_0000_0000int;
    assert(g * (one * t) <= 3 * (s * s)) by (nonlinear_arith)
        requires
            g * (one * t61) <= s * s,
            g * (one * t62) <= s * s,
            g * (one * t63) <= s * s,
            t == t61 + t62 + t63,
    {
        assert(one * t == one * t61 + one * t62 + one * t63);
        assert(g * (one * t) == g * (one * t61) + g * (one * t62) + g * (one * t63));
    }
    let xl = x * lt;
    let ol = one * l;
    assert(g * xl <= 3 * (ol * (s * s))) by (nonlinear_arith)
        requires
            xl == x * lt,
            x == one * one,
            lt == l * t,
            ol == one * l,
            ol >= 0,
            g * (one * t) <= 3 * (s * s),
    {
        assert(x * lt == ol * (one * t));
        assert(ol * (g * (one * t)) <= ol * (3 * (s * s)));
        assert(ol * (g * (one * t)) == g * (ol * (one * t)));
    }
    let us = u * s;
    assert(u * (ol * (s * s)) <= ol * s * x) by (nonlinear_arith)
        requires
            us == u * s,
            us <= x,
            ol >= 0,
            s >= 0,
    {
        assert(u * (ol * (s * s)) == (ol * s) * us);
        assert(ol * s >= 0);
        assert((ol * s) * us <= (ol * s) * x);
    }
    let uxl = u * xl;
    let w = ol * s * x;
    assert(g * uxl <= 3 * w) by (nonlinear_arith)
        requires
            uxl == u * xl,
            g * xl <= 3 * (ol * (s * s)),
            u * (ol * (s * s)) <= w,
            u >= 0,
    {
        assert(u * (g * xl) <= u * (3 * (ol * (s * s))));
        assert(u * (g * xl) == g * (u * xl));
        assert(u * (3 * (ol * (s * s))) == 3 * (u * (ol * (s * s))));
    }
    let c = one * x * s;
    assert(7000 * w <= one * c) by (nonlinear_arith)
        requires
            w == ol * s * x,
            ol == one * l,
            7000 * l <= one,
            c == one * x * s,
            c >= 0,
    {
        assert(ol * s * x == l * c);
        assert((7000 * l) * c <= one * c);
    }
    assert(c >= 0) by (nonlinear_arith)
        requires
            c == one * x * s,
            one > 0,
            x > 0,
            s > 0,
    ;
    // A whole is some thousand times the weight of the terms.
    assert(one == 32768 * g);
    assert(7000 * uxl <= 98304 * c) by (nonlinear_arith)
        requires
            g * uxl <= 3 * w,
            7000 * w <= one * c,
            one == 32768 * g,
            g > 0,
    {
        assert(7000 * (g * uxl) <= 3 * ((32768 * g) * c));
        assert(g * (7000 * uxl) <= g * (98304 * c));
    }
    assert(u * tau <= 10 * uxl) by (nonlinear_arith)
        requires
            tau <= 10 * xl,
            uxl == u * xl,
            u >= 0,
    {
        assert(u * tau <= u * (10 * xl));
    }
    assert(u * tau <= 141 * c);
    assert(141 * (one * one * one) * s == 141 * c) by (nonlinear_arith)
        requires
            c == one * x * s,
            x == one * one,
    ;
}

/// The share that a block leaves of a position is no more than the block leaves of the share, but
/// for some units.
proof fn lemma_block_up(y: int, delta: Fixed)
    requires
        y >= 0,
        0 <= delta.bits,
        BLOCKS_PER_DAY * delta.bits <= ONE_BITS,
    ensures
        ({
            let z = y + log_loss(delta).bits;
            let one = ONE_BITS as int;
            let v = (one * one) / exp_sum(y, EXP_ORDER as nat);
            let u = (one * one) / exp_sum(z, EXP_ORDER as nat);
            u * one <= v * (one - delta.bits) + BLOCK_UNITS * one
        }),
{
    let one = ONE_BITS as int;
    let d = delta.bits as int;
    let l = log_loss(delta).bits as int;
    let z = y + l;
    let keep = one - d;
    let (s, r) = (exp_sum(y, EXP_ORDER as nat), exp_sum(z, EXP_ORDER as nat));
    let (v, u) = ((one * one) / s, (one * one) / r);
    lemma_loss(delta);
    lemma_cubic_up(d, l, one);
    lemma_fourth_order(d, one);
    lemma_sum(y, EXP_ORDER as nat);
    lemma_sum(z, EXP_ORDER as nat);
    lemma_series_is_monotone(y, z, EXP_ORDER as nat);
    lemma_inverse(s);
    lemma_inverse(r);
    lemma_growth(y, l);
    lemma_raised_as_product(y, l);
    assert(u * s <= u * r) by (nonlinear_arith)
        requires
            s <= r,
            u >= 0,
    ;
    lemma_last_terms_weigh_little(y, l, u);
    let (t61, t62, t63) = (exp_term(y, 61), exp_term(y, 62), exp_term(y, 63));
    let tau = 6 * one * one * (l * t63) + 3 * one * (l * l * (t63 + t62)) + l * l * l * (t63 + t62
        + t61);
    let k3 = 6 * one * one * one;
    let h = k3 + 6 * one * one * l + 3 * one * (l * l) + l * l * l;
    let c = one * one * one;
    assert(k3 == 6 * c) by (nonlinear_arith)
        requires
            k3 == 6 * one * one * one,
            c == one * one * one,
    ;
    // One times the growth.
    let o2 = one + 128;
    assert(one * (s * h - tau) <= k3 * (o2 * r));
    let q = one * one;
    assert(s * h - tau <= 6 * (q * (o2 * r))) by (nonlinear_arith)
        requires
            one * (s * h - tau) <= k3 * (o2 * r),
            k3 == 6 * c,
            c == one * q,
            one > 0,
    {
        assert((6 * (one * q)) * (o2 * r) == one * (6 * (q * (o2 * r))));
    }
    let us = u * s;
    let ur = u * r;
    assert(us * h <= 6 * (q * (o2 * ur)) + u * tau) by (nonlinear_arith)
        requires
            s * h - tau <= 6 * (q * (o2 * r)),
            us == u * s,
            ur == u * r,
            u >= 0,
    {
        assert(u * (s * h - tau) <= u * (6 * (q * (o2 * r))));
        assert(u * (s * h - tau) == (u * s) * h - u * tau);
        assert(u * (6 * (q * (o2 * r))) == 6 * (q * (o2 * (u * r))));
    }
    assert(6 * (q * (o2 * ur)) <= 6 * (q * (o2 * q))) by (nonlinear_arith)
        requires
            ur <= q,
            q > 0,
            o2 > 0,
    {
        assert(o2 * ur <= o2 * q);
        assert(q * (o2 * ur) <= q * (o2 * q));
    }
    assert(us * h <= 6 * (q * (o2 * q)) + 141 * c * s);
    // The cubic times what the block keeps.
    let p = one * one * one + one * one * d + one * (d * d) + d * d * d;
    let k2 = 6 * one * one;
    assert(h >= 6 * p - 21 * q) by {
        assert(6 * one * one * l == 6 * (one * one) * l) by (nonlinear_arith);
        assert(3 * one * (l * l) == 3 * one * (l * l));
    }
    assert(p * keep == one * c - d * d * d * d) by (nonlinear_arith)
        requires
            p == one * one * one + one * one * d + one * (d * d) + d * d * d,
            keep == one - d,
            c == one * one * one,
    ;
    let hk = h * keep;
    assert(hk >= 6 * (one * c) - 41211 * c) by (nonlinear_arith)
        requires
            hk == h * keep,
            h >= 6 * p - 21 * q,
            p * keep == one * c - d * d * d * d,
            d * d * d * d <= 6865 * c,
            0 <= keep <= one,
            c == one * q,
            q >= 0,
    {
        assert(h * keep >= (6 * p - 21 * q) * keep);
        assert((6 * p - 21 * q) * keep == 6 * (p * keep) - 21 * (q * keep));
        assert(q * keep <= q * one);
        assert(q * one == c) by {
            assert(q * one == one * q);
        }
    }
    let b = 6 * (q * (o2 * q)) + 141 * c * s;
    assert(us * hk <= b * keep) by (nonlinear_arith)
        requires
            us * h <= b,
            hk == h * keep,
            keep >= 0,
    {
        assert((us * h) * keep <= b * keep);
        assert((us * h) * keep == us * (h * keep));
    }
    assert(us >= 0) by (nonlinear_arith)
        requires
            us == u * s,
            u >= 0,
            s >= 0,
    ;
    let g = one * c;
    assert(us * hk >= 6 * (us * g) - 41211 * (us * c)) by (nonlinear_arith)
        requires
            hk >= 6 * g - 41211 * c,
            us >= 0,
    {
        assert(us * hk >= us * (6 * g - 41211 * c));
        assert(us * (6 * g - 41211 * c) == 6 * (us * g) - 41211 * (us * c));
    }
    assert(us * c <= g * one) by (nonlinear_arith)
        requires
            us <= q,
            c >= 0,
            g == one * c,
            q == one * one,
    {
        assert(us * c <= q * c);
        assert(q * c == (one * c) * one);
    }
    assert(b * keep <= 6 * (g * (o2 * keep)) + 141 * (g * s)) by (nonlinear_arith)
        requires
            b == 6 * (q * (o2 * q)) + 141 * c * s,
            g == one * c,
            c == one * q,
            q == one * one,
            0 <= keep <= one,
            s >= 0,
            c >= 0,
    {
        assert(q * (o2 * q) * keep == (q * q) * (o2 * keep));
        assert(q * q == g);
        assert((141 * c * s) * keep <= (141 * c * s) * one);
        assert((141 * c * s) * one == 141 * ((one * c) * s));
        assert(b * keep == 6 * (q * (o2 * q) * keep) + (141 * c * s) * keep);
    }
    // All over the fourth power of one.
    assert(6 * us <= 6 * (o2 * keep) + 141 * s + 41211 * one) by (nonlinear_arith)
        requires
            6 * (us * g) - 41211 * (us * c) <= 6 * (g * (o2 * keep)) + 141 * (g * s),
            us * c <= g * one,
            g > 0,
    {
        assert(g * (6 * us) <= g * (6 * (o2 * keep) + 141 * s + 41211 * one));
    }
    assert(o2 * keep == one * keep + 128 * keep) by (nonlinear_arith)
        requires
            o2 == one + 128,
    ;
    assert(us <= one * keep + 7021 * s);
    assert(one * us <= keep * q + 7021 * (one * s)) by (nonlinear_arith)
        requires
            us <= one * keep + 7021 * s,
            one > 0,
            q == one * one,
    {
        assert(one * us <= one * (one * keep + 7021 * s));
        assert(one * (one * keep + 7021 * s) == keep * (one * one) + 7021 * (one * s));
    }
    assert(keep * q <= keep * ((v + 1) * s)) by (nonlinear_arith)
        requires
            q <= (v + 1) * s,
            keep >= 0,
    ;
    assert(u * one <= keep * (v + 1) + 7021 * one) by (nonlinear_arith)
        requires
            one * us <= keep * ((v + 1) * s) + 7021 * (one * s),
            us == u * s,
            s > 0,
    {
        assert(s * (u * one) <= s * (keep * (v + 1) + 7021 * one));
    }
    assert(keep * (v + 1) == v * keep + keep) by (nonlinear_arith);
}

/// Up to a loss of eight, the share that a block leaves of a position is no less than the block
/// leaves of the share, but for some units.
proof fn lemma_block_down(y: int, delta: Fixed)
    requires
        y >= 0,
        0 <= delta.bits,
        BLOCKS_PER_DAY * delta.bits <= ONE_BITS,
        y + log_loss(delta).bits <= 8 * ONE_BITS,
    ensures
        ({
            let z = y + log_loss(delta).bits;
            let one = ONE_BITS as int;
            let v = (one * one) / exp_sum(y, EXP_ORDER as nat);
            let u = (one * one) / exp_sum(z, EXP_ORDER as nat);
            v * (one - delta.bits) <= u * one + BLOCK_UNITS * one
        }),
{
    let one = ONE_BITS as int;
    let d = delta.bits as int;
    let l = log_loss(delta).bits as int;
    let z = y + l;
    let keep = one - d;
    let (s, r) = (exp_sum(y, EXP_ORDER as nat), exp_sum(z, EXP_ORDER as nat));
    let (v, u) = ((one * one) / s, (one * one) / r);
    lemma_loss(delta);
    lemma_cubic_down(d, l, one);
    lemma_fourth_order(d, one);
    lemma_sum(y, EXP_ORDER as nat);
    lemma_sum(z, EXP_ORDER as nat);
    lemma_inverse(s);
    lemma_inverse(r);
    lemma_fall(z, l);
    lemma_raised_as_product(z, -l);
    lemma_last_terms_to_eight(z);
    lemma_term(z, 61);
    let (t61, t62, t63) = (exp_term(z, 61), exp_term(z, 62), exp_term(z, 63));
    let m = -l;
    let tau = 6 * one * one * (m * t63) + 3 * one * (m * m * (t63 + t62)) + m * m * m * (t63 + t62
        + t61);
    let k3 = 6 * one * one * one;
    let h = k3 + 6 * one * one * m + 3 * one * (m * m) + m * m * m;
    let q = one * one;
    let c = one * q;
    assert(k3 == 6 * c && one * one * one == c) by (nonlinear_arith)
        requires
            k3 == 6 * one * one * one,
            c == one * q,
            q == one * one,
    ;
    let ll = l * l;
    assert(49_000_000 * ll <= q && ll >= 0) by (nonlinear_arith)
        requires
            ll == l * l,
            q == one * one,
            0 <= l,
            7000 * l <= one,
    {
        assert((7000 * l) * (7000 * l) <= one * one);
    }
    // What the last terms take away.
    assert(tau <= c) by {
        assert(6 * one * one * (m * t63) <= 0) by (nonlinear_arith)
            requires
                m <= 0,
                t63 >= 0,
                one > 0,
        ;
        assert(m * m * m * (t63 + t62 + t61) <= 0) by (nonlinear_arith)
            requires
                m <= 0,
                t61 >= 0,
                t62 >= 0,
                t63 >= 0,
        {
            assert(m * m >= 0);
            assert((m * m) * m <= 0);
        }
        assert(3 * one * (m * m * (t63 + t62)) <= 3 * one * (ll * 0x800)) by (nonlinear_arith)
            requires
                m == -l,
                ll == l * l,
                ll >= 0,
                0 <= t63 + t62 <= 0x800,
                one > 0,
        {
            assert(m * m == ll);
            assert(ll * (t63 + t62) <= ll * 0x800);
        }
        assert(3 * one * (ll * 0x800) <= c) by (nonlinear_arith)
            requires
                49_000_000 * ll <= q,
                ll >= 0,
                c == one * q,
                one > 0,
        {
            assert(one * (49_000_000 * ll) <= one * q);
            assert(3 * one * (ll * 0x800) == 6144 * (one * ll));
            assert(one * ll >= 0);
        }
    }
    let o2 = one + 256;
    assert(one * (r * h - tau) <= k3 * (o2 * s));
    assert(h == 6 * (one * one * one) - 6 * (one * one) * l + 3 * one * (l * l) - l * l * l)
        by (nonlinear_arith)
        requires
            h == k3 + 6 * one * one * m + 3 * one * (m * m) + m * m * m,
            k3 == 6 * one * one * one,
            m == -l,
    ;
    let oh = one * h;
    assert(6 * (one * one * one) * (one - d) == 6 * (c * keep)) by (nonlinear_arith)
        requires
            c == one * one * one,
            keep == one - d,
    ;
    assert(oh >= 6 * (c * keep) - 27463 * c);
    assert(r * oh <= k3 * (o2 * s) + one * c) by (nonlinear_arith)
        requires
            one * (r * h - tau) <= k3 * (o2 * s),
            tau <= c,
            oh == one * h,
            one > 0,
    {
        assert(one * (r * h - tau) == r * (one * h) - one * tau);
        assert(one * tau <= one * c);
    }
    assert(r * oh >= 6 * (c * (keep * r)) - 27463 * (c * r)) by (nonlinear_arith)
        requires
            oh >= 6 * (c * keep) - 27463 * c,
            r >= 0,
    {
        assert(r * oh >= r * (6 * (c * keep) - 27463 * c));
        assert(r * (6 * (c * keep) - 27463 * c) == 6 * (c * (keep * r)) - 27463 * (c * r));
    }
    assert(6 * (keep * r) <= 6 * (o2 * s) + 27463 * r + one) by (nonlinear_arith)
        requires
            6 * (c * (keep * r)) - 27463 * (c * r) <= (6 * c) * (o2 * s) + one * c,
            c > 0,
    {
        assert(c * (6 * (keep * r)) <= c * (6 * (o2 * s) + 27463 * r + one));
    }
    assert(o2 * s == one * s + 256 * s) by (nonlinear_arith)
        requires
            o2 == one + 256,
    ;
    let (vs, vr) = (v * s, v * r);
    assert(6 * (keep * vr) <= 6 * (one * vs) + 1536 * vs + 27463 * vr + one * v) by (nonlinear_arith)
        requires
            6 * (keep * r) <= 6 * (one * s + 256 * s) + 27463 * r + one,
            v >= 0,
            vs == v * s,
            vr == v * r,
    {
        assert(v * (6 * (keep * r)) <= v * (6 * (one * s + 256 * s) + 27463 * r + one));
        assert(v * (6 * (keep * r)) == 6 * (keep * (v * r)));
        assert(v * (6 * (one * s + 256 * s) + 27463 * r + one) == 6 * (one * (v * s)) + 1536 * (v
            * s) + 27463 * (v * r) + one * v);
    }
    let or = one * r;
    assert(vr <= or && one * v <= or && q <= or) by (nonlinear_arith)
        requires
            vr == v * r,
            or == one * r,
            q == one * one,
            0 <= v <= one,
            r >= one,
            one > 0,
    {
        assert(v * r <= one * r);
        assert(one * v <= one * one);
        assert(one * one <= one * r);
    }
    assert(one * vs <= one * q && one * q <= (u + 1) * or) by (nonlinear_arith)
        requires
            vs <= q,
            q <= (u + 1) * r,
            or == one * r,
            one > 0,
    {
        assert(one * q <= one * ((u + 1) * r));
        assert(one * ((u + 1) * r) == (u + 1) * (one * r));
    }
    assert(6 * (keep * vr) <= 6 * ((u + 1) * or) + 29000 * or);
    assert(6 * (v * keep) <= 6 * ((u + 1) * one) + 29000 * one) by (nonlinear_arith)
        requires
            6 * (keep * vr) <= 6 * ((u + 1) * or) + 29000 * or,
            vr == v * r,
            or == one * r,
            r > 0,
    {
        assert(r * (6 * (v * keep)) <= r * (6 * ((u + 1) * one) + 29000 * one));
    }
    assert((u + 1) * one == u * one + one) by (nonlinear_arith);
}

/// What is left of a unit between two values of the accumulator, by the series.
pub proof fn lemma_share_by_series(entry: Fixed, now: Fixed)
    requires
        0 <= entry.bits <= now.bits,
    ensures
        ({
            let y = now.bits - entry.bits;
            remaining_share(entry, now).bits == if exp_fits(y, EXP_ORDER as nat) {
                (ONE_BITS * ONE_BITS) / exp_sum(y, EXP_ORDER as nat)
            } else {
                0
            }
        }),
{
    let y = now.bits - entry.bits;
    lemma_sum(y, EXP_ORDER as nat);
    lemma_inverse(exp_sum(y, EXP_ORDER as nat));
}

/// A position follows its sums block by block. What is left of a unit of it after a block is no
/// more than what was left before it times what the block leaves of the sums, but for a number of
/// units in the last place; and no less, but for as many units, while the loss that the position
/// has gone through is no more than eight, that is, while more than three parts in ten thousand of
/// it are left.
pub proof fn law_share_follows_the_block(entry: Fixed, omega: Fixed, delta: Fixed)
    requires
        0 <= entry.bits <= omega.bits,
        0 <= delta.bits,
        BLOCKS_PER_DAY * delta.bits <= ONE_BITS,
        omega.bits + log_loss(delta).bits <= i128::MAX,
    ensures
        ({
            let now = omega.plus(log_loss(delta));
            let (was, is) = (
                remaining_share(entry, omega).bits,
                remaining_share(entry, now).bits,
            );
            &&& is * ONE_BITS <= was * (ONE_BITS - delta.bits) + BLOCK_UNITS * ONE_BITS
            &&& now.bits - entry.bits <= 8 * ONE_BITS ==> was * (ONE_BITS - delta.bits) <= is
                * ONE_BITS + BLOCK_UNITS * ONE_BITS
        }),
{
    lemma_loss(delta);
    let now = omega.plus(log_loss(delta));
    let y = omega.bits - entry.bits;
    let z = now.bits - entry.bits;
    assert(now.bits == omega.bits + log_loss(delta).bits);
    lemma_share_by_series(entry, omega);
    lemma_share_by_series(entry, now);
    lemma_series_is_monotone(y, z, EXP_ORDER as nat);
    lemma_block_up(y, delta);
    if z <= 8 * ONE_BITS {
        lemma_last_terms_to_eight(z);
        lemma_block_down(y, delta);
    }
    if !exp_fits(z, EXP_ORDER as nat) {
        let was = remaining_share(entry, omega).bits as int;
        let keep = ONE_BITS - delta.bits;
        assert(was * keep >= 0) by (nonlinear_arith)
            requires
                was >= 0,
                keep >= 0,
        ;
    }
}

} // verus!
