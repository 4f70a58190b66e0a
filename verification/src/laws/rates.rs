//! The reference reserve and the rate of decay, in the numbers that they come from.
use crate::decay::next_decay;
use crate::fixed::{fits, lemma_over, lemma_times, lemma_whole, Fixed, ONE_BITS};
use crate::math::{
    daily_decay, implied_reserve, lemma_block_decay, moving_price, reference_reserve, used_share,
};
use crate::pallet::State;
use crate::types::{Params, Subnet};
use vstd::prelude::*;

verus! {

/// What the moving price implies for the live alpha reserve, where that fits: the price times the
/// reserve.
pub proof fn lemma_implied(subnet: Subnet)
    requires
        subnet.bounded(),
    ensures
        ({
            let implied = subnet.moving_price * subnet.alpha_in * 0x1_0000_0000;
            implied_reserve(subnet).bits == if implied > i128::MAX {
                i128::MAX as int
            } else {
                implied
            }
        }),
        subnet.moving_price * subnet.alpha_in * 0x1_0000_0000 >= 0,
{
    let one = ONE_BITS as int;
    lemma_whole(subnet.alpha_in);
    let p = moving_price(subnet).bits as int;
    let a = subnet.alpha_in as int;
    let m = subnet.moving_price as int;
    assert(p == m * 0x1_0000_0000);
    assert(p * (a * one) == one * (p * a) && p * a == m * a * 0x1_0000_0000 && p * a >= 0)
        by (nonlinear_arith)
        requires
            p == m * 0x1_0000_0000,
            m >= 0,
            a >= 0,
    ;
    vstd::arithmetic::div_mod::lemma_div_multiples_vanish(p * a, one);
}

/// The reference reserve is the smaller of the live one and the moving price times the alpha
/// reserve; without such a price it is the live one. It is never anything else.
pub proof fn law_reference_is_the_smaller_reserve(subnet: Subnet)
    requires
        subnet.bounded(),
    ensures
        ({
            let reference = reference_reserve(subnet).bits;
            let live = subnet.tao * ONE_BITS;
            let implied = subnet.moving_price * subnet.alpha_in * 0x1_0000_0000;
            &&& reference <= live
            &&& implied > 0 ==> reference <= implied
            &&& reference == live || (implied > 0 && reference == implied)
        }),
{
    lemma_implied(subnet);
    lemma_whole(subnet.tao);
}

/// The daily decay of a market runs with the square of what of the cap is in use, from its least to
/// its greatest, where the cap is `kappa` times the smaller of the live reserve and the one that the
/// moving price implies. It is the least on a market without a cap, and the greatest from the cap
/// on. (Where the footprint is more than `2^63` times the cap their quotient does not fit, and it is
/// the least.)
pub proof fn law_rate_runs_with_the_square_of_the_use(
    params: Params,
    subnet: Subnet,
    b_sigma: u64,
    reserve: int,
    cap: int,
)
    requires
        params.valid(),
        subnet.bounded(),
        fits(b_sigma),
        ({
            let live = subnet.tao * ONE_BITS;
            let implied = subnet.moving_price * subnet.alpha_in * 0x1_0000_0000;
            &&& reserve <= live
            &&& implied > 0 ==> reserve <= implied
            &&& reserve == live || (implied > 0 && reserve == implied)
        }),
        cap * ONE_BITS <= params.kappa.bits * reserve < (cap + 1) * ONE_BITS,
        cap <= i128::MAX,
    ensures
        ({
            let (least, most) = (params.decay_min.bits as int, params.decay_max.bits as int);
            let rate = daily_decay(params, subnet, b_sigma).bits as int;
            let used = b_sigma * ONE_BITS;
            &&& least <= rate <= most
            &&& cap == 0 ==> rate == least
            &&& cap > 0 && used <= cap ==> (rate - least) * (cap * cap) <= (most - least) * (used
                * used) < (rate - least + 4) * (cap * cap)
            &&& cap > 0 && used >= cap && (used * ONE_BITS) / cap <= i128::MAX ==> rate == most
            &&& cap > 0 && (used * ONE_BITS) / cap > i128::MAX ==> rate == least
        }),
{
    let one = ONE_BITS as int;
    lemma_implied(subnet);
    lemma_whole(subnet.tao);
    lemma_whole(b_sigma);
    assert(reference_reserve(subnet).bits == reserve);
    let k = params.kappa.bits as int;
    let kr = k * reserve;
    assert(kr >= 0) by (nonlinear_arith)
        requires
            kr == k * reserve,
            k >= 0,
            reserve >= 0,
    ;
    vstd::arithmetic::div_mod::lemma_fundamental_div_mod(kr, one);
    let q = kr / one;
    assert(q == cap) by (nonlinear_arith)
        requires
            cap * one <= kr < (cap + 1) * one,
            kr == one * q + kr % one,
            0 <= kr % one < one,
            one > 0,
    {
        assert((q - cap) * one < one);
        assert((cap - q) * one < one);
    }
    let limit = params.kappa.times(reference_reserve(subnet));
    assert(limit.bits == cap);
    let used = Fixed::whole(b_sigma as int);
    let share = used_share(used, limit);
    let span = params.decay_max.minus(params.decay_min);
    let (sp, u) = (span.bits as int, share.bits as int);
    assert(sp == params.decay_max.bits - params.decay_min.bits);
    if cap > 0 {
        lemma_over(used, limit);
        assert(used.over(limit).bits >= 0);
    }
    assert(0 <= u <= one);
    let x = span.times(share).bits as int;
    let y = span.times(share).times(share).bits as int;
    lemma_times(span, share);
    lemma_times(span.times(share), share);
    assert(sp * u >= 0 && sp * u <= sp * one) by (nonlinear_arith)
        requires
            0 <= sp,
            0 <= u <= one,
    ;
    vstd::arithmetic::div_mod::lemma_fundamental_div_mod(sp * u, one);
    assert(x == (sp * u) / one);
    assert(x * u >= 0 && x * u <= x * one) by (nonlinear_arith)
        requires
            0 <= x,
            0 <= u <= one,
    ;
    vstd::arithmetic::div_mod::lemma_fundamental_div_mod(x * u, one);
    assert(y == (x * u) / one);
    let rate = daily_decay(params, subnet, b_sigma).bits as int;
    assert(rate == params.decay_min.bits + y);
    if u == 0 {
        assert(sp * 0 == 0 && x * 0 == 0);
    }
    if u == one {
        assert(x == sp) by (nonlinear_arith)
            requires
                sp * one == one * x + (sp * one) % one,
                0 <= (sp * one) % one < one,
                one > 0,
        {
            assert((sp - x) * one < one);
            assert((sp - x) * one >= 0);
        }
        assert(y == x) by (nonlinear_arith)
            requires
                x * one == one * y + (x * one) % one,
                0 <= (x * one) % one < one,
                one > 0,
        {
            assert((x - y) * one < one);
            assert((x - y) * one >= 0);
        }
    }
    if cap > 0 {
        let n = b_sigma * one;
        let e = (n * one) / cap;
        vstd::arithmetic::div_mod::lemma_fundamental_div_mod(n * one, cap);
        if n >= cap {
            assert(e >= one) by (nonlinear_arith)
                requires
                    n >= cap,
                    n * one == cap * e + (n * one) % cap,
                    0 <= (n * one) % cap < cap,
                    cap > 0,
                    one > 0,
            {
                assert(n * one >= cap * one);
                if e < one {
                    assert(cap * e <= cap * (one - 1));
                }
            }
        }
        if n <= cap {
            assert(e <= one) by (nonlinear_arith)
                requires
                    n <= cap,
                    n * one == cap * e + (n * one) % cap,
                    0 <= (n * one) % cap,
                    cap > 0,
                    one > 0,
            {
                assert(n * one <= cap * one);
                if e > one {
                    assert(cap * e >= cap * (one + 1));
                }
            }
            assert(u == e);
            lemma_square_of_the_use(sp, n, cap, u, x, y, one);
        }
    }
}

/// The two roundings of the share and the two of the products.
proof fn lemma_square_of_the_use(sp: int, n: int, cap: int, u: int, x: int, y: int, one: int)
    requires
        one > 1,
        0 <= sp <= one,
        0 <= n <= cap,
        cap > 0,
        0 <= u <= one,
        cap * u <= n * one < cap * u + cap,
        one * x <= sp * u < one * x + one,
        one * y <= x * u < one * y + one,
        x >= 0,
        y >= 0,
    ensures
        y * (cap * cap) <= sp * (n * n) < (y + 4) * (cap * cap),
{
    let o2 = one * one;
    let c2 = cap * cap;
    let su = sp * (u * u);
    // y and sp * u^2 / one^2.
    assert(o2 * y <= su && su < o2 * (y + 2)) by (nonlinear_arith)
        requires
            one * x <= sp * u < one * x + one,
            one * y <= x * u < one * y + one,
            o2 == one * one,
            su == sp * (u * u),
            0 <= u <= one,
            one > 1,
            x >= 0,
    {
        assert(one * (one * y) <= one * (x * u));
        assert((one * x) * u <= (sp * u) * u);
        assert((sp * u) * u <= (one * x + one) * u);
        assert((one * x + one) * u == one * (x * u) + one * u);
        assert(one * (x * u) <= one * (one * y + one));
        if u > 0 {
            assert((sp * u) * u < (one * x + one) * u);
        }
        assert(one * (x * u) < one * (one * y + one));
        assert(one * u <= one * one);
    }
    let cu = cap * u;
    let no = n * one;
    assert(cu * cu <= no * no && no * no - 2 * (cap * no) <= cu * cu) by (nonlinear_arith)
        requires
            cu <= no < cu + cap,
            cu >= 0,
            no >= 0,
            cap > 0,
    {
        assert(cu * cu <= no * no);
        assert(no * no - cu * cu == (no - cu) * (no + cu));
        assert((no - cu) * (no + cu) <= cap * (no + cu));
        assert(cap * (no + cu) <= cap * (2 * no));
    }
    assert(cu >= 0 && no >= 0) by (nonlinear_arith)
        requires
            cu == cap * u,
            no == n * one,
            cap > 0,
            u >= 0,
            n >= 0,
            one > 0,
    ;
    let nn = n * n;
    assert(cu * cu == c2 * (u * u) && no * no == o2 * nn) by (nonlinear_arith)
        requires
            cu == cap * u,
            c2 == cap * cap,
            no == n * one,
            o2 == one * one,
            nn == n * n,
    ;
    assert(c2 * su == sp * (cu * cu)) by (nonlinear_arith)
        requires
            su == sp * (u * u),
            cu * cu == c2 * (u * u),
    ;
    let t = sp * nn;
    assert(o2 * t == sp * (no * no)) by (nonlinear_arith)
        requires
            t == sp * nn,
            no * no == o2 * nn,
    ;
    assert(sp * (cu * cu) <= sp * (no * no)) by (nonlinear_arith)
        requires
            cu * cu <= no * no,
            sp >= 0,
    ;
    assert(o2 > 0 && c2 > 0) by (nonlinear_arith)
        requires
            o2 == one * one,
            c2 == cap * cap,
            one > 0,
            cap > 0,
    ;
    assert(y * c2 <= t) by (nonlinear_arith)
        requires
            o2 * y <= su,
            c2 * su <= o2 * t,
            o2 > 0,
            c2 > 0,
    {
        assert(c2 * (o2 * y) <= c2 * su);
        assert(o2 * (y * c2) <= o2 * t);
    }
    // What is lost of the share is at most two squares of the cap.
    assert(sp * (2 * (cap * no)) <= 2 * (o2 * c2)) by (nonlinear_arith)
        requires
            0 <= sp <= one,
            no == n * one,
            0 <= n <= cap,
            o2 == one * one,
            c2 == cap * cap,
            one > 0,
            cap > 0,
    {
        assert(n * one <= cap * one);
        assert(cap * no <= cap * (cap * one));
        assert(cap * no >= 0);
        assert(sp * (cap * no) <= one * (cap * no));
        assert(one * (cap * no) <= one * (cap * (cap * one)));
        assert(one * (cap * (cap * one)) == o2 * c2);
    }
    assert(t < (y + 4) * c2) by (nonlinear_arith)
        requires
            su < o2 * (y + 2),
            o2 * t == sp * (no * no),
            no * no - 2 * (cap * no) <= cu * cu,
            c2 * su == sp * (cu * cu),
            sp * (2 * (cap * no)) <= 2 * (o2 * c2),
            sp >= 0,
            o2 > 0,
            c2 > 0,
    {
        assert(sp * (no * no) <= sp * (cu * cu + 2 * (cap * no)));
        assert(sp * (cu * cu + 2 * (cap * no)) == sp * (cu * cu) + sp * (2 * (cap * no)));
        assert(c2 * su < c2 * (o2 * (y + 2)));
        assert(o2 * t < o2 * ((y + 4) * c2));
    }
}

/// Pumping the live reserve above what the moving price implies does not change the daily decay.
pub proof fn law_pumped_reserve_does_not_slow_decay(
    params: Params,
    subnet: Subnet,
    b_sigma: u64,
    tao: u64,
)
    requires
        subnet.bounded(),
        fits(tao),
        0 < subnet.moving_price * subnet.alpha_in * 0x1_0000_0000 <= subnet.tao * ONE_BITS,
        subnet.tao <= tao,
    ensures
        daily_decay(params, Subnet { tao, ..subnet }, b_sigma) == daily_decay(
            params,
            subnet,
            b_sigma,
        ),
{
    let pumped = Subnet { tao, ..subnet };
    lemma_implied(subnet);
    lemma_implied(pumped);
    lemma_whole(subnet.tao);
    lemma_whole(tao);
    assert(reference_reserve(pumped) == reference_reserve(subnet));
}

/// A greater footprint does not decay more slowly.
pub proof fn law_greater_footprint_decays_no_slower(
    params: Params,
    subnet: Subnet,
    b_sigma: u64,
    greater: u64,
)
    requires
        params.valid(),
        subnet.bounded(),
        fits(greater),
        b_sigma <= greater,
        ({
            let cap = params.kappa.times(reference_reserve(subnet)).bits;
            cap > 0 ==> (greater * ONE_BITS * ONE_BITS) / (cap as int) <= i128::MAX
        }),
    ensures
        daily_decay(params, subnet, b_sigma).bits <= daily_decay(params, subnet, greater).bits,
{
    let one = ONE_BITS as int;
    lemma_whole(b_sigma);
    lemma_whole(greater);
    let cap = params.kappa.times(reference_reserve(subnet));
    let span = params.decay_max.minus(params.decay_min);
    let (a, b) = (
        used_share(Fixed::whole(b_sigma as int), cap),
        used_share(Fixed::whole(greater as int), cap),
    );
    if cap.bits > 0 {
        let c = cap.bits as int;
        lemma_over(Fixed::whole(b_sigma as int), cap);
        lemma_over(Fixed::whole(greater as int), cap);
        assert(b_sigma * one * one <= greater * one * one) by (nonlinear_arith)
            requires
                b_sigma <= greater,
                one > 0,
        ;
        vstd::arithmetic::div_mod::lemma_div_is_ordered(
            b_sigma * one * one,
            greater * one * one,
            c,
        );
    }
    assert(0 <= a.bits <= b.bits <= one);
    lemma_times(span, a);
    lemma_times(span, b);
    lemma_times(span.times(a), a);
    lemma_times(span.times(b), b);
    let sp = span.bits as int;
    let (x, y) = (a.bits as int, b.bits as int);
    assert(0 <= sp * x <= sp * y) by (nonlinear_arith)
        requires
            0 <= x <= y,
            sp >= 0,
    ;
    vstd::arithmetic::div_mod::lemma_div_is_ordered(sp * x, sp * y, one);
    let (v, w) = (span.times(a).bits as int, span.times(b).bits as int);
    assert(0 <= v * x <= w * y) by (nonlinear_arith)
        requires
            0 <= x <= y,
            0 <= v <= w,
    {
        assert(v * x <= w * x);
        assert(w * x <= w * y);
    }
    vstd::arithmetic::div_mod::lemma_div_is_ordered(v * x, w * y, one);
}

/// A block decays a day's part, of the 7200 that a day has, of the daily decay: rounded down, and
/// no more.
pub proof fn law_block_takes_its_part_of_the_day(s: State, netuid: u16)
    requires
        s.market_bounded(netuid),
    ensures
        ({
            let daily = daily_decay(s.params, s.subnet(netuid), s.agg(netuid).b_sigma).bits;
            let block = next_decay(s, netuid).bits;
            7200 * block <= daily < 7200 * (block + 1)
        }),
{
    crate::laws::decaying::lemma_next_decay(s, netuid);
    let daily = daily_decay(s.params, s.subnet(netuid), s.agg(netuid).b_sigma);
    lemma_block_decay(daily);
    vstd::arithmetic::div_mod::lemma_fundamental_div_mod(daily.bits as int, 7200);
}

} // verus!
