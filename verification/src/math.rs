//! The pricing of covered shorts.
use crate::dust::{lemma_right_time, right_time};
use crate::fixed::{
    exp_sum, fits, lemma_over, lemma_times, lemma_whole, Fixed, EXP_ORDER,
    NEGATIVE_FACTOR_LIMIT, ONE_BITS, PRICE_LIMIT,
};
use crate::pricing::{
    collateral_balances, lemma_collateral_balances, lemma_room_decides, lemma_within_the_loan,
    no_room_to_lend, room_to_lend, within_the_loan,
};
use crate::residuals::{
    collateral_computable, lemma_collateral, lemma_fraction, lemma_quarter, lemma_quarters,
    solves_collateral, takes_proceeds,
};
use crate::series::{lemma_inverse, lemma_series_of_zero, lemma_sum};
use crate::types::{Params, ShortPosition, Subnet};
use vstd::prelude::*;

verus! {

/// Blocks of twelve seconds: how many make a day.
pub const BLOCKS_PER_DAY: u64 = 7200;

/// How many parts per billion make a whole.
pub const PPB: u64 = 1_000_000_000;

/// The bits of the greatest number of which four times fit.
pub const LARGEST_QUARTER: i128 = 0x1fff_ffff_ffff_ffff_ffff_ffff_ffff_ffff;

/// The bits of one half.
pub const HALF_BITS: i128 = 0x8000_0000_0000_0000;

/// The bits of one third, to 53 significant ones.
pub const THIRD_BITS: i128 = 0x5555_5555_5555_5400;

// ---- amounts ----

/// The amount `n` times `f`, rounded down, and zero if that is negative.
pub open spec fn scaled(n: u64, f: Fixed) -> u64 {
    Fixed::whole(n as int).times(f).floor_amount()
}

/// A number of billionths as a fraction.
pub open spec fn from_ppb(n: u64) -> Fixed {
    Fixed::whole(n as int).over(Fixed::whole(PPB as int))
}

/// A fraction in billionths, rounded down.
pub open spec fn to_ppb(x: Fixed) -> u64 {
    x.times(Fixed::whole(PPB as int)).floor_amount()
}

/// The amount `n` times `f`, rounded down.
pub fn mul_amount(n: u64, f: Fixed) -> (r: u64)
    requires
        fits(n),
    ensures
        r == scaled(n, f),
{
    proof {
        lemma_whole(n);
    }
    Fixed::from_num(n).saturating_mul(f).to_amount()
}

/// A number of billionths as a fraction.
pub fn ratio_from_ppb(n: u64) -> (r: Fixed)
    requires
        fits(n),
    ensures
        r == from_ppb(n),
{
    Fixed::from_num(n).safe_div(Fixed::from_num(PPB))
}

/// A fraction in billionths, rounded down.
pub fn ratio_to_ppb(x: Fixed) -> (r: u64)
    ensures
        r == to_ppb(x),
{
    x.saturating_mul(Fixed::from_num(PPB)).to_amount()
}

/// A share of an amount: for a factor between zero and one the product is exact but for the
/// rounding down, and never more than the amount.
pub proof fn lemma_scaled(n: u64, f: Fixed)
    requires
        fits(n),
        0 <= f.bits <= ONE_BITS,
    ensures
        scaled(n, f) == (n * f.bits) / (ONE_BITS as int),
        scaled(n, f) <= n,
        f.bits == ONE_BITS ==> scaled(n, f) == n,
        f.bits == 0 ==> scaled(n, f) == 0,
        n > 0 && f.bits < ONE_BITS ==> scaled(n, f) < n,
{
    lemma_whole(n);
    let one = ONE_BITS as int;
    let y = f.bits as int;
    let w = Fixed::whole(n as int);
    assert(w.bits * y == (n * y) * one) by (nonlinear_arith)
        requires
            w.bits == n * one,
    ;
    vstd::arithmetic::div_mod::lemma_div_by_multiple(n * y, one);
    assert(0 <= n * y <= n * one) by (nonlinear_arith)
        requires
            0 <= y <= one,
            0 <= n,
    ;
    assert(w.times(f).bits == n * y);
    vstd::arithmetic::div_mod::lemma_div_is_ordered(n * y, n * one, one);
    vstd::arithmetic::div_mod::lemma_div_by_multiple(n as int, one);
    vstd::arithmetic::div_mod::lemma_div_pos_is_pos(n * y, one);
    if n > 0 && y < one {
        assert(n * y < one * n) by (nonlinear_arith)
            requires
                0 <= y < one,
                0 < n,
        ;
        vstd::arithmetic::div_mod::lemma_multiply_divide_lt(n * y, one, n as int);
    }
    if y == 0 {
        assert(n * y == 0) by (nonlinear_arith)
            requires
                y == 0,
        ;
    }
}

/// A number of billionths up to four billion becomes the fraction, rounded down.
pub proof fn lemma_from_ppb(n: u64)
    requires
        n <= 4 * PPB,
    ensures
        from_ppb(n).bits == (n * ONE_BITS) / (PPB as int),
{
    let one = ONE_BITS as int;
    let p = PPB as int;
    lemma_whole(n);
    lemma_whole(PPB);
    let a = Fixed::whole(n as int);
    let b = Fixed::whole(p);
    lemma_over(a, b);
    assert(a.bits * one == (n * one) * one);
    assert(b.bits == one * p);
    vstd::arithmetic::div_mod::lemma_div_denominator(a.bits * one, one, p);
    vstd::arithmetic::div_mod::lemma_div_by_multiple(n * one, one);
    assert((a.bits * one) / (one * p) == (n * one) / p);
}

// ---- references and rates ----

/// The conservative reserve: the smaller of the live one and the one that the moving price
/// implies, and the live one while there is no moving price.
pub open spec fn reference_reserve(subnet: Subnet) -> Fixed {
    let live = Fixed::whole(subnet.tao as int);
    let implied = implied_reserve(subnet);
    if implied.bits <= 0 {
        live
    } else {
        live.lesser(implied)
    }
}

/// The moving price of a subnet.
pub open spec fn moving_price(subnet: Subnet) -> Fixed {
    Fixed { bits: (subnet.moving_price * 0x1_0000_0000) as i128 }
}

/// The TAO reserve that the moving price implies for the live alpha reserve.
pub open spec fn implied_reserve(subnet: Subnet) -> Fixed {
    moving_price(subnet).times(Fixed::whole(subnet.alpha_in as int))
}

/// The convex curve from the least to the greatest daily decay.
pub open spec fn curve(params: Params, u: Fixed) -> Fixed {
    params.decay_min.plus(params.decay_max.minus(params.decay_min).times(u).times(u))
}

/// How much of the cap is used, at most one.
pub open spec fn used_share(s: Fixed, cap: Fixed) -> Fixed {
    if cap.bits > 0 {
        s.over(cap).lesser(Fixed::whole(1))
    } else {
        Fixed::nil()
    }
}

/// The daily decay of a market with the given footprint.
pub open spec fn daily_decay(params: Params, subnet: Subnet, b_sigma: u64) -> Fixed {
    curve(
        params,
        used_share(
            Fixed::whole(b_sigma as int),
            params.kappa.times(reference_reserve(subnet)),
        ),
    )
}

/// The decay of a block.
pub open spec fn block_decay(daily: Fixed) -> Fixed {
    daily.over(Fixed::whole(BLOCKS_PER_DAY as int))
}

/// The moving price of a subnet.
pub fn slow_price(subnet: &Subnet) -> (r: Fixed)
    requires
        subnet.moving_price < PRICE_LIMIT,
    ensures
        r == moving_price(*subnet),
        r.bits >= 0,
        r.bits == 0 <==> subnet.moving_price == 0,
{
    Fixed::from_price(subnet.moving_price)
}

/// The TAO reserve that the moving price implies.
pub fn ema_reserve(subnet: &Subnet) -> (r: Fixed)
    requires
        subnet.bounded(),
    ensures
        r == implied_reserve(*subnet),
        r.bits >= 0,
{
    let price = slow_price(subnet);
    let alpha = Fixed::from_num(subnet.alpha_in);
    proof {
        lemma_whole(subnet.alpha_in);
        lemma_times(price, alpha);
    }
    price.saturating_mul(alpha)
}

/// The conservative TAO reference of a subnet.
pub fn short_t_ref(subnet: &Subnet) -> (r: Fixed)
    requires
        subnet.bounded(),
    ensures
        r == reference_reserve(*subnet),
        0 <= r.bits <= Fixed::whole(subnet.tao as int).bits,
{
    let live = Fixed::from_num(subnet.tao);
    let implied = ema_reserve(subnet);
    proof {
        lemma_whole(subnet.tao);
    }
    if implied.bits <= 0 {
        live
    } else {
        live.min(implied)
    }
}

/// The curve of the daily decay. It runs between its two ends.
pub fn decay_curve(params: &Params, u: Fixed) -> (r: Fixed)
    requires
        params.valid(),
        0 <= u.bits <= ONE_BITS,
    ensures
        r == curve(*params, u),
        params.decay_min.bits <= r.bits <= params.decay_max.bits,
{
    let span = params.decay_max.saturating_sub(params.decay_min);
    proof {
        lemma_times(span, u);
        lemma_times(span.times(u), u);
    }
    params.decay_min.saturating_add(span.saturating_mul(u).saturating_mul(u))
}

/// How much of the cap is used.
pub fn utilization(s: Fixed, cap: Fixed) -> (r: Fixed)
    requires
        s.bits >= 0,
    ensures
        r == used_share(s, cap),
        0 <= r.bits <= ONE_BITS,
{
    if cap.bits > 0 {
        proof {
            lemma_over(s, cap);
        }
        s.safe_div(cap).min(Fixed::from_num(1))
    } else {
        Fixed::zero()
    }
}

/// The daily decay of a market at the given footprint.
pub fn short_daily_decay(params: &Params, subnet: &Subnet, b_sigma: u64) -> (r: Fixed)
    requires
        params.valid(),
        subnet.bounded(),
        fits(b_sigma),
    ensures
        r == daily_decay(*params, *subnet, b_sigma),
        params.decay_min.bits <= r.bits <= params.decay_max.bits,
{
    let cap = params.kappa.saturating_mul(short_t_ref(subnet));
    proof {
        lemma_whole(b_sigma);
    }
    decay_curve(params, utilization(Fixed::from_num(b_sigma), cap))
}

/// The decay of a block, a fraction of the daily one.
pub fn per_block(daily: Fixed) -> (r: Fixed)
    requires
        0 <= daily.bits <= ONE_BITS,
    ensures
        r == block_decay(daily),
        0 <= r.bits < ONE_BITS,
        r.bits <= daily.bits,
{
    proof {
        lemma_block_decay(daily);
    }
    daily.safe_div(Fixed::from_num(BLOCKS_PER_DAY))
}

/// The decay of a block is the daily one over the blocks of a day, rounded down.
pub proof fn lemma_block_decay(daily: Fixed)
    requires
        0 <= daily.bits <= ONE_BITS,
    ensures
        block_decay(daily).bits == (daily.bits as int) / (BLOCKS_PER_DAY as int),
        0 <= block_decay(daily).bits < ONE_BITS,
        block_decay(daily).bits <= daily.bits,
{
    let one = ONE_BITS as int;
    let d = BLOCKS_PER_DAY as int;
    lemma_whole(BLOCKS_PER_DAY);
    let w = Fixed::whole(d);
    lemma_over(daily, w);
    vstd::arithmetic::div_mod::lemma_div_denominator(daily.bits * one, one, d);
    vstd::arithmetic::div_mod::lemma_div_by_multiple(daily.bits as int, one);
    assert((daily.bits * one) / (one * d) == (daily.bits as int) / d);
}

/// `-ln(1 - delta)` to the third order: `delta + delta^2 / 2 + delta^3 / 3`.
pub open spec fn log_loss(delta: Fixed) -> Fixed {
    let d2 = delta.times(delta);
    let d3 = d2.times(delta);
    delta.plus(d2.times(Fixed { bits: HALF_BITS })).plus(d3.times(Fixed { bits: THIRD_BITS }))
}

/// `-ln(1 - delta)` for the small decay of a block.
pub fn neg_ln_one_minus(delta: Fixed) -> (r: Fixed)
    requires
        delta.bits >= NEGATIVE_FACTOR_LIMIT,
    ensures
        r == log_loss(delta),
        delta.bits >= 0 ==> r.bits >= delta.bits,
{
    let d2 = delta.saturating_mul(delta);
    proof {
        assert(delta.bits * delta.bits >= 0) by (nonlinear_arith);
        vstd::arithmetic::div_mod::lemma_div_pos_is_pos(
            delta.bits * delta.bits,
            ONE_BITS as int,
        );
        if delta.bits >= 0 {
            lemma_log_loss(delta);
        }
    }
    let d3 = d2.saturating_mul(delta);
    delta.saturating_add(d2.saturating_mul(Fixed { bits: HALF_BITS })).saturating_add(
        d3.saturating_mul(Fixed { bits: THIRD_BITS }),
    )
}

/// The loss is at least its first term.
pub proof fn lemma_log_loss(delta: Fixed)
    requires
        delta.bits >= 0,
    ensures
        log_loss(delta).bits >= delta.bits,
{
    let d2 = delta.times(delta);
    lemma_times(delta, delta);
    lemma_times(d2, delta);
    lemma_times(d2, Fixed { bits: HALF_BITS });
    lemma_times(d2.times(delta), Fixed { bits: THIRD_BITS });
}

// ---- opening ----

/// The linear coefficient of the collateral equation: `1 - ltv + 2 * ltv * s / reserve`.
pub open spec fn linear_term(reserve: Fixed, s: Fixed, ltv: Fixed) -> Fixed {
    Fixed::whole(1).minus(ltv).plus(Fixed::whole(2).times(ltv).times(s).over(reserve))
}

/// The quadratic coefficient of the collateral equation: `ltv^2 / reserve`.
pub open spec fn quadratic_term(reserve: Fixed, ltv: Fixed) -> Fixed {
    ltv.times(ltv).over(reserve)
}

/// The discriminant of the collateral equation.
pub open spec fn discriminant(p: Fixed, reserve: Fixed, s: Fixed, ltv: Fixed) -> Fixed {
    let b = linear_term(reserve, s, ltv);
    b.times(b).plus(Fixed::whole(4).times(quadratic_term(reserve, ltv)).times(p))
}

/// The gross collateral `2 * p / (b + root)` and what of it exceeds the input, if both are
/// positive.
pub open spec fn collateral_for_root(p: Fixed, b: Fixed, root: Fixed) -> Option<(Fixed, Fixed)> {
    let c = Fixed::whole(2).times(p).over(b.plus(root));
    let n = c.minus(p);
    if n.bits <= 0 || c.bits <= 0 {
        None
    } else {
        Some((c, n))
    }
}

/// The gross collateral and the retained proceeds for an input: the positive root `c` of
/// `a * c^2 + b * c = p`, and `c - p`.
pub open spec fn collateral(p: Fixed, reserve: Fixed, s: Fixed, ltv: Fixed) -> Option<
    (Fixed, Fixed),
> {
    if reserve.bits <= 0 || ltv.bits <= 0 {
        None
    } else {
        match discriminant(p, reserve, s, ltv).root() {
            Some(root) => collateral_for_root(p, linear_term(reserve, s, ltv), root),
            None => None,
        }
    }
}

/// The pool fraction `(1 - root) / 2`.
pub open spec fn fraction_for_root(root: Fixed) -> Fixed {
    Fixed::whole(1).minus(root).over(Fixed::whole(2))
}

/// The proceeds are within a quarter of the pool: what four times them is of it, rounded down to
/// bits, is at most one.
pub open spec fn within_a_quarter(n: Fixed, t: Fixed) -> bool {
    4 * n.bits <= i128::MAX && (4 * n.bits * ONE_BITS) / (t.bits as int) <= ONE_BITS
}

/// The pool fraction `(1 - sqrt(1 - 4 * n / t)) / 2`, where `4 * n <= t`.
pub open spec fn pool_fraction(n: Fixed, t: Fixed) -> Option<Fixed> {
    if t.bits <= 0 || !within_a_quarter(n, t) {
        None
    } else {
        match Fixed::whole(1).minus(Fixed::whole(4).times(n).over(t)).root() {
            Some(root) => Some(fraction_for_root(root)),
            None => None,
        }
    }
}

/// The gross collateral and the retained proceeds, given the root of the discriminant.
pub fn collateral_from_root(p: Fixed, b: Fixed, root: Fixed) -> (r: Option<(Fixed, Fixed)>)
    ensures
        r == collateral_for_root(p, b, root),
{
    let c = Fixed::from_num(2).saturating_mul(p).safe_div(b.saturating_add(root));
    let n = c.saturating_sub(p);
    if n.bits <= 0 || c.bits <= 0 {
        None
    } else {
        Some((c, n))
    }
}

/// Solve the gross collateral and the retained proceeds from the input. The proceeds are what
/// the collateral has beyond the input. Where nothing saturates the collateral `c` solves
/// `a * c^2 + b * c = p`, but for some units in the last place.
pub fn solve_collateral(p: Fixed, reserve: Fixed, s: Fixed, ltv: Fixed) -> (r: Option<
    (Fixed, Fixed),
>)
    requires
        p.bits >= 0,
        s.bits >= 0,
        ltv.bits <= ONE_BITS,
    ensures
        r == collateral(p, reserve, s, ltv),
        r matches Some((c, n)) ==> c.bits > 0 && n.bits > 0 && c.bits == p.bits + n.bits,
        r matches Some((c, n)) ==> (collateral_computable(p, reserve, s, ltv) ==> solves_collateral(
            c,
            p,
            quadratic_term(reserve, ltv),
            linear_term(reserve, s, ltv),
        )),
        r matches Some((c, n)) ==> within_the_loan(
            n.bits as int,
            c.bits as int,
            ltv.bits as int,
        ),
        reserve.bits >= ONE_BITS && 2 * p.bits <= i128::MAX && 2 * s.bits <= i128::MAX ==> (
        r matches Some((c, n)) ==> collateral_balances(
            n.bits as int,
            c.bits as int,
            p.bits as int,
            reserve.bits as int,
            s.bits as int,
            ltv.bits as int,
        )),
        reserve.bits >= ONE_BITS && ONE_BITS <= p.bits && 2 * p.bits <= i128::MAX && 2 * s.bits
            <= i128::MAX && ltv.bits > 0 ==> {
            let (pi, ri, si, li) = (
                p.bits as int,
                reserve.bits as int,
                s.bits as int,
                ltv.bits as int,
            );
            &&& room_to_lend(pi, ri, si, li) && 2 * p.bits * ONE_BITS <= (ONE_BITS - ltv.bits)
                * i128::MAX ==> r is Some
            &&& no_room_to_lend(pi, ri, si, li) ==> r is None
        },
{
    if reserve.bits <= 0 || ltv.bits <= 0 {
        return None;
    }
    let one = Fixed::from_num(1);
    let two = Fixed::from_num(2);
    let four = Fixed::from_num(4);
    proof {
        lemma_times(ltv, ltv);
        lemma_over(ltv.times(ltv), reserve);
        lemma_times(two, ltv);
        lemma_times(two.times(ltv), s);
        lemma_over(two.times(ltv).times(s), reserve);
        lemma_times(four, quadratic_term(reserve, ltv));
    }
    let a = ltv.saturating_mul(ltv).safe_div(reserve);
    let b = one.saturating_sub(ltv).saturating_add(
        two.saturating_mul(ltv).saturating_mul(s).safe_div(reserve),
    );
    let disc = b.saturating_mul(b).saturating_add(four.saturating_mul(a).saturating_mul(p));
    match disc.checked_sqrt() {
        Some(root) => {
            proof {
                if collateral_computable(p, reserve, s, ltv) {
                    lemma_collateral(p, reserve, s, ltv, root);
                }
                lemma_within_the_loan(p, reserve, s, ltv, root);
                if reserve.bits >= ONE_BITS && 2 * p.bits <= i128::MAX && 2 * s.bits <= i128::MAX {
                    lemma_collateral_balances(p, reserve, s, ltv, root);
                    if ONE_BITS <= p.bits {
                        lemma_room_decides(p, reserve, s, ltv, root);
                    }
                }
            }
            collateral_from_root(p, b, root)
        },
        None => None,
    }
}

/// The pool fraction, given the root.
pub fn phi_from_root(root: Fixed) -> (r: Fixed)
    ensures
        r == fraction_for_root(root),
        root.bits >= 0 ==> r.bits <= HALF_BITS,
{
    proof {
        if root.bits >= 0 {
            lemma_half(root);
        }
    }
    Fixed::from_num(1).saturating_sub(root).safe_div(Fixed::from_num(2))
}

pub proof fn lemma_half(root: Fixed)
    requires
        root.bits >= 0,
    ensures
        fraction_for_root(root).bits <= HALF_BITS,
{
    let x = Fixed::whole(1).minus(root);
    let two = Fixed::whole(2);
    let one = ONE_BITS as int;
    assert(two.bits == 2 * one);
    if x.bits >= 0 {
        lemma_over(x, two);
        vstd::arithmetic::div_mod::lemma_div_is_ordered(x.bits * one, one * one, 2 * one);
        vstd::arithmetic::div_mod::lemma_div_denominator(one * one, one, 2);
        vstd::arithmetic::div_mod::lemma_div_by_multiple(one, one);
    } else {
        let an = -(x.bits * one);
        assert(an >= 0 && x.bits * one < 0) by (nonlinear_arith)
            requires
                x.bits < 0,
                one == 0x1_0000_0000_0000_0000,
                an == -(x.bits * one),
        ;
        vstd::arithmetic::div_mod::lemma_div_pos_is_pos(an, 2 * one);
    }
}

/// Half of an amount, or less of it, is at most half of the amount.
pub proof fn lemma_share_of_amount(phi: Fixed, amount: u64)
    requires
        fits(amount),
        phi.bits <= HALF_BITS,
    ensures
        2 * phi.times(Fixed::whole(amount as int)).floor_amount() <= amount,
{
    let a = amount as int;
    let one = ONE_BITS as int;
    let w = Fixed::whole(a);
    lemma_whole(amount);
    let x = phi.bits as int;
    assert(x * (a * one) == one * (x * a)) by (nonlinear_arith);
    vstd::arithmetic::div_mod::lemma_div_multiples_vanish(x * a, one);
    let m = phi.times(w).bits as int;
    if x > 0 {
        assert(0 <= x * a && 2 * (x * a) <= one * a) by (nonlinear_arith)
            requires
                0 < x,
                2 * x <= one,
                0 <= a,
        ;
        vstd::arithmetic::div_mod::lemma_fundamental_div_mod(m, one);
        assert(2 * (m / one) <= a) by (nonlinear_arith)
            requires
                2 * m <= one * a,
                m == one * (m / one) + m % one,
                0 <= m % one,
                one > 0,
        ;
    } else {
        assert(x * a <= 0) by (nonlinear_arith)
            requires
                x <= 0,
                0 <= a,
        ;
    }
}

/// The fraction of the pool that the proceeds take, at most a half. There is one for proceeds of
/// up to a quarter of the pool, but for a unit in the last place, and for no others; it solves
/// `phi * (1 - phi) * t = n` to two units in the last place of `phi`.
pub fn solve_phi(n: Fixed, t: Fixed) -> (r: Option<Fixed>)
    ensures
        r == pool_fraction(n, t),
        r matches Some(phi) ==> phi.bits <= HALF_BITS,
        n.bits >= 0 ==> (r is Some <==> t.bits > 0 && within_a_quarter(n, t)),
        0 <= 4 * n.bits <= t.bits && t.bits > 0 ==> r is Some,
        n.bits >= 0 ==> (r matches Some(phi) ==> phi.bits >= 0 && takes_proceeds(phi, n, t)),
{
    if t.bits <= 0 || n.bits > LARGEST_QUARTER {
        return None;
    }
    let one = Fixed::from_num(1);
    let four_n = Fixed::from_num(4).saturating_mul(n);
    proof {
        lemma_quarters(n, t);
        if 0 <= 4 * n.bits <= t.bits {
            lemma_quarter(n, t);
        }
    }
    let frac = match four_n.checked_div(t) {
        Some(frac) => frac,
        None => {
            // What does not fit is far beyond a quarter, or far below zero.
            if n.bits > 0 {
                return None;
            }
            Fixed::zero()
        },
    };
    if frac.bits > one.bits {
        return None;
    }
    let root = one.saturating_sub(frac).checked_sqrt();
    proof {
        if n.bits >= 0 {
            lemma_fraction(n, t);
        }
    }
    match root {
        Some(root) => Some(phi_from_root(root)),
        None => None,
    }
}

// ---- materialization ----

/// What is left of a unit between two values of the accumulator: `exp(-(now - entry))`, one if
/// the accumulator has not grown, and zero where that cannot be computed.
pub open spec fn remaining_share(entry: Fixed, now: Fixed) -> Fixed {
    match entry.minus(now).lesser(Fixed::nil()).shrinking_exp() {
        Some(f) => f,
        None => Fixed::nil(),
    }
}

/// What is left of a unit is a share of it, and the whole while the accumulator has not grown.
pub broadcast proof fn lemma_remaining_share(entry: Fixed, now: Fixed)
    ensures
        0 <= (#[trigger] remaining_share(entry, now)).bits <= ONE_BITS,
        now.bits <= entry.bits ==> remaining_share(entry, now).bits == ONE_BITS,
{
    let arg = entry.minus(now).lesser(Fixed::nil());
    let y = -arg.bits;
    let order = EXP_ORDER as nat;
    lemma_sum(y, order);
    lemma_inverse(exp_sum(y, order));
    if now.bits <= entry.bits {
        assert(y == 0);
        lemma_series_of_zero(order);
    }
}

/// A position with the buffer, the escrow and the footprint multiplied by `f`.
pub open spec fn shrunk(pos: ShortPosition, f: Fixed, now: Fixed) -> ShortPosition {
    ShortPosition {
        r_stored: scaled(pos.r_stored, f),
        e_stored: scaled(pos.e_stored, f),
        b_stored: scaled(pos.b_stored, f),
        omega_entry: now,
        ..pos
    }
}

/// A position decayed to the accumulator `now`.
pub open spec fn materialized(pos: ShortPosition, now: Fixed) -> ShortPosition {
    shrunk(pos, remaining_share(pos.omega_entry, now), now)
}

/// What is left of a unit between two values of the accumulator.
pub fn decay_factor(entry: Fixed, now: Fixed) -> (r: Fixed)
    ensures
        r == remaining_share(entry, now),
        0 <= r.bits <= ONE_BITS,
{
    proof {
        lemma_remaining_share(entry, now);
    }
    let arg = entry.saturating_sub(now).min(Fixed::zero());
    match arg.checked_exp() {
        Some(f) => f,
        None => Fixed::zero(),
    }
}

/// Decay a position by a given factor.
pub fn shrink_by(pos: &mut ShortPosition, f: Fixed, now: Fixed)
    requires
        fits(old(pos).r_stored),
        fits(old(pos).e_stored),
        fits(old(pos).b_stored),
    ensures
        *final(pos) == shrunk(*old(pos), f, now),
{
    pos.r_stored = mul_amount(pos.r_stored, f);
    pos.e_stored = mul_amount(pos.e_stored, f);
    pos.b_stored = mul_amount(pos.b_stored, f);
    pos.omega_entry = now;
}

/// Bring a position to the accumulator `now`. Nothing in it ever grows.
pub fn materialize_short(pos: &mut ShortPosition, now: Fixed)
    requires
        old(pos).bounded(),
    ensures
        *final(pos) == materialized(*old(pos), now),
        final(pos).bounded(),
        final(pos).r_stored <= old(pos).r_stored,
        final(pos).e_stored <= old(pos).e_stored,
        final(pos).b_stored <= old(pos).b_stored,
{
    proof {
        lemma_materialized(*pos, now);
    }
    let f = decay_factor(pos.omega_entry, now);
    shrink_by(pos, f, now);
}

/// Materialization never inflates a position, leaves its floor, its liability, its hotkey and
/// the owner's last action alone, and changes nothing while the accumulator has not grown.
pub proof fn lemma_materialized(pos: ShortPosition, now: Fixed)
    requires
        pos.bounded(),
    ensures
        materialized(pos, now).bounded(),
        materialized(pos, now).r_stored <= pos.r_stored,
        materialized(pos, now).e_stored <= pos.e_stored,
        materialized(pos, now).b_stored <= pos.b_stored,
        materialized(pos, now).p_floor == pos.p_floor,
        materialized(pos, now).q_liability == pos.q_liability,
        materialized(pos, now).hotkey == pos.hotkey,
        materialized(pos, now).last_active == pos.last_active,
        materialized(pos, now).omega_entry == now,
        now.bits <= pos.omega_entry.bits ==> materialized(pos, now) == (ShortPosition {
            omega_entry: now,
            ..pos
        }),
{
    let f = remaining_share(pos.omega_entry, now);
    lemma_remaining_share(pos.omega_entry, now);
    lemma_scaled(pos.r_stored, f);
    lemma_scaled(pos.e_stored, f);
    lemma_scaled(pos.b_stored, f);
}

// ---- the cost of buying back ----

/// The quotient rounded up.
pub open spec fn ceiling(n: int, d: int) -> int {
    (n + d - 1) / d
}

/// What it costs, in the one asset, to take `amount` of the other out of a pool that keeps the
/// product of its reserves, rounded up. `u64::MAX` where the pool does not hold more than that,
/// or where the cost is that high.
pub open spec fn buyback_cost(pay_reserve: int, recv_reserve: int, amount: int) -> u64 {
    if recv_reserve <= amount {
        u64::MAX
    } else {
        let product = if pay_reserve * amount > u128::MAX {
            u128::MAX as int
        } else {
            pay_reserve * amount
        };
        let cost = ceiling(product, recv_reserve - amount);
        if cost > u64::MAX {
            u64::MAX
        } else {
            cost as u64
        }
    }
}

/// The quotient rounded up.
pub fn div_ceil(n: u128, d: u128) -> (r: u128)
    requires
        d > 0,
    ensures
        r == ceiling(n as int, d as int),
        r <= n,
{
    let q = n / d;
    let rem = n % d;
    proof {
        lemma_ceiling(n as int, d as int);
        vstd::arithmetic::div_mod::lemma_fundamental_div_mod(n as int, d as int);
        assert(q <= n && (d >= 2 ==> 2 * q <= n) && (d == 1 ==> rem == 0)) by (nonlinear_arith)
            requires
                n == d * q + rem,
                0 <= rem < d,
                0 <= q,
        ;
        assert(rem != 0 ==> q + 1 <= n) by (nonlinear_arith)
            requires
                n == d * q + rem,
                0 <= rem < d,
                0 <= q,
        ;
    }
    if rem == 0 {
        q
    } else {
        q + 1
    }
}

/// Rounding up is rounding down, and one more where something is left over.
pub proof fn lemma_ceiling(n: int, d: int)
    requires
        n >= 0,
        d > 0,
    ensures
        ceiling(n, d) == n / d + (if n % d == 0 {
            0int
        } else {
            1int
        }),
        ceiling(n, d) * d >= n,
        ceiling(n, d) * d < n + d,
        ceiling(n, d) >= 0,
{
    let q = n / d;
    let rem = n % d;
    vstd::arithmetic::div_mod::lemma_fundamental_div_mod(n, d);
    vstd::arithmetic::div_mod::lemma_div_pos_is_pos(n, d);
    if rem == 0 {
        assert(n + d - 1 == q * d + (d - 1)) by (nonlinear_arith)
            requires
                n == d * q + rem,
                rem == 0,
        ;
        vstd::arithmetic::div_mod::lemma_fundamental_div_mod_converse(n + d - 1, d, q, d - 1);
        assert(q * d == n) by (nonlinear_arith)
            requires
                n == d * q + rem,
                rem == 0,
        ;
    } else {
        assert(n + d - 1 == (q + 1) * d + (rem - 1)) by (nonlinear_arith)
            requires
                n == d * q + rem,
        ;
        vstd::arithmetic::div_mod::lemma_fundamental_div_mod_converse(n + d - 1, d, q + 1, rem - 1);
        assert((q + 1) * d == n + d - rem) by (nonlinear_arith)
            requires
                n == d * q + rem,
        ;
    }
}

/// What it costs to take `amount` out of a pool, rounded up.
pub fn buyback_cost_rao(pay_reserve: u128, recv_reserve: u128, amount: u128) -> (r: u64)
    ensures
        r == buyback_cost(pay_reserve as int, recv_reserve as int, amount as int),
{
    if recv_reserve <= amount {
        return u64::MAX;
    }
    let product = match pay_reserve.checked_mul(amount) {
        Some(v) => v,
        None => u128::MAX,
    };
    proof {
        assert(pay_reserve * amount >= 0) by (nonlinear_arith)
            requires
                pay_reserve >= 0,
                amount >= 0,
        ;
    }
    let cost = div_ceil(product, recv_reserve - amount);
    if cost > u64::MAX as u128 {
        u64::MAX
    } else {
        cost as u64
    }
}

/// What it costs in TAO to buy `q` alpha on the live pool.
pub open spec fn spot_cost(subnet: Subnet, q: u64) -> u64 {
    buyback_cost(subnet.tao as int, subnet.alpha_in as int, q as int)
}

/// What it costs in TAO to buy `q` alpha on the live pool.
pub fn short_spot_close_cost(subnet: &Subnet, q: u64) -> (r: Fixed)
    requires
        fits(spot_cost(*subnet, q)),
    ensures
        r == Fixed::whole(spot_cost(*subnet, q) as int),
        r.floor_amount() == spot_cost(*subnet, q),
{
    let cost = buyback_cost_rao(subnet.tao as u128, subnet.alpha_in as u128, q as u128);
    proof {
        lemma_whole(cost);
    }
    Fixed::from_num(cost)
}

// ---- terminal settlement ----

/// The price of buying back all liabilities at once: the dearer of the live pool and the pool
/// that the moving price implies.
pub open spec fn aggregate_price(subnet: Subnet, q_sigma: int) -> u64 {
    let spot = buyback_cost(subnet.tao as int, subnet.alpha_in as int, q_sigma);
    let ema = buyback_cost(
        implied_reserve(subnet).floor_amount() as int,
        subnet.alpha_in as int,
        q_sigma,
    );
    if spot < ema {
        ema
    } else {
        spot
    }
}

/// What a liability is charged of the price `k` of all of them: its share, rounded up. A price
/// that is out of bounds is charged to each as it is.
pub open spec fn price_share(k: u64, q_sigma: int, q: int) -> int {
    if q_sigma == 0 || k == u64::MAX {
        k as int
    } else {
        ceiling(k * q, q_sigma)
    }
}

/// What a position is charged: its share of the price, and without a moving price no less than
/// its buffer.
pub open spec fn terminal_charge(k: u64, q_sigma: int, cold: bool, pos: ShortPosition) -> int {
    let share = price_share(k, q_sigma, pos.q_liability as int);
    if cold && share < pos.r_stored {
        pos.r_stored as int
    } else {
        share
    }
}

/// What the trader has claimed: the floor and the buffer.
pub open spec fn claim(pos: ShortPosition) -> int {
    pos.p_floor + pos.r_stored
}

/// What is left of the claim for the trader.
pub open spec fn terminal_equity(k: u64, q_sigma: int, cold: bool, pos: ShortPosition) -> u64 {
    let left = claim(pos) - terminal_charge(k, q_sigma, cold, pos);
    if left < 0 {
        0
    } else if left > u64::MAX {
        u64::MAX
    } else {
        left as u64
    }
}

/// What of the claim covers the liability.
pub open spec fn terminal_cover(k: u64, q_sigma: int, cold: bool, pos: ShortPosition) -> u64 {
    let charge = terminal_charge(k, q_sigma, cold, pos);
    let covered = if claim(pos) < charge {
        claim(pos)
    } else {
        charge
    };
    if covered > u64::MAX {
        u64::MAX
    } else {
        covered as u64
    }
}

/// The price of buying back all liabilities at once.
pub fn terminal_price(subnet: &Subnet, q_sigma: u128) -> (r: u64)
    requires
        subnet.bounded(),
    ensures
        r == aggregate_price(*subnet, q_sigma as int),
{
    let implied = ema_reserve(subnet).to_amount();
    let spot = buyback_cost_rao(subnet.tao as u128, subnet.alpha_in as u128, q_sigma);
    let ema = buyback_cost_rao(implied as u128, subnet.alpha_in as u128, q_sigma);
    if spot < ema {
        ema
    } else {
        spot
    }
}

/// What a position pays out and what covers its liability, in this order.
pub fn terminal_split(k: u64, q_sigma: u128, cold: bool, pos: &ShortPosition) -> (r: (u64, u64))
    ensures
        r.0 == terminal_equity(k, q_sigma as int, cold, *pos),
        r.1 == terminal_cover(k, q_sigma as int, cold, *pos),
{
    let claimed: u128 = pos.p_floor as u128 + pos.r_stored as u128;
    let share: u128 = if q_sigma == 0 || k == u64::MAX {
        k as u128
    } else {
        proof {
            assert(0 <= k * pos.q_liability <= u64::MAX * u64::MAX) by (nonlinear_arith)
                requires
                    0 <= k <= u64::MAX,
                    0 <= pos.q_liability <= u64::MAX,
            ;
        }
        div_ceil(k as u128 * pos.q_liability as u128, q_sigma)
    };
    let charge: u128 = if cold && share < pos.r_stored as u128 {
        pos.r_stored as u128
    } else {
        share
    };
    let left: u128 = if claimed < charge {
        0
    } else {
        claimed - charge
    };
    let covered: u128 = if claimed < charge {
        claimed
    } else {
        charge
    };
    let equity = if left > u64::MAX as u128 {
        u64::MAX
    } else {
        left as u64
    };
    let cover = if covered > u64::MAX as u128 {
        u64::MAX
    } else {
        covered as u64
    };
    (equity, cover)
}

// ---- the time until dust ----

/// How many blocks a buffer takes to decay to dust at the given daily decay: `u64::MAX` where it
/// never does.
pub open spec fn time_to_dust(dust: u64, r: u64, daily: Fixed) -> u64 {
    if r <= dust {
        0
    } else if dust == 0 {
        u64::MAX
    } else {
        let delta = block_decay(daily);
        if delta.bits <= 0 || log_loss(delta).bits <= 0 {
            u64::MAX
        } else {
            Fixed::whole(r as int).over(Fixed::whole(dust as int)).growing_log().over(
                log_loss(delta),
            ).floor_amount()
        }
    }
}

/// How many blocks a buffer takes to lose the given logarithm of its size.
pub fn blocks_for_log(ln_ratio: Fixed, neg_ln: Fixed) -> (r: u64)
    ensures
        r == (if ln_ratio.bits > 0 {
            ln_ratio.over(neg_ln).floor_amount()
        } else {
            0
        }),
{
    if ln_ratio.bits > 0 {
        ln_ratio.safe_div(neg_ln).to_amount()
    } else {
        0
    }
}

/// How many blocks a buffer takes to decay to dust: the right time, but for a small part of it and
/// a few blocks.
pub fn short_blocks_to_dust(dust: u64, r_current: u64, daily: Fixed) -> (r: u64)
    requires
        fits(r_current),
        0 <= daily.bits <= ONE_BITS,
    ensures
        r == time_to_dust(dust, r_current, daily),
        0 < dust < r_current && block_decay(daily).bits > 0 ==> right_time(
            r_current,
            dust,
            block_decay(daily),
            r,
        ),
{
    proof {
        lemma_block_decay(daily);
        vstd::arithmetic::div_mod::lemma_fundamental_div_mod(
            daily.bits as int,
            BLOCKS_PER_DAY as int,
        );
        if block_decay(daily).bits > 0 {
            lemma_log_loss(block_decay(daily));
        }
    }
    if r_current <= dust {
        return 0;
    }
    if dust == 0 {
        return u64::MAX;
    }
    let delta = per_block(daily);
    if delta.bits <= 0 {
        return u64::MAX;
    }
    let neg_ln = neg_ln_one_minus(delta);
    if neg_ln.bits <= 0 {
        return u64::MAX;
    }
    let ratio = Fixed::from_num(r_current).safe_div(Fixed::from_num(dust));
    proof {
        lemma_ratio_above_one(r_current, dust);
        lemma_over(ratio.growing_log(), neg_ln);
        if ratio.growing_log().bits == 0 {
            assert(0int / (neg_ln.bits as int) == 0) by (nonlinear_arith)
                requires
                    neg_ln.bits > 0,
            ;
        }
    }
    match ratio.checked_ln() {
        Some(ln_ratio) => {
            proof {
                lemma_right_time(r_current, dust, ratio.bits, delta, ln_ratio);
            }
            blocks_for_log(ln_ratio, neg_ln)
        },
        None => 0,
    }
}

proof fn lemma_ratio_above_one(r: u64, dust: u64)
    requires
        fits(r),
        0 < dust < r,
    ensures
        ({
            let x = Fixed::whole(r as int).over(Fixed::whole(dust as int)).bits;
            x >= ONE_BITS && x * dust <= r * ONE_BITS < (x + 1) * dust
        }),
{
    let one = ONE_BITS as int;
    lemma_whole(r);
    lemma_whole(dust);
    let a = Fixed::whole(r as int);
    let b = Fixed::whole(dust as int);
    lemma_over(a, b);
    vstd::arithmetic::div_mod::lemma_div_denominator(a.bits * one, one, dust as int);
    vstd::arithmetic::div_mod::lemma_div_by_multiple(a.bits as int, one);
    let q = (a.bits as int) / (dust as int);
    assert((a.bits * one) / (b.bits as int) == q);
    vstd::arithmetic::div_mod::lemma_div_is_ordered(dust * one, a.bits as int, dust as int);
    vstd::arithmetic::div_mod::lemma_div_multiples_vanish(one, dust as int);
    assert(q <= a.bits) by {
        vstd::arithmetic::div_mod::lemma_div_is_ordered_by_denominator(
            a.bits as int,
            1,
            dust as int,
        );
    }
    assert(dust * one <= a.bits) by (nonlinear_arith)
        requires
            a.bits == r * one,
            dust < r,
            one > 0,
    ;
    vstd::arithmetic::div_mod::lemma_fundamental_div_mod(a.bits as int, dust as int);
    assert(q * dust <= a.bits && a.bits < (q + 1) * dust) by (nonlinear_arith)
        requires
            a.bits == dust * q + (a.bits as int) % (dust as int),
            0 <= (a.bits as int) % (dust as int) < dust,
    ;
}

} // verus!
