//! What the queries show, in numbers.
use crate::accounts::AccountId;
use crate::decay::next_decay;
use crate::fixed::{fits, lemma_over, lemma_times, lemma_whole, Fixed, ONE_BITS};
use crate::laws::charging::lemma_cost;
use crate::laws::decaying::lemma_next_decay;
use crate::laws::moves::{billionths_of, held, lemma_billionths};
use crate::laws::pricing::{lemma_a_quarter, lemma_lent, roots_are_near};
use crate::laws::rates::law_reference_is_the_smaller_reserve;
use crate::math::{
    block_decay, collateral, daily_decay, lemma_block_decay, lemma_log_loss, lemma_materialized,
    log_loss, pool_fraction, reference_reserve, time_to_dust, to_ppb, PPB,
};
use crate::pallet::State;
use crate::pricing::{
    draws, is_reference, lemma_escrow_and_liability, lent, refused_right, room_for_what_is_lent,
};
use crate::residuals::lemma_fraction;
use crate::types::{Error, Params, Subnet};
use crate::views::{close_quote, market_info, open_quote, position_info};
use vstd::prelude::*;

verus! {

/// `ppb` is a number, given by its bits, in billionths, rounded down.
pub open spec fn in_billionths(ppb: u64, bits: int) -> bool {
    ppb * ONE_BITS <= bits * 1_000_000_000 < (ppb + 1) * ONE_BITS
}

/// `cost` is the least, in TAO, that buys `q` alpha from a pool which keeps the product of its
/// reserves, and `u64::MAX` where the pool does not hold more than that.
pub open spec fn buys_from(cost: u64, subnet: Subnet, q: int) -> bool {
    let left = subnet.alpha_in - q;
    if left <= 0 {
        cost == u64::MAX
    } else {
        &&& cost < u64::MAX ==> subnet.tao * q <= cost * left
        &&& cost > 0 ==> (cost - 1) * left < subnet.tao * q
    }
}

/// A number between zero and two in billionths.
proof fn lemma_in_billionths(x: Fixed)
    requires
        0 <= x.bits <= 2 * ONE_BITS,
    ensures
        in_billionths(to_ppb(x), x.bits as int),
{
    let one = ONE_BITS as int;
    let n = x.bits as int;
    lemma_whole(PPB);
    assert(n * (1_000_000_000 * one) == one * (n * 1_000_000_000)) by (nonlinear_arith);
    vstd::arithmetic::div_mod::lemma_div_multiples_vanish(n * 1_000_000_000, one);
    assert(x.times(Fixed::whole(PPB as int)).bits == n * 1_000_000_000);
    vstd::arithmetic::div_mod::lemma_fundamental_div_mod(n * 1_000_000_000, one);
    vstd::arithmetic::div_mod::lemma_div_pos_is_pos(n * 1_000_000_000, one);
}

proof fn lemma_buys_from(subnet: Subnet, q: u64)
    requires
        subnet.bounded(),
    ensures
        buys_from(crate::math::spot_cost(subnet, q), subnet, q as int),
{
    if q < subnet.alpha_in {
        lemma_cost(subnet.tao as int, subnet.alpha_in as int, q as int);
    }
}

/// A number of blocks is the logarithm of what an amount is of dust over the loss of a block, rounded
/// down, where that fits.
pub open spec fn blocks_of_loss(blocks: u64, r: u64, dust: u64, delta: Fixed) -> bool {
    let ratio = Fixed { bits: ((r * ONE_BITS) / (dust as int)) as i128 };
    let (ln, loss) = (ratio.growing_log().bits as int, log_loss(delta).bits as int);
    (ln * ONE_BITS) / loss <= i128::MAX ==> blocks * loss <= ln < (blocks + 1) * loss
}

/// The time until dust is the number of blocks whose losses come to the logarithm of what the buffer
/// is of dust, rounded down. There is none without dust or without decay, and none is left where the
/// buffer is dust.
pub proof fn law_time_to_dust_is_a_quotient(dust: u64, r: u64, daily: Fixed)
    requires
        fits(r),
        0 <= daily.bits <= ONE_BITS,
    ensures
        r <= dust ==> time_to_dust(dust, r, daily) == 0,
        0 == dust < r ==> time_to_dust(dust, r, daily) == u64::MAX,
        dust < r && daily.bits < 7200 ==> time_to_dust(dust, r, daily) == u64::MAX,
        0 < dust < r && daily.bits >= 7200 ==> blocks_of_loss(
            time_to_dust(dust, r, daily),
            r,
            dust,
            block_decay(daily),
        ),
{
    lemma_block_decay(daily);
    vstd::arithmetic::div_mod::lemma_fundamental_div_mod(daily.bits as int, 7200);
    if 0 < dust < r && daily.bits >= 7200 {
        let one = ONE_BITS as int;
        let delta = block_decay(daily);
        lemma_log_loss(delta);
        let loss = log_loss(delta);
        lemma_whole(r);
        lemma_whole(dust);
        let (a, b) = (Fixed::whole(r as int), Fixed::whole(dust as int));
        lemma_over(a, b);
        let (n, d) = (r as int, dust as int);
        assert((n * one) * one == one * (n * one) && d * one == one * d) by (nonlinear_arith);
        vstd::arithmetic::div_mod::lemma_div_denominator(one * (n * one), one, d);
        vstd::arithmetic::div_mod::lemma_div_multiples_vanish(n * one, one);
        assert((a.bits * one) / (b.bits as int) == (n * one) / d);
        vstd::arithmetic::div_mod::lemma_div_pos_is_pos(n * one, d);
        vstd::arithmetic::div_mod::lemma_fundamental_div_mod(n * one, d);
        let ratio = (n * one) / d;
        assert(ratio <= n * one) by (nonlinear_arith)
            requires
                d * ratio <= n * one,
                d >= 1,
                ratio >= 0,
        ;
        assert(a.over(b).bits == ratio);
        let ln = a.over(b).growing_log();
        assert(ln.bits >= 0);
        lemma_over(ln, loss);
        let (x, y) = (ln.bits * one, loss.bits as int);
        let z = x / y;
        vstd::arithmetic::div_mod::lemma_fundamental_div_mod(x, y);
        vstd::arithmetic::div_mod::lemma_div_pos_is_pos(x, y);
        if z <= i128::MAX {
            assert(ln.over(loss).bits == z);
            let t = z / one;
            vstd::arithmetic::div_mod::lemma_fundamental_div_mod(z, one);
            vstd::arithmetic::div_mod::lemma_div_pos_is_pos(z, one);
            let l = ln.bits as int;
            assert(t * y <= l && l < (t + 1) * y) by (nonlinear_arith)
                requires
                    x == l * one,
                    y * z <= x,
                    x < y * z + y,
                    one * t <= z,
                    z < one * t + one,
                    y > 0,
                    one > 0,
            {
                assert(y * (one * t) <= y * z);
                assert(one * (t * y) <= one * l);
                assert(y * (z + 1) <= y * (one * t + one));
                assert(one * l < one * ((t + 1) * y));
            }
            assert(time_to_dust(dust, r, daily) == t);
        }
    }
}

/// A position is shown as it is at the present, with the rate of its market, what buying back its
/// liability costs on the live pool, what of the alpha is there and what is missing, and when it may
/// be defaulted.
pub proof fn law_position_is_shown_right(s: State, netuid: u16, coldkey: AccountId)
    requires
        s.market_bounded(netuid),
        s.has_position(netuid, coldkey),
        s.position(netuid, coldkey).bounded(),
    ensures
        ({
            let info = position_info(s, netuid, coldkey);
            let is = held(s, netuid, coldkey);
            let grace_ends = is.last_active + s.params.short_default_grace;
            let over = s.block >= grace_ends || (grace_ends > u64::MAX && s.block == u64::MAX);
            &&& info.netuid == netuid
            &&& info.hotkey == is.hotkey
            &&& info.floor == is.p_floor
            &&& info.alpha_liability == is.q_liability
            &&& info.buffer == is.r_stored
            &&& info.escrow == is.e_stored
            &&& is.p_floor + is.r_stored <= u64::MAX ==> info.collateral_claim == is.p_floor
                + is.r_stored
            &&& in_billionths(
                info.daily_decay,
                daily_decay(s.params, s.subnet(netuid), s.agg(netuid).b_sigma).bits as int,
            )
            &&& is.r_stored <= s.params.dust ==> info.blocks_to_dust == 0
            &&& 0 == s.params.dust < is.r_stored ==> info.blocks_to_dust == u64::MAX
            &&& 0 < s.params.dust < is.r_stored && next_decay(s, netuid).bits == 0
                ==> info.blocks_to_dust == u64::MAX
            &&& 0 < s.params.dust < is.r_stored && next_decay(s, netuid).bits > 0
                ==> blocks_of_loss(
                info.blocks_to_dust,
                is.r_stored,
                s.params.dust,
                next_decay(s, netuid),
            )
            &&& info.default_eligible <==> is.r_stored <= s.params.dust && over
            &&& grace_ends <= u64::MAX ==> info.defaultable_at_block == grace_ends
            &&& buys_from(info.est_close_cost, s.subnet(netuid), is.q_liability as int)
            &&& info.alpha_held == s.stake(netuid, is.hotkey, coldkey)
            &&& info.alpha_held >= is.q_liability ==> info.alpha_needed == 0
            &&& info.alpha_held < is.q_liability ==> info.alpha_needed == is.q_liability
                - info.alpha_held
        }),
{
    lemma_next_decay(s, netuid);
    let daily = daily_decay(s.params, s.subnet(netuid), s.agg(netuid).b_sigma);
    lemma_in_billionths(daily);
    lemma_materialized(s.position(netuid, coldkey), s.agg(netuid).omega);
    law_time_to_dust_is_a_quotient(s.params.dust, held(s, netuid, coldkey).r_stored, daily);
    lemma_block_decay(daily);
    vstd::arithmetic::div_mod::lemma_fundamental_div_mod(daily.bits as int, 7200);
    lemma_buys_from(s.subnet(netuid), held(s, netuid, coldkey).q_liability);
}

/// A market is shown with its parameters and its sums, the reference reserve in whole rao, the cap
/// that `kappa` makes of it, and what of the cap is not in use.
pub proof fn law_market_is_shown_right(s: State, netuid: u16, reserve: int)
    requires
        s.market_bounded(netuid),
        is_reference(s.subnet(netuid), reserve),
        s.params.kappa.bits * reserve < i128::MAX * ONE_BITS,
    ensures
        ({
            let info = market_info(s, netuid);
            let sums = s.agg(netuid);
            let one = ONE_BITS as int;
            let cap = s.params.kappa.bits * reserve;
            &&& info.shorts_enabled == s.params.shorts_enabled
            &&& in_billionths(info.base_ltv, s.params.base_ltv.bits as int)
            &&& in_billionths(info.kappa, s.params.kappa.bits as int)
            &&& in_billionths(info.decay_min, s.params.decay_min.bits as int)
            &&& in_billionths(info.decay_max, s.params.decay_max.bits as int)
            &&& in_billionths(
                info.current_daily_decay,
                daily_decay(s.params, s.subnet(netuid), sums.b_sigma).bits as int,
            )
            &&& info.t_ref * one <= reserve < (info.t_ref + 1) * one
            &&& info.footprint_used == sums.b_sigma
            &&& info.footprint_cap * (one * one) <= cap < (info.footprint_cap + 1) * (one * one)
            &&& info.footprint_cap <= sums.b_sigma ==> info.footprint_remaining == 0
            &&& info.footprint_cap > sums.b_sigma ==> info.footprint_remaining == info.footprint_cap
                - sums.b_sigma
            &&& info.open_interest_alpha == sums.q_sigma
            &&& info.buffer_total == sums.r_sigma
            &&& info.escrow_total == sums.e_sigma
            &&& info.dust_threshold == s.params.dust
            &&& info.min_input == s.params.min_input
            &&& info.default_grace == s.params.short_default_grace
        }),
{
    let one = ONE_BITS as int;
    let subnet = s.subnet(netuid);
    law_reference_is_the_smaller_reserve(subnet);
    assert(reference_reserve(subnet).bits == reserve);
    lemma_next_decay(s, netuid);
    lemma_in_billionths(s.params.base_ltv);
    lemma_in_billionths(s.params.kappa);
    lemma_in_billionths(s.params.decay_min);
    lemma_in_billionths(s.params.decay_max);
    lemma_in_billionths(daily_decay(s.params, subnet, s.agg(netuid).b_sigma));
    lemma_whole(s.agg(netuid).b_sigma);
    vstd::arithmetic::div_mod::lemma_fundamental_div_mod(reserve, one);
    vstd::arithmetic::div_mod::lemma_div_pos_is_pos(reserve, one);
    let kr = s.params.kappa.bits * reserve;
    assert(kr >= 0) by (nonlinear_arith)
        requires
            kr == s.params.kappa.bits * reserve,
            s.params.kappa.bits >= 0,
            reserve >= 0,
    ;
    vstd::arithmetic::div_mod::lemma_fundamental_div_mod(kr, one);
    vstd::arithmetic::div_mod::lemma_div_pos_is_pos(kr, one);
    let k = kr / one;
    assert(k < i128::MAX) by (nonlinear_arith)
        requires
            one * k <= kr,
            kr < i128::MAX * one,
            one > 0,
    ;
    let cap = s.params.kappa.times(reference_reserve(subnet));
    assert(cap.bits == k);
    vstd::arithmetic::div_mod::lemma_fundamental_div_mod(k, one);
    vstd::arithmetic::div_mod::lemma_div_pos_is_pos(k, one);
    let f = k / one;
    assert(f * (one * one) <= kr && kr < (f + 1) * (one * one)) by (nonlinear_arith)
        requires
            one * k <= kr,
            kr < one * k + one,
            one * f <= k,
            k < one * f + one,
            one > 0,
    {
        assert(one * (one * f) <= one * k);
        assert(one * (k + 1) <= one * (one * f + one));
    }
    let u = s.agg(netuid).b_sigma as int;
    let rest = cap.minus(Fixed::whole(u)).bits as int;
    assert(rest == k - u * one);
    if rest > 0 {
        vstd::arithmetic::div_mod::lemma_hoist_over_denominator(k, -u, one as nat);
        assert(k + (-u) * one == rest);
        assert(rest / one == f - u);
    } else {
        assert(f <= u) by (nonlinear_arith)
            requires
                one * f <= k,
                k <= u * one,
                one > 0,
        ;
    }
}

/// A quote for opening is right for the numbers that it was priced from, whatever the cap says, and
/// there is one unless shorts are off, the subnet is no market, there is no room to lend, or the
/// proceeds are more than a quarter of the pool. The gross collateral is the input and the proceeds,
/// the effective loan to value is what the proceeds are of it, and closing at once would cost what
/// buying back the liability does.
pub proof fn law_open_is_quoted_right(params: Params, subnet: Subnet, b_sigma: u64, input: u64)
    requires
        roots_are_near(),
        params.valid(),
        subnet.bounded(),
        fits(b_sigma),
        fits(input),
    ensures
        open_quote(params, subnet, b_sigma, input) matches Some(quote) ==> {
            let (n, e, q) = (
                quote.retained_proceeds as int,
                quote.escrow as int,
                quote.alpha_liability as int,
            );
            let (tao, alpha) = (subnet.tao as int, subnet.alpha_in as int);
            &&& params.shorts_enabled
            &&& subnet.mechanism == 1
            &&& exists|reserve: int, x: int| #[trigger]
                lent(params, subnet, b_sigma, input, reserve, x) && n * ONE_BITS <= x < (n + 1)
                    * ONE_BITS && draws(x, tao, alpha, e, q)
            &&& quote.gross_collateral == input + n
            &&& n * tao <= e * (tao - e) + 2 * tao
            &&& e * (tao - e) <= (n + 2) * tao
            &&& q * tao <= (e + 1) * alpha
            &&& e * alpha <= (q + 1) * tao
            &&& quote.effective_ltv * (input + n) <= (n + 1) * 1_000_000_000
            &&& n * 1_000_000_000 <= (quote.effective_ltv + 2) * (input + n + 1)
            &&& in_billionths(
                quote.daily_decay,
                daily_decay(params, subnet, b_sigma).bits as int,
            )
            &&& buys_from(quote.est_close_cost, subnet, q)
            &&& room_for_what_is_lent(params, subnet, b_sigma, input)
        },
        open_quote(params, subnet, b_sigma, input) is None && params.shorts_enabled
            && subnet.mechanism == 1 ==> refused_right(
            params,
            subnet,
            b_sigma,
            input,
            Error::EffectiveLtvNonPositive,
        ) || refused_right(params, subnet, b_sigma, input, Error::ReserveDomainExceeded),
{
    lemma_lent(params, subnet, b_sigma, input);
    lemma_whole(subnet.tao);
    lemma_whole(input);
    let found = collateral(
        Fixed::whole(input as int),
        reference_reserve(subnet),
        Fixed::whole(b_sigma as int),
        params.base_ltv,
    );
    if let Some((c, n)) = found {
        let t = Fixed::whole(subnet.tao as int);
        let reserve = reference_reserve(subnet).bits as int;
        assert(lent(params, subnet, b_sigma, input, reserve, n.bits as int));
        if t.bits > 0 {
            lemma_a_quarter(n, t);
        }
    }
    if let Some(quote) = open_quote(params, subnet, b_sigma, input) {
        let one = ONE_BITS as int;
        let (c, n) = collateral(
            Fixed::whole(input as int),
            reference_reserve(subnet),
            Fixed::whole(b_sigma as int),
            params.base_ltv,
        )->0;
        let t = Fixed::whole(subnet.tao as int);
        lemma_fraction(n, t);
        let phi = pool_fraction(n, t)->0;
        lemma_escrow_and_liability(phi, n, subnet.tao, subnet.alpha_in);
        lemma_buys_from(subnet, quote.alpha_liability);
        let reserve = reference_reserve(subnet).bits as int;
        assert(lent(params, subnet, b_sigma, input, reserve, n.bits as int));
        let (nb, cb, m, i) = (n.bits as int, c.bits as int, n.floor_amount() as int, input as int);
        vstd::arithmetic::div_mod::lemma_fundamental_div_mod(nb, one);
        vstd::arithmetic::div_mod::lemma_div_pos_is_pos(nb, one);
        vstd::arithmetic::div_mod::lemma_fundamental_div_mod(cb, one);
        assert(c.floor_amount() == i + m) by {
            vstd::arithmetic::div_mod::lemma_hoist_over_denominator(nb, i, one as nat);
        }
        lemma_rate_shown(params, subnet, b_sigma);
        // The effective loan to value.
        lemma_over(n, c);
        let v = n.over(c);
        let w = (nb * one) / cb;
        vstd::arithmetic::div_mod::lemma_fundamental_div_mod(nb * one, cb);
        assert(0 <= w && w <= one) by (nonlinear_arith)
            requires
                nb * one == cb * w + (nb * one) % cb,
                0 <= (nb * one) % cb < cb,
                0 <= nb <= cb,
                cb > 0,
                one > 0,
        {
            assert(nb * one <= cb * one);
            if w > one {
                assert(cb * w >= cb * (one + 1));
            }
            if w < 0 {
                assert(cb * w <= -cb);
                assert(nb * one >= 0);
            }
        }
        assert(v.bits == w);
        lemma_in_billionths(v);
        let l = quote.effective_ltv as int;
        let g = 1_000_000_000int;
        assert(l * (i + m) <= (m + 1) * g) by (nonlinear_arith)
            requires
                l * one <= w * g,
                cb * w <= nb * one,
                cb == i * one + nb,
                one * m <= nb,
                nb <= one * m + one,
                l >= 0,
                i >= 0,
                cb >= 0,
                g == 1_000_000_000,
                one > 0,
        {
            assert((i + m) * one <= cb);
            assert((l * one) * cb <= (w * g) * cb);
            assert((w * g) * cb == g * (cb * w));
            assert(g * (cb * w) <= g * (nb * one));
            assert(l * cb <= g * nb) by {
                assert(one * (l * cb) <= one * (g * nb));
            }
            assert(l * ((i + m) * one) <= l * cb);
            assert(g * nb <= g * (one * m + one));
            assert(one * (l * (i + m)) <= one * ((m + 1) * g));
        }
        assert(m * g <= (l + 2) * (i + m + 1)) by (nonlinear_arith)
            requires
                w * g <= (l + 1) * one,
                nb * one <= cb * w + cb,
                cb == i * one + nb,
                one * m <= nb,
                nb <= one * m + one,
                l >= 0,
                i >= 0,
                cb >= 0,
                g == 1_000_000_000,
                one > 1_000_000_000,
        {
            assert(cb <= (i + m + 1) * one);
            assert(g * (nb * one) <= g * (cb * w + cb));
            assert(g * (cb * w + cb) == cb * (w * g) + cb * g);
            assert(cb * (w * g) <= cb * ((l + 1) * one));
            assert(cb * g <= cb * one);
            assert(g * (nb * one) <= (cb * (l + 2)) * one);
            assert(g * nb <= cb * (l + 2)) by {
                assert(one * (g * nb) <= one * (cb * (l + 2)));
            }
            assert(g * (one * m) <= g * nb);
            assert(cb * (l + 2) <= ((i + m + 1) * one) * (l + 2));
            assert(one * (m * g) <= one * ((l + 2) * (i + m + 1)));
        }
    }
}

proof fn lemma_rate_shown(params: Params, subnet: Subnet, b_sigma: u64)
    requires
        params.valid(),
        subnet.bounded(),
        fits(b_sigma),
    ensures
        in_billionths(
            to_ppb(daily_decay(params, subnet, b_sigma)),
            daily_decay(params, subnet, b_sigma).bits as int,
        ),
{
    let used = Fixed::whole(b_sigma as int);
    lemma_whole(b_sigma);
    let cap = params.kappa.times(reference_reserve(subnet));
    let u = crate::math::used_share(used, cap);
    if cap.bits > 0 {
        lemma_over(used, cap);
    }
    let span = params.decay_max.minus(params.decay_min);
    lemma_times(span, u);
    lemma_times(span.times(u), u);
    lemma_in_billionths(daily_decay(params, subnet, b_sigma));
}

/// A quote for closing shows the billionths of what the position holds at the present, what buying
/// back what is to be repaid costs, and what of it is there and what is missing.
pub proof fn law_close_is_quoted_right(s: State, netuid: u16, coldkey: AccountId, ppb: u64)
    requires
        s.subnet(netuid).bounded(),
        s.position_wholly_bounded(netuid, coldkey),
    ensures
        close_quote(s, netuid, coldkey, ppb) is Some <==> 0 < ppb <= 1_000_000_000
            && s.has_position(netuid, coldkey),
        close_quote(s, netuid, coldkey, ppb) matches Some(quote) ==> {
            let is = held(s, netuid, coldkey);
            &&& billionths_of(quote.repay_alpha as int, is.q_liability, ppb)
            &&& billionths_of(quote.escrow_settled as int, is.e_stored, ppb)
            &&& exists|p: int, r: int| #[trigger]
                (p + r) == quote.returned_tao && billionths_of(p, is.p_floor, ppb) && billionths_of(
                    r,
                    is.r_stored,
                    ppb,
                )
            &&& buys_from(quote.est_buyback_cost, s.subnet(netuid), quote.repay_alpha as int)
            &&& quote.alpha_held == s.stake(netuid, is.hotkey, coldkey)
            &&& quote.alpha_held >= quote.repay_alpha ==> quote.alpha_needed == 0
            &&& quote.alpha_held < quote.repay_alpha ==> quote.alpha_needed == quote.repay_alpha
                - quote.alpha_held
        },
{
    if let Some(quote) = close_quote(s, netuid, coldkey, ppb) {
        let is = held(s, netuid, coldkey);
        lemma_materialized(s.position(netuid, coldkey), s.agg(netuid).omega);
        crate::laws::closing::lemma_slice(is, ppb);
        lemma_billionths(is.q_liability, ppb);
        lemma_billionths(is.e_stored, ppb);
        lemma_billionths(is.p_floor, ppb);
        lemma_billionths(is.r_stored, ppb);
        lemma_buys_from(s.subnet(netuid), quote.repay_alpha);
        let slice = crate::close::slice_of(is, crate::math::from_ppb(ppb));
        assert(slice.p as int + slice.r as int == quote.returned_tao);
    }
}

} // verus!
