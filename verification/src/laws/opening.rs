//! Opening.
use crate::accounts::{AccountId, Origin};
use crate::fixed::{fits, lemma_over, lemma_times, lemma_whole, Fixed, ONE_BITS};
use crate::laws::ledger::{lemma_open_moves, sound};
use crate::math::{
    collateral, implied_reserve, lemma_share_of_amount, pool_fraction, reference_reserve,
    HALF_BITS,
};
use crate::open::{admission, open_outcome, terms_of};
use crate::pallet::State;
use crate::types::{Params, Subnet};
use crate::views::open_quote;
use vstd::prelude::*;

verus! {

/// The collateral is the input and the proceeds, and there are proceeds.
pub proof fn law_collateral_is_input_and_proceeds(p: Fixed, reserve: Fixed, s: Fixed, ltv: Fixed)
    requires
        p.bits >= 0,
    ensures
        collateral(p, reserve, s, ltv) matches Some((c, n)) ==> n.bits > 0 && c.bits == p.bits
            + n.bits,
{
}

/// A quoted short is covered: its gross collateral is the input and the retained proceeds.
pub proof fn law_quoted_short_is_covered(params: Params, subnet: Subnet, b_sigma: u64, input: u64)
    requires
        fits(input),
    ensures
        open_quote(params, subnet, b_sigma, input) matches Some(quote) ==> quote.gross_collateral
            == input + quote.retained_proceeds,
{
    if let Some(quote) = open_quote(params, subnet, b_sigma, input) {
        let p = Fixed::whole(input as int);
        let (c, n) = collateral(
            p,
            reference_reserve(subnet),
            Fixed::whole(b_sigma as int),
            params.base_ltv,
        )->0;
        lemma_whole(input);
        let one = ONE_BITS as int;
        assert(c.bits == input * one + n.bits);
        assert((c.bits as int) / one == input + (n.bits as int) / one) by {
            vstd::arithmetic::div_mod::lemma_hoist_over_denominator(
                n.bits as int,
                input as int,
                one as nat,
            );
        }
        vstd::arithmetic::div_mod::lemma_div_pos_is_pos(n.bits as int, one);
    }
}

/// The fraction of a pool is at most a half, and there is one only for proceeds up to a quarter of
/// the pool.
proof fn lemma_pool_fraction(n: Fixed, tao: u64)
    requires
        fits(tao),
        n.bits >= 0,
    ensures
        pool_fraction(n, Fixed::whole(tao as int)) matches Some(phi) ==> phi.bits <= HALF_BITS && 4
            * n.floor_amount() <= tao,
{
    let t = Fixed::whole(tao as int);
    let four = Fixed::whole(4);
    let one = ONE_BITS as int;
    lemma_whole(tao);
    if let Some(phi) = pool_fraction(n, t) {
        let frac = four.times(n).over(t);
        let root = Fixed::whole(1).minus(frac).root()->0;
        crate::math::lemma_half(root);
        // What the product with four is.
        let four_n = four.times(n);
        assert(four.bits * n.bits == one * (4 * n.bits)) by (nonlinear_arith)
            requires
                four.bits == 4 * one,
        ;
        vstd::arithmetic::div_mod::lemma_div_multiples_vanish(4 * n.bits, one);
        assert(four_n.bits == crate::fixed::saturated(4 * n.bits));
        lemma_over(four_n, t);
        // The quotient fits, because the divisor is one or more.
        let num = four_n.bits * one;
        let q = num / (t.bits as int);
        assert(q <= four_n.bits) by {
            vstd::arithmetic::div_mod::lemma_div_is_ordered_by_denominator(num, one, t.bits as int);
            vstd::arithmetic::div_mod::lemma_div_multiples_vanish(four_n.bits as int, one);
            assert(one * four_n.bits == num);
        }
        assert(frac.bits == q);
        vstd::arithmetic::div_mod::lemma_fundamental_div_mod(num, t.bits as int);
        assert(num < (one + 1) * t.bits) by (nonlinear_arith)
            requires
                num == t.bits * q + num % (t.bits as int),
                num % (t.bits as int) < t.bits,
                q <= one,
                t.bits > 0,
        ;
        assert(four_n.bits <= t.bits + tao) by (nonlinear_arith)
            requires
                num == four_n.bits * one,
                num < (one + 1) * t.bits,
                t.bits == tao * one,
                one > 0,
        ;
        assert(four_n.bits == 4 * n.bits);
        let m = n.floor_amount() as int;
        vstd::arithmetic::div_mod::lemma_fundamental_div_mod(n.bits as int, one);
        assert(4 * m <= tao) by (nonlinear_arith)
            requires
                m * one <= n.bits,
                4 * n.bits <= tao * one + tao,
                0 <= tao < one,
                one > 0,
        ;
    }
}

/// A short takes no more than a quarter of the pool as its buffer and no more than a half as its
/// escrow, and owes no more than half of the alpha reserve.
pub proof fn law_open_spares_the_pool(params: Params, subnet: Subnet, b_sigma: u64, input: u64)
    requires
        subnet.bounded(),
        fits(input),
    ensures
        terms_of(params, subnet, b_sigma, input) matches Ok(terms) ==> {
            &&& 0 < terms.n
            &&& 4 * terms.n <= subnet.tao
            &&& 2 * terms.e <= subnet.tao
            &&& 2 * terms.q <= subnet.alpha_in
        },
{
    if let Ok(terms) = terms_of(params, subnet, b_sigma, input) {
        let tao = Fixed::whole(subnet.tao as int);
        lemma_whole(input);
        let (c, n) = collateral(
            Fixed::whole(input as int),
            reference_reserve(subnet),
            Fixed::whole(b_sigma as int),
            params.base_ltv,
        )->0;
        let phi = pool_fraction(n, tao)->0;
        lemma_pool_fraction(n, subnet.tao);
        lemma_share_of_amount(phi, subnet.tao);
        lemma_share_of_amount(phi, subnet.alpha_in);
    }
}

/// Opening lowers the pool by exactly the proceeds and the escrow, and the total stake with it;
/// the alpha reserve stays.
pub proof fn law_open_moves_pool_and_stake_together(
    s: State,
    origin: Origin,
    hotkey: AccountId,
    netuid: u16,
    input: u64,
    max_q: u64,
)
    requires
        s.subnet(netuid).bounded(),
        s.subnet(netuid).tao <= s.total_stake,
        fits(input),
    ensures
        open_outcome(s, origin, hotkey, netuid, input, max_q) matches Ok(after) ==> {
            let terms = admission(s, origin, hotkey, netuid, input, max_q)->Ok_0.1;
            &&& after.subnet(netuid).tao == s.subnet(netuid).tao - terms.n - terms.e
            &&& after.total_stake == s.total_stake - terms.n - terms.e
            &&& after.subnet(netuid).alpha_in == s.subnet(netuid).alpha_in
            &&& after.subnet(netuid).alpha_out == s.subnet(netuid).alpha_out
        },
{
    law_open_spares_the_pool(s.params, s.subnet(netuid), s.agg(netuid).b_sigma, input);
}

/// The trader pays the floor and is paid nothing: the proceeds go from the pool into custody.
pub proof fn law_open_pays_out_nothing(
    s: State,
    origin: Origin,
    hotkey: AccountId,
    netuid: u16,
    input: u64,
    max_q: u64,
)
    requires
        sound(s),
        s.subnet(netuid).bounded(),
        fits(input),
        s.subnet(netuid).account != s.custody(netuid),
        (origin matches Origin::Signed(coldkey) ==> coldkey != s.custody(netuid) && coldkey
            != s.subnet(netuid).account),
    ensures
        open_outcome(s, origin, hotkey, netuid, input, max_q) matches Ok(after) ==> {
            let terms = admission(s, origin, hotkey, netuid, input, max_q)->Ok_0.1;
            let coldkey = origin->Signed_0;
            let pool = s.subnet(netuid).account;
            let custody = s.custody(netuid);
            &&& after.balance(coldkey) == s.balance(coldkey) - input
            &&& after.balance(pool) == s.balance(pool) - terms.n - terms.e
            &&& after.balance(custody) == s.balance(custody) + input + terms.n + terms.e
            &&& after.stakes == s.stakes
        },
{
    lemma_open_moves(s, origin, hotkey, netuid, input, max_q);
    law_open_spares_the_pool(s.params, s.subnet(netuid), s.agg(netuid).b_sigma, input);
}

/// After opening the footprint is within the cap that held before it, if that fits.
pub proof fn law_open_respects_the_cap(
    s: State,
    origin: Origin,
    hotkey: AccountId,
    netuid: u16,
    input: u64,
    max_q: u64,
)
    requires
        s.market_bounded(netuid),
        s.params.kappa.times(reference_reserve(s.subnet(netuid))).bits < i128::MAX,
        fits(input),
    ensures
        open_outcome(s, origin, hotkey, netuid, input, max_q) matches Ok(after) ==> after.agg(
            netuid,
        ).b_sigma <= s.params.kappa.times(reference_reserve(s.subnet(netuid))).floor_amount(),
{
    if let Ok(after) = open_outcome(s, origin, hotkey, netuid, input, max_q) {
        let terms = admission(s, origin, hotkey, netuid, input, max_q)->Ok_0.1;
        let b_sigma = s.agg(netuid).b_sigma;
        let reserve = reference_reserve(s.subnet(netuid));
        let (c, n) = collateral(
            Fixed::whole(input as int),
            reserve,
            Fixed::whole(b_sigma as int),
            s.params.base_ltv,
        )->0;
        lemma_whole(b_sigma);
        lemma_whole(input);
        let b = s.params.base_ltv.times(c);
        lemma_times(s.params.base_ltv, c);
        let cap = s.params.kappa.times(reserve);
        let one = ONE_BITS as int;
        let used = Fixed::whole(b_sigma as int);
        vstd::arithmetic::div_mod::lemma_fundamental_div_mod(b.bits as int, one);
        vstd::arithmetic::div_mod::lemma_fundamental_div_mod(cap.bits as int, one);
        let bf = (b.bits as int) / one;
        let cf = (cap.bits as int) / one;
        vstd::arithmetic::div_mod::lemma_div_pos_is_pos(b.bits as int, one);
        assert(used.plus(b).bits <= cap.bits);
        assert(b_sigma + bf <= cf) by (nonlinear_arith)
            requires
                b_sigma * one + b.bits <= cap.bits,
                one * bf <= b.bits,
                cap.bits < one * (cf + 1),
                one > 0,
        ;
        assert(terms.b == b.floor_amount());
    }
}

/// Opening gives the amounts that were quoted.
pub proof fn law_open_matches_its_quote(
    s: State,
    origin: Origin,
    hotkey: AccountId,
    netuid: u16,
    input: u64,
    max_q: u64,
)
    ensures
        admission(s, origin, hotkey, netuid, input, max_q) matches Ok((coldkey, terms)) ==> {
            &&& open_quote(s.params, s.subnet(netuid), s.agg(netuid).b_sigma, input) matches Some(
                quote,
            )
            &&& quote.retained_proceeds == terms.n
            &&& quote.escrow == terms.e
            &&& quote.alpha_liability == terms.q
            &&& terms.q <= max_q
        },
{
}

/// A reserve that is pumped above what the moving price implies does not change the terms of a
/// short other than by what the pool is asked for: the reference stays.
pub proof fn law_pumped_reserve_is_ignored(subnet: Subnet, tao: u64)
    requires
        subnet.bounded(),
        fits(tao),
        implied_reserve(subnet).bits > 0,
        implied_reserve(subnet).bits <= Fixed::whole(subnet.tao as int).bits,
        subnet.tao <= tao,
    ensures
        reference_reserve(Subnet { tao, ..subnet }) == reference_reserve(subnet),
        reference_reserve(subnet) == implied_reserve(subnet),
{
    lemma_whole(subnet.tao);
    lemma_whole(tao);
    assert(implied_reserve(Subnet { tao, ..subnet }) == implied_reserve(subnet));
}

} // verus!
