//! The amounts of a short, in the numbers that they are priced from.
use crate::accounts::{AccountId, Origin};
use crate::fixed::{fits, lemma_over, lemma_times, lemma_whole, near_root, Fixed, ONE_BITS};
use crate::laws::moves::{all_sums_fit, held, law_open_books_both_sides, position_fits};
use crate::laws::rates::law_reference_is_the_smaller_reserve;
use crate::laws::ledger::sound;
use crate::math::{
    collateral, discriminant, lemma_materialized, linear_term, pool_fraction, reference_reserve,
};
use crate::open::{open_outcome, terms_of, OpenTerms};
use crate::pallet::State;
use crate::pricing::{
    collateral_balances, is_reference, lemma_capacity_exceeded, lemma_collateral_balances,
    lemma_priced_right, lemma_room_decides, lemma_within_the_loan, lends_exactly, lent,
    no_room_to_lend, priced_right, refused_right, room_for_what_is_lent, room_to_lend,
    within_the_loan,
};
use crate::residuals::lemma_fraction;
use crate::types::{Error, Params, Subnet};
use vstd::prelude::*;

verus! {

/// Every square root that is taken is near the true one.
pub open spec fn roots_are_near() -> bool {
    forall|x: Fixed| (#[trigger] x.root()) matches Some(root) ==> near_root(x.bits, root.bits)
}

/// The collateral of an input is the input and the proceeds, and the proceeds are the loan to value
/// of the collateral less what the footprint and the collateral press the price by; never more than
/// the loan to value of the collateral. There are proceeds where there is room for them, and none
/// where there is not.
pub proof fn law_collateral_balances(p: Fixed, reserve: Fixed, s: Fixed, ltv: Fixed)
    requires
        roots_are_near(),
        0 <= 2 * p.bits <= i128::MAX,
        0 <= 2 * s.bits <= i128::MAX,
        reserve.bits >= ONE_BITS,
        0 < ltv.bits <= ONE_BITS,
    ensures
        ({
            let (pi, ri, si, li) = (
                p.bits as int,
                reserve.bits as int,
                s.bits as int,
                ltv.bits as int,
            );
            &&& collateral(p, reserve, s, ltv) matches Some((c, n)) ==> {
                &&& n.bits > 0
                &&& within_the_loan(n.bits as int, c.bits as int, li)
                &&& collateral_balances(n.bits as int, c.bits as int, pi, ri, si, li)
            }
            &&& p.bits >= ONE_BITS && 2 * p.bits * ONE_BITS <= (ONE_BITS - ltv.bits) * i128::MAX
                && room_to_lend(pi, ri, si, li) ==> collateral(p, reserve, s, ltv) is Some
            &&& p.bits >= ONE_BITS && no_room_to_lend(pi, ri, si, li) ==> collateral(
                p,
                reserve,
                s,
                ltv,
            ) is None
        }),
{
    let disc = discriminant(p, reserve, s, ltv);
    lemma_discriminant_is_positive(p, reserve, s, ltv);
    let root = disc.root()->0;
    assert(near_root(disc.bits, root.bits));
    lemma_within_the_loan(p, reserve, s, ltv, root);
    lemma_collateral_balances(p, reserve, s, ltv, root);
    if p.bits >= ONE_BITS {
        lemma_room_decides(p, reserve, s, ltv, root);
    }
}

proof fn lemma_discriminant_is_positive(p: Fixed, reserve: Fixed, s: Fixed, ltv: Fixed)
    requires
        p.bits >= 0,
        s.bits >= 0,
        reserve.bits > 0,
        0 < ltv.bits <= ONE_BITS,
    ensures
        discriminant(p, reserve, s, ltv).bits >= 0,
        discriminant(p, reserve, s, ltv).root() is Some,
{
    let two = Fixed::whole(2);
    let b = linear_term(reserve, s, ltv);
    let a = crate::math::quadratic_term(reserve, ltv);
    lemma_times(ltv, ltv);
    lemma_over(ltv.times(ltv), reserve);
    lemma_times(two, ltv);
    lemma_times(two.times(ltv), s);
    lemma_over(two.times(ltv).times(s), reserve);
    lemma_times(Fixed::whole(4), a);
    lemma_times(Fixed::whole(4).times(a), p);
    lemma_times(b, b);
}

/// What the collateral of an input lends.
pub proof fn lemma_lent(params: Params, subnet: Subnet, b_sigma: u64, input: u64)
    requires
        roots_are_near(),
        params.valid(),
        subnet.bounded(),
        fits(b_sigma),
        fits(input),
    ensures
        ({
            let p = Fixed::whole(input as int);
            let found = collateral(
                p,
                reference_reserve(subnet),
                Fixed::whole(b_sigma as int),
                params.base_ltv,
            );
            let reserve = reference_reserve(subnet).bits as int;
            &&& is_reference(subnet, reserve)
            &&& forall|x: int| #[trigger] is_reference(subnet, x) ==> x == reserve
            &&& found matches Some((c, n)) ==> n.bits > 0 && c.bits == input * ONE_BITS + n.bits
                && lent(params, subnet, b_sigma, input, reserve, n.bits as int)
                && room_for_what_is_lent(params, subnet, b_sigma, input)
            &&& found is None ==> refused_right(
                params,
                subnet,
                b_sigma,
                input,
                Error::EffectiveLtvNonPositive,
            )
        }),
{
    law_reference_is_the_smaller_reserve(subnet);
    lemma_whole(input);
    lemma_whole(b_sigma);
    let p = Fixed::whole(input as int);
    let s = Fixed::whole(b_sigma as int);
    let reserve = reference_reserve(subnet);
    let ltv = params.base_ltv;
    if reserve.bits > 0 {
        lemma_discriminant_is_positive(p, reserve, s, ltv);
        let disc = discriminant(p, reserve, s, ltv);
        let root = disc.root()->0;
        assert(near_root(disc.bits, root.bits));
        lemma_within_the_loan(p, reserve, s, ltv, root);
        if lends_exactly(reserve.bits as int, input, b_sigma) {
            lemma_collateral_balances(p, reserve, s, ltv, root);
            if input > 0 {
                lemma_room_decides(p, reserve, s, ltv, root);
            }
        }
    }
}

/// The terms of a short are right, and so is every refusal of them.
pub proof fn law_terms_are_right(params: Params, subnet: Subnet, b_sigma: u64, input: u64)
    requires
        roots_are_near(),
        params.valid(),
        subnet.bounded(),
        fits(b_sigma),
        fits(input),
    ensures
        match terms_of(params, subnet, b_sigma, input) {
            Ok(terms) => priced_right(
                params,
                subnet,
                b_sigma,
                input,
                terms.n as int,
                terms.e as int,
                terms.b as int,
                terms.q as int,
            ),
            Err(e) => refused_right(params, subnet, b_sigma, input, e),
        },
        terms_of(params, subnet, b_sigma, input) != Err::<OpenTerms, Error>(
            Error::EffectiveLtvNonPositive,
        ) ==> room_for_what_is_lent(params, subnet, b_sigma, input),
{
    lemma_lent(params, subnet, b_sigma, input);
    lemma_whole(subnet.tao);
    let found = collateral(
        Fixed::whole(input as int),
        reference_reserve(subnet),
        Fixed::whole(b_sigma as int),
        params.base_ltv,
    );
    if let Some((c, n)) = found {
        let t = Fixed::whole(subnet.tao as int);
        let reserve = reference_reserve(subnet).bits as int;
        assert(lent(params, subnet, b_sigma, input, reserve, n.bits as int));
        let used = Fixed::whole(b_sigma as int).plus(params.base_ltv.times(c));
        if used.bits > params.kappa.times(reference_reserve(subnet)).bits {
            lemma_capacity_exceeded(params, subnet, b_sigma, input, c, n);
        } else {
            vstd::arithmetic::div_mod::lemma_fundamental_div_mod(n.bits as int, ONE_BITS as int);
            if t.bits > 0 {
                lemma_fraction(n, t);
                lemma_a_quarter(n, t);
            }
            if let Some(phi) = pool_fraction(n, t) {
                if n.floor_amount() > 0 {
                    lemma_priced_right(params, subnet, b_sigma, input, c, n, phi);
                }
            }
        }
    }
}

/// Proceeds that are not within a quarter of the pool are more than a quarter of it.
pub proof fn lemma_a_quarter(n: Fixed, t: Fixed)
    requires
        roots_are_near(),
        n.bits > 0,
        t.bits > 0,
    ensures
        pool_fraction(n, t) is None ==> 4 * n.bits > t.bits,
{
    if 4 * n.bits <= t.bits {
        crate::residuals::lemma_quarter(n, t);
        crate::residuals::lemma_quarters(n, t);
    }
}

/// Opening a short gives it amounts that are right for the numbers that it was priced from: by how
/// much its buffer, its escrow, its footprint and its liability have grown.
pub proof fn law_open_is_priced_right(
    s: State,
    origin: Origin,
    hotkey: AccountId,
    netuid: u16,
    input: u64,
    max_q: u64,
)
    requires
        roots_are_near(),
        sound(s),
        s.market_bounded(netuid),
        fits(input),
        s.subnet(netuid).account != s.custody(netuid),
        (origin matches Origin::Signed(c) ==> c != s.custody(netuid) && c
            != s.subnet(netuid).account && s.position_bounded(netuid, c)),
    ensures
        open_outcome(s, origin, hotkey, netuid, input, max_q) matches Ok(after) ==> {
            let c = origin->Signed_0;
            let (was, is) = (held(s, netuid, c), after.position(netuid, c));
            position_fits(is) && all_sums_fit(after.agg(netuid)) ==> priced_right(
                s.params,
                s.subnet(netuid),
                s.agg(netuid).b_sigma,
                input,
                is.r_stored - was.r_stored,
                is.e_stored - was.e_stored,
                is.b_stored - was.b_stored,
                is.q_liability - was.q_liability,
            )
        },
{
    law_open_books_both_sides(s, origin, hotkey, netuid, input, max_q);
    law_terms_are_right(s.params, s.subnet(netuid), s.agg(netuid).b_sigma, input);
    if let Ok(after) = open_outcome(s, origin, hotkey, netuid, input, max_q) {
        let c = origin->Signed_0;
        if s.has_position(netuid, c) {
            lemma_materialized(s.position(netuid, c), s.agg(netuid).omega);
        }
    }
}

} // verus!
