//! When a call is refused, and with what: every refusal has its cause, and the first cause decides.
use crate::accounts::{AccountId, Origin, OwnerKey};
use crate::close::{close_outcome, default_outcome, slice_of};
use crate::fixed::fits;
use crate::laws::closing::{law_fractions_are_pro_rata, lemma_slice, lemma_terms_fit};
use crate::laws::ledger::{law_transfer_conserves, sound};
use crate::laws::moves::held;
use crate::laws::opening::law_open_spares_the_pool;
use crate::laws::pricing::{law_terms_are_right, roots_are_near};
use crate::math::{from_ppb, lemma_materialized, materialized, scaled};
use crate::open::{admission, open_outcome, terms_of, top_up_outcome};
use crate::pallet::{follows, transferred, State};
use crate::pricing::refused_right;
use crate::storage::amount_of;
use crate::types::Error;
use vstd::prelude::*;

verus! {

/// Nothing speaks against opening before it comes to the price: a signed call, shorts that are on, a
/// market that is there, an input that is large enough, and a moving price.
pub open spec fn may_be_priced(s: State, origin: Origin, netuid: u16, input: u64) -> bool {
    &&& origin is Signed
    &&& s.params.shorts_enabled
    &&& s.subnets.contains_key(netuid)
    &&& s.subnets[netuid].mechanism == 1
    &&& input >= s.params.min_input
    &&& s.subnets[netuid].moving_price > 0
}

/// A call that is refused changes nothing, and is refused for the cause that its outcome names; one
/// that is not refused ends in the state that its outcome names.
pub proof fn law_refusals_change_nothing(
    before: State,
    after: State,
    r: Result<(), Error>,
    outcome: Result<State, Error>,
)
    requires
        follows(before, after, r, outcome),
    ensures
        r is Err ==> after == before && outcome is Err && outcome->Err_0 == r->Err_0,
        r is Ok ==> outcome is Ok && outcome->Ok_0 == after,
{
}

/// Opening is refused for the first thing that speaks against it, and succeeds where nothing does:
/// the origin, the switch, the subnet, its mechanism, the input, the moving price, the price of the
/// short, the liability that the trader accepts, the hotkey of a short that is there, the room for
/// another one, and what the trader and the pool hold.
pub proof fn law_open_is_refused_for_a_cause(
    s: State,
    origin: Origin,
    hotkey: AccountId,
    netuid: u16,
    input: u64,
    max_q: u64,
)
    requires
        roots_are_near(),
        sound(s),
        s.market_bounded(netuid),
        fits(input),
        s.subnet(netuid).account != s.custody(netuid),
        (origin matches Origin::Signed(c) ==> c != s.custody(netuid) && c
            != s.subnet(netuid).account),
    ensures
        ({
            let c = origin->Signed_0;
            let had = s.has_position(netuid, c);
            let on = origin is Signed && s.params.shorts_enabled;
            let there = on && s.subnets.contains_key(netuid);
            let market = there && s.subnets[netuid].mechanism == 1;
            let enough = market && input >= s.params.min_input;
            let fitting = if had {
                s.position(netuid, c).hotkey == hotkey
            } else {
                s.count(netuid) < s.params.max_positions
            };
            match open_outcome(s, origin, hotkey, netuid, input, max_q) {
                Ok(_) => {
                    &&& may_be_priced(s, origin, netuid, input)
                    &&& fitting
                    &&& input <= s.balance(c)
                },
                Err(Error::BadOrigin) => origin !is Signed,
                Err(Error::ShortsDisabled) => origin is Signed && !s.params.shorts_enabled,
                Err(Error::SubnetNotExists) => on && !s.subnets.contains_key(netuid),
                Err(Error::SubnetNotDynamic) => there && s.subnets[netuid].mechanism != 1,
                Err(Error::AmountTooLow) => market && input < s.params.min_input,
                Err(Error::ColdEmaNotAllowed) => enough && s.subnets[netuid].moving_price == 0,
                Err(Error::SlippageTooHigh) => {
                    &&& may_be_priced(s, origin, netuid, input)
                    &&& terms_of(s.params, s.subnet(netuid), s.agg(netuid).b_sigma, input) matches Ok(
                        terms,
                    )
                    &&& terms.q > max_q
                },
                Err(Error::ShortHotkeyMismatch) => {
                    &&& may_be_priced(s, origin, netuid, input)
                    &&& had
                    &&& s.position(netuid, c).hotkey != hotkey
                },
                Err(Error::ShortPositionLimit) => {
                    &&& may_be_priced(s, origin, netuid, input)
                    &&& !had
                    &&& s.count(netuid) >= s.params.max_positions
                },
                Err(Error::InsufficientBalance) => {
                    &&& may_be_priced(s, origin, netuid, input)
                    &&& fitting
                    &&& terms_of(s.params, s.subnet(netuid), s.agg(netuid).b_sigma, input) matches Ok(
                        terms,
                    )
                    &&& terms.q <= max_q
                    &&& s.balance(c) < input || s.balance(s.subnet(netuid).account) < terms.n
                        + terms.e
                },
                Err(e) => may_be_priced(s, origin, netuid, input) && refused_right(
                    s.params,
                    s.subnet(netuid),
                    s.agg(netuid).b_sigma,
                    input,
                    e,
                ),
            }
        }),
{
    let subnet = s.subnet(netuid);
    law_terms_are_right(s.params, subnet, s.agg(netuid).b_sigma, input);
    law_open_spares_the_pool(s.params, subnet, s.agg(netuid).b_sigma, input);
    if let Ok((c, terms)) = admission(s, origin, hotkey, netuid, input, max_q) {
        lemma_terms_fit(terms, s, netuid, input);
        law_transfer_conserves(s.balances, c, s.custody(netuid), input);
        if let Ok(posted) = transferred(s.balances, c, s.custody(netuid), input) {
            law_transfer_conserves(
                posted,
                subnet.account,
                s.custody(netuid),
                (terms.n + terms.e) as u64,
            );
            assert(amount_of(posted, subnet.account) == s.balance(subnet.account));
        }
    }
}

/// A top-up is refused for the origin, for nothing, for a short that is not there, or for what the
/// trader does not hold, in this order.
pub proof fn law_top_up_is_refused_for_a_cause(s: State, origin: Origin, netuid: u16, amount: u64)
    requires
        sound(s),
    ensures
        ({
            let c = origin->Signed_0;
            match top_up_outcome(s, origin, netuid, amount) {
                Ok(_) => origin is Signed && amount > 0 && s.has_position(netuid, c) && amount
                    <= s.balance(c),
                Err(Error::BadOrigin) => origin !is Signed,
                Err(Error::AmountTooLow) => origin is Signed && amount == 0,
                Err(Error::ShortPositionNotFound) => origin is Signed && amount > 0
                    && !s.has_position(netuid, c),
                Err(Error::InsufficientBalance) => origin is Signed && amount > 0
                    && s.has_position(netuid, c) && amount > s.balance(c),
                Err(_) => false,
            }
        }),
{
    if let Origin::Signed(c) = origin {
        law_transfer_conserves(s.balances, c, s.custody(netuid), amount);
    }
}

/// Closing is refused for the origin, for a fraction of nothing or of more than the whole, for a
/// short that is not there, for alpha that is not at its hotkey or not outside the pool, for alpha
/// that is locked, for a subnet that is not there, or for what custody does not hold, in this order.
pub proof fn law_close_is_refused_for_a_cause(s: State, origin: Origin, netuid: u16, ppb: u64)
    requires
        sound(s),
        s.subnet(netuid).account != s.custody(netuid),
        (origin matches Origin::Signed(c) ==> c != s.custody(netuid) && s.position_wholly_bounded(
            netuid,
            c,
        )),
    ensures
        ({
            let c = origin->Signed_0;
            let owner = OwnerKey { netuid, coldkey: c };
            let was = held(s, netuid, c);
            let valid = origin is Signed && 0 < ppb <= 1_000_000_000;
            let (staked, outside) = (
                s.stake(netuid, was.hotkey, c),
                s.subnet(netuid).alpha_out,
            );
            let free = amount_of(s.coldkey_stakes, owner) - amount_of(s.locks, owner);
            // What is owed is at least one less than the billionths of the liability, and no more.
            let owed = was.q_liability * ppb;
            match close_outcome(s, origin, netuid, ppb) {
                Ok(_) => {
                    &&& valid && s.has_position(netuid, c)
                    &&& s.subnets.contains_key(netuid)
                    &&& owed < (staked + 2) * 1_000_000_000
                    &&& owed < (outside + 2) * 1_000_000_000
                    &&& free >= 0 ==> owed < (free + 2) * 1_000_000_000
                },
                Err(Error::BadOrigin) => origin !is Signed,
                Err(Error::InvalidCloseFraction) => origin is Signed && (ppb == 0 || ppb
                    > 1_000_000_000),
                Err(Error::ShortPositionNotFound) => valid && !s.has_position(netuid, c),
                Err(Error::InsufficientAlphaToClose) => valid && s.has_position(netuid, c) && (staked
                    * 1_000_000_000 < owed || outside * 1_000_000_000 < owed),
                Err(Error::StakeUnavailable) => valid && s.has_position(netuid, c) && free
                    * 1_000_000_000 < owed,
                Err(Error::SubnetNotExists) => valid && s.has_position(netuid, c)
                    && !s.subnets.contains_key(netuid),
                Err(Error::InsufficientBalance) => valid && s.has_position(netuid, c) && s.balance(
                    s.custody(netuid),
                ) < was.p_floor + was.r_stored + was.e_stored,
                Err(_) => false,
            }
        }),
{
    if let Origin::Signed(c) = origin {
        if s.has_position(netuid, c) && 0 < ppb <= 1_000_000_000 {
            let pos = materialized(s.position(netuid, c), s.agg(netuid).omega);
            lemma_materialized(s.position(netuid, c), s.agg(netuid).omega);
            lemma_slice(pos, ppb);
            let slice = slice_of(pos, from_ppb(ppb));
            law_fractions_are_pro_rata(pos.q_liability, ppb);
            let n = pos.q_liability * ppb;
            vstd::arithmetic::div_mod::lemma_fundamental_div_mod(n, 1_000_000_000);
            assert(slice.q == scaled(pos.q_liability, from_ppb(ppb)));
            let custody = s.custody(netuid);
            let pool = s.subnet(netuid).account;
            law_transfer_conserves(s.balances, custody, pool, slice.e);
            let returned = (slice.p + slice.r) as u64;
            let mid = if slice.e == 0 {
                s.balances
            } else if let Ok(mid) = transferred(s.balances, custody, pool, slice.e) {
                mid
            } else {
                s.balances
            };
            law_transfer_conserves(mid, custody, c, returned);
        }
    }
}

/// A default is refused for the origin, for a short that is not there, for a buffer that is not dust
/// or a grace window that is not over, for a subnet that is not there, or for what custody does not
/// hold, in this order.
pub proof fn law_default_is_refused_for_a_cause(
    s: State,
    origin: Origin,
    coldkey: AccountId,
    netuid: u16,
)
    requires
        sound(s),
        s.position_bounded(netuid, coldkey),
        s.subnet(netuid).account != s.custody(netuid),
    ensures
        ({
            let was = held(s, netuid, coldkey);
            let found = origin is Signed && s.has_position(netuid, coldkey);
            let grace_ends = was.last_active + s.params.short_default_grace;
            let over = s.block >= grace_ends || (grace_ends > u64::MAX && s.block == u64::MAX);
            match default_outcome(s, origin, coldkey, netuid) {
                Ok(_) => {
                    &&& found && was.r_stored <= s.params.dust && over
                    &&& s.subnets.contains_key(netuid)
                    &&& s.balance(s.custody(netuid)) >= was.r_stored + was.e_stored
                },
                Err(Error::BadOrigin) => origin !is Signed,
                Err(Error::ShortPositionNotFound) => origin is Signed && !s.has_position(
                    netuid,
                    coldkey,
                ),
                Err(Error::PositionNotDefaultEligible) => found && (was.r_stored > s.params.dust
                    || !over),
                Err(Error::SubnetNotExists) => found && was.r_stored <= s.params.dust && over
                    && !s.subnets.contains_key(netuid),
                Err(Error::InsufficientBalance) => found && was.r_stored <= s.params.dust && over
                    && s.balance(s.custody(netuid)) < was.r_stored + was.e_stored,
                Err(_) => false,
            }
        }),
{
    if s.has_position(netuid, coldkey) {
        let pos = materialized(s.position(netuid, coldkey), s.agg(netuid).omega);
        lemma_materialized(s.position(netuid, coldkey), s.agg(netuid).omega);
        law_transfer_conserves(
            s.balances,
            s.custody(netuid),
            s.subnet(netuid).account,
            (pos.r_stored + pos.e_stored) as u64,
        );
    }
}

} // verus!
