//! Closing and defaulting.
use crate::accounts::{AccountId, Origin, OwnerKey};
use crate::close::{close_outcome, default_outcome, slice_of, whole_slice};
use crate::fixed::{Fixed, ONE_BITS};
use crate::laws::ledger::{
    law_open_conserves_tao, law_transfer_conserves, lemma_close_moves, lemma_default_moves, sound,
};
use crate::laws::opening::{law_open_pays_out_nothing, law_open_spares_the_pool};
use crate::math::{
    from_ppb, lemma_from_ppb, lemma_materialized, lemma_scaled, materialized, scaled, PPB,
};
use crate::open::{
    admission, open_outcome, opened_position, terms_of, top_up_outcome, topped_up_position, OpenTerms,
};
use crate::pallet::{sat_add, transferred, State};
use crate::storage::amount_of;
use crate::types::{Error, ShortPosition, Subnet};
use crate::views::close_quote;
use vstd::prelude::*;

verus! {

/// A slice is never more than the position, and the whole of it for the whole fraction. A part of
/// a fraction leaves something of the floor.
pub proof fn lemma_slice(pos: ShortPosition, fraction_ppb: u64)
    requires
        pos.wholly_bounded(),
        fraction_ppb <= PPB,
    ensures
        ({
            let slice = slice_of(pos, from_ppb(fraction_ppb));
            &&& slice.q <= pos.q_liability
            &&& slice.r <= pos.r_stored
            &&& slice.e <= pos.e_stored
            &&& slice.p <= pos.p_floor
            &&& slice.b <= pos.b_stored
            &&& fraction_ppb == PPB ==> slice == whole_slice(pos)
            &&& fraction_ppb < PPB && pos.p_floor > 0 ==> slice.p < pos.p_floor
        }),
{
    let rho = from_ppb(fraction_ppb);
    lemma_from_ppb(fraction_ppb);
    lemma_scaled(pos.q_liability, rho);
    lemma_scaled(pos.r_stored, rho);
    lemma_scaled(pos.e_stored, rho);
    lemma_scaled(pos.p_floor, rho);
    lemma_scaled(pos.b_stored, rho);
}

/// A fraction of an amount is the amount times the billionths, rounded down, and at most one less.
pub proof fn law_fractions_are_pro_rata(n: u64, fraction_ppb: u64)
    requires
        crate::fixed::fits(n),
        fraction_ppb <= PPB,
    ensures
        scaled(n, from_ppb(fraction_ppb)) <= (n * fraction_ppb) / (PPB as int) <= scaled(
            n,
            from_ppb(fraction_ppb),
        ) + 1,
{
    let one = ONE_BITS as int;
    let d = PPB as int;
    let f = fraction_ppb as int;
    let rho = from_ppb(fraction_ppb);
    lemma_from_ppb(fraction_ppb);
    lemma_scaled(n, rho);
    let x = rho.bits as int;
    let y = (n * x) / one;
    let z = (n * f) / d;
    vstd::arithmetic::div_mod::lemma_fundamental_div_mod(f * one, d);
    vstd::arithmetic::div_mod::lemma_fundamental_div_mod(n * x, one);
    vstd::arithmetic::div_mod::lemma_fundamental_div_mod(n * f, d);
    let a = n as int;
    // x = floor(f * one / d), y = floor(a * x / one), z = floor(a * f / d).
    assert(d * x <= f * one < d * x + d);
    assert(one * y <= a * x < one * y + one);
    assert(d * z <= a * f < d * z + d);
    assert(y <= z) by (nonlinear_arith)
        requires
            d * x <= f * one,
            one * y <= a * x,
            a * f < d * z + d,
            a >= 0,
            one > 0,
            d > 0,
    {
        // d * (one * y) <= d * a * x <= a * f * one < (d * z + d) * one
        assert(d * (one * y) <= d * (a * x));
        assert(a * (d * x) <= a * (f * one));
        assert((a * f) * one < (d * z + d) * one);
        assert((d * one) * y < (d * one) * (z + 1));
    }
    assert(z <= y + 1) by (nonlinear_arith)
        requires
            f * one < d * x + d,
            a * x < one * y + one,
            d * z <= a * f,
            0 <= a < one,
            one > 0,
            d > 0,
    {
        // d * z * one <= a * f * one <= a * (d * x + d) = d * (a * x + a) < d * (one * y + 2 * one)
        assert((d * z) * one <= (a * f) * one);
        assert(a * (f * one) <= a * (d * x + d));
        assert(d * (a * x + a) < d * (one * y + one + one));
        assert((d * one) * z < (d * one) * (y + 2));
    }
}

/// Closing the whole of a position repays all it owes, returns the floor and what is left of the
/// buffer, gives what is left of the escrow to the pool, and leaves no position.
pub proof fn law_full_close_returns_everything(s: State, origin: Origin, netuid: u16)
    requires
        sound(s),
        s.subnet(netuid).account != s.custody(netuid),
        (origin matches Origin::Signed(coldkey) ==> s.position_wholly_bounded(netuid, coldkey) && coldkey
            != s.custody(netuid) && coldkey != s.subnet(netuid).account),
    ensures
        close_outcome(s, origin, netuid, PPB) matches Ok(after) ==> {
            let coldkey = origin->Signed_0;
            let pos = materialized(s.position(netuid, coldkey), s.agg(netuid).omega);
            let pool = s.subnet(netuid).account;
            let custody = s.custody(netuid);
            &&& !after.has_position(netuid, coldkey)
            &&& after.balance(coldkey) == s.balance(coldkey) + pos.p_floor + pos.r_stored
            &&& after.balance(pool) == s.balance(pool) + pos.e_stored
            &&& after.balance(custody) == s.balance(custody) - pos.p_floor - pos.r_stored
                - pos.e_stored
            &&& after.stake(netuid, pos.hotkey, coldkey) == s.stake(netuid, pos.hotkey, coldkey)
                - pos.q_liability
            &&& after.subnet(netuid).alpha_out == s.subnet(netuid).alpha_out - pos.q_liability
        },
{
    if let Ok(after) = close_outcome(s, origin, netuid, PPB) {
        let coldkey = origin->Signed_0;
        let stored = s.position(netuid, coldkey);
        let pos = materialized(stored, s.agg(netuid).omega);
        lemma_materialized(stored, s.agg(netuid).omega);
        lemma_slice(pos, PPB);
        lemma_close_moves(s, origin, netuid, PPB);
    }
}

/// Between opening and closing nothing has changed but what the trader has staked, at least what
/// the short owes of it at the hotkey of the short and free, and the alpha outside the pool.
pub open spec fn only_staked(
    opened: State,
    between: State,
    netuid: u16,
    hotkey: AccountId,
    coldkey: AccountId,
    q: u64,
) -> bool {
    &&& between == (State {
        stakes: between.stakes,
        coldkey_stakes: between.coldkey_stakes,
        locks: between.locks,
        subnets: opened.subnets.insert(
            netuid,
            Subnet { alpha_out: between.subnet(netuid).alpha_out, ..opened.subnet(netuid) },
        ),
        ..opened
    })
    &&& between.stake(netuid, hotkey, coldkey) >= q
    &&& between.unlocked(netuid, coldkey) >= q
    &&& between.subnet(netuid).alpha_out >= q
}

/// Whoever opens, finds the alpha and closes in full before anything decays, succeeds, and ends
/// with the proceeds more than before and the alpha less. Custody is as it was, the position is
/// gone, and the pool has lost the proceeds and gained the alpha.
pub proof fn law_round_trip(
    s: State,
    origin: Origin,
    hotkey: AccountId,
    netuid: u16,
    input: u64,
    max_q: u64,
    between: State,
)
    requires
        sound(s),
        s.subnet(netuid).bounded(),
        crate::fixed::fits(input),
        s.subnet(netuid).account != s.custody(netuid),
        (origin matches Origin::Signed(coldkey) ==> !s.has_position(netuid, coldkey) && coldkey
            != s.custody(netuid) && coldkey != s.subnet(netuid).account),
        open_outcome(s, origin, hotkey, netuid, input, max_q) matches Ok(opened) ==> only_staked(
            opened,
            between,
            netuid,
            hotkey,
            origin->Signed_0,
            admission(s, origin, hotkey, netuid, input, max_q)->Ok_0.1.q,
        ),
    ensures
        open_outcome(s, origin, hotkey, netuid, input, max_q) is Ok ==> {
            let coldkey = origin->Signed_0;
            let terms = admission(s, origin, hotkey, netuid, input, max_q)->Ok_0.1;
            let pool = s.subnet(netuid).account;
            let was = s.subnet(netuid);
            &&& close_outcome(between, origin, netuid, PPB) matches Ok(after)
            &&& after.balance(coldkey) == s.balance(coldkey) + terms.n
            &&& after.balance(pool) == s.balance(pool) - terms.n
            &&& after.balance(s.custody(netuid)) == s.balance(s.custody(netuid))
            &&& after.subnet(netuid).tao == was.tao - terms.n
            &&& was.tao <= s.total_stake ==> after.total_stake == s.total_stake - terms.n
            &&& after.subnet(netuid).alpha_in == was.alpha_in + terms.q
            &&& after.subnet(netuid).alpha_out == between.subnet(netuid).alpha_out - terms.q
            &&& after.stake(netuid, hotkey, coldkey) == between.stake(netuid, hotkey, coldkey)
                - terms.q
            &&& !after.has_position(netuid, coldkey)
        },
{
    if let Ok(opened) = open_outcome(s, origin, hotkey, netuid, input, max_q) {
        let coldkey = origin->Signed_0;
        let terms = admission(s, origin, hotkey, netuid, input, max_q)->Ok_0.1;
        let custody = s.custody(netuid);
        let pool = s.subnet(netuid).account;
        law_open_pays_out_nothing(s, origin, hotkey, netuid, input, max_q);
        law_open_conserves_tao(s, origin, hotkey, netuid, input, max_q);
        law_open_spares_the_pool(s.params, s.subnet(netuid), s.agg(netuid).b_sigma, input);
        let stored = opened_position(s, coldkey, hotkey, netuid, input, terms);
        assert(between.position(netuid, coldkey) == stored);
        assert(between.agg(netuid).omega == stored.omega_entry);
        lemma_terms_fit(terms, s, netuid, input);
        lemma_materialized(stored, between.agg(netuid).omega);
        let pos = materialized(stored, between.agg(netuid).omega);
        assert(pos == stored);
        lemma_slice(pos, PPB);
        // Both transfers out of custody succeed.
        assert(sound(between));
        law_transfer_conserves(between.balances, custody, pool, terms.e);
        let mid = if terms.e == 0 {
            between.balances
        } else {
            transferred(between.balances, custody, pool, terms.e)->Ok_0
        };
        assert(amount_of(mid, custody) == between.balance(custody) - terms.e);
        law_transfer_conserves(mid, custody, coldkey, sat_add(input, terms.n));
        assert(close_outcome(between, origin, netuid, PPB) is Ok);
        law_full_close_returns_everything(between, origin, netuid);
        assert(between.balance(coldkey) == opened.balance(coldkey));
        assert(between.balance(pool) == opened.balance(pool));
        assert(between.balance(custody) == opened.balance(custody));
    }
}

/// The amounts of a new short fit the arithmetic.
pub proof fn lemma_terms_fit(terms: OpenTerms, s: State, netuid: u16, input: u64)
    requires
        terms_of(s.params, s.subnet(netuid), s.agg(netuid).b_sigma, input) == Ok::<OpenTerms, Error>(
            terms,
        ),
    ensures
        crate::fixed::fits(terms.n),
        crate::fixed::fits(terms.e),
        crate::fixed::fits(terms.b),
        crate::fixed::fits(terms.q),
{
    assert forall|x: Fixed| crate::fixed::fits(#[trigger] x.floor_amount()) by {
        if x.bits > 0 {
            let one = ONE_BITS as int;
            vstd::arithmetic::div_mod::lemma_fundamental_div_mod(x.bits as int, one);
        }
    }
}

/// Closing moves the amounts that were quoted.
pub proof fn law_close_matches_its_quote(
    s: State,
    origin: Origin,
    netuid: u16,
    fraction_ppb: u64,
)
    ensures
        close_outcome(s, origin, netuid, fraction_ppb) matches Ok(after) ==> {
            &&& close_quote(s, netuid, origin->Signed_0, fraction_ppb) matches Some(quote)
            &&& after.events == s.events.push(
                crate::types::Event::ShortClosed {
                    coldkey: origin->Signed_0,
                    netuid,
                    fraction_ppb,
                    repaid_alpha: quote.repay_alpha,
                    returned: quote.returned_tao,
                },
            )
            &&& quote.alpha_needed == 0
        },
{
}

/// Closing raises the pool's reserve by the escrow that it settles, and the total stake with it.
pub proof fn law_close_moves_pool_and_stake_together(
    s: State,
    origin: Origin,
    netuid: u16,
    fraction_ppb: u64,
)
    ensures
        close_outcome(s, origin, netuid, fraction_ppb) matches Ok(after) ==> {
            let escrow = close_quote(s, netuid, origin->Signed_0, fraction_ppb)->0.escrow_settled;
            s.subnet(netuid).tao + escrow <= u64::MAX && s.total_stake + escrow <= u64::MAX ==> {
                &&& after.subnet(netuid).tao == s.subnet(netuid).tao + escrow
                &&& after.total_stake == s.total_stake + escrow
            }
        },
{
}

/// Closing moves alpha from outside the pool into it, and neither makes nor destroys any.
pub proof fn law_close_conserves_alpha(s: State, origin: Origin, netuid: u16, fraction_ppb: u64)
    requires
        s.subnet(netuid).alpha_in + s.subnet(netuid).alpha_out <= u64::MAX,
    ensures
        close_outcome(s, origin, netuid, fraction_ppb) matches Ok(after) ==> after.subnet(
            netuid,
        ).alpha_in + after.subnet(netuid).alpha_out == s.subnet(netuid).alpha_in + s.subnet(
            netuid,
        ).alpha_out,
{
}

/// Closing does not free locked alpha: what may not be unstaked stays staked.
pub proof fn law_close_respects_locks(s: State, origin: Origin, netuid: u16, fraction_ppb: u64)
    ensures
        close_outcome(s, origin, netuid, fraction_ppb) matches Ok(after) ==> {
            let key = OwnerKey { netuid, coldkey: origin->Signed_0 };
            &&& after.locks == s.locks
            &&& amount_of(s.locks, key) <= amount_of(s.coldkey_stakes, key) ==> amount_of(
                s.locks,
                key,
            ) <= amount_of(after.coldkey_stakes, key)
        },
{
}

/// A position can be defaulted if, and only if, its buffer is dust and the grace window is over.
/// Prices and reserves have no say in it.
pub proof fn law_default_is_by_time_alone(
    s: State,
    origin: Origin,
    coldkey: AccountId,
    netuid: u16,
    other: State,
)
    requires
        s.has_position(netuid, coldkey),
        origin is Signed,
        other == (State { subnets: other.subnets, ..s }),
    ensures
        ({
            let pos = materialized(s.position(netuid, coldkey), s.agg(netuid).omega);
            let eligible = pos.r_stored <= s.params.dust && s.block >= sat_add(
                pos.last_active,
                s.params.short_default_grace,
            );
            &&& default_outcome(s, origin, coldkey, netuid) is Ok ==> eligible
            &&& !eligible <==> default_outcome(s, origin, coldkey, netuid) == Err::<State, Error>(
                Error::PositionNotDefaultEligible,
            )
            &&& !eligible <==> default_outcome(other, origin, coldkey, netuid) == Err::<
                State,
                Error,
            >(Error::PositionNotDefaultEligible)
        }),
{
}

/// A top-up, and opening more, restarts the grace window: until it is over nobody can default the
/// position, whatever else has changed.
pub proof fn law_owner_action_restarts_grace(
    s: State,
    owner: Origin,
    hotkey: AccountId,
    netuid: u16,
    amount: u64,
    max_q: u64,
    later: State,
    poker: Origin,
)
    requires
        owner is Signed,
        poker is Signed,
        (s.position_bounded(netuid, owner->Signed_0)),
        later.has_position(netuid, owner->Signed_0),
        later.block < sat_add(s.block, later.params.short_default_grace),
        ({
            let coldkey = owner->Signed_0;
            ||| (top_up_outcome(s, owner, netuid, amount) is Ok && later.position(netuid, coldkey)
                == topped_up_position(s, coldkey, netuid, amount))
            ||| (open_outcome(s, owner, hotkey, netuid, amount, max_q) matches Ok(opened)
                && later.position(netuid, coldkey) == opened.position(netuid, coldkey))
        }),
    ensures
        default_outcome(later, poker, owner->Signed_0, netuid) == Err::<State, Error>(
            Error::PositionNotDefaultEligible,
        ),
{
}

/// A default costs the trader the position and no more: neither TAO nor stake beyond it, and what
/// was owed is gone.
pub proof fn law_default_has_limited_recourse(
    s: State,
    origin: Origin,
    coldkey: AccountId,
    netuid: u16,
)
    requires
        sound(s),
        coldkey != s.custody(netuid),
        coldkey != s.subnet(netuid).account,
    ensures
        default_outcome(s, origin, coldkey, netuid) matches Ok(after) ==> {
            &&& after.balance(coldkey) == s.balance(coldkey)
            &&& after.stakes == s.stakes
            &&& after.coldkey_stakes == s.coldkey_stakes
            &&& !after.has_position(netuid, coldkey)
            &&& after.subnet(netuid).alpha_in == s.subnet(netuid).alpha_in
            &&& after.subnet(netuid).alpha_out == s.subnet(netuid).alpha_out
        },
{
    lemma_default_moves(s, origin, coldkey, netuid);
    if let Ok(after) = default_outcome(s, origin, coldkey, netuid) {
        assert(after.balance(coldkey) == s.balance(coldkey));
    }
}

/// A default gives what is left of the buffer and of the escrow to the pool, and the total stake
/// grows with the pool.
pub proof fn law_default_restores_the_pool(
    s: State,
    origin: Origin,
    coldkey: AccountId,
    netuid: u16,
)
    requires
        sound(s),
        s.subnet(netuid).account != s.custody(netuid),
        s.position_bounded(netuid, coldkey),
    ensures
        default_outcome(s, origin, coldkey, netuid) matches Ok(after) ==> {
            let pos = materialized(s.position(netuid, coldkey), s.agg(netuid).omega);
            let residual = pos.r_stored + pos.e_stored;
            let pool = s.subnet(netuid).account;
            &&& after.balance(pool) == s.balance(pool) + residual
            &&& s.subnet(netuid).tao + residual <= u64::MAX && s.total_stake + residual <= u64::MAX
                ==> after.subnet(netuid).tao == s.subnet(netuid).tao + residual && after.total_stake
                == s.total_stake + residual
        },
{
    lemma_default_moves(s, origin, coldkey, netuid);
    if s.has_position(netuid, coldkey) {
        lemma_materialized(s.position(netuid, coldkey), s.agg(netuid).omega);
    }
}

} // verus!
