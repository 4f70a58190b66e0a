//! TAO is only moved, and leaves the issuance exactly where it is recycled.
use crate::accounts::{AccountId, Origin};
use crate::close::{close_outcome, default_outcome, slice_of};
use crate::decay::{decay_tick, decay_ticks};
use crate::math::{from_ppb, materialized};
use crate::open::{admission, open_outcome, top_up_outcome};
use crate::pallet::{pool_credited, recycled, sat_add, transferred, Pallet, State};
use crate::settle::{
    equity_paid, escrow_returned, settle_each, settle_one, settled, terminal_terms, TerminalTerms,
};
use crate::storage::{amount_of, lemma_sum_bound, lemma_sum_with, sum_of, with_amount};
use vstd::prelude::*;

verus! {

/// There are finitely many accounts and positions, and no TAO outside the issuance.
pub open spec fn sound(s: State) -> bool {
    &&& s.balances.dom().finite()
    &&& s.positions.dom().finite()
    &&& supply(s) <= s.total_issuance
}

/// Of what a [`Pallet`] holds there is always finitely much.
pub proof fn law_holdings_are_finite(p: &Pallet)
    ensures
        p@.balances.dom().finite(),
        p@.positions.dom().finite(),
{
    p.balances.lemma_view_finite();
    p.positions.lemma_view_finite();
}

/// All TAO in accounts.
pub open spec fn supply(s: State) -> int {
    sum_of(s.balances)
}

/// A transfer keeps the sum of the balances, takes the amount from the sender, gives it to the
/// receiver and touches nobody else. It fails only for want of funds or, which the sum rules out
/// while it fits, of room.
pub proof fn law_transfer_conserves(
    balances: Map<AccountId, u64>,
    from: AccountId,
    to: AccountId,
    amount: u64,
)
    requires
        balances.dom().finite(),
    ensures
        transferred(balances, from, to, amount) matches Ok(after) ==> {
            &&& after.dom().finite()
            &&& sum_of(after) == sum_of(balances)
            &&& amount <= amount_of(balances, from)
            &&& from != to ==> amount_of(after, from) == amount_of(balances, from) - amount
                && amount_of(after, to) == amount_of(balances, to) + amount
            &&& from == to ==> amount_of(after, from) == amount_of(balances, from)
            &&& forall|k: AccountId|
                k != from && k != to ==> #[trigger] amount_of(after, k) == amount_of(balances, k)
        },
        sum_of(balances) <= u64::MAX ==> (transferred(balances, from, to, amount) is Ok <==> amount
            <= amount_of(balances, from)),
{
    if amount <= amount_of(balances, from) {
        let left = (amount_of(balances, from) - amount) as u64;
        let taken = with_amount(balances, from, left);
        lemma_sum_with(balances, from, left);
        lemma_sum_bound(taken, to);
        if amount_of(taken, to) + amount <= u64::MAX {
            let got = (amount_of(taken, to) + amount) as u64;
            lemma_sum_with(taken, to, got);
            let after = with_amount(taken, to, got);
            assert forall|k: AccountId| k != from && k != to implies #[trigger] amount_of(after, k)
                == amount_of(balances, k) by {
                assert(amount_of(taken, k) == amount_of(balances, k));
            }
            if from != to {
                assert(amount_of(taken, to) == amount_of(balances, to));
                assert(amount_of(after, from) == amount_of(taken, from));
            }
        }
    }
}

/// Recycling takes what it can out of custody and out of the issuance, the same amount of both.
pub proof fn law_recycling_is_exact(s: State, netuid: u16, amount: u64)
    requires
        sound(s),
    ensures
        ({
            let after = recycled(s, netuid, amount);
            let custody = s.custody(netuid);
            let taken = if s.balance(custody) < amount {
                s.balance(custody)
            } else {
                amount
            };
            &&& sound(after)
            &&& supply(after) == supply(s) - taken
            &&& after.total_issuance == s.total_issuance - taken
            &&& after.balance(custody) == s.balance(custody) - taken
            &&& forall|k: AccountId| k != custody ==> #[trigger] after.balance(k) == s.balance(k)
        }),
{
    let custody = s.custody(netuid);
    let held = s.balance(custody);
    let taken = if held < amount {
        held
    } else {
        amount
    };
    lemma_sum_bound(s.balances, custody);
    lemma_sum_with(s.balances, custody, (held - taken) as u64);
    let after = recycled(s, netuid, amount);
    if amount != 0 {
        assert forall|k: AccountId| k != custody implies #[trigger] after.balance(k) == s.balance(
            k,
        ) by {
            assert(amount_of(with_amount(s.balances, custody, (held - taken) as u64), k)
                == amount_of(s.balances, k));
        }
    }
}

/// What opening does to the accounts: the floor goes from the trader to custody and the pool's part
/// from the pool, and nobody else is touched.
pub proof fn lemma_open_moves(
    s: State,
    origin: Origin,
    hotkey: AccountId,
    netuid: u16,
    input: u64,
    max_q: u64,
)
    requires
        sound(s),
    ensures
        open_outcome(s, origin, hotkey, netuid, input, max_q) matches Ok(after) ==> {
            let coldkey = origin->Signed_0;
            let terms = admission(s, origin, hotkey, netuid, input, max_q)->Ok_0.1;
            let custody = s.custody(netuid);
            let pool = s.subnet(netuid).account;
            let removed = sat_add(terms.n, terms.e);
            &&& sound(after)
            &&& after.pallet_id == s.pallet_id
            &&& supply(after) == supply(s)
            &&& after.total_issuance == s.total_issuance
            &&& forall|k: AccountId|
                k != custody && k != pool && k != coldkey ==> #[trigger] after.balance(k)
                    == s.balance(k)
            &&& custody != pool && custody != coldkey ==> after.balance(custody) == s.balance(custody)
                + input + removed
            &&& custody != pool && custody != coldkey && pool != coldkey ==> after.balance(coldkey)
                == s.balance(coldkey) - input && after.balance(pool) == s.balance(pool) - removed
        },
{
    if let Ok(after) = open_outcome(s, origin, hotkey, netuid, input, max_q) {
        let coldkey = origin->Signed_0;
        let terms = admission(s, origin, hotkey, netuid, input, max_q)->Ok_0.1;
        let custody = s.custody(netuid);
        let pool = s.subnet(netuid).account;
        let removed = sat_add(terms.n, terms.e);
        let posted = transferred(s.balances, coldkey, custody, input)->Ok_0;
        law_transfer_conserves(s.balances, coldkey, custody, input);
        law_transfer_conserves(posted, pool, custody, removed);
        assert(after.balances == transferred(posted, pool, custody, removed)->Ok_0);
        assert forall|k: AccountId| k != custody && k != pool && k != coldkey implies
            #[trigger] after.balance(k) == s.balance(k) by {
            assert(amount_of(posted, k) == amount_of(s.balances, k));
            assert(amount_of(after.balances, k) == amount_of(posted, k));
        }
        if custody != pool && custody != coldkey && pool != coldkey {
            assert(amount_of(posted, pool) == s.balance(pool));
            assert(amount_of(after.balances, coldkey) == amount_of(posted, coldkey));
        }
    }
}

/// Opening a short moves TAO and neither makes nor destroys any.
pub proof fn law_open_conserves_tao(
    s: State,
    origin: Origin,
    hotkey: AccountId,
    netuid: u16,
    input: u64,
    max_q: u64,
)
    requires
        sound(s),
    ensures
        open_outcome(s, origin, hotkey, netuid, input, max_q) matches Ok(after) ==> sound(after)
            && supply(after) == supply(s) && after.total_issuance == s.total_issuance,
{
    lemma_open_moves(s, origin, hotkey, netuid, input, max_q);
}

/// A top-up moves TAO and neither makes nor destroys any.
pub proof fn law_top_up_conserves_tao(s: State, origin: Origin, netuid: u16, amount: u64)
    requires
        sound(s),
    ensures
        top_up_outcome(s, origin, netuid, amount) matches Ok(after) ==> sound(after) && supply(after)
            == supply(s) && after.total_issuance == s.total_issuance,
{
    if top_up_outcome(s, origin, netuid, amount) is Ok {
        law_transfer_conserves(s.balances, origin->Signed_0, s.custody(netuid), amount);
    }
}

/// What closing does to the accounts: the escrow goes from custody to the pool and the claim to the
/// trader, and nobody else is touched.
pub proof fn lemma_close_moves(s: State, origin: Origin, netuid: u16, fraction_ppb: u64)
    requires
        sound(s),
    ensures
        close_outcome(s, origin, netuid, fraction_ppb) matches Ok(after) ==> {
            let coldkey = origin->Signed_0;
            let pos = materialized(s.position(netuid, coldkey), s.agg(netuid).omega);
            let slice = slice_of(pos, from_ppb(fraction_ppb));
            let returned = sat_add(slice.p, slice.r);
            let custody = s.custody(netuid);
            let pool = s.subnet(netuid).account;
            &&& sound(after)
            &&& after.pallet_id == s.pallet_id
            &&& supply(after) == supply(s)
            &&& after.total_issuance == s.total_issuance
            &&& forall|k: AccountId|
                k != custody && k != pool && k != coldkey ==> #[trigger] after.balance(k)
                    == s.balance(k)
            &&& custody != pool && custody != coldkey ==> after.balance(custody) == s.balance(custody)
                - slice.e - returned
            &&& custody != pool && custody != coldkey && pool != coldkey ==> after.balance(coldkey)
                == s.balance(coldkey) + returned && after.balance(pool) == s.balance(pool) + slice.e
        },
{
    if let Ok(after) = close_outcome(s, origin, netuid, fraction_ppb) {
        let coldkey = origin->Signed_0;
        let pos = materialized(s.position(netuid, coldkey), s.agg(netuid).omega);
        let slice = slice_of(pos, from_ppb(fraction_ppb));
        let returned = sat_add(slice.p, slice.r);
        let custody = s.custody(netuid);
        let pool = s.subnet(netuid).account;
        let mid = if slice.e == 0 {
            s.balances
        } else {
            transferred(s.balances, custody, pool, slice.e)->Ok_0
        };
        law_transfer_conserves(s.balances, custody, pool, slice.e);
        law_transfer_conserves(mid, custody, coldkey, returned);
        assert(after.balances == if returned == 0 {
            mid
        } else {
            transferred(mid, custody, coldkey, returned)->Ok_0
        });
        assert(after.positions.dom().finite());
        assert forall|k: AccountId| k != custody && k != pool && k != coldkey implies
            #[trigger] after.balance(k) == s.balance(k) by {
            assert(amount_of(mid, k) == amount_of(s.balances, k));
            assert(amount_of(after.balances, k) == amount_of(mid, k));
        }
        if custody != pool && custody != coldkey && pool != coldkey {
            assert(amount_of(mid, coldkey) == s.balance(coldkey));
            assert(amount_of(after.balances, pool) == amount_of(mid, pool));
        }
    }
}

/// Closing moves TAO and neither makes nor destroys any.
pub proof fn law_close_conserves_tao(s: State, origin: Origin, netuid: u16, fraction_ppb: u64)
    requires
        sound(s),
    ensures
        close_outcome(s, origin, netuid, fraction_ppb) matches Ok(after) ==> sound(after) && supply(
            after,
        ) == supply(s) && after.total_issuance == s.total_issuance,
{
    lemma_close_moves(s, origin, netuid, fraction_ppb);
}

/// The decay of a block moves TAO and neither makes nor destroys any.
pub proof fn law_decay_conserves_tao(s: State, netuid: u16)
    requires
        sound(s),
    ensures
        sound(decay_tick(s, netuid)),
        supply(decay_tick(s, netuid)) == supply(s),
        decay_tick(s, netuid).total_issuance == s.total_issuance,
{
    let agg = s.agg(netuid);
    let delta = crate::decay::next_decay(s, netuid);
    law_transfer_conserves(
        s.balances,
        s.custody(netuid),
        s.subnet(netuid).account,
        crate::decay::restored_amount(agg, delta),
    );
}

/// The decay of a block conserves TAO in whatever order the subnets come.
pub proof fn law_decay_run_conserves_tao(s: State, order: Seq<u16>)
    requires
        sound(s),
    ensures
        sound(decay_ticks(s, order)),
        supply(decay_ticks(s, order)) == supply(s),
        decay_ticks(s, order).total_issuance == s.total_issuance,
    decreases order.len(),
{
    if order.len() > 0 {
        law_decay_run_conserves_tao(s, order.drop_last());
        law_decay_conserves_tao(decay_ticks(s, order.drop_last()), order.last());
    }
}

/// What a default does to the accounts: the buffer and the escrow go from custody to the pool, up
/// to the floor leaves custody and the issuance, and nobody else is touched.
pub proof fn lemma_default_moves(s: State, origin: Origin, coldkey: AccountId, netuid: u16)
    requires
        sound(s),
    ensures
        default_outcome(s, origin, coldkey, netuid) matches Ok(after) ==> {
            let pos = materialized(s.position(netuid, coldkey), s.agg(netuid).omega);
            let residual = sat_add(pos.r_stored, pos.e_stored);
            let custody = s.custody(netuid);
            let pool = s.subnet(netuid).account;
            let taken = s.total_issuance - after.total_issuance;
            &&& sound(after)
            &&& after.pallet_id == s.pallet_id
            &&& taken == supply(s) - supply(after)
            &&& 0 <= taken <= pos.p_floor
            &&& forall|k: AccountId|
                k != custody && k != pool ==> #[trigger] after.balance(k) == s.balance(k)
            &&& custody != pool ==> {
                &&& after.balance(pool) == s.balance(pool) + residual
                &&& after.balance(custody) == s.balance(custody) - residual - taken
                &&& s.balance(custody) >= residual + pos.p_floor ==> taken == pos.p_floor
            }
        },
{
    if let Ok(after) = default_outcome(s, origin, coldkey, netuid) {
        let pos = materialized(s.position(netuid, coldkey), s.agg(netuid).omega);
        let residual = sat_add(pos.r_stored, pos.e_stored);
        let custody = s.custody(netuid);
        let pool = s.subnet(netuid).account;
        law_transfer_conserves(s.balances, custody, pool, residual);
        let balances = if residual == 0 {
            s.balances
        } else {
            transferred(s.balances, custody, pool, residual)->Ok_0
        };
        let restored = State {
            balances,
            ..if residual == 0 {
                s
            } else {
                pool_credited(s, netuid, residual)
            }
        };
        law_recycling_is_exact(restored, netuid, pos.p_floor);
        let done = recycled(restored, netuid, pos.p_floor);
        assert(after.balances == done.balances && after.total_issuance == done.total_issuance);
        assert(after.positions.dom().finite());
        assert(restored.custody(netuid) == custody);
        assert(after.balance(custody) == done.balance(custody));
        assert forall|k: AccountId| k != custody && k != pool implies #[trigger] after.balance(k)
            == s.balance(k) by {
            assert(amount_of(balances, k) == amount_of(s.balances, k));
            assert(done.balance(k) == restored.balance(k));
        }
        if custody != pool {
            assert(done.balance(pool) == restored.balance(pool));
            assert(after.balance(pool) == done.balance(pool));
        }
    }
}

/// A default takes out of the issuance what it takes out of the accounts. That is the floor of the
/// position, exactly, where custody holds the position.
pub proof fn law_default_recycles_the_floor(
    s: State,
    origin: Origin,
    coldkey: AccountId,
    netuid: u16,
)
    requires
        sound(s),
        s.custody(netuid) != s.subnet(netuid).account,
    ensures
        default_outcome(s, origin, coldkey, netuid) matches Ok(after) ==> {
            let pos = materialized(s.position(netuid, coldkey), s.agg(netuid).omega);
            let held = s.balance(s.custody(netuid));
            &&& sound(after)
            &&& s.total_issuance - after.total_issuance == supply(s) - supply(after)
            &&& 0 <= supply(s) - supply(after) <= pos.p_floor
            &&& held >= pos.p_floor + pos.r_stored + pos.e_stored ==> after.total_issuance
                == s.total_issuance - pos.p_floor
        },
{
    lemma_default_moves(s, origin, coldkey, netuid);
}

/// The settlement of a position takes out of the issuance what it takes out of the accounts.
pub proof fn law_settlement_of_one_conserves_tao(
    s: State,
    netuid: u16,
    coldkey: AccountId,
    terms: TerminalTerms,
)
    requires
        sound(s),
    ensures
        sound(settle_one(s, netuid, coldkey, terms)),
        s.total_issuance - settle_one(s, netuid, coldkey, terms).total_issuance == supply(s)
            - supply(settle_one(s, netuid, coldkey, terms)),
{
    let pos = materialized(s.position(netuid, coldkey), terms.omega);
    let equity = crate::math::terminal_equity(
        terms.k_sigma,
        terms.q_sigma as int,
        terms.cold,
        pos,
    );
    let cover = crate::math::terminal_cover(
        terms.k_sigma,
        terms.q_sigma as int,
        terms.cold,
        pos,
    );
    law_transfer_conserves(
        s.balances,
        s.custody(netuid),
        s.subnet(netuid).account,
        pos.e_stored,
    );
    let returned = escrow_returned(s, netuid, pos.e_stored);
    law_transfer_conserves(returned.balances, s.custody(netuid), coldkey, equity);
    let balances = equity_paid(returned, netuid, coldkey, equity).1;
    law_recycling_is_exact(State { balances, ..returned }, netuid, cover);
    let after = settle_one(s, netuid, coldkey, terms);
    assert(after.balances == recycled(State { balances, ..returned }, netuid, cover).balances);
    assert(after.positions.dom().finite());
}

/// The settlement of some positions takes out of the issuance what it takes out of the accounts.
pub proof fn lemma_settle_each_conserves(
    s: State,
    netuid: u16,
    order: Seq<AccountId>,
    terms: TerminalTerms,
)
    requires
        sound(s),
    ensures
        sound(settle_each(s, netuid, order, terms)),
        s.total_issuance - settle_each(s, netuid, order, terms).total_issuance == supply(s)
            - supply(settle_each(s, netuid, order, terms)),
        settle_each(s, netuid, order, terms).pallet_id == s.pallet_id,
    decreases order.len(),
{
    if order.len() > 0 {
        lemma_settle_each_conserves(s, netuid, order.drop_last(), terms);
        law_settlement_of_one_conserves_tao(
            settle_each(s, netuid, order.drop_last(), terms),
            netuid,
            order.last(),
            terms,
        );
    }
}

/// The settlement of a subnet takes out of the issuance what it takes out of the accounts, leaves
/// nothing in custody, and comes to that in whatever order the positions are settled.
pub proof fn law_settlement_conserves_tao(s: State, netuid: u16, order: Seq<AccountId>)
    requires
        sound(s),
    ensures
        sound(settled(s, netuid, order)),
        s.total_issuance - settled(s, netuid, order).total_issuance == supply(s) - supply(
            settled(s, netuid, order),
        ),
        settled(s, netuid, order).balance(s.custody(netuid)) == 0,
{
    let terms = terminal_terms(s, netuid);
    lemma_settle_each_conserves(s, netuid, order, terms);
    let each = settle_each(s, netuid, order, terms);
    law_recycling_is_exact(each, netuid, u64::MAX);
    assert(settled(s, netuid, order).balances == recycled(each, netuid, u64::MAX).balances);
}

} // verus!
