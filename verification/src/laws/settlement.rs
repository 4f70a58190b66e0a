//! Buying back, and the settlement of a subnet.
use crate::accounts::{AccountId, OwnerKey};
use crate::laws::books::{lemma_owners_finite, owners};
use crate::laws::custody::{due, obligations};
use crate::laws::ledger::{
    law_recycling_is_exact, law_transfer_conserves, lemma_settle_each_conserves, sound,
};
use crate::laws::sums::{
    lemma_sum_of_keys, lemma_sum_over_agrees, lemma_sum_over_bound, lemma_sum_over_ordered,
    lemma_sum_over_plus, lemma_sum_over_remove, lemma_sum_over_times, sum_over,
};
use crate::math::{
    aggregate_price, buyback_cost, ceiling, claim, implied_reserve, lemma_ceiling,
    lemma_materialized, materialized, price_share, terminal_charge, terminal_cover,
    terminal_equity,
};
use crate::pallet::{recycled, State};
use crate::settle::{
    equity_paid, escrow_returned, lemma_settle_apart, liabilities, lists_owners, settle_each,
    settle_one, settled, terminal_terms, TerminalTerms,
};
use crate::storage::amount_of;
use crate::types::{ShortPosition, Subnet};
use vstd::prelude::*;

verus! {

/// Buying back is never undercharged: the product of the reserves does not fall. It is not
/// overcharged by a whole rao either.
pub proof fn law_buyback_keeps_the_product(pay: int, recv: int, amount: int)
    requires
        0 <= pay,
        0 <= amount < recv,
        pay * amount <= u128::MAX,
    ensures
        ({
            let cost = buyback_cost(pay, recv, amount);
            cost < u64::MAX ==> {
                &&& (pay + cost) * (recv - amount) >= pay * recv
                &&& (pay + cost - 1) * (recv - amount) < pay * recv
            }
        }),
{
    let d = recv - amount;
    let n = pay * amount;
    assert(n >= 0) by (nonlinear_arith)
        requires
            n == pay * amount,
            pay >= 0,
            amount >= 0,
    ;
    lemma_ceiling(n, d);
    let cost = ceiling(n, d);
    assert((pay + cost) * d == pay * d + cost * d) by (nonlinear_arith);
    assert((pay + cost - 1) * d == pay * d + cost * d - d) by (nonlinear_arith);
    assert(pay * recv == pay * d + n) by (nonlinear_arith)
        requires
            d == recv - amount,
            n == pay * amount,
    ;
}

/// More costs more, and so does buying from a pool with a greater reserve of what is paid.
pub proof fn law_buyback_is_monotone(
    pay: int,
    greater_pay: int,
    recv: int,
    amount: int,
    greater_amount: int,
)
    requires
        0 <= pay <= greater_pay,
        0 <= amount <= greater_amount,
    ensures
        buyback_cost(pay, recv, amount) <= buyback_cost(greater_pay, recv, greater_amount),
{
    if greater_amount < recv {
        let d1 = recv - amount;
        let d2 = recv - greater_amount;
        let n1 = pay * amount;
        let n2 = greater_pay * greater_amount;
        assert(0 <= n1 <= n2) by (nonlinear_arith)
            requires
                n1 == pay * amount,
                n2 == greater_pay * greater_amount,
                0 <= pay <= greater_pay,
                0 <= amount <= greater_amount,
        ;
        let p1 = if n1 > u128::MAX {
            u128::MAX as int
        } else {
            n1
        };
        let p2 = if n2 > u128::MAX {
            u128::MAX as int
        } else {
            n2
        };
        lemma_ceiling(p1, d1);
        lemma_ceiling(p2, d2);
        let c1 = ceiling(p1, d1);
        let c2 = ceiling(p2, d2);
        assert(c1 <= c2) by (nonlinear_arith)
            requires
                c1 * d1 < p1 + d1,
                p2 <= c2 * d2,
                p1 <= p2,
                0 < d2 <= d1,
                c2 >= 0,
        ;
    }
}

/// The live price cannot be pressed below the price that the moving price implies, however low the
/// live reserve is driven.
pub proof fn law_suppressed_price_does_not_help(subnet: Subnet, q_sigma: int, tao: u64)
    ensures
        aggregate_price(Subnet { tao, ..subnet }, q_sigma) >= buyback_cost(
            implied_reserve(subnet).floor_amount() as int,
            subnet.alpha_in as int,
            q_sigma,
        ),
        q_sigma >= subnet.alpha_in ==> aggregate_price(subnet, q_sigma) == u64::MAX,
{
    assert(implied_reserve(Subnet { tao, ..subnet }) == implied_reserve(subnet));
}

/// What is not paid out covers the liability, and the other way round. Without a moving price no
/// more than the floor is paid out, and nothing where the liabilities cannot be bought back.
pub proof fn law_claim_is_split(k: u64, q_sigma: int, cold: bool, pos: ShortPosition)
    requires
        claim(pos) <= u64::MAX,
        q_sigma >= 0,
    ensures
        terminal_equity(k, q_sigma, cold, pos) + terminal_cover(k, q_sigma, cold, pos) == claim(
            pos,
        ),
        cold ==> terminal_equity(k, q_sigma, cold, pos) <= pos.p_floor,
        k == u64::MAX ==> terminal_equity(k, q_sigma, cold, pos) == 0,
        terminal_equity(k, q_sigma, cold, pos) > 0 ==> terminal_equity(k, q_sigma, cold, pos)
            == claim(pos) - terminal_charge(k, q_sigma, cold, pos),
{
    if q_sigma > 0 && k != u64::MAX {
        let n = k * pos.q_liability;
        assert(n >= 0) by (nonlinear_arith)
            requires
                n == k * pos.q_liability,
                k >= 0,
                pos.q_liability >= 0,
        ;
        lemma_ceiling(n, q_sigma);
    }
}

/// Splitting one liability over many accounts does not lower what is charged for it: the shares
/// add up to the price of all liabilities, and to less than one rao an account more.
pub proof fn law_shares_add_up(
    accounts: Set<AccountId>,
    q: spec_fn(AccountId) -> int,
    k: u64,
    q_sigma: int,
)
    requires
        accounts.finite(),
        forall|c: AccountId| accounts.contains(c) ==> #[trigger] q(c) >= 0,
        q_sigma == sum_over(accounts, q),
        q_sigma > 0,
        k < u64::MAX,
    ensures
        k <= sum_over(accounts, |c: AccountId| price_share(k, q_sigma, q(c))) < k
            + accounts.len(),
{
    let share = |c: AccountId| price_share(k, q_sigma, q(c));
    let scaled_share = |c: AccountId| share(c) * q_sigma;
    let low = |c: AccountId| q(c) * (k as int);
    let rest = |c: AccountId| q_sigma - 1;
    let high = |c: AccountId| low(c) + rest(c);
    assert forall|c: AccountId| accounts.contains(c) implies low(c) <= #[trigger] scaled_share(c)
        && scaled_share(c) <= high(c) by {
        let n = k * q(c);
        assert(q(c) >= 0);
        assert(n >= 0 && n == q(c) * (k as int)) by (nonlinear_arith)
            requires
                n == k * q(c),
                k >= 0,
                q(c) >= 0,
        ;
        lemma_ceiling(n, q_sigma);
    }
    assert forall|c: AccountId| accounts.contains(c) implies #[trigger] low(c) <= scaled_share(
        c,
    ) by {
        assert(scaled_share(c) <= high(c));
    }
    lemma_sum_over_ordered(accounts, low, scaled_share);
    lemma_sum_over_ordered(accounts, scaled_share, high);
    lemma_sum_over_times(accounts, share, q_sigma);
    lemma_sum_over_agrees(accounts, scaled_share, |c: AccountId| share(c) * q_sigma);
    lemma_sum_over_times(accounts, q, k as int);
    lemma_sum_over_agrees(accounts, low, |c: AccountId| q(c) * (k as int));
    lemma_sum_over_plus(accounts, low, rest);
    lemma_sum_over_agrees(accounts, high, |c: AccountId| low(c) + rest(c));
    lemma_sum_over_constant(accounts, q_sigma - 1);
    lemma_sum_over_agrees(accounts, rest, |c: AccountId| q_sigma - 1);
    let total = sum_over(accounts, share);
    let n = accounts.len() as int;
    assert(accounts.len() > 0);
    assert(k <= total) by (nonlinear_arith)
        requires
            q_sigma * (k as int) <= total * q_sigma,
            q_sigma > 0,
    ;
    assert(total < k + n) by (nonlinear_arith)
        requires
            total * q_sigma <= q_sigma * (k as int) + n * (q_sigma - 1),
            q_sigma > 0,
            n > 0,
    ;
}

pub proof fn lemma_sum_over_constant(accounts: Set<AccountId>, k: int)
    requires
        accounts.finite(),
    ensures
        sum_over(accounts, |c: AccountId| k) == accounts.len() * k,
    decreases accounts.len(),
{
    if accounts.len() > 0 {
        let c = accounts.choose();
        lemma_sum_over_constant(accounts.remove(c), k);
        let n = accounts.len() as int;
        assert(k + (n - 1) * k == n * k) by (nonlinear_arith);
    } else {
        assert(0 * k == 0) by (nonlinear_arith);
    }
}

/// The liabilities of a subnet are charged the price of buying all of them back at once, and less
/// than one rao a position more, however they are split.
pub proof fn law_settlement_is_split_neutral(s: State, netuid: u16)
    requires
        s.positions.dom().finite(),
        0 < crate::storage::sum_of(liabilities(s, netuid)) <= u128::MAX,
        terminal_terms(s, netuid).k_sigma < u64::MAX,
    ensures
        ({
            let terms = terminal_terms(s, netuid);
            let charged = sum_over(
                owners(s, netuid),
                |c: AccountId|
                    price_share(
                        terms.k_sigma,
                        terms.q_sigma as int,
                        s.position(netuid, c).q_liability as int,
                    ),
            );
            terms.k_sigma <= charged < terms.k_sigma + owners(s, netuid).len()
        }),
{
    let terms = terminal_terms(s, netuid);
    let owed = liabilities(s, netuid);
    let q = |c: AccountId| s.position(netuid, c).q_liability as int;
    lemma_owners_finite(s, netuid);
    assert(owed.dom() =~= owners(s, netuid));
    lemma_sum_of_keys(owed);
    lemma_sum_over_agrees(owners(s, netuid), |c: AccountId| owed[c] as int, q);
    law_shares_add_up(owners(s, netuid), q, terms.k_sigma, terms.q_sigma as int);
    lemma_sum_over_agrees(
        owners(s, netuid),
        |c: AccountId| price_share(terms.k_sigma, terms.q_sigma as int, q(c)),
        |c: AccountId|
            price_share(
                terms.k_sigma,
                terms.q_sigma as int,
                s.position(netuid, c).q_liability as int,
            ),
    );
}

/// What an owner is paid.
pub open spec fn equity_of(s: State, netuid: u16, coldkey: AccountId) -> u64 {
    let terms = terminal_terms(s, netuid);
    terminal_equity(
        terms.k_sigma,
        terms.q_sigma as int,
        terms.cold,
        materialized(s.position(netuid, coldkey), terms.omega),
    )
}

/// What of the claim of an owner covers the liability.
pub open spec fn cover_of(s: State, netuid: u16, coldkey: AccountId) -> u64 {
    let terms = terminal_terms(s, netuid);
    terminal_cover(
        terms.k_sigma,
        terms.q_sigma as int,
        terms.cold,
        materialized(s.position(netuid, coldkey), terms.omega),
    )
}

/// What is left of the escrow of an owner.
pub open spec fn escrow_of(s: State, netuid: u16, coldkey: AccountId) -> u64 {
    materialized(s.position(netuid, coldkey), s.agg(netuid).omega).e_stored
}

/// The sum of `g` over a list of accounts.
pub open spec fn sum_along(order: Seq<AccountId>, g: spec_fn(AccountId) -> int) -> int
    decreases order.len(),
{
    if order.len() == 0 {
        0
    } else {
        sum_along(order.drop_last(), g) + g(order.last())
    }
}

/// The sum over a list that names each account once is the sum over the accounts.
pub proof fn lemma_sum_along(order: Seq<AccountId>, g: spec_fn(AccountId) -> int)
    requires
        order.no_duplicates(),
    ensures
        order.to_set().finite(),
        sum_along(order, g) == sum_over(order.to_set(), g),
    decreases order.len(),
{
    vstd::seq_lib::seq_to_set_is_finite(order);
    if order.len() == 0 {
        assert(order.to_set() =~= Set::<AccountId>::empty());
    } else {
        let less = order.drop_last();
        let last = order.last();
        lemma_sum_along(less, g);
        assert(order.contains(order[order.len() - 1]));
        assert(order.to_set().remove(last) =~= less.to_set()) by {
            assert forall|c: AccountId| order.to_set().remove(last).contains(c)
                <==> less.to_set().contains(c) by {
                if less.contains(c) {
                    let i = choose|i: int| 0 <= i < less.len() && less[i] == c;
                    assert(order[i] == c && order[order.len() - 1] == last);
                    assert(order.contains(c));
                }
                if order.contains(c) && c != last {
                    let i = choose|i: int| 0 <= i < order.len() && order[i] == c;
                    assert(less[i] == c);
                }
            }
        }
        lemma_sum_over_remove(order.to_set(), g, last);
    }
}

/// The accounts of a settlement are apart: custody, the pool and the owners.
pub open spec fn settlement_apart(s: State, netuid: u16) -> bool {
    let custody = s.custody(netuid);
    let pool = s.subnet(netuid).account;
    &&& custody != pool
    &&& forall|c: AccountId| #[trigger]
        s.has_position(netuid, c) ==> c != custody && c != pool
}

proof fn lemma_settle_each_pays(s: State, netuid: u16, order: Seq<AccountId>, terms: TerminalTerms)
    requires
        sound(s),
        settlement_apart(s, netuid),
        terms == terminal_terms(s, netuid),
        order.no_duplicates(),
        forall|c: AccountId| order.contains(c) ==> #[trigger] s.has_position(netuid, c),
        forall|c: AccountId| #[trigger] s.position_bounded(netuid, c),
        sum_along(order, |c: AccountId| due(s, netuid, c)) <= s.balance(s.custody(netuid)),
    ensures
        ({
            let after = settle_each(s, netuid, order, terms);
            let custody = s.custody(netuid);
            let pool = s.subnet(netuid).account;
            &&& after.pallet_id == s.pallet_id
            &&& after.subnet(netuid).account == pool
            &&& ({
                let escrows = sum_along(order, |c: AccountId| escrow_of(s, netuid, c) as int);
                &&& s.subnet(netuid).tao + escrows <= u64::MAX ==> after.subnet(netuid).tao
                    == s.subnet(netuid).tao + escrows
                &&& s.total_stake + escrows <= u64::MAX ==> after.total_stake == s.total_stake
                    + escrows
            })
            &&& after.balance(custody) == s.balance(custody) - sum_along(
                order,
                |c: AccountId| due(s, netuid, c),
            )
            &&& after.balance(pool) == s.balance(pool) + sum_along(
                order,
                |c: AccountId| escrow_of(s, netuid, c) as int,
            )
            &&& s.total_issuance - after.total_issuance == sum_along(
                order,
                |c: AccountId| cover_of(s, netuid, c) as int,
            )
            &&& forall|c: AccountId|
                order.contains(c) ==> #[trigger] after.balance(c) == s.balance(c) + equity_of(
                    s,
                    netuid,
                    c,
                )
            &&& forall|c: AccountId|
                !order.contains(c) && c != custody && c != pool ==> #[trigger] after.balance(c)
                    == s.balance(c)
        }),
    decreases order.len(),
{
    let custody = s.custody(netuid);
    let pool = s.subnet(netuid).account;
    let due_of = |c: AccountId| due(s, netuid, c);
    if order.len() > 0 {
        let less = order.drop_last();
        let last = order.last();
        assert(order =~= less.push(last));
        crate::settle::lemma_push_contains(less, last);
        assert(order.contains(last));
        assert(s.has_position(netuid, last));
        assert(!less.contains(last)) by {
            if less.contains(last) {
                let i = choose|i: int| 0 <= i < less.len() && less[i] == last;
                assert(order[i] == order[order.len() - 1]);
            }
        }
        assert(less.no_duplicates());
        let stored = s.position(netuid, last);
        assert(s.position_bounded(netuid, last));
        lemma_materialized(stored, terms.omega);
        assert(sum_along(order, due_of) == sum_along(less, due_of) + due_of(last));
        lemma_settle_each_pays(s, netuid, less, terms);
        let t = settle_each(s, netuid, less, terms);
        lemma_settle_each_conserves(s, netuid, less, terms);
        lemma_settle_apart(s, netuid, less, terms, OwnerKey { netuid, coldkey: last });
        assert(t.position(netuid, last) == stored);
        // What the last position gets.
        let pos = materialized(stored, terms.omega);
        let equity = terminal_equity(terms.k_sigma, terms.q_sigma as int, terms.cold, pos);
        let cover = terminal_cover(terms.k_sigma, terms.q_sigma as int, terms.cold, pos);
        law_claim_is_split(terms.k_sigma, terms.q_sigma as int, terms.cold, pos);
        assert(t.balance(custody) >= pos.e_stored + equity + cover);
        assert(t.custody(netuid) == custody);
        law_transfer_conserves(t.balances, custody, pool, pos.e_stored);
        let returned = escrow_returned(t, netuid, pos.e_stored);
        assert(returned.balance(custody) == t.balance(custody) - pos.e_stored);
        assert(returned.balance(pool) == t.balance(pool) + pos.e_stored);
        assert(returned.balance(last) == t.balance(last));
        law_transfer_conserves(returned.balances, custody, last, equity);
        let (paid, balances) = equity_paid(returned, netuid, last, equity);
        let settled_one = State { balances, ..returned };
        assert(amount_of(balances, custody) == returned.balance(custody) - equity);
        assert(amount_of(balances, last) == returned.balance(last) + equity);
        assert(amount_of(balances, pool) == returned.balance(pool));
        law_recycling_is_exact(settled_one, netuid, cover);
        let covered = recycled(settled_one, netuid, cover);
        let after = settle_one(t, netuid, last, terms);
        assert(after.balances == covered.balances);
        assert(after.balance(custody) == covered.balance(custody));
        assert(covered.balance(pool) == settled_one.balance(pool));
        assert(covered.balance(last) == settled_one.balance(last));
        assert(after == settle_each(s, netuid, order, terms));
        assert forall|c: AccountId| c != custody && c != pool && c != last implies
            #[trigger] after.balance(c) == t.balance(c) by {
            assert(amount_of(returned.balances, c) == amount_of(t.balances, c));
            assert(amount_of(balances, c) == amount_of(returned.balances, c));
            assert(covered.balance(c) == settled_one.balance(c));
        }
        assert forall|c: AccountId| order.contains(c) implies #[trigger] after.balance(c)
            == s.balance(c) + equity_of(s, netuid, c) by {
            assert(s.has_position(netuid, c));
            if c != last {
                assert(less.contains(c));
                assert(t.balance(c) == s.balance(c) + equity_of(s, netuid, c));
            } else {
                assert(t.balance(c) == s.balance(c));
            }
        }
    }
}

/// Where custody holds what the shorts of a subnet are due, their settlement pays every owner
/// exactly what the terms that were taken before it say, whatever the order; the pool gets what is
/// left of the escrows, and its reserve and the total stake grow by that; everything else that
/// custody holds leaves the issuance.
pub proof fn law_settlement_pays_everybody(s: State, netuid: u16, order: Seq<AccountId>)
    requires
        sound(s),
        obligations(s, netuid) <= s.balance(s.custody(netuid)),
        settlement_apart(s, netuid),
        lists_owners(order, s, netuid),
        forall|c: AccountId| #[trigger] s.position_bounded(netuid, c),
    ensures
        ({
            let after = settled(s, netuid, order);
            let custody = s.custody(netuid);
            let pool = s.subnet(netuid).account;
            let escrows = sum_over(
                owners(s, netuid),
                |c: AccountId| escrow_of(s, netuid, c) as int,
            );
            let equities = sum_over(
                owners(s, netuid),
                |c: AccountId| equity_of(s, netuid, c) as int,
            );
            &&& forall|c: AccountId|
                s.has_position(netuid, c) ==> #[trigger] after.balance(c) == s.balance(c)
                    + equity_of(s, netuid, c)
            &&& forall|c: AccountId|
                !s.has_position(netuid, c) && c != custody && c != pool
                    ==> #[trigger] after.balance(c) == s.balance(c)
            &&& after.balance(pool) == s.balance(pool) + escrows
            &&& s.subnet(netuid).tao + escrows <= u64::MAX ==> after.subnet(netuid).tao
                == s.subnet(netuid).tao + escrows
            &&& s.total_stake + escrows <= u64::MAX ==> after.total_stake == s.total_stake + escrows
            &&& after.balance(custody) == 0
            &&& after.total_issuance == s.total_issuance - (s.balance(custody) - escrows
                - equities)
        }),
{
    let terms = terminal_terms(s, netuid);
    let custody = s.custody(netuid);
    let pool = s.subnet(netuid).account;
    let due_of = |c: AccountId| due(s, netuid, c);
    let escrow = |c: AccountId| escrow_of(s, netuid, c) as int;
    let equity = |c: AccountId| equity_of(s, netuid, c) as int;
    let cover = |c: AccountId| cover_of(s, netuid, c) as int;
    lemma_sum_along(order, due_of);
    lemma_sum_along(order, escrow);
    lemma_sum_along(order, cover);
    assert(order.to_set() =~= owners(s, netuid)) by {
        assert forall|c: AccountId| order.to_set().contains(c) <==> owners(s, netuid).contains(
            c,
        ) by {
            assert(order.contains(c) <==> s.has_position(netuid, c));
        }
    }
    let all = owners(s, netuid);
    let claimed = |c: AccountId| equity(c) + cover(c);
    lemma_sum_over_plus(all, equity, cover);
    lemma_sum_over_agrees(all, claimed, |c: AccountId| equity(c) + cover(c));
    lemma_sum_over_plus(all, claimed, escrow);
    assert forall|c: AccountId| all.contains(c) implies #[trigger] due_of(c) == claimed(c) + escrow(
        c,
    ) by {
        assert(s.position_bounded(netuid, c));
        lemma_materialized(s.position(netuid, c), terms.omega);
        lemma_sum_over_bound(all, due_of, c);
        law_claim_is_split(
            terms.k_sigma,
            terms.q_sigma as int,
            terms.cold,
            materialized(s.position(netuid, c), terms.omega),
        );
    }
    lemma_sum_over_agrees(all, due_of, |c: AccountId| claimed(c) + escrow(c));
    lemma_settle_each_pays(s, netuid, order, terms);
    lemma_settle_each_conserves(s, netuid, order, terms);
    let each = settle_each(s, netuid, order, terms);
    let after = settled(s, netuid, order);
    law_recycling_is_exact(each, netuid, u64::MAX);
    let drained = recycled(each, netuid, u64::MAX);
    assert(after.balances == drained.balances);
    assert forall|c: AccountId| c != custody implies #[trigger] after.balance(c) == each.balance(
        c,
    ) by {
        assert(drained.balance(c) == each.balance(c));
    }
    assert(after.balance(custody) == drained.balance(custody));
    assert forall|c: AccountId| s.has_position(netuid, c) implies #[trigger] after.balance(c)
        == s.balance(c) + equity_of(s, netuid, c) by {
        assert(order.contains(c));
        assert(after.balance(c) == each.balance(c));
    }
    assert forall|c: AccountId|
        !s.has_position(netuid, c) && c != custody && c != pool implies #[trigger] after.balance(c)
        == s.balance(c) by {
        assert(!order.contains(c));
        assert(after.balance(c) == each.balance(c));
    }
}

/// Where custody holds what the shorts of a subnet are due, every account ends with the same balance in
/// whatever order they are settled.
pub proof fn law_settlement_order_does_not_matter(
    s: State,
    netuid: u16,
    a: Seq<AccountId>,
    b: Seq<AccountId>,
    account: AccountId,
)
    requires
        sound(s),
        obligations(s, netuid) <= s.balance(s.custody(netuid)),
        settlement_apart(s, netuid),
        lists_owners(a, s, netuid),
        lists_owners(b, s, netuid),
        forall|c: AccountId| #[trigger] s.position_bounded(netuid, c),
    ensures
        settled(s, netuid, a).balance(account) == settled(s, netuid, b).balance(account),
        settled(s, netuid, a).total_issuance == settled(s, netuid, b).total_issuance,
{
    law_settlement_pays_everybody(s, netuid, a);
    law_settlement_pays_everybody(s, netuid, b);
    let (x, y) = (settled(s, netuid, a), settled(s, netuid, b));
    if s.has_position(netuid, account) {
        assert(x.balance(account) == s.balance(account) + equity_of(s, netuid, account));
        assert(y.balance(account) == s.balance(account) + equity_of(s, netuid, account));
    } else if account != s.custody(netuid) && account != s.subnet(netuid).account {
        assert(x.balance(account) == s.balance(account));
        assert(y.balance(account) == s.balance(account));
    }
}

/// Every claim carries its share of the price of buying back all liabilities.
pub open spec fn claims_carry_their_shares(s: State, netuid: u16) -> bool {
    forall|c: AccountId| #[trigger]
        s.has_position(netuid, c) ==> claim(
            materialized(s.position(netuid, c), s.agg(netuid).omega),
        ) >= price_share(
            terminal_terms(s, netuid).k_sigma,
            terminal_terms(s, netuid).q_sigma as int,
            s.position(netuid, c).q_liability as int,
        )
}

/// What the owners are not paid of their floors and buffers is less than the price of buying back
/// all liabilities at once and one rao a position; and it is no less than that price where every
/// claim carries its share of it. So it is however one liability is split over many accounts, where
/// there is a moving price and custody holds what the shorts are due.
pub proof fn law_payment_is_split_neutral(s: State, netuid: u16, order: Seq<AccountId>)
    requires
        sound(s),
        obligations(s, netuid) <= s.balance(s.custody(netuid)),
        settlement_apart(s, netuid),
        lists_owners(order, s, netuid),
        forall|c: AccountId| #[trigger] s.position_bounded(netuid, c),
        s.subnet(netuid).moving_price != 0,
        0 < crate::storage::sum_of(liabilities(s, netuid)) <= u128::MAX,
        terminal_terms(s, netuid).k_sigma < u64::MAX,
    ensures
        ({
            let after = settled(s, netuid, order);
            let k = terminal_terms(s, netuid).k_sigma;
            let claims = sum_over(
                owners(s, netuid),
                |c: AccountId| claim(materialized(s.position(netuid, c), s.agg(netuid).omega)),
            );
            let paid = sum_over(
                owners(s, netuid),
                |c: AccountId| after.balance(c) - s.balance(c),
            );
            &&& claims - paid < k + owners(s, netuid).len()
            &&& claims_carry_their_shares(s, netuid) ==> k <= claims - paid
        }),
{
    let after = settled(s, netuid, order);
    let terms = terminal_terms(s, netuid);
    let all = owners(s, netuid);
    let claims = |c: AccountId| claim(materialized(s.position(netuid, c), s.agg(netuid).omega));
    let paid = |c: AccountId| after.balance(c) - s.balance(c);
    let share = |c: AccountId|
        price_share(
            terms.k_sigma,
            terms.q_sigma as int,
            s.position(netuid, c).q_liability as int,
        );
    let both = |c: AccountId| share(c) + paid(c);
    lemma_owners_finite(s, netuid);
    law_settlement_pays_everybody(s, netuid, order);
    law_settlement_is_split_neutral(s, netuid);
    assert forall|c: AccountId| all.contains(c) implies #[trigger] claims(c) <= both(c) && (
    claims_carry_their_shares(s, netuid) ==> claims(c) == both(c)) by {
        assert(s.has_position(netuid, c));
        assert(s.position_bounded(netuid, c));
        let pos = materialized(s.position(netuid, c), s.agg(netuid).omega);
        lemma_materialized(s.position(netuid, c), s.agg(netuid).omega);
        assert(after.balance(c) == s.balance(c) + equity_of(s, netuid, c));
        lemma_sum_over_bound(all, |d: AccountId| due(s, netuid, d), c);
        law_claim_is_split(terms.k_sigma, terms.q_sigma as int, terms.cold, pos);
        assert(!terms.cold);
    }
    lemma_sum_over_plus(all, share, paid);
    lemma_sum_over_agrees(all, both, |c: AccountId| share(c) + paid(c));
    lemma_sum_over_ordered(all, claims, both);
    if claims_carry_their_shares(s, netuid) {
        lemma_sum_over_agrees(all, claims, both);
    }
}

} // verus!
