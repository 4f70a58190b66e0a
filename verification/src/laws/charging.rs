//! What a settlement charges, in numbers.
use crate::accounts::{AccountId, OwnerKey};
use crate::laws::books::{lemma_owners_finite, owners};
use crate::laws::custody::{due, obligations};
use crate::laws::ledger::{law_recycling_is_exact, law_transfer_conserves, sound};
use crate::laws::rates::lemma_implied;
use crate::laws::settlement::{
    equity_of, law_claim_is_split, law_settlement_pays_everybody, settlement_apart,
};
use crate::laws::sums::{lemma_sum_of_keys, lemma_sum_over_agrees, lemma_sum_over_bound, sum_over};
use crate::fixed::ONE_BITS;
use crate::math::{
    aggregate_price, buyback_cost, ceiling, implied_reserve, lemma_ceiling, lemma_materialized,
    materialized, price_share, terminal_cover, terminal_equity,
};
use crate::pallet::{recycled, State};
use crate::settle::{
    equity_paid, escrow_returned, liabilities, lists_owners, settle_each, settle_one, settled,
    terminal_terms, TerminalTerms,
};
use crate::storage::amount_of;
use crate::types::{Event, ShortPosition, Subnet};
use vstd::prelude::*;

verus! {

/// What the moving price implies for the live alpha reserve, in whole rao, and at most the `2^63 - 1`
/// that fit.
pub open spec fn is_implied(subnet: Subnet, implied: int) -> bool {
    let product = subnet.moving_price * subnet.alpha_in;
    if product >= 0x8000_0000_0000_0000 * 0x1_0000_0000 {
        implied == 0x7fff_ffff_ffff_ffff
    } else {
        implied * 0x1_0000_0000 <= product < (implied + 1) * 0x1_0000_0000
    }
}

/// The least that buys `q` alpha both on the live pool and on the pool that the moving price
/// implies, each of them keeping the product of its reserves. Where a pool does not hold more alpha
/// than that, or the price is that high, it is `u64::MAX`.
pub open spec fn is_dearer_price(subnet: Subnet, implied: int, q: int, k: u64) -> bool {
    let (tao, left) = (subnet.tao as int, subnet.alpha_in - q);
    if left <= 0 {
        k == u64::MAX
    } else {
        &&& k < u64::MAX ==> tao * q <= k * left && implied * q <= k * left
        &&& (k - 1) * left < tao * q || (k - 1) * left < implied * q
    }
}

/// What a pool asks for some alpha: the least that keeps the product of its reserves.
pub proof fn lemma_cost(pay: int, recv: int, q: int)
    requires
        0 <= pay < 0x8000_0000_0000_0000,
        0 <= q < recv < 0x8000_0000_0000_0000,
    ensures
        ({
            let k = buyback_cost(pay, recv, q);
            &&& k < u64::MAX ==> pay * q <= k * (recv - q)
            &&& (k - 1) * (recv - q) < pay * q || k == 0
        }),
{
    let d = recv - q;
    let n = pay * q;
    assert(0 <= n && n <= u128::MAX) by (nonlinear_arith)
        requires
            n == pay * q,
            0 <= pay < 0x8000_0000_0000_0000,
            0 <= q < 0x8000_0000_0000_0000,
    ;
    lemma_ceiling(n, d);
    let c = ceiling(n, d);
    let k = buyback_cost(pay, recv, q) as int;
    if c > u64::MAX {
        assert((k - 1) * d < n) by (nonlinear_arith)
            requires
                k < c,
                c * d < n + d,
                d > 0,
        {
            assert((k - 1) * d <= (c - 1) * d);
        }
    } else {
        assert((k - 1) * d == c * d - d) by (nonlinear_arith)
            requires
                k == c,
        ;
    }
}

/// The price of all liabilities is what buying them back costs on the dearer of the two pools: it is
/// never below the cost on the live pool, nor below that on the pool which the moving price implies,
/// and one rao less would be below one of them.
pub proof fn law_price_is_the_dearer_cost(subnet: Subnet, q: int, implied: int)
    requires
        subnet.bounded(),
        q > 0,
        is_implied(subnet, implied),
        implied >= 0,
    ensures
        subnet.tao > 0 || implied > 0 || q >= subnet.alpha_in ==> is_dearer_price(
            subnet,
            implied,
            q,
            aggregate_price(subnet, q),
        ),
        subnet.tao == 0 && implied == 0 && q < subnet.alpha_in ==> aggregate_price(subnet, q) == 0,
        aggregate_price(subnet, q) >= buyback_cost(subnet.tao as int, subnet.alpha_in as int, q),
        aggregate_price(subnet, q) >= buyback_cost(implied, subnet.alpha_in as int, q),
        aggregate_price(subnet, q) == buyback_cost(subnet.tao as int, subnet.alpha_in as int, q)
            || aggregate_price(subnet, q) == buyback_cost(implied, subnet.alpha_in as int, q),
{
    let one = ONE_BITS as int;
    lemma_implied(subnet);
    let m = subnet.moving_price * subnet.alpha_in;
    let x = implied_reserve(subnet).bits as int;
    vstd::arithmetic::div_mod::lemma_fundamental_div_mod(x, one);
    vstd::arithmetic::div_mod::lemma_div_pos_is_pos(x, one);
    assert(x / one == implied);
    assert(implied_reserve(subnet).floor_amount() == implied);
    assert(implied < 0x8000_0000_0000_0000);
    let (t, a) = (subnet.tao as int, subnet.alpha_in as int);
    if q < a {
        lemma_cost(t, a, q);
        lemma_cost(implied, a, q);
        let d = a - q;
        let k = aggregate_price(subnet, q) as int;
        let (u, v) = (buyback_cost(t, a, q) as int, buyback_cost(implied, a, q) as int);
        assert(u * d <= k * d && v * d <= k * d) by (nonlinear_arith)
            requires
                u <= k,
                v <= k,
                d > 0,
        ;
        let (tq, iq) = (t * q, implied * q);
        assert(tq >= 0 && iq >= 0 && (t > 0 ==> tq > 0) && (implied > 0 ==> iq > 0))
            by (nonlinear_arith)
            requires
                tq == t * q,
                iq == implied * q,
                t >= 0,
                implied >= 0,
                q > 0,
        ;
        if t == 0 && implied == 0 {
            lemma_ceiling(0, d);
            assert(ceiling(0, d) * d < d);
            assert(ceiling(0, d) == 0) by (nonlinear_arith)
                requires
                    ceiling(0, d) * d < d,
                    ceiling(0, d) >= 0,
                    d > 0,
            ;
            assert(0 * q == 0);
        }
        if k == 0 {
            assert((k - 1) * d < 0) by (nonlinear_arith)
                requires
                    k == 0,
                    d > 0,
            ;
        }
    }
}

/// What of a claim is paid out by a price `k` of all liabilities `total`, in the one way or the
/// other: what the claim has beyond its share of the price, rounded down, and nothing where it has
/// nothing beyond it; without a moving price no more than the floor of it.
pub open spec fn pays_right(
    paid: int,
    floor: int,
    buffer: int,
    q: int,
    k: int,
    total: int,
    cold: bool,
) -> bool {
    let beyond = (floor + buffer) * total - k * q;
    &&& paid >= 0
    &&& beyond < 0 ==> paid == 0
    &&& beyond >= 0 ==> paid * total <= beyond
    &&& cold ==> paid <= floor
    &&& beyond >= 0 && !(cold && paid == floor) ==> beyond < (paid + 1) * total
}

/// A position is paid right for every price: its share of the price is taken from the floor and the
/// buffer, and the rest is paid. What is not paid covers the liability. A price that cannot be paid
/// leaves nothing.
pub proof fn law_position_is_paid_right(k: u64, total: int, cold: bool, pos: ShortPosition)
    requires
        pos.p_floor + pos.r_stored <= u64::MAX,
        total > 0,
    ensures
        ({
            let paid = terminal_equity(k, total, cold, pos);
            &&& k < u64::MAX ==> pays_right(
                paid as int,
                pos.p_floor as int,
                pos.r_stored as int,
                pos.q_liability as int,
                k as int,
                total,
                cold,
            )
            &&& k == u64::MAX ==> paid == 0
            &&& paid + terminal_cover(k, total, cold, pos) == pos.p_floor + pos.r_stored
        }),
{
    law_claim_is_split(k, total, cold, pos);
    if k < u64::MAX {
        let (ki, q) = (k as int, pos.q_liability as int);
        let n = ki * q;
        assert(n >= 0) by (nonlinear_arith)
            requires
                n == ki * q,
                ki >= 0,
                q >= 0,
        ;
        lemma_ceiling(n, total);
        let share = price_share(k, total, q);
        assert(share == ceiling(n, total));
        let claim = pos.p_floor + pos.r_stored;
        let paid = terminal_equity(k, total, cold, pos) as int;
        let beyond = claim * total - n;
        let st = share * total;
        assert(beyond < 0 ==> share > claim) by (nonlinear_arith)
            requires
                beyond == claim * total - n,
                n <= share * total,
                total > 0,
        {
            if share <= claim {
                assert(share * total <= claim * total);
            }
        }
        assert(beyond >= 0 ==> share <= claim) by (nonlinear_arith)
            requires
                beyond == claim * total - n,
                share * total < n + total,
                total > 0,
        {
            if beyond >= 0 && share > claim {
                assert(share * total >= (claim + 1) * total);
                assert((claim + 1) * total == claim * total + total);
            }
        }
        if beyond >= 0 {
            let left = claim - share;
            assert(left * total <= beyond && beyond < (left + 1) * total) by (nonlinear_arith)
                requires
                    left == claim - share,
                    beyond == claim * total - n,
                    n <= share * total,
                    share * total < n + total,
            ;
            assert(paid == if cold && left > pos.p_floor {
                pos.p_floor as int
            } else {
                left
            });
            assert(paid <= left);
            assert(paid * total <= left * total) by (nonlinear_arith)
                requires
                    paid <= left,
                    total > 0,
            ;
        }
    }
}

/// The settlement of a subnet pays every owner right: by the dearer price of buying back all
/// liabilities together, on the pool as it was before the settlement, and by its share of them. So
/// it is where custody holds what the shorts are due.
pub proof fn law_settlement_pays_right(
    s: State,
    netuid: u16,
    order: Seq<AccountId>,
    implied: int,
    k: u64,
)
    requires
        sound(s),
        s.subnet(netuid).bounded(),
        obligations(s, netuid) <= s.balance(s.custody(netuid)),
        settlement_apart(s, netuid),
        lists_owners(order, s, netuid),
        forall|c: AccountId| #[trigger] s.position_bounded(netuid, c),
        ({
            let total = sum_over(
                owners(s, netuid),
                |c: AccountId| s.position(netuid, c).q_liability as int,
            );
            let subnet = s.subnet(netuid);
            &&& 0 < total <= u128::MAX
            &&& implied >= 0
            &&& is_implied(subnet, implied)
            &&& subnet.tao > 0 || implied > 0 || total >= subnet.alpha_in
            &&& is_dearer_price(subnet, implied, total, k)
        }),
    ensures
        ({
            let total = sum_over(
                owners(s, netuid),
                |c: AccountId| s.position(netuid, c).q_liability as int,
            );
            let after = settled(s, netuid, order);
            forall|c: AccountId|
                s.has_position(netuid, c) ==> {
                    let pos = materialized(s.position(netuid, c), s.agg(netuid).omega);
                    let paid = #[trigger] after.balance(c) - s.balance(c);
                    if k == u64::MAX {
                        paid == 0
                    } else {
                        pays_right(
                            paid,
                            pos.p_floor as int,
                            pos.r_stored as int,
                            pos.q_liability as int,
                            k as int,
                            total,
                            s.subnet(netuid).moving_price == 0,
                        )
                    }
                }
        }),
{
    let subnet = s.subnet(netuid);
    let all = owners(s, netuid);
    let q = |c: AccountId| s.position(netuid, c).q_liability as int;
    let total = sum_over(all, q);
    let owed = liabilities(s, netuid);
    lemma_owners_finite(s, netuid);
    assert(owed.dom() =~= all);
    lemma_sum_of_keys(owed);
    lemma_sum_over_agrees(all, |c: AccountId| owed[c] as int, q);
    law_price_is_the_dearer_cost(subnet, total, implied);
    let price = aggregate_price(subnet, total);
    assert(price == k) by {
        lemma_one_dearer_price(subnet, implied, total, k, price);
    }
    law_settlement_pays_everybody(s, netuid, order);
    let after = settled(s, netuid, order);
    assert forall|c: AccountId| s.has_position(netuid, c) implies {
        let pos = materialized(s.position(netuid, c), s.agg(netuid).omega);
        let paid = #[trigger] after.balance(c) - s.balance(c);
        if k == u64::MAX {
            paid == 0
        } else {
            pays_right(
                paid,
                pos.p_floor as int,
                pos.r_stored as int,
                pos.q_liability as int,
                k as int,
                total,
                s.subnet(netuid).moving_price == 0,
            )
        }
    } by {
        let pos = materialized(s.position(netuid, c), s.agg(netuid).omega);
        assert(s.position_bounded(netuid, c));
        lemma_materialized(s.position(netuid, c), s.agg(netuid).omega);
        assert(after.balance(c) == s.balance(c) + equity_of(s, netuid, c));
        assert(all.contains(c));
        let dues = |d: AccountId| due(s, netuid, d);
        assert forall|d: AccountId| all.contains(d) implies #[trigger] dues(d) >= 0 by {}
        lemma_sum_over_bound(all, dues, c);
        lemma_sum_over_agrees(all, dues, |d: AccountId| due(s, netuid, d));
        assert(dues(c) == due(s, netuid, c));
        law_position_is_paid_right(k, total, subnet.moving_price == 0, pos);
    }
}

/// Shorts that owe nothing together are paid all that they claim: their floors and their buffers, and
/// without a moving price their floors. Where the pool has no alpha, there is no price, and they are
/// paid nothing. So it is where custody holds what the shorts are due.
pub proof fn law_settlement_without_liabilities(s: State, netuid: u16, order: Seq<AccountId>)
    requires
        sound(s),
        s.subnet(netuid).bounded(),
        obligations(s, netuid) <= s.balance(s.custody(netuid)),
        settlement_apart(s, netuid),
        lists_owners(order, s, netuid),
        forall|c: AccountId| #[trigger] s.position_bounded(netuid, c),
        forall|c: AccountId| #[trigger]
            s.has_position(netuid, c) ==> s.position(netuid, c).q_liability == 0,
    ensures
        ({
            let after = settled(s, netuid, order);
            forall|c: AccountId|
                s.has_position(netuid, c) ==> {
                    let pos = materialized(s.position(netuid, c), s.agg(netuid).omega);
                    let paid = #[trigger] after.balance(c) - s.balance(c);
                    if s.subnet(netuid).alpha_in == 0 {
                        paid == 0
                    } else if s.subnet(netuid).moving_price == 0 {
                        paid == pos.p_floor
                    } else {
                        paid == pos.p_floor + pos.r_stored
                    }
                }
        }),
{
    let subnet = s.subnet(netuid);
    let all = owners(s, netuid);
    let owed = liabilities(s, netuid);
    lemma_owners_finite(s, netuid);
    assert(owed.dom() =~= all);
    lemma_sum_of_keys(owed);
    lemma_sum_over_agrees(all, |c: AccountId| owed[c] as int, |c: AccountId| 0int);
    lemma_sum_over_nothing(all);
    law_settlement_pays_everybody(s, netuid, order);
    let after = settled(s, netuid, order);
    let terms = terminal_terms(s, netuid);
    assert(terms.q_sigma == 0);
    if subnet.alpha_in > 0 {
        let d = subnet.alpha_in as int;
        lemma_ceiling(0, d);
        assert(subnet.tao * 0 == 0 && implied_reserve(subnet).floor_amount() * 0 == 0);
        assert(terms.k_sigma == 0) by {
            assert(0int / d == 0 && 0int % d == 0) by {
                vstd::arithmetic::div_mod::lemma_div_basics(d);
            }
        }
    }
    assert forall|c: AccountId| s.has_position(netuid, c) implies {
        let pos = materialized(s.position(netuid, c), s.agg(netuid).omega);
        let paid = #[trigger] after.balance(c) - s.balance(c);
        if subnet.alpha_in == 0 {
            paid == 0
        } else if subnet.moving_price == 0 {
            paid == pos.p_floor
        } else {
            paid == pos.p_floor + pos.r_stored
        }
    } by {
        assert(s.position_bounded(netuid, c));
        lemma_materialized(s.position(netuid, c), s.agg(netuid).omega);
        assert(after.balance(c) == s.balance(c) + equity_of(s, netuid, c));
        assert(all.contains(c));
        let dues = |d: AccountId| due(s, netuid, d);
        assert forall|d: AccountId| all.contains(d) implies #[trigger] dues(d) >= 0 by {}
        lemma_sum_over_bound(all, dues, c);
        lemma_sum_over_agrees(all, dues, |d: AccountId| due(s, netuid, d));
        assert(dues(c) == due(s, netuid, c));
    }
}

proof fn lemma_sum_over_nothing(accounts: Set<AccountId>)
    requires
        accounts.finite(),
    ensures
        sum_over(accounts, |c: AccountId| 0int) == 0,
    decreases accounts.len(),
{
    if accounts.len() > 0 {
        let c = accounts.choose();
        lemma_sum_over_nothing(accounts.remove(c));
    }
}

/// There is one such price.
proof fn lemma_one_dearer_price(subnet: Subnet, implied: int, q: int, a: u64, b: u64)
    requires
        is_dearer_price(subnet, implied, q, a),
        is_dearer_price(subnet, implied, q, b),
    ensures
        a == b,
{
    let left = subnet.alpha_in - q;
    if left > 0 {
        let (t, i) = (subnet.tao * q, implied * q);
        lemma_no_less_price(t, i, left, a as int, b as int);
        lemma_no_less_price(t, i, left, b as int, a as int);
    }
}

proof fn lemma_no_less_price(t: int, i: int, left: int, a: int, b: int)
    requires
        left > 0,
        a < u64::MAX ==> t <= a * left && i <= a * left,
        (b - 1) * left < t || (b - 1) * left < i,
        b <= u64::MAX,
        a <= u64::MAX,
    ensures
        b <= a,
{
    if b > a {
        assert((b - 1) * left >= a * left) by (nonlinear_arith)
            requires
                b - 1 >= a,
                left > 0,
        ;
    }
}

/// The settlement of one position books both sides, whatever custody holds: the escrow joins the
/// pool if custody holds it; the trader is paid if custody holds that as well; and what covers the
/// liability, as far as custody still holds it, leaves custody and the issuance. The position goes,
/// and nothing else changes.
pub proof fn law_settlement_of_one_books_both_sides(
    s: State,
    netuid: u16,
    coldkey: AccountId,
    terms: TerminalTerms,
)
    requires
        sound(s),
        s.has_position(netuid, coldkey),
        s.position_bounded(netuid, coldkey),
        s.subnet(netuid).account != s.custody(netuid),
        coldkey != s.custody(netuid),
        coldkey != s.subnet(netuid).account,
        s.position(netuid, coldkey).p_floor + s.position(netuid, coldkey).r_stored <= u64::MAX,
        terms.q_sigma > 0,
    ensures
        ({
            let after = settle_one(s, netuid, coldkey, terms);
            let was = materialized(s.position(netuid, coldkey), terms.omega);
            let (old_pool, pool) = (s.subnet(netuid), after.subnet(netuid));
            let custody = s.custody(netuid);
            let paid = after.balance(coldkey) - s.balance(coldkey);
            let returned = after.balance(old_pool.account) - s.balance(old_pool.account);
            let taken = s.total_issuance - after.total_issuance;
            let held = s.balance(custody);
            let (k, total) = (terms.k_sigma as int, terms.q_sigma as int);
            &&& returned == if held >= was.e_stored {
                was.e_stored as int
            } else {
                0
            }
            &&& k == u64::MAX ==> paid == 0
            &&& k < u64::MAX ==> paid == 0 || pays_right(
                paid,
                was.p_floor as int,
                was.r_stored as int,
                was.q_liability as int,
                k,
                total,
                terms.cold,
            )
            &&& k < u64::MAX && held - returned >= was.p_floor + was.r_stored ==> pays_right(
                paid,
                was.p_floor as int,
                was.r_stored as int,
                was.q_liability as int,
                k,
                total,
                terms.cold,
            ) && paid + taken == was.p_floor + was.r_stored
            &&& 0 <= taken && paid + taken <= was.p_floor + was.r_stored
            &&& after.balance(custody) == held - returned - paid - taken
            &&& old_pool.tao + returned <= u64::MAX ==> pool.tao == old_pool.tao + returned
            &&& s.total_stake + returned <= u64::MAX ==> after.total_stake == s.total_stake
                + returned
            &&& pool == (Subnet { tao: pool.tao, ..old_pool })
            &&& after.positions == s.positions.remove(OwnerKey { netuid, coldkey })
            &&& after.events.len() == s.events.len() + 1
            &&& (after.events.last() matches Event::ShortTerminalSettled {
                coldkey: c,
                netuid: n,
                equity,
                liability_cover: cover,
            } && c == coldkey && n == netuid && equity == paid && 0 <= taken <= cover && (taken
                == cover || after.balance(custody) == 0) && (held - returned >= was.p_floor
                + was.r_stored ==> cover == taken))
            &&& after == (State {
                balances: after.balances,
                subnets: after.subnets,
                total_issuance: after.total_issuance,
                total_stake: after.total_stake,
                positions: after.positions,
                events: after.events,
                ..s
            })
        }),
{
    let stored = s.position(netuid, coldkey);
    let pos = materialized(stored, terms.omega);
    lemma_materialized(stored, terms.omega);
    let custody = s.custody(netuid);
    let pool = s.subnet(netuid).account;
    let total = terms.q_sigma as int;
    law_position_is_paid_right(terms.k_sigma, total, terms.cold, pos);
    let equity = terminal_equity(terms.k_sigma, total, terms.cold, pos);
    let cover = terminal_cover(terms.k_sigma, total, terms.cold, pos);
    law_transfer_conserves(s.balances, custody, pool, pos.e_stored);
    let back = escrow_returned(s, netuid, pos.e_stored);
    assert(sound(back)) by {
        crate::storage::lemma_sum_bound(s.balances, custody);
    }
    assert(back.balance(coldkey) == s.balance(coldkey)) by {
        assert(amount_of(back.balances, coldkey) == amount_of(s.balances, coldkey));
    }
    law_transfer_conserves(back.balances, custody, coldkey, equity);
    let (paid, balances) = equity_paid(back, netuid, coldkey, equity);
    let mid = State { balances, ..back };
    assert(sound(mid));
    assert(mid.balance(pool) == back.balance(pool)) by {
        assert(amount_of(balances, pool) == amount_of(back.balances, pool));
    }
    assert(mid.custody(netuid) == custody);
    law_recycling_is_exact(mid, netuid, cover);
    let done = recycled(mid, netuid, cover);
    assert(done.balance(pool) == mid.balance(pool));
    assert(done.balance(coldkey) == mid.balance(coldkey));
    let after = settle_one(s, netuid, coldkey, terms);
    assert(after.balances == done.balances);
    assert(after.balance(custody) == done.balance(custody));
    assert(after.balance(pool) == done.balance(pool));
    assert(after.balance(coldkey) == done.balance(coldkey));
}

proof fn lemma_settle_each_frame(
    s: State,
    netuid: u16,
    order: Seq<AccountId>,
    terms: TerminalTerms,
)
    ensures
        ({
            let after = settle_each(s, netuid, order, terms);
            let pool = after.subnet(netuid);
            &&& after.events.len() == s.events.len() + order.len()
            &&& forall|i: int|
                0 <= i < s.events.len() ==> #[trigger] after.events[i] == s.events[i]
            &&& pool == (Subnet { tao: pool.tao, ..s.subnet(netuid) })
            &&& forall|k: u16| #![auto]
                k != netuid ==> after.subnet(k) == s.subnet(k) && after.subnets.contains_key(k)
                    == s.subnets.contains_key(k)
            &&& forall|k: OwnerKey|
                k.netuid != netuid ==> #[trigger] after.positions.contains_key(k)
                    == s.positions.contains_key(k) && after.positions[k] == s.positions[k]
            &&& after == (State {
                balances: after.balances,
                subnets: after.subnets,
                total_issuance: after.total_issuance,
                total_stake: after.total_stake,
                positions: after.positions,
                events: after.events,
                ..s
            })
        }),
    decreases order.len(),
{
    if order.len() > 0 {
        lemma_settle_each_frame(s, netuid, order.drop_last(), terms);
    }
}

/// The settlement of a subnet settles each of its shorts once, and says so once. It changes balances,
/// the issuance, the pool of the subnet and the total stake, drops the sums, the count and the
/// tracking of the subnet, and touches nothing else.
pub proof fn law_settlement_touches_nothing_else(s: State, netuid: u16, order: Seq<AccountId>)
    requires
        lists_owners(order, s, netuid),
    ensures
        ({
            let after = settled(s, netuid, order);
            let pool = after.subnet(netuid);
            &&& after.events.len() == s.events.len() + order.len()
            &&& forall|i: int|
                0 <= i < s.events.len() ==> #[trigger] after.events[i] == s.events[i]
            &&& pool == (Subnet { tao: pool.tao, ..s.subnet(netuid) })
            &&& forall|k: u16| #![auto]
                k != netuid ==> after.subnet(k) == s.subnet(k) && after.subnets.contains_key(k)
                    == s.subnets.contains_key(k)
            &&& forall|k: OwnerKey|
                k.netuid != netuid ==> #[trigger] after.positions.contains_key(k)
                    == s.positions.contains_key(k) && after.positions[k] == s.positions[k]
            &&& after == (State {
                balances: after.balances,
                subnets: after.subnets,
                total_issuance: after.total_issuance,
                total_stake: after.total_stake,
                positions: after.positions,
                events: after.events,
                aggregates: s.aggregates.remove(netuid),
                active: s.active.remove(netuid),
                counts: s.counts.remove(netuid),
                ..s
            })
        }),
{
    lemma_settle_each_frame(s, netuid, order, terminal_terms(s, netuid));
}

} // verus!
