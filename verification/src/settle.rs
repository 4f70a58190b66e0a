//! The terminal settlement of the shorts of a subnet that is deregistered.
use crate::accounts::{AccountId, OwnerKey};
use crate::fixed::Fixed;
use crate::math::{
    aggregate_price, materialize_short, materialized, terminal_cover, terminal_equity,
    terminal_price, terminal_split,
};
use crate::pallet::{pool_credited, recycled, transfer_tao, transferred, Pallet, State};
use crate::storage::{lemma_sum_remove, sum_of};
use crate::types::Event;
use vstd::prelude::*;

verus! {

/// What every position of a subnet is settled by: taken once, before anything moves, so that no
/// position is priced on what the settlement of another has left.
#[derive(Clone, Copy, Debug, PartialEq, Eq, Structural)]
pub struct TerminalTerms {
    /// The price of buying back all liabilities at once.
    pub k_sigma: u64,
    /// The sum of all liabilities.
    pub q_sigma: u128,
    /// There is no moving price.
    pub cold: bool,
    /// The decay accumulator.
    pub omega: Fixed,
}

/// The liabilities of the shorts of a subnet.
pub open spec fn liabilities(s: State, netuid: u16) -> Map<AccountId, u64> {
    Map::new(
        |coldkey: AccountId| s.has_position(netuid, coldkey),
        |coldkey: AccountId| s.position(netuid, coldkey).q_liability,
    )
}

/// The terms on which the shorts of a subnet are settled.
pub open spec fn terminal_terms(s: State, netuid: u16) -> TerminalTerms {
    let q_sigma = sum_of(liabilities(s, netuid));
    TerminalTerms {
        k_sigma: aggregate_price(s.subnet(netuid), q_sigma),
        q_sigma: q_sigma as u128,
        cold: s.subnet(netuid).moving_price == 0,
        omega: s.agg(netuid).omega,
    }
}

/// The state after the escrow of a position has gone back to the pool, as far as custody holds it.
pub open spec fn escrow_returned(s: State, netuid: u16, escrow: u64) -> State {
    if escrow == 0 {
        s
    } else {
        match transferred(s.balances, s.custody(netuid), s.subnet(netuid).account, escrow) {
            Err(_) => s,
            Ok(balances) => State { balances, ..pool_credited(s, netuid, escrow) },
        }
    }
}

/// What is paid of the equity, and the balances after that: all of it, or nothing where custody
/// does not hold it.
pub open spec fn equity_paid(s: State, netuid: u16, coldkey: AccountId, equity: u64) -> (
    u64,
    Map<AccountId, u64>,
) {
    if equity == 0 {
        (0, s.balances)
    } else {
        match transferred(s.balances, s.custody(netuid), coldkey, equity) {
            Err(_) => (0, s.balances),
            Ok(balances) => (equity, balances),
        }
    }
}

/// The state after the settlement of one position: the escrow joins the pool, the equity goes to
/// the trader, and what covers the liability is recycled.
pub open spec fn settle_one(
    s: State,
    netuid: u16,
    coldkey: AccountId,
    terms: TerminalTerms,
) -> State {
    let pos = materialized(s.position(netuid, coldkey), terms.omega);
    let equity = terminal_equity(terms.k_sigma, terms.q_sigma as int, terms.cold, pos);
    let cover = terminal_cover(terms.k_sigma, terms.q_sigma as int, terms.cold, pos);
    let returned = escrow_returned(s, netuid, pos.e_stored);
    let (paid, balances) = equity_paid(returned, netuid, coldkey, equity);
    let covered = recycled(State { balances, ..returned }, netuid, cover);
    State {
        positions: s.positions.remove(OwnerKey { netuid, coldkey }),
        events: s.events.push(
            Event::ShortTerminalSettled { coldkey, netuid, equity: paid, liability_cover: cover },
        ),
        ..covered
    }
}

/// The state after the settlement of the given positions, one after the other.
pub open spec fn settle_each(
    s: State,
    netuid: u16,
    order: Seq<AccountId>,
    terms: TerminalTerms,
) -> State
    decreases order.len(),
{
    if order.len() == 0 {
        s
    } else {
        settle_one(settle_each(s, netuid, order.drop_last(), terms), netuid, order.last(), terms)
    }
}

/// The state without the sums and the custody of a subnet; what custody still holds is recycled.
pub open spec fn swept(s: State, netuid: u16) -> State {
    let drained = recycled(s, netuid, u64::MAX);
    State {
        aggregates: drained.aggregates.remove(netuid),
        active: drained.active.remove(netuid),
        counts: drained.counts.remove(netuid),
        ..drained
    }
}

/// The list names each owner of a short on the subnet once, and nobody else.
pub open spec fn lists_owners(order: Seq<AccountId>, s: State, netuid: u16) -> bool {
    order.no_duplicates() && forall|coldkey: AccountId|
        order.contains(coldkey) <==> #[trigger] s.has_position(netuid, coldkey)
}

/// The state after all shorts of a subnet are settled in the given order.
pub open spec fn settled(s: State, netuid: u16, order: Seq<AccountId>) -> State {
    swept(settle_each(s, netuid, order, terminal_terms(s, netuid)), netuid)
}

/// The sum of the amounts under the listed keys.
pub open spec fn listed_sum<K>(amounts: Map<K, u64>, order: Seq<K>) -> int
    decreases order.len(),
{
    if order.len() == 0 {
        0
    } else {
        listed_sum(amounts, order.drop_last()) + amounts[order.last()]
    }
}

proof fn lemma_listed_sum_agrees<K>(a: Map<K, u64>, b: Map<K, u64>, order: Seq<K>)
    requires
        forall|k: K| order.contains(k) ==> a[k] == b[k],
    ensures
        listed_sum(a, order) == listed_sum(b, order),
    decreases order.len(),
{
    if order.len() > 0 {
        let less = order.drop_last();
        assert forall|k: K| less.contains(k) implies a[k] == b[k] by {
            let i = choose|i: int| 0 <= i < less.len() && less[i] == k;
            assert(order[i] == k);
        }
        assert(order.contains(order[order.len() - 1]));
        lemma_listed_sum_agrees(a, b, less);
    }
}

/// The sum of all amounts is the sum over a list of their keys.
pub proof fn lemma_listed_sum<K>(amounts: Map<K, u64>, order: Seq<K>)
    requires
        order.no_duplicates(),
        forall|k: K| order.contains(k) <==> amounts.contains_key(k),
    ensures
        amounts.dom().finite(),
        sum_of(amounts) == listed_sum(amounts, order),
    decreases order.len(),
{
    assert(amounts.dom() =~= order.to_set());
    vstd::seq_lib::seq_to_set_is_finite(order);
    if order.len() == 0 {
        assert(amounts.dom() =~= Set::empty());
    } else {
        let less = order.drop_last();
        let last = order.last();
        let rest = amounts.remove(last);
        assert(order.contains(order[order.len() - 1]));
        assert forall|k: K| less.contains(k) <==> rest.contains_key(k) by {
            if less.contains(k) {
                let i = choose|i: int| 0 <= i < less.len() && less[i] == k;
                assert(order[i] == k && order[order.len() - 1] == last);
                assert(order.contains(k));
            }
            if rest.contains_key(k) {
                assert(order.contains(k));
                let i = choose|i: int| 0 <= i < order.len() && order[i] == k;
                assert(less[i] == k);
            }
        }
        assert(less.no_duplicates());
        lemma_listed_sum(rest, less);
        lemma_sum_remove(amounts, last);
        lemma_listed_sum_agrees(rest, amounts, less);
    }
}

/// What a list holds after one more.
pub proof fn lemma_push_contains<A>(s: Seq<A>, a: A)
    ensures
        forall|b: A| #[trigger] s.push(a).contains(b) <==> s.contains(b) || b == a,
{
    let t = s.push(a);
    assert forall|b: A| #[trigger] t.contains(b) <==> s.contains(b) || b == a by {
        if s.contains(b) {
            let j = choose|j: int| 0 <= j < s.len() && s[j] == b;
            assert(t[j] == b);
        }
        if b == a {
            assert(t[s.len() as int] == b);
        }
        if t.contains(b) && b != a {
            let j = choose|j: int| 0 <= j < t.len() && t[j] == b;
            assert(s[j] == b);
        }
    }
}

/// What the settlement of some positions leaves alone.
pub proof fn lemma_settle_apart(
    s: State,
    netuid: u16,
    order: Seq<AccountId>,
    terms: TerminalTerms,
    other: OwnerKey,
)
    requires
        !order.contains(other.coldkey),
    ensures
        settle_each(s, netuid, order, terms).positions.contains_key(other)
            == s.positions.contains_key(other),
        settle_each(s, netuid, order, terms).positions[other] == s.positions[other],
        settle_each(s, netuid, order, terms).pallet_id == s.pallet_id,
    decreases order.len(),
{
    if order.len() > 0 {
        let less = order.drop_last();
        assert(order.contains(order[order.len() - 1]));
        assert forall|k: AccountId| less.contains(k) implies order.contains(k) by {
            let i = choose|i: int| 0 <= i < less.len() && less[i] == k;
            assert(order[i] == k);
        }
        lemma_settle_apart(s, netuid, less, terms, other);
    }
}

impl Pallet {
    /// The owners of the shorts of a subnet, in no particular order, and the sum of what they
    /// owe.
    fn short_owners(&self, netuid: u16) -> (r: (Vec<AccountId>, u128))
        ensures
            lists_owners(r.0@, self@, netuid),
            liabilities(self@, netuid).dom().finite(),
            r.1 == sum_of(liabilities(self@, netuid)),
    {
        let keys = self.positions.keys();
        let mut owners: Vec<AccountId> = Vec::new();
        let mut q_sigma: u128 = 0;
        let mut i: usize = 0;
        let ghost owed = liabilities(self@, netuid);
        while i < keys.len()
            invariant
                i <= keys@.len(),
                owners@.len() <= i,
                keys@.no_duplicates(),
                forall|k: OwnerKey| keys@.contains(k) <==> self@.positions.contains_key(k),
                owed == liabilities(self@, netuid),
                owners@.no_duplicates(),
                forall|c: AccountId|
                    owners@.contains(c) <==> keys@.take(i as int).contains(
                        OwnerKey { netuid, coldkey: c },
                    ),
                q_sigma == listed_sum(owed, owners@),
                q_sigma <= owners@.len() * u64::MAX,
            decreases keys@.len() - i,
        {
            let key = keys[i];
            let ghost before = owners@;
            let ghost seen = keys@.take(i as int);
            proof {
                assert(keys@.contains(key)) by {
                    assert(keys@[i as int] == key);
                }
                assert(keys@.take(i + 1) =~= seen.push(key));
                lemma_push_contains(seen, key);
                assert(!seen.contains(key)) by {
                    if seen.contains(key) {
                        let j = choose|j: int| 0 <= j < seen.len() && seen[j] == key;
                        assert(keys@[j] == keys@[i as int]);
                    }
                }
            }
            if key.netuid == netuid {
                let owes = match self.positions.get(&key) {
                    Some(pos) => pos.q_liability,
                    None => 0,
                };
                proof {
                    assert(key == OwnerKey { netuid, coldkey: key.coldkey });
                    assert(owed[key.coldkey] == owes);
                    assert(!before.contains(key.coldkey));
                    assert(before.len() * u64::MAX + owes <= (before.len() + 1) * u64::MAX
                        && (before.len() + 1) * u64::MAX <= u128::MAX) by (nonlinear_arith)
                        requires
                            0 <= before.len() <= u64::MAX,
                            owes <= u64::MAX,
                    ;
                }
                owners.push(key.coldkey);
                q_sigma = q_sigma + owes as u128;
                proof {
                    assert(owners@.drop_last() =~= before);
                    lemma_push_contains(before, key.coldkey);
                }
            }
            i = i + 1;
        }
        proof {
            assert(keys@.take(i as int) =~= keys@);
            assert forall|c: AccountId| owners@.contains(c) <==> #[trigger] self@.has_position(
                netuid,
                c,
            ) by {
                assert(keys@.contains(OwnerKey { netuid, coldkey: c })
                    <==> self@.positions.contains_key(OwnerKey { netuid, coldkey: c }));
            }
            lemma_listed_sum(owed, owners@);
        }
        (owners, q_sigma)
    }

    /// Settle one position on the given terms.
    pub fn settle_short(&mut self, netuid: u16, coldkey: AccountId, terms: &TerminalTerms)
        requires
            old(self)@.has_position(netuid, coldkey),
            old(self)@.position_bounded(netuid, coldkey),
        ensures
            final(self)@ == settle_one(old(self)@, netuid, coldkey, *terms),
    {
        let key = OwnerKey { netuid, coldkey };
        let mut pos = match self.positions.get(&key) {
            Some(pos) => *pos,
            None => return,
        };
        materialize_short(&mut pos, terms.omega);
        let custody = self.short_custody_account(netuid);
        let pool = self.subnet_or_empty(netuid).account;
        if pos.e_stored != 0 {
            if let Ok(()) = transfer_tao(&mut self.balances, custody, pool, pos.e_stored) {
                self.credit_pool(netuid, pos.e_stored);
            }
        }
        let (equity, cover) = terminal_split(terms.k_sigma, terms.q_sigma, terms.cold, &pos);
        let mut paid: u64 = 0;
        if equity != 0 {
            if let Ok(()) = transfer_tao(&mut self.balances, custody, coldkey, equity) {
                paid = equity;
            }
        }
        self.recycle_custody_tao(netuid, cover);
        self.positions.remove(&key);
        self.events.push(
            Event::ShortTerminalSettled { coldkey, netuid, equity: paid, liability_cover: cover },
        );
    }

    /// Settle all shorts of a subnet that is deregistered, while its pool still stands. The
    /// owners come in no particular order.
    pub fn settle_shorts_on_dereg(&mut self, netuid: u16)
        requires
            old(self)@.subnet(netuid).bounded(),
            old(self)@.subnets.contains_key(netuid) ==> forall|coldkey: AccountId| #[trigger]
                old(self)@.position_bounded(netuid, coldkey),
        ensures
            if old(self)@.subnets.contains_key(netuid) {
                exists|order: Seq<AccountId>|
                    lists_owners(order, old(self)@, netuid) && final(self)@ == #[trigger] settled(
                        old(self)@,
                        netuid,
                        order,
                    )
            } else {
                final(self)@ == old(self)@
            },
    {
        let subnet = match self.subnets.get(&netuid) {
            Some(subnet) => *subnet,
            None => return,
        };
        let ghost before = self@;
        let (owners, q_sigma) = self.short_owners(netuid);
        let terms = TerminalTerms {
            k_sigma: terminal_price(&subnet, q_sigma),
            q_sigma,
            cold: subnet.moving_price == 0,
            omega: self.aggregate(netuid).omega,
        };
        let mut i: usize = 0;
        assert(owners@.take(0) =~= Seq::<AccountId>::empty());
        while i < owners.len()
            invariant
                i <= owners@.len(),
                lists_owners(owners@, before, netuid),
                forall|coldkey: AccountId| #[trigger] before.position_bounded(netuid, coldkey),
                self@ == settle_each(before, netuid, owners@.take(i as int), terms),
            decreases owners@.len() - i,
        {
            let coldkey = owners[i];
            proof {
                let done = owners@.take(i as int);
                assert(owners@.take(i + 1).drop_last() =~= done);
                assert(owners@.contains(coldkey)) by {
                    assert(owners@[i as int] == coldkey);
                }
                assert(before.has_position(netuid, coldkey));
                assert(before.position_bounded(netuid, coldkey));
                assert(!done.contains(coldkey)) by {
                    if done.contains(coldkey) {
                        let j = choose|j: int| 0 <= j < done.len() && done[j] == coldkey;
                        assert(owners@[j] == owners@[i as int]);
                    }
                }
                lemma_settle_apart(before, netuid, done, terms, OwnerKey { netuid, coldkey });
            }
            self.settle_short(netuid, coldkey, &terms);
            i = i + 1;
        }
        assert(owners@.take(i as int) =~= owners@);
        self.recycle_custody_tao(netuid, u64::MAX);
        self.aggregates.remove(&netuid);
        self.active.remove(&netuid);
        self.counts.remove(&netuid);
        proof {
            let expected = settled(before, netuid, owners@);
            assert(self@.active =~= expected.active);
            assert(self@ =~= expected);
            assert(lists_owners(owners@, before, netuid) && self@ == settled(
                before,
                netuid,
                owners@,
            ));
        }
    }
}

} // verus!
