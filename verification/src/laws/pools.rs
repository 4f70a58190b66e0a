//! The pools keep their accounts, and no pool account is a custody account.
use crate::accounts::{custody_of, AccountId, Origin};
use crate::close::{close_outcome, default_outcome};
use crate::decay::{decay_tick, decay_ticks};
use crate::laws::compounding::ticked;
use crate::open::{open_outcome, top_up_outcome};
use crate::pallet::{unknown_subnet, State};
use crate::settle::{settle_each, settled, terminal_terms, TerminalTerms};
use crate::types::{Params, Subnet};
use vstd::prelude::*;

verus! {

/// The pool account of no subnet is the custody account of any.
pub open spec fn pools_apart(s: State) -> bool {
    forall|m: u16, n: u16| (#[trigger] s.subnet(m)).account != #[trigger] s.custody(n)
}

/// Both states have the same pool and custody accounts.
pub open spec fn same_accounts(s: State, after: State) -> bool {
    &&& after.pallet_id == s.pallet_id
    &&& forall|m: u16| (#[trigger] after.subnet(m)).account == s.subnet(m).account
}

/// Where the pools are apart from custody they are so as long as the accounts stay.
pub proof fn law_same_accounts_stay_apart(s: State, after: State)
    requires
        pools_apart(s),
        same_accounts(s, after),
    ensures
        pools_apart(after),
{
    assert forall|m: u16, n: u16|
        (#[trigger] after.subnet(m)).account != #[trigger] after.custody(n) by {
        assert(s.subnet(m).account != s.custody(n));
    }
}

/// A subnet that is not there has no pool account that could be a custody account. So the pools are
/// apart from custody as soon as those are that are there; at the start none is.
pub proof fn law_known_pools_decide(s: State)
    ensures
        pools_apart(s) <==> (forall|m: u16, n: u16|
            s.subnets.contains_key(m) ==> (#[trigger] s.subnet(m)).account != #[trigger] s.custody(n)),
{
    assert forall|n: u16| unknown_subnet().account != #[trigger] custody_of(s.pallet_id, n) by {}
    if forall|m: u16, n: u16|
        s.subnets.contains_key(m) ==> (#[trigger] s.subnet(m)).account != #[trigger] s.custody(n) {
        assert forall|m: u16, n: u16|
            (#[trigger] s.subnet(m)).account != #[trigger] s.custody(n) by {
            assert(unknown_subnet().account != custody_of(s.pallet_id, n));
        }
    }
}

/// At the start the pools are apart from custody.
pub proof fn law_pools_are_apart_at_the_start(pallet_id: u64, params: Params)
    ensures
        pools_apart(State::initial(pallet_id, params)),
{
    law_known_pools_decide(State::initial(pallet_id, params));
}

/// Another subnet may come whose pool account is no custody account.
pub proof fn law_new_pool_stays_apart(s: State, netuid: u16, subnet: Subnet)
    requires
        pools_apart(s),
        forall|n: u16| subnet.account != #[trigger] s.custody(n),
    ensures
        pools_apart(State { subnets: s.subnets.insert(netuid, subnet), ..s }),
{
    let after = State { subnets: s.subnets.insert(netuid, subnet), ..s };
    assert forall|m: u16, n: u16|
        (#[trigger] after.subnet(m)).account != #[trigger] after.custody(n) by {
        assert(s.subnet(m).account != s.custody(n));
    }
}

/// Governance changes the parameters alone, and leaves the pools apart from custody.
pub proof fn law_parameters_keep_pools_apart(s: State, params: Params)
    requires
        pools_apart(s),
    ensures
        pools_apart(State { params, ..s }),
{
    law_same_accounts_stay_apart(s, State { params, ..s });
}

/// Opening, topping up, closing, defaulting and the decay of a block keep every account, and with
/// them the pools apart from custody.
pub proof fn law_operations_keep_pools_apart(
    s: State,
    origin: Origin,
    hotkey: AccountId,
    coldkey: AccountId,
    netuid: u16,
    amount: u64,
    max_q: u64,
)
    requires
        pools_apart(s),
    ensures
        open_outcome(s, origin, hotkey, netuid, amount, max_q) matches Ok(after) ==> pools_apart(
            after,
        ),
        top_up_outcome(s, origin, netuid, amount) matches Ok(after) ==> pools_apart(after),
        close_outcome(s, origin, netuid, amount) matches Ok(after) ==> pools_apart(after),
        default_outcome(s, origin, coldkey, netuid) matches Ok(after) ==> pools_apart(after),
        pools_apart(decay_tick(s, netuid)),
{
    if let Ok(after) = open_outcome(s, origin, hotkey, netuid, amount, max_q) {
        law_same_accounts_stay_apart(s, after);
    }
    if let Ok(after) = top_up_outcome(s, origin, netuid, amount) {
        law_same_accounts_stay_apart(s, after);
    }
    if let Ok(after) = close_outcome(s, origin, netuid, amount) {
        law_same_accounts_stay_apart(s, after);
    }
    if let Ok(after) = default_outcome(s, origin, coldkey, netuid) {
        law_same_accounts_stay_apart(s, after);
    }
    law_same_accounts_stay_apart(s, decay_tick(s, netuid));
}

/// So does the decay of a block on many subnets, and that of many blocks.
pub proof fn law_decay_keeps_pools_apart(s: State, order: Seq<u16>, netuid: u16, k: nat)
    requires
        pools_apart(s),
    ensures
        pools_apart(decay_ticks(s, order)),
        pools_apart(ticked(s, netuid, k)),
    decreases order.len() + k,
{
    if order.len() > 0 {
        law_decay_keeps_pools_apart(s, order.drop_last(), netuid, k);
        law_same_accounts_stay_apart(
            decay_ticks(s, order.drop_last()),
            decay_ticks(s, order),
        );
    } else if k > 0 {
        law_decay_keeps_pools_apart(s, order, netuid, (k - 1) as nat);
        law_same_accounts_stay_apart(ticked(s, netuid, (k - 1) as nat), ticked(s, netuid, k));
    }
}

proof fn lemma_settle_each_keeps_accounts(
    s: State,
    netuid: u16,
    order: Seq<AccountId>,
    terms: TerminalTerms,
)
    ensures
        same_accounts(s, settle_each(s, netuid, order, terms)),
    decreases order.len(),
{
    if order.len() > 0 {
        lemma_settle_each_keeps_accounts(s, netuid, order.drop_last(), terms);
        let t = settle_each(s, netuid, order.drop_last(), terms);
        let after = settle_each(s, netuid, order, terms);
        assert forall|m: u16| (#[trigger] after.subnet(m)).account == s.subnet(m).account by {
            assert(t.subnet(m).account == s.subnet(m).account);
        }
    }
}

/// So does the settlement of a subnet.
pub proof fn law_settlement_keeps_pools_apart(s: State, netuid: u16, order: Seq<AccountId>)
    requires
        pools_apart(s),
    ensures
        pools_apart(settled(s, netuid, order)),
{
    lemma_settle_each_keeps_accounts(s, netuid, order, terminal_terms(s, netuid));
    let each = settle_each(s, netuid, order, terminal_terms(s, netuid));
    let after = settled(s, netuid, order);
    assert forall|m: u16| (#[trigger] after.subnet(m)).account == s.subnet(m).account by {
        assert(each.subnet(m).account == s.subnet(m).account);
    }
    law_same_accounts_stay_apart(s, after);
}

} // verus!
