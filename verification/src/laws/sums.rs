//! Sums over the owners of positions.
use crate::accounts::AccountId;
use crate::storage::sum_of;
use vstd::prelude::*;

verus! {

/// The sum of `g` over finitely many accounts.
pub open spec fn sum_over(accounts: Set<AccountId>, g: spec_fn(AccountId) -> int) -> int
    decreases accounts.len(),
    when accounts.finite()
{
    if accounts.len() == 0 {
        0
    } else {
        let c = accounts.choose();
        g(c) + sum_over(accounts.remove(c), g)
    }
}

/// The summand of an account can be split off.
pub proof fn lemma_sum_over_remove(
    accounts: Set<AccountId>,
    g: spec_fn(AccountId) -> int,
    account: AccountId,
)
    requires
        accounts.finite(),
        accounts.contains(account),
    ensures
        sum_over(accounts, g) == g(account) + sum_over(accounts.remove(account), g),
    decreases accounts.len(),
{
    let c = accounts.choose();
    if c != account {
        lemma_sum_over_remove(accounts.remove(c), g, account);
        lemma_sum_over_remove(accounts.remove(account), g, c);
        assert(accounts.remove(c).remove(account) =~= accounts.remove(account).remove(c));
    }
}

/// Another account adds its summand.
pub proof fn lemma_sum_over_insert(
    accounts: Set<AccountId>,
    g: spec_fn(AccountId) -> int,
    account: AccountId,
)
    requires
        accounts.finite(),
        !accounts.contains(account),
    ensures
        sum_over(accounts.insert(account), g) == g(account) + sum_over(accounts, g),
{
    lemma_sum_over_remove(accounts.insert(account), g, account);
    assert(accounts.insert(account).remove(account) =~= accounts);
}

/// Sums of summands that are no greater are no greater.
pub proof fn lemma_sum_over_ordered(
    accounts: Set<AccountId>,
    g: spec_fn(AccountId) -> int,
    h: spec_fn(AccountId) -> int,
)
    requires
        accounts.finite(),
        forall|c: AccountId| accounts.contains(c) ==> #[trigger] g(c) <= h(c),
    ensures
        sum_over(accounts, g) <= sum_over(accounts, h),
    decreases accounts.len(),
{
    if accounts.len() > 0 {
        let c = accounts.choose();
        assert(g(c) <= h(c));
        lemma_sum_over_ordered(accounts.remove(c), g, h);
    }
}

/// Sums of the same summands are the same.
pub proof fn lemma_sum_over_agrees(
    accounts: Set<AccountId>,
    g: spec_fn(AccountId) -> int,
    h: spec_fn(AccountId) -> int,
)
    requires
        accounts.finite(),
        forall|c: AccountId| accounts.contains(c) ==> #[trigger] g(c) == h(c),
    ensures
        sum_over(accounts, g) == sum_over(accounts, h),
    decreases accounts.len(),
{
    if accounts.len() > 0 {
        let c = accounts.choose();
        assert(g(c) == h(c));
        lemma_sum_over_agrees(accounts.remove(c), g, h);
    }
}

/// The sum of sums.
pub proof fn lemma_sum_over_plus(
    accounts: Set<AccountId>,
    g: spec_fn(AccountId) -> int,
    h: spec_fn(AccountId) -> int,
)
    requires
        accounts.finite(),
    ensures
        sum_over(accounts, |c: AccountId| g(c) + h(c)) == sum_over(accounts, g) + sum_over(
            accounts,
            h,
        ),
    decreases accounts.len(),
{
    if accounts.len() > 0 {
        lemma_sum_over_plus(accounts.remove(accounts.choose()), g, h);
    }
}

/// A common factor can be taken out of a sum.
pub proof fn lemma_sum_over_times(accounts: Set<AccountId>, g: spec_fn(AccountId) -> int, k: int)
    requires
        accounts.finite(),
    ensures
        sum_over(accounts, |c: AccountId| g(c) * k) == sum_over(accounts, g) * k,
    decreases accounts.len(),
{
    if accounts.len() > 0 {
        let c = accounts.choose();
        lemma_sum_over_times(accounts.remove(c), g, k);
        let rest = sum_over(accounts.remove(c), g);
        assert((g(c) + rest) * k == g(c) * k + rest * k) by (nonlinear_arith);
    } else {
        assert(0 * k == 0) by (nonlinear_arith);
    }
}

/// A sum of summands that are not negative is not negative, and no less than each of them.
pub proof fn lemma_sum_over_bound(
    accounts: Set<AccountId>,
    g: spec_fn(AccountId) -> int,
    account: AccountId,
)
    requires
        accounts.finite(),
        forall|c: AccountId| accounts.contains(c) ==> #[trigger] g(c) >= 0,
    ensures
        sum_over(accounts, g) >= 0,
        accounts.contains(account) ==> sum_over(accounts, g) >= g(account),
    decreases accounts.len(),
{
    if accounts.contains(account) {
        lemma_sum_over_remove(accounts, g, account);
        lemma_sum_over_bound(accounts.remove(account), g, account);
    } else if accounts.len() > 0 {
        let c = accounts.choose();
        assert(g(c) >= 0);
        lemma_sum_over_bound(accounts.remove(c), g, account);
    }
}

/// The sum of the amounts of a map is the sum over its keys.
pub proof fn lemma_sum_of_keys(amounts: Map<AccountId, u64>)
    requires
        amounts.dom().finite(),
    ensures
        sum_of(amounts) == sum_over(amounts.dom(), |c: AccountId| amounts[c] as int),
    decreases amounts.dom().len(),
{
    if amounts.dom().len() > 0 {
        let c = amounts.dom().choose();
        let rest = amounts.remove(c);
        lemma_sum_of_keys(rest);
        assert(rest.dom() =~= amounts.dom().remove(c));
        lemma_sum_over_agrees(
            rest.dom(),
            |k: AccountId| rest[k] as int,
            |k: AccountId| amounts[k] as int,
        );
    }
}

} // verus!
