//! The state of the short side and of what it touches, and the basic moves on it.
use crate::accounts::{custody_account, custody_of, AccountId, OwnerKey, StakeKey};
use crate::fixed::{fits, Fixed, AMOUNT_LIMIT};
use crate::storage::{amount_of, no_zero, with_amount, Amounts, StorageMap};
use crate::types::{Error, Event, Params, ShortAgg, ShortPosition, Subnet};
use vstd::prelude::*;

verus! {

/// The sum, at most `u64::MAX`.
pub open spec fn sat_add(a: u64, b: u64) -> u64 {
    if a + b > u64::MAX {
        u64::MAX
    } else {
        (a + b) as u64
    }
}

/// The difference, at least zero.
pub open spec fn sat_sub(a: u64, b: u64) -> u64 {
    if a < b {
        0
    } else {
        (a - b) as u64
    }
}

/// What the contracts see of a [`Pallet`].
#[verifier::ext_equal]
pub struct State {
    pub pallet_id: u64,
    pub params: Params,
    pub block: u64,
    pub subnets: Map<u16, Subnet>,
    pub balances: Map<AccountId, u64>,
    pub total_issuance: u64,
    pub total_stake: u64,
    pub stakes: Map<StakeKey, u64>,
    pub coldkey_stakes: Map<OwnerKey, u64>,
    pub locks: Map<OwnerKey, u64>,
    pub positions: Map<OwnerKey, ShortPosition>,
    pub counts: Map<u16, u32>,
    pub aggregates: Map<u16, ShortAgg>,
    pub active: Set<u16>,
    pub events: Seq<Event>,
}

/// Covered shorts, with the ledger that they move.
pub struct Pallet {
    /// The identifier from which the custody accounts are made.
    pub pallet_id: u64,
    pub params: Params,
    /// The current block.
    pub block: u64,
    pub subnets: StorageMap<u16, Subnet>,
    /// The TAO of each account.
    pub balances: Amounts<AccountId>,
    pub total_issuance: u64,
    pub total_stake: u64,
    /// The alpha of a coldkey at a hotkey on a subnet.
    pub stakes: Amounts<StakeKey>,
    /// The alpha of a coldkey on a subnet.
    pub coldkey_stakes: Amounts<OwnerKey>,
    /// The alpha of a coldkey on a subnet that may not be unstaked.
    pub locks: Amounts<OwnerKey>,
    pub positions: StorageMap<OwnerKey, ShortPosition>,
    /// How many positions a subnet has.
    pub counts: StorageMap<u16, u32>,
    pub aggregates: StorageMap<u16, ShortAgg>,
    /// The subnets that the decay visits.
    pub active: StorageMap<u16, ()>,
    pub events: Vec<Event>,
}

impl View for Pallet {
    type V = State;

    open spec fn view(&self) -> State {
        State {
            pallet_id: self.pallet_id,
            params: self.params,
            block: self.block,
            subnets: self.subnets@,
            balances: self.balances@,
            total_issuance: self.total_issuance,
            total_stake: self.total_stake,
            stakes: self.stakes@,
            coldkey_stakes: self.coldkey_stakes@,
            locks: self.locks@,
            positions: self.positions@,
            counts: self.counts@,
            aggregates: self.aggregates@,
            active: self.active@.dom(),
            events: self.events@,
        }
    }
}

/// A subnet of which nothing is known.
pub open spec fn unknown_subnet() -> Subnet {
    Subnet {
        mechanism: 0,
        tao: 0,
        alpha_in: 0,
        alpha_out: 0,
        moving_price: 0,
        account: AccountId { lo: 0, hi: 0 },
    }
}

impl State {
    /// A state without subnets, accounts or positions.
    pub open spec fn initial(pallet_id: u64, params: Params) -> State {
        State {
            pallet_id,
            params,
            block: 0,
            subnets: Map::empty(),
            balances: Map::empty(),
            total_issuance: 0,
            total_stake: 0,
            stakes: Map::empty(),
            coldkey_stakes: Map::empty(),
            locks: Map::empty(),
            positions: Map::empty(),
            counts: Map::empty(),
            aggregates: Map::empty(),
            active: Set::empty(),
            events: Seq::empty(),
        }
    }

    /// The subnet, and an empty one where there is none.
    pub open spec fn subnet(self, netuid: u16) -> Subnet {
        if self.subnets.contains_key(netuid) {
            self.subnets[netuid]
        } else {
            unknown_subnet()
        }
    }

    /// The sums of a subnet.
    pub open spec fn agg(self, netuid: u16) -> ShortAgg {
        if self.aggregates.contains_key(netuid) {
            self.aggregates[netuid]
        } else {
            ShortAgg::none()
        }
    }

    /// The number of positions on a subnet.
    pub open spec fn count(self, netuid: u16) -> u32 {
        if self.counts.contains_key(netuid) {
            self.counts[netuid]
        } else {
            0
        }
    }

    /// The custody account of a subnet.
    pub open spec fn custody(self, netuid: u16) -> AccountId {
        custody_of(self.pallet_id, netuid)
    }

    /// The TAO of an account.
    pub open spec fn balance(self, account: AccountId) -> u64 {
        amount_of(self.balances, account)
    }

    /// The alpha of a coldkey at a hotkey on a subnet.
    pub open spec fn stake(self, netuid: u16, hotkey: AccountId, coldkey: AccountId) -> u64 {
        amount_of(self.stakes, StakeKey { netuid, hotkey, coldkey })
    }

    /// The alpha of a coldkey on a subnet that may be unstaked.
    pub open spec fn unlocked(self, netuid: u16, coldkey: AccountId) -> u64 {
        let key = OwnerKey { netuid, coldkey };
        sat_sub(amount_of(self.coldkey_stakes, key), amount_of(self.locks, key))
    }

    /// The coldkey has a short on the subnet.
    pub open spec fn has_position(self, netuid: u16, coldkey: AccountId) -> bool {
        self.positions.contains_key(OwnerKey { netuid, coldkey })
    }

    /// The short of the coldkey on the subnet, as it is stored.
    pub open spec fn position(self, netuid: u16, coldkey: AccountId) -> ShortPosition {
        self.positions[OwnerKey { netuid, coldkey }]
    }

    /// The market of a subnet and its footprint fit the arithmetic, and the parameters are in
    /// range.
    pub open spec fn market_bounded(self, netuid: u16) -> bool {
        self.params.valid() && self.subnet(netuid).bounded() && fits(self.agg(netuid).b_sigma)
    }

    /// So do all sums of the subnet that decay.
    pub open spec fn decay_bounded(self, netuid: u16) -> bool {
        self.market_bounded(netuid) && self.agg(netuid).bounded()
    }

    /// What decays of the position fits the arithmetic, if there is one.
    pub open spec fn position_bounded(self, netuid: u16, coldkey: AccountId) -> bool {
        self.has_position(netuid, coldkey) ==> self.position(netuid, coldkey).bounded()
    }

    /// All amounts of the position fit the arithmetic, if there is one.
    pub open spec fn position_wholly_bounded(self, netuid: u16, coldkey: AccountId) -> bool {
        self.has_position(netuid, coldkey) ==> self.position(netuid, coldkey).wholly_bounded()
    }
}

/// The balances after moving an amount: the sender has to hold it, and the receiver has to be
/// able to.
pub open spec fn transferred(
    balances: Map<AccountId, u64>,
    from: AccountId,
    to: AccountId,
    amount: u64,
) -> Result<Map<AccountId, u64>, Error> {
    if amount_of(balances, from) < amount {
        Err(Error::InsufficientBalance)
    } else {
        let taken = with_amount(balances, from, (amount_of(balances, from) - amount) as u64);
        if amount_of(taken, to) + amount > u64::MAX {
            Err(Error::BalanceOverflow)
        } else {
            Ok(with_amount(taken, to, (amount_of(taken, to) + amount) as u64))
        }
    }
}

/// The state after taking up to `amount` out of the custody account of a subnet and out of the
/// issuance.
pub open spec fn recycled(s: State, netuid: u16, amount: u64) -> State {
    let custody = s.custody(netuid);
    let held = s.balance(custody);
    let taken = if held < amount {
        held
    } else {
        amount
    };
    if amount == 0 {
        s
    } else {
        State {
            balances: with_amount(s.balances, custody, (held - taken) as u64),
            total_issuance: sat_sub(s.total_issuance, taken),
            ..s
        }
    }
}

/// The state after TAO has come to the pool of a subnet, other than the balances.
pub open spec fn pool_credited(s: State, netuid: u16, amount: u64) -> State {
    State {
        subnets: s.subnets.insert(
            netuid,
            Subnet { tao: sat_add(s.subnet(netuid).tao, amount), ..s.subnet(netuid) },
        ),
        total_stake: sat_add(s.total_stake, amount),
        ..s
    }
}

/// A call ended as `outcome` says: with the new state, or with the error and nothing changed.
pub open spec fn follows(
    before: State,
    after: State,
    r: Result<(), Error>,
    outcome: Result<State, Error>,
) -> bool {
    match r {
        Ok(()) => outcome == Ok::<State, Error>(after),
        Err(e) => outcome == Err::<State, Error>(e) && after == before,
    }
}

/// Putting back what two accounts held before a transfer undoes it.
pub proof fn lemma_transfer_undone(
    balances: Map<AccountId, u64>,
    from: AccountId,
    to: AccountId,
    amount: u64,
)
    requires
        no_zero(balances),
        transferred(balances, from, to, amount) is Ok,
    ensures
        ({
            let after = transferred(balances, from, to, amount)->Ok_0;
            with_amount(
                with_amount(after, from, amount_of(balances, from)),
                to,
                amount_of(balances, to),
            ) == balances
        }),
{
    let after = transferred(balances, from, to, amount)->Ok_0;
    let back = with_amount(
        with_amount(after, from, amount_of(balances, from)),
        to,
        amount_of(balances, to),
    );
    assert forall|k: AccountId| #[trigger] back.contains_key(k) == balances.contains_key(k) by {
        if balances.contains_key(k) {
            assert(balances[k] != 0);
        }
    }
    assert(back =~= balances);
}

/// Move TAO between two accounts, or change nothing.
pub fn transfer_tao(
    balances: &mut Amounts<AccountId>,
    from: AccountId,
    to: AccountId,
    amount: u64,
) -> (r: Result<(), Error>)
    ensures
        match r {
            Ok(()) => transferred(old(balances)@, from, to, amount) == Ok::<
                Map<AccountId, u64>,
                Error,
            >(final(balances)@),
            Err(e) => transferred(old(balances)@, from, to, amount) == Err::<
                Map<AccountId, u64>,
                Error,
            >(e) && final(balances)@ == old(balances)@,
        },
{
    let held = balances.get(&from);
    if held < amount {
        return Err(Error::InsufficientBalance);
    }
    let receiver = if from == to {
        held - amount
    } else {
        balances.get(&to)
    };
    if receiver > u64::MAX - amount {
        return Err(Error::BalanceOverflow);
    }
    balances.set(from, held - amount);
    balances.set(to, receiver + amount);
    Ok(())
}

impl Pallet {
    /// A ledger without subnets, accounts or positions.
    pub fn new(pallet_id: u64, params: Params) -> (r: Pallet)
        ensures
            r@ == State::initial(pallet_id, params),
    {
        Pallet {
            pallet_id,
            params,
            block: 0,
            subnets: StorageMap::new(),
            balances: Amounts::new(),
            total_issuance: 0,
            total_stake: 0,
            stakes: Amounts::new(),
            coldkey_stakes: Amounts::new(),
            locks: Amounts::new(),
            positions: StorageMap::new(),
            counts: StorageMap::new(),
            aggregates: StorageMap::new(),
            active: StorageMap::new(),
            events: Vec::new(),
        }
    }

    /// The account that holds what is parked for the shorts of a subnet.
    pub fn short_custody_account(&self, netuid: u16) -> (r: AccountId)
        ensures
            r == self@.custody(netuid),
    {
        custody_account(self.pallet_id, netuid)
    }

    /// The subnet, and an empty one where there is none.
    pub(crate) fn subnet_or_empty(&self, netuid: u16) -> (r: Subnet)
        ensures
            r == self@.subnet(netuid),
    {
        match self.subnets.get(&netuid) {
            Some(subnet) => *subnet,
            None => Subnet {
                mechanism: 0,
                tao: 0,
                alpha_in: 0,
                alpha_out: 0,
                moving_price: 0,
                account: AccountId { lo: 0, hi: 0 },
            },
        }
    }

    /// The sums of a subnet.
    pub fn aggregate(&self, netuid: u16) -> (r: ShortAgg)
        ensures
            r == self@.agg(netuid),
    {
        match self.aggregates.get(&netuid) {
            Some(agg) => *agg,
            None => ShortAgg {
                r_sigma: 0,
                e_sigma: 0,
                b_sigma: 0,
                q_sigma: 0,
                omega: Fixed::zero(),
            },
        }
    }

    /// The number of positions on a subnet.
    pub fn position_count(&self, netuid: u16) -> (r: u32)
        ensures
            r == self@.count(netuid),
    {
        match self.counts.get(&netuid) {
            Some(n) => *n,
            None => 0,
        }
    }

    /// Whether the market of a subnet and its footprint fit the arithmetic, and the parameters
    /// are in range.
    pub fn market_fits(&self, netuid: u16) -> (r: bool)
        ensures
            r == self@.market_bounded(netuid),
    {
        self.params.is_valid() && self.subnet_or_empty(netuid).is_bounded() && self.aggregate(
            netuid,
        ).b_sigma < AMOUNT_LIMIT
    }

    /// Whether what decays on a subnet fits the arithmetic too.
    pub fn decay_fits(&self, netuid: u16) -> (r: bool)
        ensures
            r == self@.decay_bounded(netuid),
    {
        self.market_fits(netuid) && self.aggregate(netuid).is_bounded()
    }

    /// Whether what decays of the position of a coldkey fits the arithmetic, if there is one.
    pub fn position_fits(&self, netuid: u16, coldkey: &AccountId) -> (r: bool)
        ensures
            r == self@.position_bounded(netuid, *coldkey),
    {
        match self.positions.get(&OwnerKey { netuid, coldkey: *coldkey }) {
            Some(pos) => pos.is_bounded(),
            None => true,
        }
    }

    /// Whether all amounts of the position of a coldkey fit the arithmetic, if there is one.
    pub fn position_wholly_fits(&self, netuid: u16, coldkey: &AccountId) -> (r: bool)
        ensures
            r == self@.position_wholly_bounded(netuid, *coldkey),
    {
        match self.positions.get(&OwnerKey { netuid, coldkey: *coldkey }) {
            Some(pos) => pos.is_wholly_bounded(),
            None => true,
        }
    }

    /// Take up to `amount` out of the custody account of a subnet and out of the issuance.
    pub fn recycle_custody_tao(&mut self, netuid: u16, amount: u64)
        ensures
            final(self)@ == recycled(old(self)@, netuid, amount),
    {
        if amount == 0 {
            return;
        }
        let custody = self.short_custody_account(netuid);
        let held = self.balances.get(&custody);
        let taken = if held < amount {
            held
        } else {
            amount
        };
        self.total_issuance = self.total_issuance.saturating_sub(taken);
        self.balances.set(custody, held - taken);
    }

    /// Book TAO that has come to the pool of a subnet.
    pub(crate) fn credit_pool(&mut self, netuid: u16, amount: u64)
        ensures
            final(self)@ == pool_credited(old(self)@, netuid, amount),
    {
        let mut subnet = self.subnet_or_empty(netuid);
        subnet.tao = subnet.tao.saturating_add(amount);
        self.subnets.insert(netuid, subnet);
        self.total_stake = self.total_stake.saturating_add(amount);
    }
}

} // verus!
