//! The data of the short side: positions, aggregates, parameters, quotes, events and errors.
use crate::accounts::AccountId;
use crate::fixed::{fits, Fixed, AMOUNT_LIMIT, ONE_BITS, PRICE_LIMIT};
use vstd::prelude::*;

verus! {

/// Why a call was refused.
#[derive(Clone, Copy, Debug, PartialEq, Eq, Structural)]
pub enum Error {
    /// The call has to be signed.
    BadOrigin,
    /// Shorts are switched off.
    ShortsDisabled,
    /// There is no such subnet.
    SubnetNotExists,
    /// The subnet has no market.
    SubnetNotDynamic,
    /// The amount is too low.
    AmountTooLow,
    /// The subnet has no price history yet.
    ColdEmaNotAllowed,
    /// The collateral does not carry any proceeds.
    EffectiveLtvNonPositive,
    /// The footprint would exceed the cap.
    ShortCapacityExceeded,
    /// The pool is too small for the proceeds.
    ReserveDomainExceeded,
    /// The proceeds round to nothing.
    RetainedProceedsNonPositive,
    /// The liability exceeds what the trader accepts.
    SlippageTooHigh,
    /// The position belongs to another hotkey.
    ShortHotkeyMismatch,
    /// The subnet has as many positions as it may.
    ShortPositionLimit,
    /// There is no such position.
    ShortPositionNotFound,
    /// The fraction is zero or more than the whole.
    InvalidCloseFraction,
    /// There is not enough staked alpha to repay the liability.
    InsufficientAlphaToClose,
    /// The staked alpha is locked.
    StakeUnavailable,
    /// The buffer is not dust, or the grace window is still open.
    PositionNotDefaultEligible,
    /// The account does not hold the amount.
    InsufficientBalance,
    /// The account cannot hold the amount.
    BalanceOverflow,
}

/// What a subnet's market looks like from here. Amounts are in rao.
#[derive(Clone, Copy, Debug, PartialEq, Eq, Structural)]
pub struct Subnet {
    /// One for a market that is priced by its pool.
    pub mechanism: u16,
    /// The TAO reserve of the pool.
    pub tao: u64,
    /// The alpha reserve of the pool.
    pub alpha_in: u64,
    /// The alpha that is staked outside the pool.
    pub alpha_out: u64,
    /// The slow moving price in TAO for an alpha, with 32 fractional bits; zero while it is cold.
    pub moving_price: u128,
    /// The account that backs the pool.
    pub account: AccountId,
}

impl Subnet {
    /// The reserves and the price fit the arithmetic.
    pub open spec fn bounded(self) -> bool {
        fits(self.tao) && fits(self.alpha_in) && self.moving_price < PRICE_LIMIT
    }

    /// Whether the reserves and the price fit the arithmetic.
    pub fn is_bounded(&self) -> (r: bool)
        ensures
            r == self.bounded(),
    {
        self.tao < AMOUNT_LIMIT && self.alpha_in < AMOUNT_LIMIT && self.moving_price < PRICE_LIMIT
    }
}

/// A covered short of one coldkey on one subnet. Amounts are in rao.
#[derive(Clone, Copy, Debug, PartialEq, Eq, Structural)]
pub struct ShortPosition {
    /// Where the alpha for the repayment is staked.
    pub hotkey: AccountId,
    /// The floor: what the trader posted. It does not decay.
    pub p_floor: u64,
    /// The alpha debt. It does not decay.
    pub q_liability: u64,
    /// The buffer at the last materialization.
    pub r_stored: u64,
    /// The escrow at the last materialization.
    pub e_stored: u64,
    /// The footprint at the last materialization.
    pub b_stored: u64,
    /// The decay accumulator at the last materialization.
    pub omega_entry: Fixed,
    /// The block of the owner's last action.
    pub last_active: u64,
}

impl ShortPosition {
    /// The amounts that decay fit the arithmetic.
    pub open spec fn bounded(self) -> bool {
        fits(self.r_stored) && fits(self.e_stored) && fits(self.b_stored)
    }

    /// All amounts fit the arithmetic.
    pub open spec fn wholly_bounded(self) -> bool {
        self.bounded() && fits(self.p_floor) && fits(self.q_liability)
    }

    /// Whether the amounts that decay fit the arithmetic.
    pub fn is_bounded(&self) -> (r: bool)
        ensures
            r == self.bounded(),
    {
        self.r_stored < AMOUNT_LIMIT && self.e_stored < AMOUNT_LIMIT && self.b_stored
            < AMOUNT_LIMIT
    }

    /// Whether all amounts fit the arithmetic.
    pub fn is_wholly_bounded(&self) -> (r: bool)
        ensures
            r == self.wholly_bounded(),
    {
        self.is_bounded() && self.p_floor < AMOUNT_LIMIT && self.q_liability < AMOUNT_LIMIT
    }
}

/// The sums over the shorts of one subnet, and its decay accumulator.
#[derive(Clone, Copy, Debug, PartialEq, Eq, Structural)]
pub struct ShortAgg {
    pub r_sigma: u64,
    pub e_sigma: u64,
    pub b_sigma: u64,
    pub q_sigma: u64,
    pub omega: Fixed,
}

impl ShortAgg {
    /// The sums of a subnet without shorts.
    pub open spec fn none() -> ShortAgg {
        ShortAgg { r_sigma: 0, e_sigma: 0, b_sigma: 0, q_sigma: 0, omega: Fixed::nil() }
    }

    /// The sums that decay fit the arithmetic.
    pub open spec fn bounded(self) -> bool {
        fits(self.r_sigma) && fits(self.e_sigma) && fits(self.b_sigma)
    }

    /// Whether the sums that decay fit the arithmetic.
    pub fn is_bounded(&self) -> (r: bool)
        ensures
            r == self.bounded(),
    {
        self.r_sigma < AMOUNT_LIMIT && self.e_sigma < AMOUNT_LIMIT && self.b_sigma < AMOUNT_LIMIT
    }

    /// There is live short state.
    pub open spec fn is_live(self) -> bool {
        self.r_sigma != 0 || self.e_sigma != 0 || self.b_sigma != 0 || self.q_sigma != 0
    }
}

/// The governed parameters.
#[derive(Clone, Copy, Debug, PartialEq, Eq, Structural)]
pub struct Params {
    pub shorts_enabled: bool,
    pub longs_enabled: bool,
    /// The cap on the footprint, as a share of the reference reserve.
    pub kappa: Fixed,
    /// The loan to value of a small position.
    pub base_ltv: Fixed,
    /// The daily decay of an idle market.
    pub decay_min: Fixed,
    /// The daily decay of a market at its cap.
    pub decay_max: Fixed,
    /// The buffer from which on down a position may be defaulted.
    pub dust: u64,
    /// The blocks after an owner's action in which a short may not be defaulted.
    pub short_default_grace: u64,
    /// The blocks after an owner's action in which a long may not be defaulted.
    pub long_default_grace: u64,
    /// The least that a short may be opened with.
    pub min_input: u64,
    /// The most positions that a subnet may have.
    pub max_positions: u32,
}

impl Params {
    /// The ranges that governance keeps: `0 < kappa <= 2`, `0 < base_ltv < 1` and
    /// `0 <= decay_min <= decay_max <= 1`.
    pub open spec fn valid(self) -> bool {
        &&& 0 < self.kappa.bits <= 2 * ONE_BITS
        &&& 0 < self.base_ltv.bits < ONE_BITS
        &&& 0 <= self.decay_min.bits <= self.decay_max.bits <= ONE_BITS
    }

    /// Whether the parameters are in the ranges that governance keeps.
    pub fn is_valid(&self) -> (r: bool)
        ensures
            r == self.valid(),
    {
        0 < self.kappa.bits && self.kappa.bits <= 2 * ONE_BITS && 0 < self.base_ltv.bits
            && self.base_ltv.bits < ONE_BITS && 0 <= self.decay_min.bits && self.decay_min.bits
            <= self.decay_max.bits && self.decay_max.bits <= ONE_BITS
    }
}

/// What a short of a given input would look like.
#[derive(Clone, Copy, Debug, PartialEq, Eq, Structural)]
pub struct ShortOpenQuote {
    pub gross_collateral: u64,
    pub retained_proceeds: u64,
    pub alpha_liability: u64,
    pub escrow: u64,
    /// In billionths.
    pub effective_ltv: u64,
    /// In billionths.
    pub daily_decay: u64,
    pub est_close_cost: u64,
}

/// A position, decayed to the present.
#[derive(Clone, Copy, Debug, PartialEq, Eq, Structural)]
pub struct ShortPositionInfo {
    pub netuid: u16,
    pub hotkey: AccountId,
    pub floor: u64,
    pub alpha_liability: u64,
    pub buffer: u64,
    pub escrow: u64,
    pub collateral_claim: u64,
    /// In billionths.
    pub daily_decay: u64,
    pub blocks_to_dust: u64,
    pub default_eligible: bool,
    pub defaultable_at_block: u64,
    pub est_close_cost: u64,
    pub alpha_held: u64,
    pub alpha_needed: u64,
}

/// The short market of a subnet. Rates are in billionths.
#[derive(Clone, Copy, Debug, PartialEq, Eq, Structural)]
pub struct ShortMarketInfo {
    pub shorts_enabled: bool,
    pub base_ltv: u64,
    pub kappa: u64,
    pub decay_min: u64,
    pub decay_max: u64,
    pub current_daily_decay: u64,
    pub t_ref: u64,
    pub footprint_used: u64,
    pub footprint_cap: u64,
    pub footprint_remaining: u64,
    pub open_interest_alpha: u64,
    pub buffer_total: u64,
    pub escrow_total: u64,
    pub dust_threshold: u64,
    pub min_input: u64,
    pub default_grace: u64,
}

/// What closing a fraction of a position would move.
#[derive(Clone, Copy, Debug, PartialEq, Eq, Structural)]
pub struct CloseShortQuote {
    pub repay_alpha: u64,
    pub returned_tao: u64,
    pub escrow_settled: u64,
    pub est_buyback_cost: u64,
    pub alpha_held: u64,
    pub alpha_needed: u64,
}

/// What happened.
#[derive(Clone, Copy, Debug, PartialEq, Eq, Structural)]
pub enum Event {
    ShortOpened {
        coldkey: AccountId,
        netuid: u16,
        position_input: u64,
        retained_proceeds: u64,
        alpha_liability: u64,
        escrow: u64,
    },
    ShortToppedUp { coldkey: AccountId, netuid: u16, amount: u64 },
    ShortClosed {
        coldkey: AccountId,
        netuid: u16,
        fraction_ppb: u64,
        repaid_alpha: u64,
        returned: u64,
    },
    ShortDefaulted { coldkey: AccountId, netuid: u16 },
    ShortTerminalSettled { coldkey: AccountId, netuid: u16, equity: u64, liability_cover: u64 },
}

} // verus!
