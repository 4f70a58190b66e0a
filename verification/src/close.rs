//! Closing and defaulting a short.
use crate::accounts::{AccountId, Origin, OwnerKey, StakeKey};
use crate::fixed::Fixed;
use crate::math::{
    from_ppb, materialize_short, materialized, mul_amount, ratio_from_ppb, scaled, PPB,
};
use crate::pallet::{
    follows, lemma_transfer_undone, pool_credited, recycled, sat_add, sat_sub, transfer_tao,
    transferred, Pallet, State,
};
use crate::storage::{amount_of, with_amount};
use crate::types::{Error, Event, ShortAgg, ShortPosition, Subnet};
use vstd::prelude::*;

verus! {

/// A slice of a position.
#[derive(Clone, Copy, Debug, PartialEq, Eq, Structural)]
pub struct Slice {
    pub q: u64,
    pub r: u64,
    pub e: u64,
    pub p: u64,
    pub b: u64,
}

/// The given fraction of each amount of a position, rounded down.
pub open spec fn slice_of(pos: ShortPosition, rho: Fixed) -> Slice {
    Slice {
        q: scaled(pos.q_liability, rho),
        r: scaled(pos.r_stored, rho),
        e: scaled(pos.e_stored, rho),
        p: scaled(pos.p_floor, rho),
        b: scaled(pos.b_stored, rho),
    }
}

/// A position without a slice.
pub open spec fn reduced(pos: ShortPosition, slice: Slice) -> ShortPosition {
    ShortPosition {
        q_liability: sat_sub(pos.q_liability, slice.q),
        r_stored: sat_sub(pos.r_stored, slice.r),
        e_stored: sat_sub(pos.e_stored, slice.e),
        p_floor: sat_sub(pos.p_floor, slice.p),
        b_stored: sat_sub(pos.b_stored, slice.b),
        ..pos
    }
}

/// The sums without a slice.
pub open spec fn reduced_agg(agg: ShortAgg, slice: Slice) -> ShortAgg {
    ShortAgg {
        q_sigma: sat_sub(agg.q_sigma, slice.q),
        r_sigma: sat_sub(agg.r_sigma, slice.r),
        e_sigma: sat_sub(agg.e_sigma, slice.e),
        b_sigma: sat_sub(agg.b_sigma, slice.b),
        ..agg
    }
}

/// The whole of a position as a slice.
pub open spec fn whole_slice(pos: ShortPosition) -> Slice {
    Slice {
        q: pos.q_liability,
        r: pos.r_stored,
        e: pos.e_stored,
        p: pos.p_floor,
        b: pos.b_stored,
    }
}

/// The tracked subnets, with this one among them as long as its sums are live.
pub open spec fn synced(active: Set<u16>, netuid: u16, agg: ShortAgg) -> Set<u16> {
    if agg.is_live() {
        active.insert(netuid)
    } else {
        active.remove(netuid)
    }
}

/// The state without the sums of a subnet that has no positions left.
pub open spec fn cleaned(s: State, netuid: u16) -> State {
    if s.count(netuid) == 0 {
        State {
            aggregates: s.aggregates.remove(netuid),
            active: s.active.remove(netuid),
            ..s
        }
    } else {
        s
    }
}

/// The state with one position less on a subnet.
pub open spec fn without_position(s: State, netuid: u16, coldkey: AccountId) -> State {
    cleaned(
        State {
            positions: s.positions.remove(OwnerKey { netuid, coldkey }),
            counts: s.counts.insert(
                netuid,
                if s.count(netuid) == 0 {
                    0
                } else {
                    (s.count(netuid) - 1) as u32
                },
            ),
            ..s
        },
        netuid,
    )
}

/// The state with the sums of a subnet replaced, and tracked while they are live.
pub open spec fn with_agg(s: State, netuid: u16, agg: ShortAgg) -> State {
    State {
        aggregates: s.aggregates.insert(netuid, agg),
        active: synced(s.active, netuid, agg),
        ..s
    }
}

/// The state after alpha has gone from a stake to the pool.
pub open spec fn alpha_repaid(
    s: State,
    netuid: u16,
    hotkey: AccountId,
    coldkey: AccountId,
    q: u64,
) -> State {
    let subnet = s.subnet(netuid);
    let owner = OwnerKey { netuid, coldkey };
    State {
        stakes: with_amount(
            s.stakes,
            StakeKey { netuid, hotkey, coldkey },
            sat_sub(s.stake(netuid, hotkey, coldkey), q),
        ),
        coldkey_stakes: with_amount(
            s.coldkey_stakes,
            owner,
            sat_sub(amount_of(s.coldkey_stakes, owner), q),
        ),
        subnets: s.subnets.insert(
            netuid,
            Subnet {
                alpha_in: sat_add(subnet.alpha_in, q),
                alpha_out: sat_sub(subnet.alpha_out, q),
                ..subnet
            },
        ),
        ..s
    }
}

/// The balances after the escrow has gone back to the pool and the claim to the trader; what is
/// nothing is not moved.
pub open spec fn paid_out(
    s: State,
    netuid: u16,
    coldkey: AccountId,
    escrow: u64,
    returned: u64,
) -> Result<Map<AccountId, u64>, Error> {
    let custody = s.custody(netuid);
    let settled = if escrow == 0 {
        Ok(s.balances)
    } else {
        transferred(s.balances, custody, s.subnet(netuid).account, escrow)
    };
    match settled {
        Err(e) => Err(e),
        Ok(balances) => if returned == 0 {
            Ok(balances)
        } else {
            transferred(balances, custody, coldkey, returned)
        },
    }
}

/// The state after closing a slice of a position that is already decayed to the present: the
/// alpha is repaid, the escrow joins the pool, and the floor and the buffer go to the trader. The
/// position goes if the whole was closed or nothing is left of the floor.
pub open spec fn closed(
    s: State,
    netuid: u16,
    coldkey: AccountId,
    fraction_ppb: u64,
    pos: ShortPosition,
    slice: Slice,
    balances: Map<AccountId, u64>,
) -> State {
    let returned = sat_add(slice.p, slice.r);
    let repaid = alpha_repaid(s, netuid, pos.hotkey, coldkey, slice.q);
    let settled = State {
        balances,
        ..if slice.e == 0 {
            repaid
        } else {
            pool_credited(repaid, netuid, slice.e)
        }
    };
    let left = reduced(pos, slice);
    let booked = with_agg(settled, netuid, reduced_agg(s.agg(netuid), slice));
    let after = if fraction_ppb == PPB || left.p_floor == 0 {
        without_position(booked, netuid, coldkey)
    } else {
        State { positions: booked.positions.insert(OwnerKey { netuid, coldkey }, left), ..booked }
    };
    State {
        events: s.events.push(
            Event::ShortClosed {
                coldkey,
                netuid,
                fraction_ppb,
                repaid_alpha: slice.q,
                returned,
            },
        ),
        ..after
    }
}

/// How closing a fraction of a position ends.
pub open spec fn close_outcome(s: State, origin: Origin, netuid: u16, fraction_ppb: u64) -> Result<
    State,
    Error,
> {
    match origin {
        Origin::Signed(coldkey) => if fraction_ppb == 0 || fraction_ppb > PPB {
            Err(Error::InvalidCloseFraction)
        } else if !s.has_position(netuid, coldkey) {
            Err(Error::ShortPositionNotFound)
        } else {
            let pos = materialized(s.position(netuid, coldkey), s.agg(netuid).omega);
            let slice = slice_of(pos, from_ppb(fraction_ppb));
            if s.stake(netuid, pos.hotkey, coldkey) < slice.q || s.subnet(netuid).alpha_out
                < slice.q {
                Err(Error::InsufficientAlphaToClose)
            } else if s.unlocked(netuid, coldkey) < slice.q {
                Err(Error::StakeUnavailable)
            } else if !s.subnets.contains_key(netuid) {
                Err(Error::SubnetNotExists)
            } else {
                match paid_out(s, netuid, coldkey, slice.e, sat_add(slice.p, slice.r)) {
                    Err(e) => Err(e),
                    Ok(balances) => Ok(
                        closed(s, netuid, coldkey, fraction_ppb, pos, slice, balances),
                    ),
                }
            }
        },
        _ => Err(Error::BadOrigin),
    }
}

/// A position may be defaulted: its buffer is dust, and the grace window has passed.
pub open spec fn default_eligible(s: State, pos: ShortPosition) -> bool {
    pos.r_stored <= s.params.dust && s.block >= sat_add(
        pos.last_active,
        s.params.short_default_grace,
    )
}

/// The state after a default of a position that is already decayed to the present: the buffer
/// and the escrow join the pool, the floor is recycled and the liability is gone.
pub open spec fn defaulted(
    s: State,
    netuid: u16,
    coldkey: AccountId,
    pos: ShortPosition,
    balances: Map<AccountId, u64>,
) -> State {
    let residual = sat_add(pos.r_stored, pos.e_stored);
    let restored = State {
        balances,
        ..if residual == 0 {
            s
        } else {
            pool_credited(s, netuid, residual)
        }
    };
    let floored = recycled(restored, netuid, pos.p_floor);
    let booked = with_agg(floored, netuid, reduced_agg(s.agg(netuid), whole_slice(pos)));
    State {
        events: s.events.push(Event::ShortDefaulted { coldkey, netuid }),
        ..without_position(booked, netuid, coldkey)
    }
}

/// How a default ends.
pub open spec fn default_outcome(
    s: State,
    origin: Origin,
    coldkey: AccountId,
    netuid: u16,
) -> Result<State, Error> {
    match origin {
        Origin::Signed(_) => if !s.has_position(netuid, coldkey) {
            Err(Error::ShortPositionNotFound)
        } else {
            let pos = materialized(s.position(netuid, coldkey), s.agg(netuid).omega);
            if !default_eligible(s, pos) {
                Err(Error::PositionNotDefaultEligible)
            } else if !s.subnets.contains_key(netuid) {
                Err(Error::SubnetNotExists)
            } else {
                let residual = sat_add(pos.r_stored, pos.e_stored);
                let moved = if residual == 0 {
                    Ok(s.balances)
                } else {
                    transferred(
                        s.balances,
                        s.custody(netuid),
                        s.subnet(netuid).account,
                        residual,
                    )
                };
                match moved {
                    Err(e) => Err(e),
                    Ok(balances) => Ok(defaulted(s, netuid, coldkey, pos, balances)),
                }
            }
        },
        _ => Err(Error::BadOrigin),
    }
}

/// The given fraction of each amount of a position.
pub fn take_slice(pos: &ShortPosition, rho: Fixed) -> (r: Slice)
    requires
        pos.wholly_bounded(),
    ensures
        r == slice_of(*pos, rho),
{
    Slice {
        q: mul_amount(pos.q_liability, rho),
        r: mul_amount(pos.r_stored, rho),
        e: mul_amount(pos.e_stored, rho),
        p: mul_amount(pos.p_floor, rho),
        b: mul_amount(pos.b_stored, rho),
    }
}

impl Pallet {
    /// Keep the tracked subnets in line with the sums.
    pub fn sync_active_short(&mut self, netuid: u16, agg: &ShortAgg)
        ensures
            final(self)@ == (State {
                active: synced(old(self)@.active, netuid, *agg),
                ..old(self)@
            }),
    {
        if agg.r_sigma == 0 && agg.e_sigma == 0 && agg.b_sigma == 0 && agg.q_sigma == 0 {
            self.active.remove(&netuid);
        } else {
            self.active.insert(netuid, ());
        }
        proof {
            assert(self@.active =~= synced(old(self)@.active, netuid, *agg));
        }
    }

    /// Drop the sums of a subnet that has no positions left.
    pub fn cleanup_short_if_empty(&mut self, netuid: u16)
        ensures
            final(self)@ == cleaned(old(self)@, netuid),
    {
        if self.position_count(netuid) == 0 {
            self.aggregates.remove(&netuid);
            self.active.remove(&netuid);
            proof {
                assert(self@.active =~= old(self)@.active.remove(netuid));
            }
        }
    }

    /// Drop a position.
    fn drop_position(&mut self, netuid: u16, coldkey: AccountId)
        ensures
            final(self)@ == without_position(old(self)@, netuid, coldkey),
    {
        self.positions.remove(&OwnerKey { netuid, coldkey });
        let count = self.position_count(netuid);
        self.counts.insert(netuid, count.saturating_sub(1));
        self.cleanup_short_if_empty(netuid);
    }

    /// Book the sums of a subnet.
    fn put_agg(&mut self, netuid: u16, agg: ShortAgg)
        ensures
            final(self)@ == with_agg(old(self)@, netuid, agg),
    {
        self.sync_active_short(netuid, &agg);
        self.aggregates.insert(netuid, agg);
    }

    /// Move alpha from a stake to the pool.
    fn repay_alpha(&mut self, netuid: u16, hotkey: AccountId, coldkey: AccountId, q: u64)
        ensures
            final(self)@ == alpha_repaid(old(self)@, netuid, hotkey, coldkey, q),
    {
        let stake_key = StakeKey { netuid, hotkey, coldkey };
        let owner = OwnerKey { netuid, coldkey };
        let staked = self.stakes.get(&stake_key);
        self.stakes.set(stake_key, staked.saturating_sub(q));
        let total = self.coldkey_stakes.get(&owner);
        self.coldkey_stakes.set(owner, total.saturating_sub(q));
        let mut subnet = self.subnet_or_empty(netuid);
        subnet.alpha_out = subnet.alpha_out.saturating_sub(q);
        subnet.alpha_in = subnet.alpha_in.saturating_add(q);
        self.subnets.insert(netuid, subnet);
    }

    /// Pay the escrow to the pool and the claim to the trader, or change nothing.
    fn pay_out(&mut self, netuid: u16, coldkey: AccountId, escrow: u64, returned: u64) -> (r: Result<
        (),
        Error,
    >)
        ensures
            match r {
                Ok(()) => paid_out(old(self)@, netuid, coldkey, escrow, returned) == Ok::<
                    Map<AccountId, u64>,
                    Error,
                >(final(self)@.balances) && final(self)@ == (State {
                    balances: final(self)@.balances,
                    ..old(self)@
                }),
                Err(e) => paid_out(old(self)@, netuid, coldkey, escrow, returned) == Err::<
                    Map<AccountId, u64>,
                    Error,
                >(e) && final(self)@ == old(self)@,
            },
    {
        let custody = self.short_custody_account(netuid);
        let pool = self.subnet_or_empty(netuid).account;
        let custody_held = self.balances.get(&custody);
        let pool_held = self.balances.get(&pool);
        if escrow != 0 {
            if let Err(e) = transfer_tao(&mut self.balances, custody, pool, escrow) {
                return Err(e);
            }
        }
        if returned != 0 {
            if let Err(e) = transfer_tao(&mut self.balances, custody, coldkey, returned) {
                if escrow != 0 {
                    proof {
                        lemma_transfer_undone(old(self)@.balances, custody, pool, escrow);
                    }
                    self.balances.set(custody, custody_held);
                    self.balances.set(pool, pool_held);
                }
                return Err(e);
            }
        }
        Ok(())
    }

    /// Close a fraction of a position, in billionths.
    pub fn do_close_short(&mut self, origin: Origin, netuid: u16, fraction_ppb: u64) -> (r: Result<
        (),
        Error,
    >)
        requires
            0 < fraction_ppb <= PPB ==> (origin matches Origin::Signed(coldkey)
                ==> old(self)@.position_wholly_bounded(netuid, coldkey)),
        ensures
            follows(
                old(self)@,
                final(self)@,
                r,
                close_outcome(old(self)@, origin, netuid, fraction_ppb),
            ),
    {
        let coldkey = match origin {
            Origin::Signed(coldkey) => coldkey,
            _ => return Err(Error::BadOrigin),
        };
        if fraction_ppb == 0 || fraction_ppb > PPB {
            return Err(Error::InvalidCloseFraction);
        }
        let rho = ratio_from_ppb(fraction_ppb);
        let key = OwnerKey { netuid, coldkey };
        let mut pos = match self.positions.get(&key) {
            Some(pos) => *pos,
            None => return Err(Error::ShortPositionNotFound),
        };
        let mut agg = self.aggregate(netuid);
        materialize_short(&mut pos, agg.omega);
        let slice = take_slice(&pos, rho);

        if self.stakes.get(&StakeKey { netuid, hotkey: pos.hotkey, coldkey }) < slice.q {
            return Err(Error::InsufficientAlphaToClose);
        }
        if self.subnet_or_empty(netuid).alpha_out < slice.q {
            return Err(Error::InsufficientAlphaToClose);
        }
        if self.coldkey_stakes.get(&key).saturating_sub(self.locks.get(&key)) < slice.q {
            return Err(Error::StakeUnavailable);
        }
        if !self.subnets.contains_key(&netuid) {
            return Err(Error::SubnetNotExists);
        }
        let returned = slice.p.saturating_add(slice.r);
        if let Err(e) = self.pay_out(netuid, coldkey, slice.e, returned) {
            return Err(e);
        }
        self.repay_alpha(netuid, pos.hotkey, coldkey, slice.q);
        if slice.e != 0 {
            self.credit_pool(netuid, slice.e);
        }
        pos.q_liability = pos.q_liability.saturating_sub(slice.q);
        pos.r_stored = pos.r_stored.saturating_sub(slice.r);
        pos.e_stored = pos.e_stored.saturating_sub(slice.e);
        pos.p_floor = pos.p_floor.saturating_sub(slice.p);
        pos.b_stored = pos.b_stored.saturating_sub(slice.b);

        agg.q_sigma = agg.q_sigma.saturating_sub(slice.q);
        agg.r_sigma = agg.r_sigma.saturating_sub(slice.r);
        agg.e_sigma = agg.e_sigma.saturating_sub(slice.e);
        agg.b_sigma = agg.b_sigma.saturating_sub(slice.b);
        self.put_agg(netuid, agg);

        if fraction_ppb == PPB || pos.p_floor == 0 {
            self.drop_position(netuid, coldkey);
        } else {
            self.positions.insert(key, pos);
        }
        self.events.push(
            Event::ShortClosed {
                coldkey,
                netuid,
                fraction_ppb,
                repaid_alpha: slice.q,
                returned,
            },
        );
        Ok(())
    }

    /// Default a position whose buffer has decayed to dust. Anyone may ask for it.
    pub fn do_default_short(&mut self, origin: Origin, coldkey: AccountId, netuid: u16) -> (r:
        Result<(), Error>)
        requires
            origin is Signed ==> old(self)@.position_bounded(netuid, coldkey),
        ensures
            follows(
                old(self)@,
                final(self)@,
                r,
                default_outcome(old(self)@, origin, coldkey, netuid),
            ),
    {
        match origin {
            Origin::Signed(_) => {},
            _ => return Err(Error::BadOrigin),
        }
        let mut pos = match self.positions.get(&OwnerKey { netuid, coldkey }) {
            Some(pos) => *pos,
            None => return Err(Error::ShortPositionNotFound),
        };
        let mut agg = self.aggregate(netuid);
        materialize_short(&mut pos, agg.omega);
        if pos.r_stored > self.params.dust {
            return Err(Error::PositionNotDefaultEligible);
        }
        if self.block < pos.last_active.saturating_add(self.params.short_default_grace) {
            return Err(Error::PositionNotDefaultEligible);
        }
        let pool = match self.subnets.get(&netuid) {
            Some(subnet) => subnet.account,
            None => return Err(Error::SubnetNotExists),
        };
        let custody = self.short_custody_account(netuid);
        let residual = pos.r_stored.saturating_add(pos.e_stored);
        if residual != 0 {
            if let Err(e) = transfer_tao(&mut self.balances, custody, pool, residual) {
                return Err(e);
            }
            self.credit_pool(netuid, residual);
        }
        self.recycle_custody_tao(netuid, pos.p_floor);

        agg.r_sigma = agg.r_sigma.saturating_sub(pos.r_stored);
        agg.e_sigma = agg.e_sigma.saturating_sub(pos.e_stored);
        agg.b_sigma = agg.b_sigma.saturating_sub(pos.b_stored);
        agg.q_sigma = agg.q_sigma.saturating_sub(pos.q_liability);
        self.put_agg(netuid, agg);
        self.drop_position(netuid, coldkey);
        self.events.push(Event::ShortDefaulted { coldkey, netuid });
        Ok(())
    }
}

} // verus!
