//! Opening a short and adding to its buffer.
use crate::accounts::{AccountId, Origin, OwnerKey};
use crate::fixed::{fits, lemma_whole, Fixed, AMOUNT_LIMIT, ONE_BITS};
use crate::math::{
    collateral, materialize_short, materialized, pool_fraction, reference_reserve, short_t_ref,
    solve_collateral, solve_phi,
};
use crate::pallet::{
    follows, lemma_transfer_undone, sat_add, sat_sub, transfer_tao, transferred, Pallet, State,
};
use crate::laws::rates::law_reference_is_the_smaller_reserve;
use crate::pricing::{
    is_reference, lemma_capacity_exceeded, lemma_priced_right, lent, priced_right, refused_right,
    room_for_what_is_lent,
};
use crate::residuals::{escrow_matches, lemma_escrow_matches};
use crate::types::{Error, Event, Params, ShortAgg, ShortPosition, Subnet};
use vstd::prelude::*;

verus! {

/// The amounts of a new short.
#[derive(Clone, Copy, Debug, PartialEq, Eq, Structural)]
pub struct OpenTerms {
    /// The retained proceeds, which become the buffer.
    pub n: u64,
    /// The escrow.
    pub e: u64,
    /// The footprint.
    pub b: u64,
    /// The alpha liability.
    pub q: u64,
}

/// The amounts of a short of the given input in a market with the given footprint, or why there
/// is none: the collateral has to exceed the input, the footprint has to stay within the cap,
/// the proceeds within a quarter of the pool, and something has to be left of them.
pub open spec fn terms_of(params: Params, subnet: Subnet, b_sigma: u64, input: u64) -> Result<
    OpenTerms,
    Error,
> {
    let reserve = reference_reserve(subnet);
    let used = Fixed::whole(b_sigma as int);
    let tao = Fixed::whole(subnet.tao as int);
    match collateral(Fixed::whole(input as int), reserve, used, params.base_ltv) {
        None => Err(Error::EffectiveLtvNonPositive),
        Some((c, n)) => {
            let b = params.base_ltv.times(c);
            if used.plus(b).bits > params.kappa.times(reserve).bits {
                Err(Error::ShortCapacityExceeded)
            } else {
                match pool_fraction(n, tao) {
                    None => Err(Error::ReserveDomainExceeded),
                    Some(phi) => if n.floor_amount() == 0 {
                        Err(Error::RetainedProceedsNonPositive)
                    } else {
                        Ok(
                            OpenTerms {
                                n: n.floor_amount(),
                                e: phi.times(tao).floor_amount(),
                                b: b.floor_amount(),
                                q: phi.times(Fixed::whole(subnet.alpha_in as int)).floor_amount(),
                            },
                        )
                    },
                }
            }
        },
    }
}

/// It comes to the terms: nothing speaks against the short but them.
pub open spec fn priced(s: State, origin: Origin, netuid: u16, input: u64) -> bool {
    &&& origin is Signed
    &&& s.params.shorts_enabled
    &&& s.subnets.contains_key(netuid)
    &&& s.subnet(netuid).mechanism == 1
    &&& input >= s.params.min_input
    &&& s.subnet(netuid).moving_price != 0
}

/// Where it comes to the terms, everything that they are made of fits the arithmetic.
pub open spec fn open_bounded(s: State, origin: Origin, netuid: u16, input: u64) -> bool {
    priced(s, origin, netuid, input) ==> {
        &&& s.market_bounded(netuid)
        &&& s.position_bounded(netuid, origin->Signed_0)
        &&& fits(input)
    }
}

/// Who may open, and on which terms: shorts have to be on, the subnet has to be a market with a
/// price history, the input has to be large enough and the liability acceptable, and there has to
/// be either a position at the same hotkey or room for another one.
pub open spec fn admission(
    s: State,
    origin: Origin,
    hotkey: AccountId,
    netuid: u16,
    input: u64,
    max_q: u64,
) -> Result<(AccountId, OpenTerms), Error> {
    let subnet = s.subnet(netuid);
    match origin {
        Origin::Signed(coldkey) => if !s.params.shorts_enabled {
            Err(Error::ShortsDisabled)
        } else if !s.subnets.contains_key(netuid) {
            Err(Error::SubnetNotExists)
        } else if subnet.mechanism != 1 {
            Err(Error::SubnetNotDynamic)
        } else if input < s.params.min_input {
            Err(Error::AmountTooLow)
        } else if subnet.moving_price == 0 {
            Err(Error::ColdEmaNotAllowed)
        } else {
            match terms_of(s.params, subnet, s.agg(netuid).b_sigma, input) {
                Err(e) => Err(e),
                Ok(terms) => if terms.q > max_q {
                    Err(Error::SlippageTooHigh)
                } else if s.has_position(netuid, coldkey) {
                    if s.position(netuid, coldkey).hotkey == hotkey {
                        Ok((coldkey, terms))
                    } else {
                        Err(Error::ShortHotkeyMismatch)
                    }
                } else if s.count(netuid) < s.params.max_positions {
                    Ok((coldkey, terms))
                } else {
                    Err(Error::ShortPositionLimit)
                },
            }
        },
        _ => Err(Error::BadOrigin),
    }
}

/// The position after opening: a new one, or the old one decayed to the present and grown.
pub open spec fn opened_position(
    s: State,
    coldkey: AccountId,
    hotkey: AccountId,
    netuid: u16,
    input: u64,
    terms: OpenTerms,
) -> ShortPosition {
    let omega = s.agg(netuid).omega;
    if s.has_position(netuid, coldkey) {
        let pos = materialized(s.position(netuid, coldkey), omega);
        ShortPosition {
            p_floor: sat_add(pos.p_floor, input),
            q_liability: sat_add(pos.q_liability, terms.q),
            r_stored: sat_add(pos.r_stored, terms.n),
            e_stored: sat_add(pos.e_stored, terms.e),
            b_stored: sat_add(pos.b_stored, terms.b),
            last_active: s.block,
            ..pos
        }
    } else {
        ShortPosition {
            hotkey,
            p_floor: input,
            q_liability: terms.q,
            r_stored: terms.n,
            e_stored: terms.e,
            b_stored: terms.b,
            omega_entry: omega,
            last_active: s.block,
        }
    }
}

/// The sums with the amounts of a new short.
pub open spec fn opened_agg(agg: ShortAgg, terms: OpenTerms) -> ShortAgg {
    ShortAgg {
        r_sigma: sat_add(agg.r_sigma, terms.n),
        e_sigma: sat_add(agg.e_sigma, terms.e),
        b_sigma: sat_add(agg.b_sigma, terms.b),
        q_sigma: sat_add(agg.q_sigma, terms.q),
        ..agg
    }
}

/// The state after opening on the given terms: the trader's floor and the pool's part go into
/// custody.
pub open spec fn opened(
    s: State,
    coldkey: AccountId,
    hotkey: AccountId,
    netuid: u16,
    input: u64,
    terms: OpenTerms,
) -> Result<State, Error> {
    let subnet = s.subnet(netuid);
    let custody = s.custody(netuid);
    let removed = sat_add(terms.n, terms.e);
    match transferred(s.balances, coldkey, custody, input) {
        Err(e) => Err(e),
        Ok(posted) => match transferred(posted, subnet.account, custody, removed) {
            Err(e) => Err(e),
            Ok(parked) => Ok(
                State {
                    balances: parked,
                    subnets: s.subnets.insert(
                        netuid,
                        Subnet { tao: sat_sub(subnet.tao, removed), ..subnet },
                    ),
                    total_stake: sat_sub(s.total_stake, removed),
                    positions: s.positions.insert(
                        OwnerKey { netuid, coldkey },
                        opened_position(s, coldkey, hotkey, netuid, input, terms),
                    ),
                    counts: if s.has_position(netuid, coldkey) {
                        s.counts
                    } else {
                        s.counts.insert(netuid, (s.count(netuid) + 1) as u32)
                    },
                    aggregates: s.aggregates.insert(netuid, opened_agg(s.agg(netuid), terms)),
                    active: s.active.insert(netuid),
                    events: s.events.push(
                        Event::ShortOpened {
                            coldkey,
                            netuid,
                            position_input: input,
                            retained_proceeds: terms.n,
                            alpha_liability: terms.q,
                            escrow: terms.e,
                        },
                    ),
                    ..s
                },
            ),
        },
    }
}

/// How opening a short ends.
pub open spec fn open_outcome(
    s: State,
    origin: Origin,
    hotkey: AccountId,
    netuid: u16,
    input: u64,
    max_q: u64,
) -> Result<State, Error> {
    match admission(s, origin, hotkey, netuid, input, max_q) {
        Err(e) => Err(e),
        Ok((coldkey, terms)) => opened(s, coldkey, hotkey, netuid, input, terms),
    }
}

/// The position after a top-up: decayed to the present, with more in the buffer.
pub open spec fn topped_up_position(
    s: State,
    coldkey: AccountId,
    netuid: u16,
    amount: u64,
) -> ShortPosition {
    let pos = materialized(s.position(netuid, coldkey), s.agg(netuid).omega);
    ShortPosition { r_stored: sat_add(pos.r_stored, amount), last_active: s.block, ..pos }
}

/// How a top-up ends.
pub open spec fn top_up_outcome(s: State, origin: Origin, netuid: u16, amount: u64) -> Result<
    State,
    Error,
> {
    match origin {
        Origin::Signed(coldkey) => if amount == 0 {
            Err(Error::AmountTooLow)
        } else if !s.has_position(netuid, coldkey) {
            Err(Error::ShortPositionNotFound)
        } else {
            match transferred(s.balances, coldkey, s.custody(netuid), amount) {
                Err(e) => Err(e),
                Ok(balances) => Ok(
                    State {
                        balances,
                        positions: s.positions.insert(
                            OwnerKey { netuid, coldkey },
                            topped_up_position(s, coldkey, netuid, amount),
                        ),
                        aggregates: s.aggregates.insert(
                            netuid,
                            ShortAgg {
                                r_sigma: sat_add(s.agg(netuid).r_sigma, amount),
                                ..s.agg(netuid)
                            },
                        ),
                        events: s.events.push(Event::ShortToppedUp { coldkey, netuid, amount }),
                        ..s
                    },
                ),
            }
        },
        _ => Err(Error::BadOrigin),
    }
}

/// The amounts of a short of the given input, or why there is none.
pub fn open_terms(params: &Params, subnet: &Subnet, b_sigma: u64, input: u64) -> (r: Result<
    OpenTerms,
    Error,
>)
    requires
        params.valid(),
        subnet.bounded(),
        fits(b_sigma),
        fits(input),
    ensures
        r == terms_of(*params, *subnet, b_sigma, input),
        r matches Ok(terms) ==> {
            let (_, n) = collateral(
                Fixed::whole(input as int),
                reference_reserve(*subnet),
                Fixed::whole(b_sigma as int),
                params.base_ltv,
            )->0;
            escrow_matches(terms.n, terms.e, pool_fraction(n, Fixed::whole(subnet.tao as int))->0)
        },
        r matches Ok(terms) ==> priced_right(
            *params,
            *subnet,
            b_sigma,
            input,
            terms.n as int,
            terms.e as int,
            terms.b as int,
            terms.q as int,
        ),
        r matches Err(e) ==> refused_right(*params, *subnet, b_sigma, input, e),
        r != Err::<OpenTerms, Error>(Error::EffectiveLtvNonPositive) ==> room_for_what_is_lent(
            *params,
            *subnet,
            b_sigma,
            input,
        ),
{
    let reserve = short_t_ref(subnet);
    let used = Fixed::from_num(b_sigma);
    let p = Fixed::from_num(input);
    proof {
        lemma_whole(b_sigma);
        lemma_whole(input);
        lemma_whole(subnet.tao);
        lemma_whole(subnet.alpha_in);
    }
    proof {
        law_reference_is_the_smaller_reserve(*subnet);
        assert(is_reference(*subnet, reserve.bits as int));
        assert forall|x: int| #[trigger] is_reference(*subnet, x) implies x == reserve.bits by {}
    }
    let (c, n) = match solve_collateral(p, reserve, used, params.base_ltv) {
        Some(solution) => solution,
        None => return Err(Error::EffectiveLtvNonPositive),
    };
    assert(lent(*params, *subnet, b_sigma, input, reserve.bits as int, n.bits as int));
    let b = params.base_ltv.saturating_mul(c);
    if used.saturating_add(b).bits > params.kappa.saturating_mul(reserve).bits {
        proof {
            lemma_capacity_exceeded(*params, *subnet, b_sigma, input, c, n);
        }
        return Err(Error::ShortCapacityExceeded);
    }
    let tao = Fixed::from_num(subnet.tao);
    let alpha = Fixed::from_num(subnet.alpha_in);
    let phi = match solve_phi(n, tao) {
        Some(phi) => phi,
        None => {
            assert(4 * n.bits > subnet.tao * ONE_BITS);
            return Err(Error::ReserveDomainExceeded);
        },
    };
    proof {
        lemma_escrow_matches(phi, n, subnet.tao);
        vstd::arithmetic::div_mod::lemma_fundamental_div_mod(n.bits as int, ONE_BITS as int);
    }
    let terms = OpenTerms {
        n: n.to_amount(),
        e: phi.saturating_mul(tao).to_amount(),
        b: b.to_amount(),
        q: phi.saturating_mul(alpha).to_amount(),
    };
    if terms.n == 0 {
        return Err(Error::RetainedProceedsNonPositive);
    }
    proof {
        lemma_priced_right(*params, *subnet, b_sigma, input, c, n, phi);
    }
    Ok(terms)
}

impl Pallet {
    /// Whether everything that the terms of a short are made of fits the arithmetic, where it
    /// comes to them.
    pub fn open_fits(&self, origin: Origin, netuid: u16, position_input: u64) -> (r: bool)
        ensures
            r == open_bounded(self@, origin, netuid, position_input),
    {
        let coldkey = match origin {
            Origin::Signed(coldkey) => coldkey,
            _ => return true,
        };
        let priced = match self.subnets.get(&netuid) {
            Some(subnet) => self.params.shorts_enabled && subnet.mechanism == 1 && position_input
                >= self.params.min_input && subnet.moving_price != 0,
            None => false,
        };
        !priced || (self.market_fits(netuid) && self.position_fits(netuid, &coldkey)
            && position_input < AMOUNT_LIMIT)
    }

    /// Who may open, and on which terms.
    fn check_open(
        &self,
        origin: Origin,
        hotkey: AccountId,
        netuid: u16,
        position_input: u64,
        max_alpha_liability: u64,
    ) -> (r: Result<(AccountId, OpenTerms), Error>)
        requires
            priced(self@, origin, netuid, position_input) ==> self@.market_bounded(netuid) && fits(
                position_input,
            ),
        ensures
            r == admission(
                self@,
                origin,
                hotkey,
                netuid,
                position_input,
                max_alpha_liability,
            ),
    {
        let coldkey = match origin {
            Origin::Signed(coldkey) => coldkey,
            _ => return Err(Error::BadOrigin),
        };
        if !self.params.shorts_enabled {
            return Err(Error::ShortsDisabled);
        }
        let subnet = match self.subnets.get(&netuid) {
            Some(subnet) => *subnet,
            None => return Err(Error::SubnetNotExists),
        };
        if subnet.mechanism != 1 {
            return Err(Error::SubnetNotDynamic);
        }
        if position_input < self.params.min_input {
            return Err(Error::AmountTooLow);
        }
        if subnet.moving_price == 0 {
            return Err(Error::ColdEmaNotAllowed);
        }
        let agg = self.aggregate(netuid);
        let terms = match open_terms(&self.params, &subnet, agg.b_sigma, position_input) {
            Ok(terms) => terms,
            Err(e) => return Err(e),
        };
        if terms.q > max_alpha_liability {
            return Err(Error::SlippageTooHigh);
        }
        match self.positions.get(&OwnerKey { netuid, coldkey }) {
            Some(existing) => {
                if existing.hotkey != hotkey {
                    return Err(Error::ShortHotkeyMismatch);
                }
            },
            None => {
                if self.position_count(netuid) >= self.params.max_positions {
                    return Err(Error::ShortPositionLimit);
                }
            },
        }
        Ok((coldkey, terms))
    }

    /// Open a covered short, or merge into the one that is there. Everything that can be refused
    /// is refused before anything moves.
    pub fn do_open_short(
        &mut self,
        origin: Origin,
        hotkey: AccountId,
        netuid: u16,
        position_input: u64,
        max_alpha_liability: u64,
    ) -> (r: Result<(), Error>)
        requires
            open_bounded(old(self)@, origin, netuid, position_input),
        ensures
            follows(
                old(self)@,
                final(self)@,
                r,
                open_outcome(
                    old(self)@,
                    origin,
                    hotkey,
                    netuid,
                    position_input,
                    max_alpha_liability,
                ),
            ),
    {
        let (coldkey, terms) = match self.check_open(
            origin,
            hotkey,
            netuid,
            position_input,
            max_alpha_liability,
        ) {
            Ok(admitted) => admitted,
            Err(e) => return Err(e),
        };
        let key = OwnerKey { netuid, coldkey };
        let mut subnet = self.subnet_or_empty(netuid);
        let mut agg = self.aggregate(netuid);
        let custody = self.short_custody_account(netuid);
        let removed = terms.n.saturating_add(terms.e);

        // The trader posts the floor, then the pool's part follows; if that fails, the floor
        // goes back.
        let trader_held = self.balances.get(&coldkey);
        let custody_held = self.balances.get(&custody);
        if let Err(e) = transfer_tao(&mut self.balances, coldkey, custody, position_input) {
            return Err(e);
        }
        if let Err(e) = transfer_tao(&mut self.balances, subnet.account, custody, removed) {
            proof {
                lemma_transfer_undone(old(self)@.balances, coldkey, custody, position_input);
            }
            self.balances.set(coldkey, trader_held);
            self.balances.set(custody, custody_held);
            return Err(e);
        }
        subnet.tao = subnet.tao.saturating_sub(removed);
        self.subnets.insert(netuid, subnet);
        self.total_stake = self.total_stake.saturating_sub(removed);

        let existing: Option<ShortPosition> = match self.positions.get(&key) {
            Some(existing) => Some(*existing),
            None => None,
        };
        let pos = match existing {
            Some(existing) => {
                let mut pos = existing;
                materialize_short(&mut pos, agg.omega);
                pos.p_floor = pos.p_floor.saturating_add(position_input);
                pos.q_liability = pos.q_liability.saturating_add(terms.q);
                pos.r_stored = pos.r_stored.saturating_add(terms.n);
                pos.e_stored = pos.e_stored.saturating_add(terms.e);
                pos.b_stored = pos.b_stored.saturating_add(terms.b);
                pos.last_active = self.block;
                pos
            },
            None => {
                let count = self.position_count(netuid);
                self.counts.insert(netuid, count + 1);
                ShortPosition {
                    hotkey,
                    p_floor: position_input,
                    q_liability: terms.q,
                    r_stored: terms.n,
                    e_stored: terms.e,
                    b_stored: terms.b,
                    omega_entry: agg.omega,
                    last_active: self.block,
                }
            },
        };
        self.positions.insert(key, pos);

        agg.r_sigma = agg.r_sigma.saturating_add(terms.n);
        agg.e_sigma = agg.e_sigma.saturating_add(terms.e);
        agg.b_sigma = agg.b_sigma.saturating_add(terms.b);
        agg.q_sigma = agg.q_sigma.saturating_add(terms.q);
        self.aggregates.insert(netuid, agg);
        self.active.insert(netuid, ());
        self.events.push(
            Event::ShortOpened {
                coldkey,
                netuid,
                position_input,
                retained_proceeds: terms.n,
                alpha_liability: terms.q,
                escrow: terms.e,
            },
        );
        proof {
            let expected = opened(old(self)@, coldkey, hotkey, netuid, position_input, terms)->Ok_0;
            assert(self@.active =~= expected.active);
            assert(self@ =~= expected);
        }
        Ok(())
    }

    /// Add fresh capital to the buffer of a position.
    pub fn do_top_up_short(&mut self, origin: Origin, netuid: u16, amount: u64) -> (r: Result<
        (),
        Error,
    >)
        requires
            amount != 0 ==> (origin matches Origin::Signed(coldkey)
                ==> old(self)@.position_bounded(netuid, coldkey)),
        ensures
            follows(
                old(self)@,
                final(self)@,
                r,
                top_up_outcome(old(self)@, origin, netuid, amount),
            ),
    {
        let coldkey = match origin {
            Origin::Signed(coldkey) => coldkey,
            _ => return Err(Error::BadOrigin),
        };
        if amount == 0 {
            return Err(Error::AmountTooLow);
        }
        let key = OwnerKey { netuid, coldkey };
        let mut pos = match self.positions.get(&key) {
            Some(pos) => *pos,
            None => return Err(Error::ShortPositionNotFound),
        };
        let mut agg = self.aggregate(netuid);
        materialize_short(&mut pos, agg.omega);

        let custody = self.short_custody_account(netuid);
        if let Err(e) = transfer_tao(&mut self.balances, coldkey, custody, amount) {
            return Err(e);
        }
        pos.r_stored = pos.r_stored.saturating_add(amount);
        pos.last_active = self.block;
        agg.r_sigma = agg.r_sigma.saturating_add(amount);

        self.positions.insert(key, pos);
        self.aggregates.insert(netuid, agg);
        self.events.push(Event::ShortToppedUp { coldkey, netuid, amount });
        Ok(())
    }
}

} // verus!
