//! What clients may ask: quotes, positions and the state of a market.
use crate::accounts::{AccountId, OwnerKey, StakeKey};
use crate::close::{default_eligible, slice_of, take_slice};
use crate::decay::next_decay;
use crate::dust::right_time;
use crate::fixed::{fits, lemma_whole, Fixed, AMOUNT_LIMIT};
use crate::math::{
    buyback_cost_rao, ceiling, collateral, daily_decay, from_ppb, lemma_ceiling, lemma_share_of_amount,
    materialize_short, materialized, pool_fraction, ratio_from_ppb, ratio_to_ppb,
    reference_reserve, short_blocks_to_dust, short_daily_decay, short_spot_close_cost,
    short_t_ref, solve_collateral, solve_phi, spot_cost, time_to_dust, to_ppb, HALF_BITS, PPB,
};
use crate::pallet::{sat_add, sat_sub, Pallet, State};
use crate::types::{
    CloseShortQuote, Params, ShortMarketInfo, ShortOpenQuote, ShortPositionInfo, Subnet,
};
use vstd::prelude::*;

verus! {

/// What a short of the given input would look like in a market with the given footprint. There is
/// none while shorts are off, where the subnet is no market, and where the collateral or the pool
/// does not carry it.
pub open spec fn open_quote(params: Params, subnet: Subnet, b_sigma: u64, input: u64) -> Option<
    ShortOpenQuote,
> {
    let tao = Fixed::whole(subnet.tao as int);
    if !params.shorts_enabled || subnet.mechanism != 1 {
        None
    } else {
        match collateral(
            Fixed::whole(input as int),
            reference_reserve(subnet),
            Fixed::whole(b_sigma as int),
            params.base_ltv,
        ) {
            None => None,
            Some((c, n)) => match pool_fraction(n, tao) {
                None => None,
                Some(phi) => {
                    let q = phi.times(Fixed::whole(subnet.alpha_in as int)).floor_amount();
                    Some(
                        ShortOpenQuote {
                            gross_collateral: c.floor_amount(),
                            retained_proceeds: n.floor_amount(),
                            alpha_liability: q,
                            escrow: phi.times(tao).floor_amount(),
                            effective_ltv: to_ppb(n.over(c)),
                            daily_decay: to_ppb(daily_decay(params, subnet, b_sigma)),
                            est_close_cost: spot_cost(subnet, q),
                        },
                    )
                },
            },
        }
    }
}

/// The position of a coldkey, decayed to the present.
pub open spec fn position_info(s: State, netuid: u16, coldkey: AccountId) -> ShortPositionInfo {
    let agg = s.agg(netuid);
    let pos = materialized(s.position(netuid, coldkey), agg.omega);
    let daily = daily_decay(s.params, s.subnet(netuid), agg.b_sigma);
    let held = s.stake(netuid, pos.hotkey, coldkey);
    ShortPositionInfo {
        netuid,
        hotkey: pos.hotkey,
        floor: pos.p_floor,
        alpha_liability: pos.q_liability,
        buffer: pos.r_stored,
        escrow: pos.e_stored,
        collateral_claim: sat_add(pos.p_floor, pos.r_stored),
        daily_decay: to_ppb(daily),
        blocks_to_dust: time_to_dust(s.params.dust, pos.r_stored, daily),
        default_eligible: default_eligible(s, pos),
        defaultable_at_block: sat_add(pos.last_active, s.params.short_default_grace),
        est_close_cost: spot_cost(s.subnet(netuid), pos.q_liability),
        alpha_held: held,
        alpha_needed: sat_sub(pos.q_liability, held),
    }
}

/// The position, if there is one, fits the arithmetic, and so do its market and what buying back
/// its liability costs.
pub open spec fn viewable(s: State, netuid: u16, coldkey: AccountId) -> bool {
    s.has_position(netuid, coldkey) ==> s.market_bounded(netuid) && s.position(
        netuid,
        coldkey,
    ).bounded() && fits(spot_cost(s.subnet(netuid), s.position(netuid, coldkey).q_liability))
}

/// The positions of a coldkey on the given subnets, in their order.
pub open spec fn infos_along(s: State, coldkey: AccountId, order: Seq<u16>) -> Seq<
    ShortPositionInfo,
>
    decreases order.len(),
{
    if order.len() == 0 {
        Seq::empty()
    } else {
        let before = infos_along(s, coldkey, order.drop_last());
        if s.has_position(order.last(), coldkey) {
            before.push(position_info(s, order.last(), coldkey))
        } else {
            before
        }
    }
}

/// What closing a fraction of the position would cost to buy back fits the arithmetic, and so does
/// the position, if there is one.
pub open spec fn close_quotable(s: State, netuid: u16, coldkey: AccountId, fraction_ppb: u64) -> bool {
    0 < fraction_ppb <= PPB && s.has_position(netuid, coldkey) ==> s.position(
        netuid,
        coldkey,
    ).wholly_bounded() && fits(
        spot_cost(
            s.subnet(netuid),
            slice_of(s.position(netuid, coldkey), from_ppb(fraction_ppb)).q,
        ),
    )
}

/// The short market of a subnet.
pub open spec fn market_info(s: State, netuid: u16) -> ShortMarketInfo {
    let agg = s.agg(netuid);
    let reserve = reference_reserve(s.subnet(netuid));
    let cap = s.params.kappa.times(reserve);
    ShortMarketInfo {
        shorts_enabled: s.params.shorts_enabled,
        base_ltv: to_ppb(s.params.base_ltv),
        kappa: to_ppb(s.params.kappa),
        decay_min: to_ppb(s.params.decay_min),
        decay_max: to_ppb(s.params.decay_max),
        current_daily_decay: to_ppb(daily_decay(s.params, s.subnet(netuid), agg.b_sigma)),
        t_ref: reserve.floor_amount(),
        footprint_used: agg.b_sigma,
        footprint_cap: cap.floor_amount(),
        footprint_remaining: cap.minus(Fixed::whole(agg.b_sigma as int)).floor_amount(),
        open_interest_alpha: agg.q_sigma,
        buffer_total: agg.r_sigma,
        escrow_total: agg.e_sigma,
        dust_threshold: s.params.dust,
        min_input: s.params.min_input,
        default_grace: s.params.short_default_grace,
    }
}

/// What closing a fraction of a position would move.
pub open spec fn close_quote(s: State, netuid: u16, coldkey: AccountId, fraction_ppb: u64) -> Option<
    CloseShortQuote,
> {
    if fraction_ppb == 0 || fraction_ppb > PPB || !s.has_position(netuid, coldkey) {
        None
    } else {
        let pos = materialized(s.position(netuid, coldkey), s.agg(netuid).omega);
        let slice = slice_of(pos, from_ppb(fraction_ppb));
        let held = s.stake(netuid, pos.hotkey, coldkey);
        Some(
            CloseShortQuote {
                repay_alpha: slice.q,
                returned_tao: sat_add(slice.p, slice.r),
                escrow_settled: slice.e,
                est_buyback_cost: spot_cost(s.subnet(netuid), slice.q),
                alpha_held: held,
                alpha_needed: sat_sub(slice.q, held),
            },
        )
    }
}

/// A half of a pool, or less, costs no more than the other reserve.
proof fn lemma_half_costs_a_reserve(subnet: Subnet, phi: Fixed)
    requires
        subnet.bounded(),
        subnet.alpha_in > 0,
        phi.bits <= HALF_BITS,
    ensures
        spot_cost(subnet, phi.times(Fixed::whole(subnet.alpha_in as int)).floor_amount())
            <= subnet.tao,
{
    let a = subnet.alpha_in as int;
    let t = subnet.tao as int;
    let q = phi.times(Fixed::whole(a)).floor_amount();
    lemma_share_of_amount(phi, subnet.alpha_in);
    assert(0 <= t * q <= t * (a - q)) by (nonlinear_arith)
        requires
            0 <= t,
            0 <= q,
            2 * q <= a,
    ;
    assert(t * (a - q) <= u128::MAX) by (nonlinear_arith)
        requires
            0 <= t <= u64::MAX,
            0 <= a - q <= u64::MAX,
    ;
    let cost = ceiling(t * q, a - q);
    lemma_ceiling(t * q, a - q);
    assert(cost <= t) by (nonlinear_arith)
        requires
            cost * (a - q) < t * q + (a - q),
            t * q <= t * (a - q),
            a - q > 0,
    ;
}

impl Pallet {
    /// A quote for opening a short. A market with TAO and without alpha has no price, so none is
    /// asked of it.
    pub fn quote_open_short(&self, netuid: u16, position_input: u64) -> (r: Option<ShortOpenQuote>)
        requires
            self@.params.shorts_enabled && self@.subnet(netuid).mechanism == 1 ==> {
                &&& self@.market_bounded(netuid)
                &&& self@.subnet(netuid).alpha_in > 0 || self@.subnet(netuid).tao == 0
                &&& fits(position_input)
            },
        ensures
            r == open_quote(
                self@.params,
                self@.subnet(netuid),
                self@.agg(netuid).b_sigma,
                position_input,
            ),
    {
        let subnet = self.subnet_or_empty(netuid);
        if !self.params.shorts_enabled || subnet.mechanism != 1 {
            return None;
        }
        let agg = self.aggregate(netuid);
        let reserve = short_t_ref(&subnet);
        let tao = Fixed::from_num(subnet.tao);
        let alpha = Fixed::from_num(subnet.alpha_in);
        proof {
            lemma_whole(agg.b_sigma);
            lemma_whole(position_input);
            lemma_whole(subnet.tao);
            lemma_whole(subnet.alpha_in);
        }
        let (c, n) = match solve_collateral(
            Fixed::from_num(position_input),
            reserve,
            Fixed::from_num(agg.b_sigma),
            self.params.base_ltv,
        ) {
            Some(solution) => solution,
            None => return None,
        };
        let phi = match solve_phi(n, tao) {
            Some(phi) => phi,
            None => return None,
        };
        let q = phi.saturating_mul(alpha).to_amount();
        proof {
            lemma_half_costs_a_reserve(subnet, phi);
        }
        Some(
            ShortOpenQuote {
                gross_collateral: c.to_amount(),
                retained_proceeds: n.to_amount(),
                alpha_liability: q,
                escrow: phi.saturating_mul(tao).to_amount(),
                effective_ltv: ratio_to_ppb(n.safe_div(c)),
                daily_decay: ratio_to_ppb(
                    short_daily_decay(&self.params, &subnet, agg.b_sigma),
                ),
                est_close_cost: short_spot_close_cost(&subnet, q).to_amount(),
            },
        )
    }

    /// The position of a coldkey on a subnet, decayed to the present.
    pub fn get_short_position(&self, coldkey: &AccountId, netuid: u16) -> (r: Option<
        ShortPositionInfo,
    >)
        requires
            viewable(self@, netuid, *coldkey),
        ensures
            r == (if self@.has_position(netuid, *coldkey) {
                Some(position_info(self@, netuid, *coldkey))
            } else {
                None
            }),
            r matches Some(info) ==> (0 < self@.params.dust < info.buffer && next_decay(
                self@,
                netuid,
            ).bits > 0 ==> right_time(
                info.buffer,
                self@.params.dust,
                next_decay(self@, netuid),
                info.blocks_to_dust,
            )),
    {
        let mut pos = match self.positions.get(&OwnerKey { netuid, coldkey: *coldkey }) {
            Some(pos) => *pos,
            None => return None,
        };
        let agg = self.aggregate(netuid);
        let subnet = self.subnet_or_empty(netuid);
        materialize_short(&mut pos, agg.omega);
        let daily = short_daily_decay(&self.params, &subnet, agg.b_sigma);
        let defaultable_at_block = pos.last_active.saturating_add(self.params.short_default_grace);
        let alpha_held = self.stakes.get(
            &StakeKey { netuid, hotkey: pos.hotkey, coldkey: *coldkey },
        );
        Some(
            ShortPositionInfo {
                netuid,
                hotkey: pos.hotkey,
                floor: pos.p_floor,
                alpha_liability: pos.q_liability,
                buffer: pos.r_stored,
                escrow: pos.e_stored,
                collateral_claim: pos.p_floor.saturating_add(pos.r_stored),
                daily_decay: ratio_to_ppb(daily),
                blocks_to_dust: short_blocks_to_dust(self.params.dust, pos.r_stored, daily),
                default_eligible: pos.r_stored <= self.params.dust && self.block
                    >= defaultable_at_block,
                defaultable_at_block,
                est_close_cost: short_spot_close_cost(&subnet, pos.q_liability).to_amount(),
                alpha_held,
                alpha_needed: pos.q_liability.saturating_sub(alpha_held),
            },
        )
    }

    /// The subnets, each once.
    pub fn get_all_subnet_netuids(&self) -> (r: Vec<u16>)
        ensures
            r@ == self.subnets.listing(),
            r@.no_duplicates(),
            forall|k: u16| r@.contains(k) <==> self@.subnets.contains_key(k),
    {
        self.subnets.keys()
    }

    /// Whether the position of a coldkey, if there is one, fits the arithmetic, and its market and
    /// what buying back its liability costs with it.
    pub fn position_view_fits(&self, coldkey: &AccountId, netuid: u16) -> (r: bool)
        ensures
            r == viewable(self@, netuid, *coldkey),
    {
        match self.positions.get(&OwnerKey { netuid, coldkey: *coldkey }) {
            Some(pos) => {
                let subnet = self.subnet_or_empty(netuid);
                self.market_fits(netuid) && pos.is_bounded() && buyback_cost_rao(
                    subnet.tao as u128,
                    subnet.alpha_in as u128,
                    pos.q_liability as u128,
                ) < AMOUNT_LIMIT
            },
            None => true,
        }
    }

    /// Whether a quote for closing a fraction of a position fits the arithmetic.
    pub fn close_quote_fits(&self, coldkey: &AccountId, netuid: u16, fraction_ppb: u64) -> (r: bool)
        ensures
            r == close_quotable(self@, netuid, *coldkey, fraction_ppb),
    {
        if fraction_ppb == 0 || fraction_ppb > PPB {
            return true;
        }
        match self.positions.get(&OwnerKey { netuid, coldkey: *coldkey }) {
            Some(pos) => {
                let subnet = self.subnet_or_empty(netuid);
                pos.is_wholly_bounded() && buyback_cost_rao(
                    subnet.tao as u128,
                    subnet.alpha_in as u128,
                    take_slice(pos, ratio_from_ppb(fraction_ppb)).q as u128,
                ) < AMOUNT_LIMIT
            },
            None => true,
        }
    }

    /// All shorts of a coldkey, each once, in the order in which the subnets are listed.
    pub fn get_short_positions(&self, coldkey: &AccountId) -> (r: Vec<ShortPositionInfo>)
        requires
            forall|netuid: u16| #[trigger] viewable(self@, netuid, *coldkey),
        ensures
            r@ == infos_along(self@, *coldkey, self.subnets.listing()),
            forall|i: int|
                0 <= i < r@.len() ==> self@.subnets.contains_key((#[trigger] r@[i]).netuid)
                    && self@.has_position(r@[i].netuid, *coldkey) && r@[i] == position_info(
                    self@,
                    r@[i].netuid,
                    *coldkey,
                ),
            forall|netuid: u16|
                self@.subnets.contains_key(netuid) && #[trigger] self@.has_position(
                    netuid,
                    *coldkey,
                ) ==> r@.contains(position_info(self@, netuid, *coldkey)),
            forall|i: int, j: int|
                0 <= i < j < r@.len() ==> (#[trigger] r@[i]).netuid != (#[trigger] r@[j]).netuid,
    {
        let netuids = self.get_all_subnet_netuids();
        let mut r: Vec<ShortPositionInfo> = Vec::new();
        let mut i: usize = 0;
        assert(netuids@.take(0) =~= Seq::<u16>::empty());
        while i < netuids.len()
            invariant
                i <= netuids@.len(),
                r@ == infos_along(self@, *coldkey, netuids@.take(i as int)),
                netuids@.no_duplicates(),
                forall|k: u16| netuids@.contains(k) <==> self@.subnets.contains_key(k),
                forall|netuid: u16| #[trigger] viewable(self@, netuid, *coldkey),
                forall|a: int|
                    0 <= a < r@.len() ==> netuids@.take(i as int).contains(
                        (#[trigger] r@[a]).netuid,
                    ) && self@.has_position(r@[a].netuid, *coldkey) && r@[a] == position_info(
                        self@,
                        r@[a].netuid,
                        *coldkey,
                    ),
                forall|netuid: u16|
                    netuids@.take(i as int).contains(netuid) && #[trigger] self@.has_position(
                        netuid,
                        *coldkey,
                    ) ==> r@.contains(position_info(self@, netuid, *coldkey)),
                forall|a: int, b: int|
                    0 <= a < b < r@.len() ==> (#[trigger] r@[a]).netuid != (
                    #[trigger] r@[b]).netuid,
            decreases netuids@.len() - i,
        {
            let netuid = netuids[i];
            let ghost seen = netuids@.take(i as int);
            let ghost listed = r@;
            proof {
                assert(netuids@.take(i + 1) =~= seen.push(netuid));
                assert(seen.push(netuid).drop_last() =~= seen);
                crate::settle::lemma_push_contains(seen, netuid);
                assert(!seen.contains(netuid)) by {
                    if seen.contains(netuid) {
                        let j = choose|j: int| 0 <= j < seen.len() && seen[j] == netuid;
                        assert(netuids@[j] == netuids@[i as int]);
                    }
                }
                assert(viewable(self@, netuid, *coldkey));
            }
            if let Some(info) = self.get_short_position(coldkey, netuid) {
                r.push(info);
                proof {
                    crate::settle::lemma_push_contains(listed, info);
                    assert forall|a: int| 0 <= a < r@.len() implies seen.push(netuid).contains(
                        (#[trigger] r@[a]).netuid,
                    ) && self@.has_position(r@[a].netuid, *coldkey) && r@[a] == position_info(
                        self@,
                        r@[a].netuid,
                        *coldkey,
                    ) by {
                        if a < listed.len() {
                            assert(listed[a] == r@[a]);
                        }
                    }
                    assert forall|a: int, b: int| 0 <= a < b < r@.len() implies (
                    #[trigger] r@[a]).netuid != (#[trigger] r@[b]).netuid by {
                        assert(listed[a] == r@[a]);
                        if b < listed.len() {
                            assert(listed[b] == r@[b]);
                        }
                    }
                }
            }
            i = i + 1;
        }
        proof {
            assert(netuids@.take(i as int) =~= netuids@);
        }
        r
    }

    /// The short market of a subnet.
    pub fn get_subnet_short_state(&self, netuid: u16) -> (r: Option<ShortMarketInfo>)
        requires
            self@.subnets.contains_key(netuid) ==> self@.market_bounded(netuid),
        ensures
            r == (if self@.subnets.contains_key(netuid) {
                Some(market_info(self@, netuid))
            } else {
                None
            }),
    {
        let subnet = match self.subnets.get(&netuid) {
            Some(subnet) => *subnet,
            None => return None,
        };
        let agg = self.aggregate(netuid);
        let reserve = short_t_ref(&subnet);
        let cap = self.params.kappa.saturating_mul(reserve);
        let used = Fixed::from_num(agg.b_sigma);
        Some(
            ShortMarketInfo {
                shorts_enabled: self.params.shorts_enabled,
                base_ltv: ratio_to_ppb(self.params.base_ltv),
                kappa: ratio_to_ppb(self.params.kappa),
                decay_min: ratio_to_ppb(self.params.decay_min),
                decay_max: ratio_to_ppb(self.params.decay_max),
                current_daily_decay: ratio_to_ppb(
                    short_daily_decay(&self.params, &subnet, agg.b_sigma),
                ),
                t_ref: reserve.to_amount(),
                footprint_used: agg.b_sigma,
                footprint_cap: cap.to_amount(),
                footprint_remaining: cap.saturating_sub(used).to_amount(),
                open_interest_alpha: agg.q_sigma,
                buffer_total: agg.r_sigma,
                escrow_total: agg.e_sigma,
                dust_threshold: self.params.dust,
                min_input: self.params.min_input,
                default_grace: self.params.short_default_grace,
            },
        )
    }

    /// A quote for closing a fraction of a position, in billionths.
    pub fn quote_close_short(&self, coldkey: &AccountId, netuid: u16, fraction_ppb: u64) -> (r:
        Option<CloseShortQuote>)
        requires
            close_quotable(self@, netuid, *coldkey, fraction_ppb),
        ensures
            r == close_quote(self@, netuid, *coldkey, fraction_ppb),
    {
        if fraction_ppb == 0 || fraction_ppb > PPB {
            return None;
        }
        let mut pos = match self.positions.get(&OwnerKey { netuid, coldkey: *coldkey }) {
            Some(pos) => *pos,
            None => return None,
        };
        materialize_short(&mut pos, self.aggregate(netuid).omega);
        let slice = take_slice(&pos, ratio_from_ppb(fraction_ppb));
        let alpha_held = self.stakes.get(
            &StakeKey { netuid, hotkey: pos.hotkey, coldkey: *coldkey },
        );
        let subnet = self.subnet_or_empty(netuid);
        Some(
            CloseShortQuote {
                repay_alpha: slice.q,
                returned_tao: slice.p.saturating_add(slice.r),
                escrow_settled: slice.e,
                est_buyback_cost: short_spot_close_cost(&subnet, slice.q).to_amount(),
                alpha_held,
                alpha_needed: slice.q.saturating_sub(alpha_held),
            },
        )
    }
}

} // verus!
