//! What every call moves, on both sides of the books: what a position gains or loses, the sums of
//! its subnet and the accounts gain or lose as well.
use crate::accounts::{AccountId, Origin, OwnerKey, StakeKey};
use crate::close::{close_outcome, default_outcome, slice_of};
use crate::decay::{decay_tick, next_decay, restored_amount};
use crate::fixed::{exp_fits, exp_sum, fits, Fixed, EXP_ORDER, ONE_BITS};
use crate::laws::books::{counted, lemma_owners_finite, owners};
use crate::laws::closing::{law_fractions_are_pro_rata, lemma_slice, lemma_terms_fit};
use crate::laws::decaying::lemma_next_decay;
use crate::laws::following::lemma_share_by_series;
use crate::laws::ledger::{
    law_transfer_conserves, lemma_close_moves, lemma_default_moves, lemma_open_moves, sound,
};
use crate::laws::opening::law_open_spares_the_pool;
use crate::math::{
    from_ppb, lemma_materialized, lemma_scaled, log_loss, materialized, remaining_share,
};
use crate::open::{admission, open_outcome, top_up_outcome};
use crate::pallet::State;
use crate::storage::amount_of;
use crate::types::{Event, ShortAgg, ShortPosition};
use vstd::prelude::*;

verus! {

broadcast use crate::math::lemma_remaining_share;

/// A position that holds nothing.
pub open spec fn nothing() -> ShortPosition {
    ShortPosition {
        hotkey: AccountId { lo: 0, hi: 0 },
        p_floor: 0,
        q_liability: 0,
        r_stored: 0,
        e_stored: 0,
        b_stored: 0,
        omega_entry: Fixed { bits: 0 },
        last_active: 0,
    }
}

/// What the short of a coldkey on a subnet holds at the present: what is stored, decayed to the
/// accumulator of the subnet, and nothing where there is none.
pub open spec fn held(s: State, netuid: u16, coldkey: AccountId) -> ShortPosition {
    if s.has_position(netuid, coldkey) {
        materialized(s.position(netuid, coldkey), s.agg(netuid).omega)
    } else {
        nothing()
    }
}

/// `part` is the fraction of `whole` in bits `f`, rounded down.
pub open spec fn fraction_of(part: u64, whole: u64, f: int) -> bool {
    part * ONE_BITS <= whole * f < (part + 1) * ONE_BITS
}

/// What decays of a position, its buffer, its escrow and its footprint, is decayed by one and the
/// same fraction, the exponential of what the accumulator has grown by since its entry; and nothing
/// else of it changes but the entry.
pub proof fn law_one_fraction_decays_a_position(pos: ShortPosition, now: Fixed, f: int)
    requires
        pos.bounded(),
        0 <= pos.omega_entry.bits <= now.bits,
        ({
            let y = now.bits - pos.omega_entry.bits;
            if exp_fits(y, EXP_ORDER as nat) {
                f * exp_sum(y, EXP_ORDER as nat) <= ONE_BITS * ONE_BITS < (f + 1) * exp_sum(
                    y,
                    EXP_ORDER as nat,
                )
            } else {
                f == 0
            }
        }),
    ensures
        ({
            let is = materialized(pos, now);
            &&& fraction_of(is.r_stored, pos.r_stored, f)
            &&& fraction_of(is.e_stored, pos.e_stored, f)
            &&& fraction_of(is.b_stored, pos.b_stored, f)
            &&& is.p_floor == pos.p_floor
            &&& is.q_liability == pos.q_liability
            &&& is.hotkey == pos.hotkey
            &&& is.last_active == pos.last_active
            &&& is.omega_entry == now
        }),
{
    let one = ONE_BITS as int;
    let y = now.bits - pos.omega_entry.bits;
    lemma_share_by_series(pos.omega_entry, now);
    let share = remaining_share(pos.omega_entry, now);
    if exp_fits(y, EXP_ORDER as nat) {
        let d = exp_sum(y, EXP_ORDER as nat);
        crate::series::lemma_sum(y, EXP_ORDER as nat);
        crate::series::lemma_inverse(d);
        let g = (one * one) / d;
        assert(f == g) by (nonlinear_arith)
            requires
                f * d <= one * one,
                one * one < (f + 1) * d,
                g * d <= one * one,
                one * one < (g + 1) * d,
                d > 0,
        {
            if f < g {
                assert((f + 1) * d <= g * d);
            }
            if g < f {
                assert((g + 1) * d <= f * d);
            }
        }
    }
    assert(share.bits == f);
    lemma_fraction_of(pos.r_stored, share);
    lemma_fraction_of(pos.e_stored, share);
    lemma_fraction_of(pos.b_stored, share);
    lemma_materialized(pos, now);
}

proof fn lemma_fraction_of(n: u64, f: Fixed)
    requires
        fits(n),
        0 <= f.bits <= ONE_BITS,
    ensures
        fraction_of(crate::math::scaled(n, f), n, f.bits as int),
{
    crate::laws::custody::lemma_scaled_bits(n, f);
}

/// Where a position comes from and where it goes to is the only thing about positions that a call
/// changes.
pub open spec fn one_position_changes(s: State, after: State, netuid: u16, coldkey: AccountId) -> bool {
    let key = OwnerKey { netuid, coldkey };
    if after.has_position(netuid, coldkey) {
        after.positions == s.positions.insert(key, after.position(netuid, coldkey))
    } else {
        after.positions == s.positions.remove(key)
    }
}

/// No amount of a position has run into the end of its type.
pub open spec fn position_fits(pos: ShortPosition) -> bool {
    &&& pos.p_floor < u64::MAX
    &&& pos.q_liability < u64::MAX
    &&& pos.r_stored < u64::MAX
    &&& pos.e_stored < u64::MAX
    &&& pos.b_stored < u64::MAX
}

/// No sum of a subnet has run into the end of its type.
pub open spec fn all_sums_fit(agg: ShortAgg) -> bool {
    &&& agg.r_sigma < u64::MAX
    &&& agg.e_sigma < u64::MAX
    &&& agg.b_sigma < u64::MAX
    &&& agg.q_sigma < u64::MAX
}

/// Opening books both sides. The position grows by the input as its floor, and by a buffer, an
/// escrow, a footprint and a liability by which the sums of the subnet grow as well. The trader
/// pays the input, the pool the buffer and the escrow, and custody gets all three; the reserve of
/// the pool shrinks with its account. The position is entered at the present, under the hotkey, and
/// nothing else changes.
pub proof fn law_open_books_both_sides(
    s: State,
    origin: Origin,
    hotkey: AccountId,
    netuid: u16,
    input: u64,
    max_q: u64,
)
    requires
        sound(s),
        s.subnet(netuid).bounded(),
        fits(input),
        s.subnet(netuid).account != s.custody(netuid),
        (origin matches Origin::Signed(c) ==> c != s.custody(netuid) && c
            != s.subnet(netuid).account && s.position_bounded(netuid, c)),
    ensures
        open_outcome(s, origin, hotkey, netuid, input, max_q) matches Ok(after) ==> {
            let c = origin->Signed_0;
            let (was, is) = (held(s, netuid, c), after.position(netuid, c));
            let (old_sums, sums) = (s.agg(netuid), after.agg(netuid));
            let (old_pool, pool) = (s.subnet(netuid), after.subnet(netuid));
            &&& origin is Signed
            &&& after.has_position(netuid, c)
            &&& one_position_changes(s, after, netuid, c)
            &&& position_fits(is) && all_sums_fit(sums) ==> {
                let (n, e, b, q) = (
                    is.r_stored - was.r_stored,
                    is.e_stored - was.e_stored,
                    is.b_stored - was.b_stored,
                    is.q_liability - was.q_liability,
                );
                &&& n > 0 && e >= 0 && b >= 0 && q >= 0
                &&& q <= max_q
                &&& is.p_floor == was.p_floor + input
                &&& sums.r_sigma == old_sums.r_sigma + n
                &&& sums.e_sigma == old_sums.e_sigma + e
                &&& sums.b_sigma == old_sums.b_sigma + b
                &&& sums.q_sigma == old_sums.q_sigma + q
                &&& after.balance(c) == s.balance(c) - input
                &&& after.balance(old_pool.account) == s.balance(old_pool.account) - n - e
                &&& after.balance(s.custody(netuid)) == s.balance(s.custody(netuid)) + input + n + e
                &&& pool.tao == old_pool.tao - n - e
                &&& old_pool.tao <= s.total_stake ==> after.total_stake == s.total_stake - n - e
                &&& after.events == s.events.push(
                    Event::ShortOpened {
                        coldkey: c,
                        netuid,
                        position_input: input,
                        retained_proceeds: n as u64,
                        alpha_liability: q as u64,
                        escrow: e as u64,
                    },
                )
            }
            &&& forall|k: AccountId|
                k != c && k != s.custody(netuid) && k != old_pool.account
                    ==> #[trigger] after.balance(k) == s.balance(k)
            &&& is.hotkey == hotkey
            &&& is.omega_entry == old_sums.omega
            &&& is.last_active == s.block
            &&& sums.omega == old_sums.omega
            &&& pool == (crate::types::Subnet { tao: pool.tao, ..old_pool })
            &&& after.subnets == s.subnets.insert(netuid, pool)
            &&& after.aggregates == s.aggregates.insert(netuid, sums)
            &&& after.active == s.active.insert(netuid)
            &&& after == (State {
                balances: after.balances,
                subnets: after.subnets,
                total_stake: after.total_stake,
                positions: after.positions,
                counts: after.counts,
                aggregates: after.aggregates,
                active: after.active,
                events: after.events,
                ..s
            })
        },
{
    if let Ok(after) = open_outcome(s, origin, hotkey, netuid, input, max_q) {
        let c = origin->Signed_0;
        let terms = admission(s, origin, hotkey, netuid, input, max_q)->Ok_0.1;
        lemma_open_moves(s, origin, hotkey, netuid, input, max_q);
        law_open_spares_the_pool(s.params, s.subnet(netuid), s.agg(netuid).b_sigma, input);
        lemma_terms_fit(terms, s, netuid, input);
        if s.has_position(netuid, c) {
            lemma_materialized(s.position(netuid, c), s.agg(netuid).omega);
        }
    }
}

/// A top-up books both sides: the buffer of the position, the sum of the buffers and custody grow
/// by the amount that the trader pays. The rest of the position is what is left of it at the
/// present, and nothing else changes.
pub proof fn law_top_up_books_both_sides(s: State, origin: Origin, netuid: u16, amount: u64)
    requires
        sound(s),
        (origin matches Origin::Signed(c) ==> c != s.custody(netuid) && s.position_bounded(
            netuid,
            c,
        )),
    ensures
        top_up_outcome(s, origin, netuid, amount) matches Ok(after) ==> {
            let c = origin->Signed_0;
            let (was, is) = (held(s, netuid, c), after.position(netuid, c));
            let (old_sums, sums) = (s.agg(netuid), after.agg(netuid));
            &&& origin is Signed
            &&& amount > 0
            &&& s.has_position(netuid, c)
            &&& after.has_position(netuid, c)
            &&& one_position_changes(s, after, netuid, c)
            &&& is.r_stored < u64::MAX ==> is.r_stored == was.r_stored + amount
            &&& sums.r_sigma < u64::MAX ==> sums.r_sigma == old_sums.r_sigma + amount
            &&& is.e_stored == was.e_stored
            &&& is.b_stored == was.b_stored
            &&& is.p_floor == was.p_floor
            &&& is.q_liability == was.q_liability
            &&& is.hotkey == was.hotkey
            &&& is.omega_entry == old_sums.omega
            &&& is.last_active == s.block
            &&& sums == (ShortAgg { r_sigma: sums.r_sigma, ..old_sums })
            &&& after.balance(c) == s.balance(c) - amount
            &&& after.balance(s.custody(netuid)) == s.balance(s.custody(netuid)) + amount
            &&& forall|k: AccountId|
                k != c && k != s.custody(netuid) ==> #[trigger] after.balance(k) == s.balance(k)
            &&& after.aggregates == s.aggregates.insert(netuid, sums)
            &&& after.events == s.events.push(Event::ShortToppedUp { coldkey: c, netuid, amount })
            &&& after == (State {
                balances: after.balances,
                positions: after.positions,
                aggregates: after.aggregates,
                events: after.events,
                ..s
            })
        },
{
    if let Ok(after) = top_up_outcome(s, origin, netuid, amount) {
        let c = origin->Signed_0;
        law_transfer_conserves(s.balances, c, s.custody(netuid), amount);
        assert forall|k: AccountId| k != c && k != s.custody(netuid) implies
            #[trigger] after.balance(k) == s.balance(k) by {
            assert(amount_of(after.balances, k) == amount_of(s.balances, k));
        }
        lemma_materialized(s.position(netuid, c), s.agg(netuid).omega);
    }
}

/// `part` is what of `whole` goes with a number of billionths of it: the fraction that they are to
/// the last bit, rounded down, which is that part, rounded down, or one less; and all of it for all
/// of them.
pub open spec fn billionths_of(part: int, whole: u64, ppb: u64) -> bool {
    let f = (ppb * ONE_BITS) / 1_000_000_000;
    &&& part * ONE_BITS <= whole * f < (part + 1) * ONE_BITS
    &&& part * 1_000_000_000 <= whole * ppb
    &&& whole * ppb < (part + 2) * 1_000_000_000
    &&& ppb == 1_000_000_000 ==> part == whole
}

/// What is left of a sum that loses a part.
pub open spec fn lessened(sum: u64, part: int) -> int {
    if sum < part {
        0
    } else {
        sum - part
    }
}

pub proof fn lemma_billionths(n: u64, ppb: u64)
    requires
        fits(n),
        ppb <= 1_000_000_000,
    ensures
        billionths_of(crate::math::scaled(n, from_ppb(ppb)) as int, n, ppb),
{
    law_fractions_are_pro_rata(n, ppb);
    crate::math::lemma_from_ppb(ppb);
    lemma_scaled(n, from_ppb(ppb));
    vstd::arithmetic::div_mod::lemma_fundamental_div_mod(n * ppb, 1_000_000_000);
    crate::laws::custody::lemma_scaled_bits(n, from_ppb(ppb));
}

/// Closing books both sides. Of each of the five amounts of the position, as they are at the
/// present, the same number of billionths goes. The sums of the subnet shrink by what goes of the
/// buffer, the escrow, the footprint and the liability. The liability is repaid out of the stake,
/// and joins the alpha reserve from outside it; the escrow joins the pool; the floor and the buffer
/// go to the trader; and custody pays for the last three. With the whole the position goes, and so
/// does one that has no floor; with less of one that has a floor it does not. With the last position
/// of a subnet its sums go as well. Nothing else changes.
pub proof fn law_close_books_both_sides(s: State, origin: Origin, netuid: u16, ppb: u64)
    requires
        sound(s),
        counted(s),
        s.subnet(netuid).account != s.custody(netuid),
        (origin matches Origin::Signed(c) ==> c != s.custody(netuid) && c
            != s.subnet(netuid).account && s.position_wholly_bounded(netuid, c)),
    ensures
        close_outcome(s, origin, netuid, ppb) matches Ok(after) ==> {
            let c = origin->Signed_0;
            let (was, is) = (held(s, netuid, c), if after.has_position(netuid, c) {
                after.position(netuid, c)
            } else {
                nothing()
            });
            let (old_sums, sums) = (s.agg(netuid), after.agg(netuid));
            let (old_pool, pool) = (s.subnet(netuid), after.subnet(netuid));
            let owner = OwnerKey { netuid, coldkey: c };
            let (p, q, r, e, b) = (
                was.p_floor - is.p_floor,
                was.q_liability - is.q_liability,
                was.r_stored - is.r_stored,
                was.e_stored - is.e_stored,
                was.b_stored - is.b_stored,
            );
            &&& origin is Signed
            &&& s.has_position(netuid, c)
            &&& 0 < ppb <= 1_000_000_000
            &&& one_position_changes(s, after, netuid, c)
            &&& ppb == 1_000_000_000 || was.p_floor == 0 ==> !after.has_position(netuid, c)
            &&& was.p_floor > 0 ==> {
                &&& ppb < 1_000_000_000 ==> after.has_position(netuid, c)
                &&& billionths_of(p, was.p_floor, ppb)
                &&& billionths_of(q, was.q_liability, ppb)
                &&& billionths_of(r, was.r_stored, ppb)
                &&& billionths_of(e, was.e_stored, ppb)
                &&& billionths_of(b, was.b_stored, ppb)
                &&& if after.has_position(netuid, c) || owners(s, netuid).len() > 1 {
                    &&& sums.r_sigma == lessened(old_sums.r_sigma, r)
                    &&& sums.e_sigma == lessened(old_sums.e_sigma, e)
                    &&& sums.b_sigma == lessened(old_sums.b_sigma, b)
                    &&& sums.q_sigma == lessened(old_sums.q_sigma, q)
                    &&& sums.omega == old_sums.omega
                    &&& after.aggregates == s.aggregates.insert(netuid, sums)
                } else {
                    after.aggregates == s.aggregates.remove(netuid)
                }
                &&& after.balance(c) == s.balance(c) + p + r
                &&& after.balance(old_pool.account) == s.balance(old_pool.account) + e
                &&& after.balance(s.custody(netuid)) == s.balance(s.custody(netuid)) - p - r - e
                &&& old_pool.tao + e <= u64::MAX ==> pool.tao == old_pool.tao + e
                &&& s.total_stake + e <= u64::MAX ==> after.total_stake == s.total_stake + e
                &&& old_pool.alpha_in + q <= u64::MAX ==> pool.alpha_in == old_pool.alpha_in + q
                &&& pool.alpha_out == old_pool.alpha_out - q
                &&& after.stake(netuid, was.hotkey, c) == s.stake(netuid, was.hotkey, c) - q
                &&& amount_of(after.coldkey_stakes, owner) == amount_of(s.coldkey_stakes, owner) - q
                &&& amount_of(s.locks, owner) + q <= amount_of(s.coldkey_stakes, owner) || q == 0
                &&& after.events == s.events.push(
                    Event::ShortClosed {
                        coldkey: c,
                        netuid,
                        fraction_ppb: ppb,
                        repaid_alpha: q as u64,
                        returned: (p + r) as u64,
                    },
                )
            }
            &&& forall|k: AccountId|
                k != c && k != s.custody(netuid) && k != old_pool.account
                    ==> #[trigger] after.balance(k) == s.balance(k)
            &&& forall|k: StakeKey|
                k != (StakeKey { netuid, hotkey: was.hotkey, coldkey: c }) ==> #[trigger] amount_of(
                    after.stakes,
                    k,
                ) == amount_of(s.stakes, k)
            &&& forall|k: OwnerKey|
                k != owner ==> #[trigger] amount_of(after.coldkey_stakes, k) == amount_of(
                    s.coldkey_stakes,
                    k,
                )
            &&& after.subnets == s.subnets.insert(netuid, pool)
            &&& after.has_position(netuid, c) ==> {
                &&& is.hotkey == was.hotkey
                &&& is.last_active == was.last_active
                &&& is.omega_entry == old_sums.omega
            }
            &&& pool == (crate::types::Subnet {
                tao: pool.tao,
                alpha_in: pool.alpha_in,
                alpha_out: pool.alpha_out,
                ..old_pool
            })
            &&& after == (State {
                balances: after.balances,
                subnets: after.subnets,
                total_stake: after.total_stake,
                stakes: after.stakes,
                coldkey_stakes: after.coldkey_stakes,
                positions: after.positions,
                counts: after.counts,
                aggregates: after.aggregates,
                active: after.active,
                events: after.events,
                ..s
            })
        },
{
    if let Ok(after) = close_outcome(s, origin, netuid, ppb) {
        let c = origin->Signed_0;
        let stored = s.position(netuid, c);
        let pos = materialized(stored, s.agg(netuid).omega);
        lemma_materialized(stored, s.agg(netuid).omega);
        lemma_slice(pos, ppb);
        lemma_close_moves(s, origin, netuid, ppb);
        lemma_billionths(pos.p_floor, ppb);
        lemma_billionths(pos.q_liability, ppb);
        lemma_billionths(pos.r_stored, ppb);
        lemma_billionths(pos.e_stored, ppb);
        lemma_billionths(pos.b_stored, ppb);
        let slice = slice_of(pos, from_ppb(ppb));
        assert(s.count(netuid) == owners(s, netuid).len());
        lemma_owners_finite(s, netuid);
        assert(owners(s, netuid).contains(c));
        assert(owners(s, netuid).len() > 0) by {
            vstd::set_lib::lemma_set_empty_equivalency_len(owners(s, netuid));
        }
    }
}

/// A default books both sides. The position goes with all it holds at the present: the buffer and
/// the escrow join the pool, the floor leaves custody and the issuance, and the sums of the subnet
/// shrink by the buffer, the escrow, the footprint and the liability; with the last position they
/// go. Nothing else changes.
pub proof fn law_default_books_both_sides(
    s: State,
    origin: Origin,
    coldkey: AccountId,
    netuid: u16,
)
    requires
        sound(s),
        counted(s),
        s.subnet(netuid).account != s.custody(netuid),
        s.position_bounded(netuid, coldkey),
    ensures
        default_outcome(s, origin, coldkey, netuid) matches Ok(after) ==> {
            let was = held(s, netuid, coldkey);
            let (old_sums, sums) = (s.agg(netuid), after.agg(netuid));
            let (old_pool, pool) = (s.subnet(netuid), after.subnet(netuid));
            let custody = s.custody(netuid);
            let residual = was.r_stored + was.e_stored;
            &&& origin is Signed
            &&& s.has_position(netuid, coldkey)
            &&& was.r_stored <= s.params.dust
            &&& was.last_active + s.params.short_default_grace <= u64::MAX ==> s.block
                >= was.last_active + s.params.short_default_grace
            &&& !after.has_position(netuid, coldkey)
            &&& one_position_changes(s, after, netuid, coldkey)
            &&& if owners(s, netuid).len() > 1 {
                &&& sums.r_sigma == lessened(old_sums.r_sigma, was.r_stored as int)
                &&& sums.e_sigma == lessened(old_sums.e_sigma, was.e_stored as int)
                &&& sums.b_sigma == lessened(old_sums.b_sigma, was.b_stored as int)
                &&& sums.q_sigma == lessened(old_sums.q_sigma, was.q_liability as int)
                &&& sums.omega == old_sums.omega
                &&& after.aggregates == s.aggregates.insert(netuid, sums)
            } else {
                after.aggregates == s.aggregates.remove(netuid)
            }
            &&& after.balance(old_pool.account) == s.balance(old_pool.account) + residual
            &&& s.balance(custody) >= residual + was.p_floor ==> after.balance(custody) == s.balance(
                custody,
            ) - residual - was.p_floor && after.total_issuance == s.total_issuance - was.p_floor
            &&& s.balance(custody) < residual + was.p_floor ==> after.balance(custody) == 0
                && after.total_issuance == s.total_issuance - (s.balance(custody) - residual)
            &&& old_pool.tao + residual <= u64::MAX ==> pool.tao == old_pool.tao + residual
            &&& s.total_stake + residual <= u64::MAX ==> after.total_stake == s.total_stake
                + residual
            &&& forall|k: AccountId|
                k != custody && k != old_pool.account ==> #[trigger] after.balance(k) == s.balance(
                    k,
                )
            &&& after.events == s.events.push(Event::ShortDefaulted { coldkey, netuid })
            &&& pool == (crate::types::Subnet { tao: pool.tao, ..old_pool })
            &&& after == (State {
                balances: after.balances,
                subnets: after.subnets,
                total_issuance: after.total_issuance,
                total_stake: after.total_stake,
                positions: after.positions,
                counts: after.counts,
                aggregates: after.aggregates,
                active: after.active,
                events: after.events,
                ..s
            })
        },
{
    if let Ok(after) = default_outcome(s, origin, coldkey, netuid) {
        lemma_materialized(s.position(netuid, coldkey), s.agg(netuid).omega);
        lemma_default_moves(s, origin, coldkey, netuid);
        assert(s.count(netuid) == owners(s, netuid).len());
        lemma_owners_finite(s, netuid);
        assert(owners(s, netuid).contains(coldkey));
        assert(owners(s, netuid).len() > 0) by {
            vstd::set_lib::lemma_set_empty_equivalency_len(owners(s, netuid));
        }
    }
}

/// The decay of a block books both sides. Where there is something to decay, a rate to decay by, a
/// subnet to give it to and enough in custody, each of the three sums loses the block's share of it,
/// rounded down; what goes of the buffers and of the escrows goes from custody to the pool; and the
/// accumulator grows by the loss of the block. The liabilities, the positions and everything else
/// stay. Where there is nothing to decay or no rate, nothing changes.
pub proof fn law_decay_books_both_sides(s: State, netuid: u16)
    requires
        sound(s),
        s.decay_bounded(netuid),
        s.subnets.contains_key(netuid),
        s.subnet(netuid).account != s.custody(netuid),
        s.balance(s.custody(netuid)) >= s.agg(netuid).r_sigma + s.agg(netuid).e_sigma,
    ensures
        ({
            let after = decay_tick(s, netuid);
            let delta = next_decay(s, netuid).bits as int;
            let (old_sums, sums) = (s.agg(netuid), after.agg(netuid));
            let (old_pool, pool) = (s.subnet(netuid), after.subnet(netuid));
            let (r, e, b) = (
                old_sums.r_sigma - sums.r_sigma,
                old_sums.e_sigma - sums.e_sigma,
                old_sums.b_sigma - sums.b_sigma,
            );
            let idle = old_sums.r_sigma == 0 && old_sums.e_sigma == 0 && old_sums.b_sigma == 0;
            &&& idle || delta == 0 ==> after == s
            &&& !idle && delta > 0 ==> {
                &&& r * ONE_BITS <= old_sums.r_sigma * delta < (r + 1) * ONE_BITS
                &&& e * ONE_BITS <= old_sums.e_sigma * delta < (e + 1) * ONE_BITS
                &&& b * ONE_BITS <= old_sums.b_sigma * delta < (b + 1) * ONE_BITS
                &&& after.balance(old_pool.account) == s.balance(old_pool.account) + r + e
                &&& after.balance(s.custody(netuid)) == s.balance(s.custody(netuid)) - r - e
                &&& old_pool.tao + r + e <= u64::MAX ==> pool.tao == old_pool.tao + r + e
                &&& s.total_stake + r + e <= u64::MAX ==> after.total_stake == s.total_stake + r + e
                &&& old_sums.omega.bits + log_loss(next_decay(s, netuid)).bits <= i128::MAX
                    ==> sums.omega.bits == old_sums.omega.bits + log_loss(
                    next_decay(s, netuid),
                ).bits
                &&& sums.q_sigma == old_sums.q_sigma
            }
            &&& forall|k: AccountId|
                k != s.custody(netuid) && k != old_pool.account ==> #[trigger] after.balance(k)
                    == s.balance(k)
            &&& pool == (crate::types::Subnet { tao: pool.tao, ..old_pool })
            &&& after == s || after.aggregates == s.aggregates.insert(netuid, sums)
            &&& after == (State {
                balances: after.balances,
                subnets: after.subnets,
                total_stake: after.total_stake,
                aggregates: after.aggregates,
                ..s
            })
        }),
{
    let after = decay_tick(s, netuid);
    let agg = s.agg(netuid);
    let delta = next_decay(s, netuid);
    lemma_next_decay(s, netuid);
    lemma_scaled(agg.r_sigma, delta);
    lemma_scaled(agg.e_sigma, delta);
    lemma_scaled(agg.b_sigma, delta);
    lemma_fraction_of(agg.r_sigma, delta);
    lemma_fraction_of(agg.e_sigma, delta);
    lemma_fraction_of(agg.b_sigma, delta);
    crate::math::lemma_log_loss(delta);
    let restore = restored_amount(agg, delta);
    law_transfer_conserves(s.balances, s.custody(netuid), s.subnet(netuid).account, restore);
    crate::storage::lemma_sum_bound(s.balances, s.custody(netuid));
    assert forall|k: AccountId| k != s.custody(netuid) && k != s.subnet(netuid).account implies
        #[trigger] after.balance(k) == s.balance(k) by {
        if after.balances != s.balances {
            assert(amount_of(after.balances, k) == amount_of(s.balances, k));
        }
    }
}

} // verus!
