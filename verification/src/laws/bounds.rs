//! Custody under decay, in numbers: how much more than custody holds the shorts of a subnet may be
//! due after a number of blocks.
use crate::accounts::{AccountId, Origin};
use crate::close::{close_outcome, default_outcome};
use crate::decay::{decay_tick, decay_ticks, next_decay};
use crate::fixed::{Fixed, AMOUNT_LIMIT, ONE_BITS};
use crate::laws::books::{
    counted, law_settlement_clears_the_books, lemma_owners_finite, lemma_settle_each_positions,
    owners,
};
use crate::laws::compounding::ticked;
use crate::laws::custody::{backed, obligations};
use crate::laws::decaying::lemma_next_decay;
use crate::laws::following::{law_share_follows_the_block, lemma_loss_of_a_block, BLOCK_UNITS};
use crate::laws::shortfall::{
    law_decay_adds_the_gap, law_no_shortfall_is_backing, law_obligations_within_the_shortfall,
    share_excess, shortfall,
};
use crate::laws::ledger::{law_decay_conserves_tao, sound};
use crate::laws::sums::{
    lemma_sum_over_agrees, lemma_sum_over_bound, lemma_sum_over_ordered, lemma_sum_over_times,
    sum_over,
};
use crate::math::{
    daily_decay, lemma_block_decay, lemma_log_loss, lemma_scaled, log_loss, BLOCKS_PER_DAY,
};
use crate::open::{open_outcome, top_up_outcome};
use crate::pallet::State;
use crate::settle::{lists_owners, settled, terminal_terms};
use crate::types::{Params, ShortAgg, ShortPosition, Subnet};
use vstd::prelude::*;

verus! {

broadcast use crate::math::lemma_remaining_share;

/// The accumulators have not run backwards: none is negative, and no position was entered at a
/// value that its accumulator has not reached yet.
pub open spec fn entries_past(s: State) -> bool {
    &&& forall|netuid: u16| 0 <= (#[trigger] s.agg(netuid)).omega.bits
    &&& forall|netuid: u16, c: AccountId| #[trigger]
        s.has_position(netuid, c) ==> 0 <= s.position(netuid, c).omega_entry.bits <= s.agg(
            netuid,
        ).omega.bits
}

/// At the start there is nothing entered.
pub proof fn law_entries_are_past_at_the_start(pallet_id: u64, params: Params)
    ensures
        entries_past(State::initial(pallet_id, params)),
{
}

/// Opening, topping up, closing and defaulting enter positions at the present and leave the
/// accumulators alone, or drop one with its last position.
pub proof fn law_operations_keep_entries_past(
    s: State,
    origin: Origin,
    hotkey: AccountId,
    coldkey: AccountId,
    netuid: u16,
    amount: u64,
    max_q: u64,
)
    requires
        entries_past(s),
        counted(s),
        s.positions.dom().finite(),
    ensures
        open_outcome(s, origin, hotkey, netuid, amount, max_q) matches Ok(after) ==> entries_past(
            after,
        ),
        top_up_outcome(s, origin, netuid, amount) matches Ok(after) ==> entries_past(after),
        close_outcome(s, origin, netuid, amount) matches Ok(after) ==> entries_past(after),
        default_outcome(s, origin, coldkey, netuid) matches Ok(after) ==> entries_past(after),
{
    if let Ok(after) = open_outcome(s, origin, hotkey, netuid, amount, max_q) {
        let c = origin->Signed_0;
        assert forall|n: u16| 0 <= (#[trigger] after.agg(n)).omega.bits by {
            assert(s.agg(n).omega.bits >= 0);
        }
        assert forall|n: u16, k: AccountId| #[trigger] after.has_position(n, k) implies 0
            <= after.position(n, k).omega_entry.bits <= after.agg(n).omega.bits by {
            assert(s.agg(n).omega.bits >= 0);
            if n != netuid || k != c {
                assert(s.has_position(n, k));
            }
        }
    }
    if let Ok(after) = top_up_outcome(s, origin, netuid, amount) {
        let c = origin->Signed_0;
        assert forall|n: u16| 0 <= (#[trigger] after.agg(n)).omega.bits by {
            assert(s.agg(n).omega.bits >= 0);
        }
        assert forall|n: u16, k: AccountId| #[trigger] after.has_position(n, k) implies 0
            <= after.position(n, k).omega_entry.bits <= after.agg(n).omega.bits by {
            assert(s.agg(n).omega.bits >= 0);
            if n != netuid || k != c {
                assert(s.has_position(n, k));
            }
        }
    }
    if let Ok(after) = close_outcome(s, origin, netuid, amount) {
        let c = origin->Signed_0;
        lemma_entries_left(s, after, netuid, c);
    }
    if let Ok(after) = default_outcome(s, origin, coldkey, netuid) {
        lemma_entries_left(s, after, netuid, coldkey);
    }
}

/// What a position that is closed or gone leaves.
proof fn lemma_entries_left(s: State, after: State, netuid: u16, coldkey: AccountId)
    requires
        entries_past(s),
        counted(s),
        s.positions.dom().finite(),
        s.has_position(netuid, coldkey),
        forall|n: u16| n != netuid ==> #[trigger] after.agg(n) == s.agg(n),
        forall|n: u16, k: AccountId|
            n != netuid || k != coldkey ==> #[trigger] after.has_position(n, k) == s.has_position(
                n,
                k,
            ) && after.position(n, k) == s.position(n, k),
        after.has_position(netuid, coldkey) ==> after.position(netuid, coldkey).omega_entry == s.agg(
            netuid,
        ).omega && after.agg(netuid).omega == s.agg(netuid).omega,
        !after.has_position(netuid, coldkey) ==> after.agg(netuid).omega == s.agg(netuid).omega || (
        after.agg(netuid).omega == Fixed::nil() && s.count(netuid) <= 1),
    ensures
        entries_past(after),
{
    assert(s.agg(netuid).omega.bits >= 0);
    assert forall|n: u16| 0 <= (#[trigger] after.agg(n)).omega.bits by {
        assert(s.agg(n).omega.bits >= 0);
    }
    assert forall|n: u16, k: AccountId| #[trigger] after.has_position(n, k) implies 0
        <= after.position(n, k).omega_entry.bits <= after.agg(n).omega.bits by {
        assert(s.agg(n).omega.bits >= 0);
        if n != netuid || k != coldkey {
            assert(s.has_position(n, k));
            if n == netuid && after.agg(netuid).omega != s.agg(netuid).omega {
                // There was another owner, so the count was two or more.
                lemma_owners_finite(s, netuid);
                let all = owners(s, netuid);
                assert(all.contains(coldkey));
                assert(all.contains(k));
                assert(all.remove(coldkey).contains(k));
                assert(all.remove(coldkey).len() > 0) by {
                    vstd::set_lib::lemma_set_empty_equivalency_len(all.remove(coldkey));
                }
                assert(s.count(netuid) == all.len());
            }
        }
    }
}

/// The decay of a block moves an accumulator forward, and enters nothing.
pub proof fn law_decay_keeps_entries_past(s: State, netuid: u16)
    requires
        entries_past(s),
    ensures
        entries_past(decay_tick(s, netuid)),
        s.agg(netuid).omega.bits <= decay_tick(s, netuid).agg(netuid).omega.bits,
{
    let after = decay_tick(s, netuid);
    let delta = next_decay(s, netuid);
    if delta.bits > 0 {
        lemma_log_loss(delta);
    }
    assert(s.agg(netuid).omega.bits >= 0);
    assert forall|n: u16| 0 <= (#[trigger] after.agg(n)).omega.bits by {
        assert(s.agg(n).omega.bits >= 0);
    }
    assert forall|n: u16, k: AccountId| #[trigger] after.has_position(n, k) implies 0
        <= after.position(n, k).omega_entry.bits <= after.agg(n).omega.bits by {
        assert(s.has_position(n, k));
    }
}

/// So does the decay of a block on many subnets, and that of many blocks.
pub proof fn law_many_decays_keep_entries_past(s: State, order: Seq<u16>, netuid: u16, k: nat)
    requires
        entries_past(s),
    ensures
        entries_past(decay_ticks(s, order)),
        entries_past(ticked(s, netuid, k)),
    decreases order.len() + k,
{
    if order.len() > 0 {
        law_many_decays_keep_entries_past(s, order.drop_last(), netuid, k);
        law_decay_keeps_entries_past(decay_ticks(s, order.drop_last()), order.last());
    } else if k > 0 {
        law_many_decays_keep_entries_past(s, order, netuid, (k - 1) as nat);
        law_decay_keeps_entries_past(ticked(s, netuid, (k - 1) as nat), netuid);
    }
}

/// The settlement of a subnet leaves none of its positions, and the others alone.
pub proof fn law_settlement_keeps_entries_past(s: State, netuid: u16, order: Seq<AccountId>)
    requires
        entries_past(s),
        lists_owners(order, s, netuid),
    ensures
        entries_past(settled(s, netuid, order)),
{
    lemma_settle_each_positions(s, netuid, order, terminal_terms(s, netuid));
    law_settlement_clears_the_books(s, netuid, order);
    let after = settled(s, netuid, order);
    assert forall|n: u16| 0 <= (#[trigger] after.agg(n)).omega.bits by {
        assert(s.agg(n).omega.bits >= 0);
    }
    assert forall|n: u16, k: AccountId| #[trigger] after.has_position(n, k) implies 0
        <= after.position(n, k).omega_entry.bits <= after.agg(n).omega.bits by {
        if n == netuid {
            assert(owners(after, netuid).contains(k));
        }
        assert(s.has_position(n, k));
    }
}

/// The buffers of the shorts of a subnet as they were last written down.
pub open spec fn buffers_stored(s: State, netuid: u16) -> int {
    sum_over(owners(s, netuid), |c: AccountId| s.position(netuid, c).r_stored as int)
}

/// The escrows of the shorts of a subnet as they were last written down.
pub open spec fn escrows_stored(s: State, netuid: u16) -> int {
    sum_over(owners(s, netuid), |c: AccountId| s.position(netuid, c).e_stored as int)
}

/// What a block may add to the shortfall of a subnet, in bits.
pub open spec fn block_bound(s: State, netuid: u16) -> int {
    BLOCK_UNITS * (buffers_stored(s, netuid) + escrows_stored(s, netuid))
}

/// The decay of a block is at most a day's part of the whole, and its loss less than the whole.
pub proof fn lemma_decay_of_a_block(s: State, netuid: u16)
    requires
        s.market_bounded(netuid),
    ensures
        0 <= next_decay(s, netuid).bits,
        BLOCKS_PER_DAY * next_decay(s, netuid).bits <= ONE_BITS,
        0 <= 7000 * log_loss(next_decay(s, netuid)).bits <= ONE_BITS,
{
    lemma_next_decay(s, netuid);
    let daily = daily_decay(s.params, s.subnet(netuid), s.agg(netuid).b_sigma);
    lemma_block_decay(daily);
    vstd::arithmetic::div_mod::lemma_fundamental_div_mod(daily.bits as int, BLOCKS_PER_DAY as int);
    lemma_loss_of_a_block(next_decay(s, netuid));
}

/// By how much a block may set a position above its part of the sums.
proof fn lemma_excess(s: State, netuid: u16, coldkey: AccountId)
    requires
        entries_past(s),
        s.market_bounded(netuid),
        s.has_position(netuid, coldkey),
        s.agg(netuid).omega.bits + ONE_BITS <= i128::MAX,
        decay_tick(s, netuid) != s,
    ensures
        0 <= share_excess(s, netuid, coldkey) <= BLOCK_UNITS * ONE_BITS,
{
    lemma_decay_of_a_block(s, netuid);
    law_share_follows_the_block(
        s.position(netuid, coldkey).omega_entry,
        s.agg(netuid).omega,
        next_decay(s, netuid),
    );
}

/// The gap of a block in numbers.
proof fn lemma_gap(s: State, netuid: u16, n: spec_fn(AccountId) -> int)
    requires
        entries_past(s),
        s.positions.dom().finite(),
        s.market_bounded(netuid),
        s.agg(netuid).omega.bits + ONE_BITS <= i128::MAX,
        decay_tick(s, netuid) != s,
        forall|c: AccountId| s.has_position(netuid, c) ==> #[trigger] n(c) >= 0,
    ensures
        sum_over(owners(s, netuid), |c: AccountId| n(c) * share_excess(s, netuid, c)) / (
        ONE_BITS as int) <= BLOCK_UNITS * sum_over(owners(s, netuid), n),
{
    let all = owners(s, netuid);
    let one = ONE_BITS as int;
    let most = BLOCK_UNITS * one;
    lemma_owners_finite(s, netuid);
    let gap = |c: AccountId| n(c) * share_excess(s, netuid, c);
    let bound = |c: AccountId| n(c) * most;
    assert forall|c: AccountId| all.contains(c) implies #[trigger] gap(c) <= bound(c) by {
        lemma_excess(s, netuid, c);
        let x = share_excess(s, netuid, c);
        assert(n(c) >= 0);
        assert(n(c) * x <= n(c) * most) by (nonlinear_arith)
            requires
                n(c) >= 0,
                x <= most,
        ;
    }
    lemma_sum_over_ordered(all, gap, bound);
    lemma_sum_over_times(all, n, most);
    let (g, t) = (sum_over(all, gap), sum_over(all, n));
    assert(g <= one * (BLOCK_UNITS * t)) by (nonlinear_arith)
        requires
            g <= t * most,
            most == BLOCK_UNITS * one,
    ;
    vstd::arithmetic::div_mod::lemma_div_is_ordered(g, one * (BLOCK_UNITS * t), one);
    vstd::arithmetic::div_mod::lemma_div_multiples_vanish(BLOCK_UNITS * t, one);
}

/// The decay of a block adds to the shortfall of a subnet at most a number of bits for each rao
/// that was written down as a buffer or as an escrow.
pub proof fn law_block_adds_few_bits(s: State, netuid: u16)
    requires
        sound(s),
        entries_past(s),
        s.decay_bounded(netuid),
        s.subnet(netuid).account != s.custody(netuid),
        s.agg(netuid).omega.bits + ONE_BITS <= i128::MAX,
    ensures
        shortfall(decay_tick(s, netuid), netuid) <= shortfall(s, netuid) + block_bound(s, netuid),
        block_bound(s, netuid) >= 0,
{
    let all = owners(s, netuid);
    lemma_owners_finite(s, netuid);
    let r = |c: AccountId| s.position(netuid, c).r_stored as int;
    let e = |c: AccountId| s.position(netuid, c).e_stored as int;
    lemma_sum_over_bound(all, r, s.custody(netuid));
    lemma_sum_over_bound(all, e, s.custody(netuid));
    let (x, y) = (buffers_stored(s, netuid), escrows_stored(s, netuid));
    assert(block_bound(s, netuid) == BLOCK_UNITS * x + BLOCK_UNITS * y);
    if decay_tick(s, netuid) != s {
        law_decay_adds_the_gap(s, netuid);
        lemma_gap(s, netuid, r);
        lemma_gap(s, netuid, e);
        lemma_sum_over_agrees(
            all,
            |c: AccountId| r(c) * share_excess(s, netuid, c),
            |c: AccountId| s.position(netuid, c).r_stored * share_excess(s, netuid, c),
        );
        lemma_sum_over_agrees(
            all,
            |c: AccountId| e(c) * share_excess(s, netuid, c),
            |c: AccountId| s.position(netuid, c).e_stored * share_excess(s, netuid, c),
        );
    }
}

/// So do many blocks, each of them as much.
proof fn lemma_blocks_add_few_bits(s: State, netuid: u16, k: nat)
    requires
        sound(s),
        entries_past(s),
        s.subnet(netuid).account != s.custody(netuid),
        forall|j: nat| j < k ==> (#[trigger] ticked(s, netuid, j)).decay_bounded(netuid),
        s.agg(netuid).omega.bits + k * ONE_BITS <= i128::MAX,
    ensures
        ({
            let after = ticked(s, netuid, k);
            &&& shortfall(after, netuid) <= shortfall(s, netuid) + k * block_bound(s, netuid)
            &&& sound(after)
            &&& entries_past(after)
            &&& after.subnet(netuid).account == s.subnet(netuid).account
            &&& after.pallet_id == s.pallet_id
            &&& after.positions == s.positions
            &&& after.agg(netuid).omega.bits <= s.agg(netuid).omega.bits + k * ONE_BITS
        }),
    decreases k,
{
    if k == 0 {
        assert(0 * block_bound(s, netuid) == 0);
    } else {
        let j = (k - 1) as nat;
        assert forall|i: nat| i < j implies (#[trigger] ticked(s, netuid, i)).decay_bounded(
            netuid,
        ) by {
            assert(i < k);
        }
        assert(k * ONE_BITS == j * ONE_BITS + ONE_BITS) by (nonlinear_arith)
            requires
                k == j + 1,
        ;
        lemma_blocks_add_few_bits(s, netuid, j);
        let t = ticked(s, netuid, j);
        assert(t.decay_bounded(netuid));
        let b = block_bound(s, netuid);
        assert(owners(t, netuid) =~= owners(s, netuid));
        assert(block_bound(t, netuid) == b) by {
            lemma_owners_finite(s, netuid);
            lemma_sum_over_agrees(
                owners(s, netuid),
                |c: AccountId| t.position(netuid, c).r_stored as int,
                |c: AccountId| s.position(netuid, c).r_stored as int,
            );
            lemma_sum_over_agrees(
                owners(s, netuid),
                |c: AccountId| t.position(netuid, c).e_stored as int,
                |c: AccountId| s.position(netuid, c).e_stored as int,
            );
        }
        law_decay_conserves_tao(t, netuid);
        law_block_adds_few_bits(t, netuid);
        law_decay_keeps_entries_past(t, netuid);
        lemma_decay_of_a_block(t, netuid);
        assert(k * b == j * b + b) by (nonlinear_arith)
            requires
                k == j + 1,
        ;
    }
}

/// Custody covers the shorts of a subnet through decay, in numbers. After `k` blocks they are due
/// no more than custody holds, the shortfall that there was, and for each block a number of bits
/// for each rao that was written down as a buffer or as an escrow. Where custody backed them at
/// first, it is short of no more whole rao than those bits make; and of none while they make less
/// than one.
pub proof fn law_custody_covers_within_a_bound(s: State, netuid: u16, k: nat)
    requires
        sound(s),
        entries_past(s),
        s.subnet(netuid).account != s.custody(netuid),
        forall|c: AccountId| #[trigger] s.position_bounded(netuid, c),
        forall|j: nat| j < k ==> (#[trigger] ticked(s, netuid, j)).decay_bounded(netuid),
        s.agg(netuid).omega.bits + k * ONE_BITS <= i128::MAX,
    ensures
        ({
            let after = ticked(s, netuid, k);
            let held = after.balance(after.custody(netuid));
            let bound = k * block_bound(s, netuid);
            &&& obligations(after, netuid) * ONE_BITS <= held * ONE_BITS + shortfall(s, netuid)
                + bound
            &&& backed(s, netuid) ==> obligations(after, netuid) <= held + bound / (ONE_BITS as int)
            &&& backed(s, netuid) && bound < ONE_BITS ==> obligations(after, netuid) <= held
        }),
{
    lemma_blocks_add_few_bits(s, netuid, k);
    let after = ticked(s, netuid, k);
    assert forall|c: AccountId| #[trigger] after.position_bounded(netuid, c) by {
        assert(s.position_bounded(netuid, c));
    }
    law_obligations_within_the_shortfall(after, netuid);
    law_no_shortfall_is_backing(s, netuid);
    lemma_whole_rao(
        obligations(after, netuid),
        after.balance(after.custody(netuid)) as int,
        k * block_bound(s, netuid),
    );
}

/// What is due beyond a holding, in whole rao.
pub proof fn lemma_whole_rao(due: int, held: int, bound: int)
    ensures
        due * ONE_BITS <= held * ONE_BITS + bound ==> due <= held + bound / (ONE_BITS as int),
        due * ONE_BITS <= held * ONE_BITS + bound && bound < ONE_BITS ==> due <= held,
{
    let one = ONE_BITS as int;
    vstd::arithmetic::div_mod::lemma_fundamental_div_mod(bound, one);
    let q = bound / one;
    if due * one <= held * one + bound {
        assert(due <= held + q) by (nonlinear_arith)
            requires
                due * one <= held * one + bound,
                bound == one * q + bound % one,
                0 <= bound % one < one,
                one > 0,
        {
            assert((due - held - q) * one < one);
        }
        if bound < one {
            assert(due <= held) by (nonlinear_arith)
                requires
                    due * one <= held * one + bound,
                    bound < one,
                    one > 0,
            {
                assert((due - held) * one < one);
            }
        }
    }
}

/// Decay alone does not drive the amounts of a subnet out of the arithmetic: what leaves the sums
/// goes to the pool, so it is enough that the pool could hold all of it.
pub proof fn law_decay_stays_in_range(s: State, netuid: u16, k: nat)
    requires
        s.decay_bounded(netuid),
        s.subnet(netuid).tao + s.agg(netuid).r_sigma + s.agg(netuid).e_sigma < AMOUNT_LIMIT,
    ensures
        ({
            let after = ticked(s, netuid, k);
            &&& after.decay_bounded(netuid)
            &&& after.subnet(netuid).tao + after.agg(netuid).r_sigma + after.agg(netuid).e_sigma
                <= s.subnet(netuid).tao + s.agg(netuid).r_sigma + s.agg(netuid).e_sigma
        }),
    decreases k,
{
    if k > 0 {
        let j = (k - 1) as nat;
        law_decay_stays_in_range(s, netuid, j);
        let t = ticked(s, netuid, j);
        let delta = next_decay(t, netuid);
        lemma_next_decay(t, netuid);
        lemma_scaled(t.agg(netuid).r_sigma, delta);
        lemma_scaled(t.agg(netuid).e_sigma, delta);
        lemma_scaled(t.agg(netuid).b_sigma, delta);
    }
}

/// What fits the arithmetic: amounts below `2^63`, and prices below `2^95` units of `2^-32`. And
/// which parameters are in range: a cap above zero and of two at most, a loan to value above zero
/// and below one, and a least daily decay that is no more than the greatest, which is one at most.
pub proof fn law_what_is_in_range(
    subnet: Subnet,
    pos: ShortPosition,
    sums: ShortAgg,
    params: Params,
)
    ensures
        subnet.bounded() <==> subnet.tao < 0x8000_0000_0000_0000 && subnet.alpha_in
            < 0x8000_0000_0000_0000 && subnet.moving_price < 0x8000_0000_0000_0000_0000_0000,
        pos.bounded() <==> pos.r_stored < 0x8000_0000_0000_0000 && pos.e_stored
            < 0x8000_0000_0000_0000 && pos.b_stored < 0x8000_0000_0000_0000,
        pos.wholly_bounded() <==> pos.bounded() && pos.p_floor < 0x8000_0000_0000_0000
            && pos.q_liability < 0x8000_0000_0000_0000,
        sums.bounded() <==> sums.r_sigma < 0x8000_0000_0000_0000 && sums.e_sigma
            < 0x8000_0000_0000_0000 && sums.b_sigma < 0x8000_0000_0000_0000,
        params.valid() <==> 0 < params.kappa.bits <= 0x2_0000_0000_0000_0000 && 0
            < params.base_ltv.bits < 0x1_0000_0000_0000_0000 && 0 <= params.decay_min.bits
            <= params.decay_max.bits <= 0x1_0000_0000_0000_0000,
{
}

} // verus!
