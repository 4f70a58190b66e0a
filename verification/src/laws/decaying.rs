//! The decay of a block.
use crate::accounts::AccountId;
use crate::decay::{decay_tick, decay_ticks, lists, next_decay, restored_amount};
use crate::fixed::{
    exp_sum, fits, lemma_over, lemma_times, lemma_whole, Fixed, EXP_ORDER, ONE_BITS,
};
use crate::laws::ledger::{law_transfer_conserves, sound};
use crate::math::{
    curve, daily_decay, lemma_block_decay, lemma_log_loss, lemma_remaining_share, lemma_scaled,
    log_loss, materialized,
    reference_reserve, remaining_share, scaled, used_share,
};
use crate::pallet::{transferred, State};
use crate::series::{
    lemma_inverse, lemma_series_of_less_than_one, lemma_sum, lemma_sum_is_one_and_more,
};
use crate::storage::{amount_of, with_amount};
use crate::types::{Params, ShortPosition};
use vstd::prelude::*;

verus! {

/// The decay of a block is a share: not negative, and less than the whole. The daily decay runs
/// between its two ends.
pub proof fn lemma_next_decay(s: State, netuid: u16)
    requires
        s.market_bounded(netuid),
    ensures
        0 <= next_decay(s, netuid).bits < ONE_BITS,
        s.params.decay_min.bits <= daily_decay(
            s.params,
            s.subnet(netuid),
            s.agg(netuid).b_sigma,
        ).bits <= s.params.decay_max.bits,
{
    let subnet = s.subnet(netuid);
    let b_sigma = s.agg(netuid).b_sigma;
    let used = Fixed::whole(b_sigma as int);
    lemma_whole(b_sigma);
    let cap = s.params.kappa.times(reference_reserve(subnet));
    let u = used_share(used, cap);
    if cap.bits > 0 {
        lemma_over(used, cap);
    }
    assert(0 <= u.bits <= ONE_BITS);
    let span = s.params.decay_max.minus(s.params.decay_min);
    lemma_times(span, u);
    lemma_times(span.times(u), u);
    lemma_block_decay(daily_decay(s.params, subnet, b_sigma));
}

/// The daily decay of an idle market is the least, and that of a market at its cap the greatest.
pub proof fn law_decay_runs_between_its_ends(params: Params)
    requires
        params.valid(),
    ensures
        curve(params, Fixed::nil()) == params.decay_min,
        curve(params, Fixed::whole(1)) == params.decay_max,
{
    let span = params.decay_max.minus(params.decay_min);
    let one = ONE_BITS as int;
    assert(span.times(Fixed::nil()).bits == 0) by {
        assert(span.bits * 0 == 0);
    }
    vstd::arithmetic::div_mod::lemma_div_multiples_vanish(span.bits as int, one);
    assert(span.bits * one == one * span.bits);
    assert(Fixed::whole(1).bits == one);
    assert(span.times(Fixed::whole(1)) == span);
}

/// The decay of a block shrinks the buffers, the escrows and the footprint, or leaves them; it
/// never touches the open interest, and the accumulator never falls. What decays goes from
/// custody to the pool, rao for rao, and the pool's reserve and the total stake grow by it.
pub proof fn law_decay_restores_the_pool(s: State, netuid: u16)
    requires
        sound(s),
        s.decay_bounded(netuid),
        s.subnet(netuid).account != s.custody(netuid),
    ensures
        ({
            let after = decay_tick(s, netuid);
            let pool = s.subnet(netuid).account;
            let custody = s.custody(netuid);
            let moved = s.balance(custody) - after.balance(custody);
            &&& after.agg(netuid).r_sigma <= s.agg(netuid).r_sigma
            &&& after.agg(netuid).e_sigma <= s.agg(netuid).e_sigma
            &&& after.agg(netuid).b_sigma <= s.agg(netuid).b_sigma
            &&& after.agg(netuid).q_sigma == s.agg(netuid).q_sigma
            &&& after.agg(netuid).omega.bits >= s.agg(netuid).omega.bits
            &&& moved >= 0
            &&& after.balance(pool) == s.balance(pool) + moved
            &&& moved == (s.agg(netuid).r_sigma - after.agg(netuid).r_sigma) + (s.agg(
                netuid,
            ).e_sigma - after.agg(netuid).e_sigma)
            &&& s.subnet(netuid).tao + moved <= u64::MAX && s.total_stake + moved <= u64::MAX ==> {
                &&& after.subnet(netuid).tao == s.subnet(netuid).tao + moved
                &&& after.total_stake == s.total_stake + moved
            }
        }),
{
    let agg = s.agg(netuid);
    let delta = next_decay(s, netuid);
    lemma_next_decay(s, netuid);
    lemma_scaled(agg.r_sigma, delta);
    lemma_scaled(agg.e_sigma, delta);
    lemma_scaled(agg.b_sigma, delta);
    lemma_log_loss(delta);
    law_transfer_conserves(
        s.balances,
        s.custody(netuid),
        s.subnet(netuid).account,
        restored_amount(agg, delta),
    );
    assert(restored_amount(agg, delta) == scaled(agg.r_sigma, delta) + scaled(
        agg.e_sigma,
        delta,
    ));
}

/// `1 - loss`, and zero for a loss of more than one, as bits.
pub open spec fn least_share(loss: int) -> int {
    if loss < ONE_BITS {
        ONE_BITS - loss
    } else {
        0
    }
}

/// `share` lies where the exponential of `-loss` does: not below zero and `1 - loss`, and not above
/// one and `1 / (1 + loss)`.
pub open spec fn near_exponential(loss: int, share: i128) -> bool {
    &&& least_share(loss) <= share <= ONE_BITS
    &&& share * (ONE_BITS + loss) <= ONE_BITS * ONE_BITS
}

/// What is left of a unit falls with the accumulator: where that has grown by `loss`, it is no
/// less than `1 - loss` and no more than `1 / (1 + loss)`.
pub proof fn law_share_follows_the_accumulator(entry: Fixed, now: Fixed)
    requires
        0 <= now.bits - entry.bits <= i128::MAX,
    ensures
        near_exponential(now.bits - entry.bits, remaining_share(entry, now).bits),
{
    let loss = now.bits - entry.bits;
    let one = ONE_BITS as int;
    let order = EXP_ORDER as nat;
    assert(entry.minus(now).lesser(Fixed::nil()).bits == -loss);
    lemma_remaining_share(entry, now);
    let total = exp_sum(loss, order);
    lemma_sum(loss, order);
    lemma_inverse(total);
    lemma_sum_is_one_and_more(loss, order);
    let share = (one * one) / total;
    assert(share * (one + loss) <= one * one) by (nonlinear_arith)
        requires
            share * total <= one * one,
            one + loss <= total,
            share >= 0,
    ;
    if loss < one {
        lemma_series_of_less_than_one(loss, order);
        assert(one - loss <= share) by (nonlinear_arith)
            requires
                total * (one - loss) <= one * one,
                one * one < (share + 1) * total,
                total > 0,
        {
            assert((one - loss) * total < (share + 1) * total);
        }
    } else {
        assert(0 * (one + loss) == 0);
    }
}

/// The least share is near the exponential.
proof fn lemma_least_share(loss: int)
    requires
        loss >= 0,
    ensures
        0 <= least_share(loss) <= ONE_BITS,
        least_share(loss) * (ONE_BITS + loss) <= ONE_BITS * ONE_BITS,
{
    let one = ONE_BITS as int;
    if loss < one {
        assert((one - loss) * (one + loss) <= one * one) by (nonlinear_arith)
            requires
                0 <= loss < one,
        ;
    } else {
        assert(0 * (one + loss) == 0);
    }
}

/// The amount `now` is what is left of `was` after the accumulator has grown by `loss`: rounded
/// down no less than `was * (1 - loss)`, and no more than `was / (1 + loss)`.
pub open spec fn left_after(was: u64, now: u64, loss: int) -> bool {
    &&& now * (ONE_BITS + loss) <= was * ONE_BITS
    &&& was * (ONE_BITS - loss) < (now + 1) * ONE_BITS
}

/// The buffer, the escrow and the footprint of a position fall with the accumulator.
pub proof fn law_positions_follow_the_accumulator(pos: ShortPosition, now: Fixed)
    requires
        pos.bounded(),
        0 <= now.bits - pos.omega_entry.bits <= i128::MAX,
    ensures
        ({
            let loss = now.bits - pos.omega_entry.bits;
            let left = materialized(pos, now);
            &&& left_after(pos.r_stored, left.r_stored, loss)
            &&& left_after(pos.e_stored, left.e_stored, loss)
            &&& left_after(pos.b_stored, left.b_stored, loss)
        }),
{
    let loss = now.bits - pos.omega_entry.bits;
    let f = remaining_share(pos.omega_entry, now);
    law_share_follows_the_accumulator(pos.omega_entry, now);
    lemma_left_after(pos.r_stored, f, loss);
    lemma_left_after(pos.e_stored, f, loss);
    lemma_left_after(pos.b_stored, f, loss);
}

proof fn lemma_left_after(n: u64, f: Fixed, loss: int)
    requires
        fits(n),
        loss >= 0,
        near_exponential(loss, f.bits),
    ensures
        left_after(n, scaled(n, f), loss),
{
    let one = ONE_BITS as int;
    let x = f.bits as int;
    let m = scaled(n, f) as int;
    let w = n as int;
    lemma_least_share(loss);
    lemma_scaled(n, f);
    vstd::arithmetic::div_mod::lemma_fundamental_div_mod(w * x, one);
    assert(m * (one + loss) <= w * one) by (nonlinear_arith)
        requires
            m * one <= w * x,
            x * (one + loss) <= one * one,
            loss >= 0,
            one > 0,
            w >= 0,
    {
        assert((m * one) * (one + loss) <= (w * x) * (one + loss));
        assert((w * x) * (one + loss) == w * (x * (one + loss)));
        assert(w * (x * (one + loss)) <= w * (one * one));
        assert((m * (one + loss)) * one <= (w * one) * one);
    }
    assert(w * (one - loss) < (m + 1) * one) by (nonlinear_arith)
        requires
            w * x < m * one + one,
            one - loss <= x,
            w >= 0,
    ;
}

/// Every buffer becomes dust: there is an accumulator from which on no more than dust is left.
pub proof fn law_buffers_become_dust(pos: ShortPosition, now: Fixed, dust: u64)
    requires
        pos.bounded(),
        0 <= now.bits - pos.omega_entry.bits <= i128::MAX,
        pos.r_stored * ONE_BITS < (dust + 1) * (ONE_BITS + now.bits - pos.omega_entry.bits),
    ensures
        materialized(pos, now).r_stored <= dust,
{
    law_positions_follow_the_accumulator(pos, now);
    let d = ONE_BITS + (now.bits - pos.omega_entry.bits);
    let m = materialized(pos, now).r_stored as int;
    let b = dust as int;
    assert(m <= b) by (nonlinear_arith)
        requires
            m * d < (b + 1) * d,
            d > 0,
    ;
}

/// Every tick that decays something moves the accumulator forward, as long as it fits.
pub proof fn law_decay_moves_the_accumulator(s: State, netuid: u16)
    requires
        s.market_bounded(netuid),
    ensures
        decay_tick(s, netuid) != s ==> {
            let omega = s.agg(netuid).omega.bits;
            let delta = next_decay(s, netuid);
            &&& delta.bits > 0
            &&& omega + log_loss(delta).bits <= i128::MAX ==> decay_tick(
                s,
                netuid,
            ).agg(netuid).omega.bits >= omega + delta.bits
        },
{
    let delta = next_decay(s, netuid);
    lemma_next_decay(s, netuid);
    lemma_log_loss(delta);
}

/// Where what decays cannot reach the pool, nothing decays at all.
pub proof fn law_failed_restoration_changes_nothing(s: State, netuid: u16)
    requires
        restored_amount(s.agg(netuid), next_decay(s, netuid)) != 0,
        !s.subnets.contains_key(netuid) || transferred(
            s.balances,
            s.custody(netuid),
            s.subnet(netuid).account,
            restored_amount(s.agg(netuid), next_decay(s, netuid)),
        ) is Err,
    ensures
        decay_tick(s, netuid) == s,
{
}

/// Two subnets whose decay touches no account in common.
pub open spec fn decay_apart(s: State, m: u16, n: u16) -> bool {
    let (c1, p1) = (s.custody(m), s.subnet(m).account);
    let (c2, p2) = (s.custody(n), s.subnet(n).account);
    m != n && c1 != c2 && c1 != p2 && p1 != c2 && p1 != p2 && c1 != p1 && c2 != p2
}

/// The outcome of a transfer between two accounts depends on them alone.
proof fn lemma_transfers_commute(
    b: Map<AccountId, u64>,
    f1: AccountId,
    t1: AccountId,
    a1: u64,
    f2: AccountId,
    t2: AccountId,
    a2: u64,
)
    requires
        f1 != t1,
        f2 != t2,
        f1 != f2,
        f1 != t2,
        t1 != f2,
        t1 != t2,
    ensures
        transferred(b, f1, t1, a1) matches Ok(x) ==> ((transferred(x, f2, t2, a2) is Ok
            <==> transferred(b, f2, t2, a2) is Ok) && (transferred(b, f2, t2, a2) matches Ok(y) ==> (
        transferred(y, f1, t1, a1) is Ok && transferred(x, f2, t2, a2) == transferred(
            y,
            f1,
            t1,
            a1,
        )))),
{
    if let Ok(x) = transferred(b, f1, t1, a1) {
        let l1 = (amount_of(b, f1) - a1) as u64;
        let g1 = (amount_of(b, t1) + a1) as u64;
        assert(x == with_amount(with_amount(b, f1, l1), t1, g1));
        if let Ok(y) = transferred(b, f2, t2, a2) {
            let l2 = (amount_of(b, f2) - a2) as u64;
            let g2 = (amount_of(b, t2) + a2) as u64;
            assert(y == with_amount(with_amount(b, f2, l2), t2, g2));
            let xy = with_amount(with_amount(x, f2, l2), t2, g2);
            let yx = with_amount(with_amount(y, f1, l1), t1, g1);
            assert(xy =~= yx);
            assert(transferred(x, f2, t2, a2) == Ok::<Map<AccountId, u64>, crate::types::Error>(xy));
            assert(transferred(y, f1, t1, a1) == Ok::<Map<AccountId, u64>, crate::types::Error>(yx));
        }
    }
}

/// A tick on one subnet does not see a tick on another whose accounts are apart.
pub proof fn law_decay_ticks_commute(s: State, m: u16, n: u16)
    requires
        decay_apart(s, m, n),
    ensures
        decay_tick(decay_tick(s, m), n) == decay_tick(decay_tick(s, n), m),
{
    let sm = decay_tick(s, m);
    let sn = decay_tick(s, n);
    let (cm, pm) = (s.custody(m), s.subnet(m).account);
    let (cn, pn) = (s.custody(n), s.subnet(n).account);
    let rm = restored_amount(s.agg(m), next_decay(s, m));
    let rn = restored_amount(s.agg(n), next_decay(s, n));
    assert(sm.agg(n) == s.agg(n) && sm.subnet(n) == s.subnet(n) && sm.subnets.contains_key(n)
        == s.subnets.contains_key(n));
    assert(sn.agg(m) == s.agg(m) && sn.subnet(m) == s.subnet(m) && sn.subnets.contains_key(m)
        == s.subnets.contains_key(m));
    assert(next_decay(sm, n) == next_decay(s, n));
    assert(next_decay(sn, m) == next_decay(s, m));
    lemma_transfers_commute(s.balances, cm, pm, rm, cn, pn, rn);
    lemma_transfers_commute(s.balances, cn, pn, rn, cm, pm, rm);
    let a = decay_tick(sm, n);
    let b = decay_tick(sn, m);
    assert(a.aggregates =~= b.aggregates);
    assert(a.subnets =~= b.subnets);
    assert(a.total_stake == b.total_stake);
    assert(a.balances =~= b.balances);
    assert(a =~= b);
}

/// Any two of the listed subnets have accounts that are apart.
pub open spec fn all_apart(s: State, order: Seq<u16>) -> bool {
    forall|i: int, j: int|
        0 <= i < order.len() && 0 <= j < order.len() && i != j ==> decay_apart(
            s,
            #[trigger] order[i],
            #[trigger] order[j],
        )
}

/// The decay keeps the accounts of the pools.
pub proof fn lemma_ticks_keep_accounts(s: State, order: Seq<u16>)
    ensures
        decay_ticks(s, order).pallet_id == s.pallet_id,
        forall|n: u16| (#[trigger] decay_ticks(s, order).subnet(n)).account == s.subnet(n).account,
    decreases order.len(),
{
    if order.len() > 0 {
        let before = decay_ticks(s, order.drop_last());
        lemma_ticks_keep_accounts(s, order.drop_last());
        assert forall|n: u16| (#[trigger] decay_ticks(s, order).subnet(n)).account == s.subnet(
            n,
        ).account by {
            assert(before.subnet(n).account == s.subnet(n).account);
        }
    }
}

/// A subnet can be put last.
#[verifier::rlimit(60)]
proof fn lemma_tick_last(s: State, order: Seq<u16>, i: int)
    requires
        all_apart(s, order),
        0 <= i < order.len(),
    ensures
        decay_ticks(s, order) == decay_tick(decay_ticks(s, order.remove(i)), order[i]),
    decreases order.len(),
{
    let last = order.len() - 1;
    if i == last {
        assert(order.remove(i) =~= order.drop_last());
    } else {
        let less = order.drop_last();
        assert(all_apart(s, less)) by {
            assert forall|a: int, b: int|
                0 <= a < less.len() && 0 <= b < less.len() && a != b implies decay_apart(
                s,
                #[trigger] less[a],
                #[trigger] less[b],
            ) by {
                assert(decay_apart(s, order[a], order[b]));
            }
        }
        lemma_tick_last(s, less, i);
        let rest = less.remove(i);
        let base = decay_ticks(s, rest);
        lemma_ticks_keep_accounts(s, rest);
        assert(base.subnet(order[i]).account == s.subnet(order[i]).account);
        assert(base.subnet(order[last]).account == s.subnet(order[last]).account);
        assert(decay_apart(s, order[i], order[last]));
        assert(decay_apart(base, order[i], order[last]));
        law_decay_ticks_commute(base, order[i], order[last]);
        assert(order.remove(i).drop_last() =~= rest);
        assert(order.remove(i).last() == order[last]);
    }
}

/// The list without its last subnet lists the other ones.
proof fn lemma_lists_drop_last(order: Seq<u16>, subnets: Set<u16>)
    requires
        lists(order, subnets),
        order.len() > 0,
    ensures
        lists(order.drop_last(), subnets.remove(order.last())),
{
    let less = order.drop_last();
    let last = order.last();
    let fewer = subnets.remove(last);
    assert forall|k: u16| less.contains(k) <==> fewer.contains(k) by {
        if less.contains(k) {
            let x = choose|x: int| 0 <= x < less.len() && less[x] == k;
            assert(order[x] == k && order[order.len() - 1] == last);
            assert(order.contains(k));
        }
        if fewer.contains(k) {
            assert(order.contains(k));
            let x = choose|x: int| 0 <= x < order.len() && order[x] == k;
            assert(less[x] == k);
        }
    }
}

/// The list without one subnet lists the other ones.
proof fn lemma_lists_remove(order: Seq<u16>, subnets: Set<u16>, i: int)
    requires
        lists(order, subnets),
        0 <= i < order.len(),
    ensures
        lists(order.remove(i), subnets.remove(order[i])),
{
    let rest = order.remove(i);
    let fewer = subnets.remove(order[i]);
    let was = |x: int|
        if x < i {
            x
        } else {
            x + 1
        };
    assert forall|x: int, y: int|
        0 <= x < rest.len() && 0 <= y < rest.len() && x != y implies rest[x] != rest[y] by {
        assert(rest[x] == order[was(x)] && rest[y] == order[was(y)]);
    }
    assert forall|k: u16| rest.contains(k) <==> fewer.contains(k) by {
        if rest.contains(k) {
            let x = choose|x: int| 0 <= x < rest.len() && rest[x] == k;
            assert(order[was(x)] == k);
            assert(order.contains(k));
        }
        if fewer.contains(k) {
            assert(order.contains(k));
            let p = choose|p: int| 0 <= p < order.len() && order[p] == k;
            let x = if p < i {
                p
            } else {
                p - 1
            };
            assert(rest[x] == k);
        }
    }
}

/// What is apart in one list is apart in another one of the same subnets.
proof fn lemma_apart_in_any_order(s: State, subnets: Set<u16>, a: Seq<u16>, b: Seq<u16>)
    requires
        lists(a, subnets),
        lists(b, subnets),
        all_apart(s, a),
    ensures
        all_apart(s, b),
{
    assert forall|x: int, y: int|
        0 <= x < b.len() && 0 <= y < b.len() && x != y implies decay_apart(
        s,
        #[trigger] b[x],
        #[trigger] b[y],
    ) by {
        assert(b.contains(b[x]) && b.contains(b[y]));
        assert(a.contains(b[x]) && a.contains(b[y]));
        let p = choose|p: int| 0 <= p < a.len() && a[p] == b[x];
        let q = choose|q: int| 0 <= q < a.len() && a[q] == b[y];
        assert(b[x] != b[y]);
        assert(decay_apart(s, a[p], a[q]));
    }
}

/// The decay of a block comes to the same in whatever order the subnets are visited, where their
/// accounts are apart.
pub proof fn law_decay_order_does_not_matter(s: State, subnets: Set<u16>, a: Seq<u16>, b: Seq<u16>)
    requires
        lists(a, subnets),
        lists(b, subnets),
        all_apart(s, a),
    ensures
        decay_ticks(s, a) == decay_ticks(s, b),
    decreases a.len(),
{
    if a.len() == 0 {
        if b.len() > 0 {
            assert(b.contains(b[0]));
            assert(a.contains(b[0]));
        }
    } else {
        let last = a.last();
        assert(a.contains(a[a.len() - 1]));
        assert(b.contains(last));
        let i = choose|i: int| 0 <= i < b.len() && b[i] == last;
        let less = a.drop_last();
        lemma_apart_in_any_order(s, subnets, a, b);
        lemma_tick_last(s, b, i);
        assert(all_apart(s, less)) by {
            assert forall|x: int, y: int|
                0 <= x < less.len() && 0 <= y < less.len() && x != y implies decay_apart(
                s,
                #[trigger] less[x],
                #[trigger] less[y],
            ) by {
                assert(decay_apart(s, a[x], a[y]));
            }
        }
        lemma_lists_drop_last(a, subnets);
        lemma_lists_remove(b, subnets, i);
        law_decay_order_does_not_matter(s, subnets.remove(last), less, b.remove(i));
    }
}

/// A run that begins with a subnet is its tick, and the run of the others after that.
proof fn lemma_tick_first(s: State, first: u16, rest: Seq<u16>)
    ensures
        decay_ticks(s, seq![first] + rest) == decay_ticks(decay_tick(s, first), rest),
    decreases rest.len(),
{
    let all = seq![first] + rest;
    if rest.len() == 0 {
        assert(all.drop_last() =~= Seq::<u16>::empty());
        assert(decay_ticks(s, Seq::<u16>::empty()) == s);
        assert(all.last() == first);
    } else {
        assert(all.drop_last() =~= seq![first] + rest.drop_last());
        assert(all.last() == rest.last());
        lemma_tick_first(s, first, rest.drop_last());
    }
}

/// The decay of a block reaches every subnet that is visited, each once: its sums, its accumulator
/// and its pool are after the run what its own tick makes of them, where the accounts are apart; and
/// those of a subnet that is not visited are what they were.
pub proof fn law_decay_run_reaches_every_subnet(
    s: State,
    subnets: Set<u16>,
    order: Seq<u16>,
    netuid: u16,
)
    requires
        lists(order, subnets),
        all_apart(s, order),
    ensures
        subnets.contains(netuid) ==> {
            &&& decay_ticks(s, order).agg(netuid) == decay_tick(s, netuid).agg(netuid)
            &&& decay_ticks(s, order).subnet(netuid) == decay_tick(s, netuid).subnet(netuid)
        },
        !subnets.contains(netuid) ==> {
            &&& decay_ticks(s, order).agg(netuid) == s.agg(netuid)
            &&& decay_ticks(s, order).subnet(netuid) == s.subnet(netuid)
        },
{
    if subnets.contains(netuid) {
        assert(order.contains(netuid));
        let i = choose|i: int| 0 <= i < order.len() && order[i] == netuid;
        let rest = order.remove(i);
        lemma_lists_remove(order, subnets, i);
        let first = seq![netuid] + rest;
        assert(!rest.contains(netuid));
        assert(lists(first, subnets)) by {
            assert forall|k: u16| first.contains(k) <==> subnets.contains(k) by {
                if subnets.contains(k) {
                    if k == netuid {
                        assert(first[0] == k);
                    } else {
                        assert(rest.contains(k));
                        let j = choose|j: int| 0 <= j < rest.len() && rest[j] == k;
                        assert(first[j + 1] == k);
                    }
                }
                if first.contains(k) {
                    let j = choose|j: int| 0 <= j < first.len() && first[j] == k;
                    if j > 0 {
                        assert(rest[j - 1] == k);
                        assert(rest.contains(k));
                    }
                }
            }
            assert forall|x: int, y: int|
                0 <= x < first.len() && 0 <= y < first.len() && x != y implies first[x]
                != first[y] by {
                if x == 0 {
                    assert(rest[y - 1] == first[y]);
                    assert(rest.contains(first[y]));
                } else if y == 0 {
                    assert(rest[x - 1] == first[x]);
                    assert(rest.contains(first[x]));
                } else {
                    assert(rest[x - 1] == first[x] && rest[y - 1] == first[y]);
                }
            }
        }
        law_decay_order_does_not_matter(s, subnets, order, first);
        lemma_tick_first(s, netuid, rest);
        crate::decay::lemma_decay_apart(decay_tick(s, netuid), rest, netuid);
    } else {
        crate::decay::lemma_decay_apart(s, order, netuid);
    }
}

} // verus!
