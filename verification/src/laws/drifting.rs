//! The sum of the footprints through any history: it is what the footprints of the positions come
//! to, but for the rounding.
use crate::accounts::{AccountId, Origin, OwnerKey};
use crate::close::{close_outcome, default_outcome};
use crate::fixed::{fits, ONE_BITS};
use crate::laws::books::{
    floored, law_subnets_are_independent, lemma_owners_finite, lemma_sum_after_insert,
    lemma_sum_after_remove, owners, same_elsewhere,
};
use crate::laws::custody::{lemma_scaled_bits, share_bits};
use crate::laws::following::BLOCK_UNITS;
use crate::laws::histories::{
    all_ordinary, in_order, law_step_adds_its_bound, ordinary, run, stepped, Step,
};
use crate::laws::moves::{
    all_sums_fit, held, law_close_books_both_sides, law_default_books_both_sides,
    law_open_books_both_sides, law_top_up_books_both_sides, one_position_changes, position_fits,
};
use crate::laws::parts::loss_to_eight;
use crate::laws::settlement::lemma_sum_over_constant;
use crate::laws::sums::{
    lemma_sum_over_agrees, lemma_sum_over_bound, lemma_sum_over_ordered, lemma_sum_over_plus,
    lemma_sum_over_times,
};
use crate::laws::tallies::{
    footprint_drift, footprints_due, footprints_held, footprints_stored,
    law_decay_keeps_footprints_tallied, lemma_owners_left,
};
use crate::math::{lemma_materialized, remaining_share};
use crate::open::{open_outcome, top_up_outcome};
use crate::pallet::State;
use vstd::prelude::*;

verus! {

broadcast use crate::math::lemma_remaining_share;

/// The footprint of a position at the present, in bits.
pub open spec fn footprint_due(s: State, netuid: u16, coldkey: AccountId) -> int {
    s.position(netuid, coldkey).b_stored * share_bits(s, netuid, coldkey)
}

/// The footprint of a position in bits is what it holds, and less than one rao more.
proof fn lemma_due_is_held(s: State, netuid: u16, coldkey: AccountId)
    requires
        s.has_position(netuid, coldkey),
        s.position(netuid, coldkey).bounded(),
    ensures
        held(s, netuid, coldkey).b_stored * ONE_BITS <= footprint_due(s, netuid, coldkey) < (held(
            s,
            netuid,
            coldkey,
        ).b_stored + 1) * ONE_BITS,
{
    let pos = s.position(netuid, coldkey);
    lemma_scaled_bits(pos.b_stored, remaining_share(pos.omega_entry, s.agg(netuid).omega));
}

/// The footprints in bits are not negative.
proof fn lemma_due_is_positive(s: State, netuid: u16)
    requires
        s.positions.dom().finite(),
    ensures
        footprints_due(s, netuid) >= 0,
        footprints_stored(s, netuid) >= 0,
{
    lemma_owners_finite(s, netuid);
    let all = owners(s, netuid);
    let due = |c: AccountId| s.position(netuid, c).b_stored * share_bits(s, netuid, c);
    assert forall|c: AccountId| all.contains(c) implies #[trigger] due(c) >= 0 by {
        let (m, x) = (s.position(netuid, c).b_stored as int, share_bits(s, netuid, c));
        assert(m * x >= 0) by (nonlinear_arith)
            requires
                m >= 0,
                x >= 0,
        ;
    }
    lemma_sum_over_bound(all, due, s.custody(netuid));
    lemma_sum_over_bound(
        all,
        |c: AccountId| s.position(netuid, c).b_stored as int,
        s.custody(netuid),
    );
}

/// A call that changes one position, enters it at the present and changes the sum of the footprints
/// by as much as the footprint of the position, as far as the sum goes, brings the two apart by less
/// than one rao more.
proof fn lemma_one_position_drifts(s: State, after: State, netuid: u16, coldkey: AccountId)
    requires
        s.positions.dom().finite(),
        one_position_changes(s, after, netuid, coldkey),
        s.has_position(netuid, coldkey) || after.has_position(netuid, coldkey),
        s.position_bounded(netuid, coldkey),
        after.agg(netuid).omega == s.agg(netuid).omega,
        after.has_position(netuid, coldkey) ==> after.position(netuid, coldkey).omega_entry
            == s.agg(netuid).omega,
        ({
            let is = if after.has_position(netuid, coldkey) {
                after.position(netuid, coldkey).b_stored as int
            } else {
                0
            };
            let part = held(s, netuid, coldkey).b_stored - is;
            ||| after.agg(netuid).b_sigma == s.agg(netuid).b_sigma - part
            ||| after.agg(netuid).b_sigma == 0 && s.agg(netuid).b_sigma <= part
        }),
    ensures
        footprint_drift(s, netuid) <= footprint_drift(after, netuid),
        footprint_drift(after, netuid) <= footprint_drift(s, netuid) + ONE_BITS || footprint_drift(
            after,
            netuid,
        ) <= 0,
{
    let one = ONE_BITS as int;
    let key = OwnerKey { netuid, coldkey };
    let g = |c: AccountId| s.position(netuid, c).b_stored * share_bits(s, netuid, c);
    let h = |c: AccountId| after.position(netuid, c).b_stored * share_bits(after, netuid, c);
    assert forall|c: AccountId| c != coldkey && s.has_position(netuid, c) implies #[trigger] g(c)
        == h(c) by {
        assert(after.position(netuid, c) == s.position(netuid, c));
    }
    let was = held(s, netuid, coldkey).b_stored as int;
    let due = if s.has_position(netuid, coldkey) {
        lemma_due_is_held(s, netuid, coldkey);
        g(coldkey)
    } else {
        0
    };
    assert(was * one <= due < (was + 1) * one);
    let is = if after.has_position(netuid, coldkey) {
        assert(after.positions.dom() =~= s.positions.dom().insert(key));
        lemma_sum_after_insert(s, after, key, g, h);
        assert(share_bits(after, netuid, coldkey) == one);
        after.position(netuid, coldkey).b_stored as int
    } else {
        assert(after.positions.dom() =~= s.positions.dom().remove(key));
        lemma_sum_after_remove(s, after, key, g, h);
        0
    };
    assert(footprints_due(after, netuid) == footprints_due(s, netuid) + is * one - due);
    let (x, y) = (s.agg(netuid).b_sigma as int, after.agg(netuid).b_sigma as int);
    assert((x - (was - is)) * one == x * one - was * one + is * one) by (nonlinear_arith);
    if y != x - (was - is) {
        assert((x - (was - is)) * one <= 0) by (nonlinear_arith)
            requires
                x <= was - is,
                one > 0,
        ;
        assert(after.positions.dom().finite());
        lemma_due_is_positive(after, netuid);
    }
}

/// With the last position of a subnet both are gone.
proof fn lemma_nothing_drifts(s: State, netuid: u16)
    requires
        s.positions.dom().finite(),
        owners(s, netuid).len() == 0,
        !s.aggregates.contains_key(netuid),
    ensures
        footprint_drift(s, netuid) == 0,
{
    lemma_owners_finite(s, netuid);
}

/// What happens elsewhere leaves both alone.
proof fn lemma_drift_is_independent(s: State, after: State, netuid: u16)
    requires
        s.positions.dom().finite(),
        after.agg(netuid) == s.agg(netuid),
        forall|c: AccountId| #[trigger]
            after.has_position(netuid, c) == s.has_position(netuid, c) && after.position(netuid, c)
                == s.position(netuid, c),
    ensures
        footprint_drift(after, netuid) == footprint_drift(s, netuid),
{
    assert(owners(after, netuid) =~= owners(s, netuid)) by {
        assert forall|c: AccountId| owners(after, netuid).contains(c) == owners(s, netuid).contains(
            c,
        ) by {
            assert(after.has_position(netuid, c) == s.has_position(netuid, c));
        }
    }
    lemma_owners_finite(s, netuid);
    let g = |c: AccountId| s.position(netuid, c).b_stored * share_bits(s, netuid, c);
    let h = |c: AccountId| after.position(netuid, c).b_stored * share_bits(after, netuid, c);
    assert forall|c: AccountId| owners(s, netuid).contains(c) implies #[trigger] g(c) == h(c) by {
        assert(after.has_position(netuid, c) == s.has_position(netuid, c));
    }
    lemma_sum_over_agrees(owners(s, netuid), g, h);
}

/// A step leaves the footprints of a subnet within their types: nobody signs for the pool, nothing
/// runs into the end of its type, every position has a floor, and no position has gone through a
/// loss of more than eight.
pub open spec fn steady(s: State, netuid: u16, step: Step) -> bool {
    let after = stepped(s, step);
    match step {
        Step::Open { netuid: n, origin, input, .. } => n == netuid ==> {
            &&& origin matches Origin::Signed(c) ==> c != s.subnet(netuid).account && (
            after.has_position(netuid, c) ==> position_fits(after.position(netuid, c)))
            &&& fits(input)
            &&& all_sums_fit(after.agg(netuid))
        },
        Step::Close { netuid: n, origin, .. } => n == netuid ==> {
            &&& origin matches Origin::Signed(c) ==> c != s.subnet(netuid).account
            &&& floored(s)
        },
        Step::Decay { netuid: n } => n == netuid ==> forall|c: AccountId| #[trigger]
            s.has_position(netuid, c) ==> loss_to_eight(after, netuid, c),
        _ => true,
    }
}

/// By how much a step may bring the sum of the footprints and the footprints apart, in bits: a block
/// by a number of bits for each rao that was written down as a footprint, and a rao; a call by a rao.
pub open spec fn drift_bound(s: State, netuid: u16, step: Step) -> int {
    match step {
        Step::Open { netuid: n, .. } if n == netuid => ONE_BITS as int,
        Step::TopUp { netuid: n, .. } if n == netuid => ONE_BITS as int,
        Step::Close { netuid: n, .. } if n == netuid => ONE_BITS as int,
        Step::Default { netuid: n, .. } if n == netuid => ONE_BITS as int,
        Step::Decay { netuid: n } if n == netuid => BLOCK_UNITS * footprints_stored(s, netuid)
            + ONE_BITS,
        _ => 0,
    }
}

/// Two numbers have come apart by no more than a bound, or by no more than that more than they were.
pub open spec fn drifted(was: int, is: int, bound: int) -> bool {
    &&& -bound <= is || was - bound <= is
    &&& is <= bound || is <= was + bound
}

/// Every step keeps the sum of the footprints of a subnet what the footprints of its positions come
/// to, but for the rounding.
pub proof fn law_step_keeps_footprints_tallied(s: State, netuid: u16, step: Step)
    requires
        in_order(s),
        ordinary(s, netuid, step),
        steady(s, netuid, step),
    ensures
        drifted(
            footprint_drift(s, netuid),
            footprint_drift(stepped(s, step), netuid),
            drift_bound(s, netuid, step),
        ),
        drift_bound(s, netuid, step) >= 0,
{
    let after = stepped(s, step);
    assert(s.subnet(netuid).account != s.custody(netuid));
    match step {
        Step::Open { netuid: n, origin, hotkey, input, max_q } => {
            if let Ok(next) = open_outcome(s, origin, hotkey, n, input, max_q) {
                let c = origin->Signed_0;
                if n == netuid {
                    assert(s.position_wholly_bounded(netuid, c));
                    assert(c != s.custody(netuid));
                    law_open_books_both_sides(s, origin, hotkey, n, input, max_q);
                    lemma_one_position_drifts(s, after, netuid, c);
                } else {
                    law_subnets_are_independent(s, origin, hotkey, hotkey, n, input, max_q);
                    lemma_elsewhere_drifts(s, after, n, netuid);
                }
            }
        },
        Step::TopUp { netuid: n, origin, amount } => {
            if let Ok(next) = top_up_outcome(s, origin, n, amount) {
                let c = origin->Signed_0;
                if n == netuid {
                    assert(s.position_wholly_bounded(netuid, c));
                    assert(c != s.custody(netuid));
                    law_top_up_books_both_sides(s, origin, n, amount);
                    lemma_one_position_drifts(s, after, netuid, c);
                } else {
                    law_subnets_are_independent(s, origin, c, c, n, amount, 0);
                    lemma_elsewhere_drifts(s, after, n, netuid);
                }
            }
        },
        Step::Close { netuid: n, origin, fraction_ppb } => {
            if let Ok(next) = close_outcome(s, origin, n, fraction_ppb) {
                let c = origin->Signed_0;
                if n == netuid {
                    assert(s.position_wholly_bounded(netuid, c));
                    assert(c != s.custody(netuid));
                    law_close_books_both_sides(s, origin, n, fraction_ppb);
                    assert(s.has_position(netuid, c));
                    lemma_materialized(s.position(netuid, c), s.agg(netuid).omega);
                    lemma_owners_left(s, after, netuid, c);
                    if after.has_position(netuid, c) || owners(s, netuid).len() > 1 {
                        lemma_one_position_drifts(s, after, netuid, c);
                    } else {
                        lemma_nothing_drifts(after, netuid);
                    }
                } else {
                    law_subnets_are_independent(s, origin, c, c, n, fraction_ppb, 0);
                    lemma_elsewhere_drifts(s, after, n, netuid);
                }
            }
        },
        Step::Default { netuid: n, origin, coldkey } => {
            if let Ok(next) = default_outcome(s, origin, coldkey, n) {
                if n == netuid {
                    assert(s.position_wholly_bounded(netuid, coldkey));
                    law_default_books_both_sides(s, origin, coldkey, n);
                    lemma_owners_left(s, after, netuid, coldkey);
                    if owners(s, netuid).len() > 1 {
                        lemma_one_position_drifts(s, after, netuid, coldkey);
                    } else {
                        lemma_nothing_drifts(after, netuid);
                    }
                } else {
                    law_subnets_are_independent(s, origin, coldkey, coldkey, n, 0, 0);
                    lemma_elsewhere_drifts(s, after, n, netuid);
                }
            }
        },
        Step::Decay { netuid: n } => {
            if n == netuid {
                lemma_due_is_positive(s, netuid);
                law_decay_keeps_footprints_tallied(s, netuid);
            } else {
                let any = s.custody(n);
                law_subnets_are_independent(s, Origin::Root, any, any, n, 0, 0);
                lemma_elsewhere_drifts(s, after, n, netuid);
            }
        },
        Step::Elsewhere { after: next } => {
            assert forall|c: AccountId| #[trigger]
                after.has_position(netuid, c) == s.has_position(netuid, c) && after.position(
                    netuid,
                    c,
                ) == s.position(netuid, c) by {}
            lemma_drift_is_independent(s, after, netuid);
        },
    }
}

proof fn lemma_elsewhere_drifts(s: State, after: State, n: u16, netuid: u16)
    requires
        s.positions.dom().finite(),
        same_elsewhere(s, after, n),
        n != netuid,
    ensures
        footprint_drift(after, netuid) == footprint_drift(s, netuid),
{
    assert forall|c: AccountId| #[trigger]
        after.has_position(netuid, c) == s.has_position(netuid, c) && after.position(netuid, c)
            == s.position(netuid, c) by {
        let key = OwnerKey { netuid, coldkey: c };
        assert(after.positions.contains_key(key) == s.positions.contains_key(key));
    }
    lemma_drift_is_independent(s, after, netuid);
}

/// Every step of a history is steady as far as a subnet is concerned.
pub open spec fn all_steady(s: State, netuid: u16, steps: Seq<Step>) -> bool
    decreases steps.len(),
{
    steps.len() == 0 || (all_steady(s, netuid, steps.drop_last()) && steady(
        run(s, steps.drop_last()),
        netuid,
        steps.last(),
    ))
}

/// By how much a history may bring the sum of the footprints and the footprints apart, in bits.
pub open spec fn run_drift_bound(s: State, netuid: u16, steps: Seq<Step>) -> int
    decreases steps.len(),
{
    if steps.len() == 0 {
        0
    } else {
        run_drift_bound(s, netuid, steps.drop_last()) + drift_bound(
            run(s, steps.drop_last()),
            netuid,
            steps.last(),
        )
    }
}

/// So does every history.
pub proof fn law_history_keeps_footprints_tallied(s: State, netuid: u16, steps: Seq<Step>)
    requires
        in_order(s),
        all_ordinary(s, netuid, steps),
        all_steady(s, netuid, steps),
    ensures
        in_order(run(s, steps)),
        drifted(
            footprint_drift(s, netuid),
            footprint_drift(run(s, steps), netuid),
            run_drift_bound(s, netuid, steps),
        ),
        run_drift_bound(s, netuid, steps) >= 0,
    decreases steps.len(),
{
    if steps.len() > 0 {
        let before = run(s, steps.drop_last());
        law_history_keeps_footprints_tallied(s, netuid, steps.drop_last());
        law_step_adds_its_bound(before, netuid, steps.last());
        law_step_keeps_footprints_tallied(before, netuid, steps.last());
    }
}

/// The sum of the footprints is what the footprints of the positions come to. Where the two were the
/// same at first, as they are where there is no short, they are apart after any history by no more
/// than its blocks and calls may bring them, and by less than a rao a position for what a position
/// holds in whole rao.
pub proof fn law_footprints_are_tallied_through_any_history(
    s: State,
    netuid: u16,
    steps: Seq<Step>,
)
    requires
        in_order(s),
        all_ordinary(s, netuid, steps),
        all_steady(s, netuid, steps),
        footprint_drift(s, netuid) == 0,
        forall|c: AccountId| #[trigger] run(s, steps).position_bounded(netuid, c),
    ensures
        ({
            let after = run(s, steps);
            let bound = run_drift_bound(s, netuid, steps);
            let apart = after.agg(netuid).b_sigma - footprints_held(after, netuid);
            -bound <= apart * ONE_BITS <= bound + owners(after, netuid).len() * ONE_BITS
        }),
{
    let one = ONE_BITS as int;
    let after = run(s, steps);
    law_history_keeps_footprints_tallied(s, netuid, steps);
    lemma_owners_finite(after, netuid);
    let all = owners(after, netuid);
    let whole = |c: AccountId| held(after, netuid, c).b_stored as int;
    let low = |c: AccountId| whole(c) * one;
    let rest = |c: AccountId| one;
    let high = |c: AccountId| low(c) + rest(c);
    let due = |c: AccountId| after.position(netuid, c).b_stored * share_bits(after, netuid, c);
    assert forall|c: AccountId| all.contains(c) implies #[trigger] low(c) <= due(c) && due(c)
        <= high(c) by {
        assert(after.position_bounded(netuid, c));
        lemma_due_is_held(after, netuid, c);
        assert((whole(c) + 1) * one == low(c) + one) by (nonlinear_arith)
            requires
                low(c) == whole(c) * one,
        ;
    }
    assert forall|c: AccountId| all.contains(c) implies #[trigger] due(c) <= high(c) by {
        assert(low(c) <= due(c));
    }
    lemma_sum_over_ordered(all, low, due);
    lemma_sum_over_ordered(all, due, high);
    lemma_sum_over_times(all, whole, one);
    lemma_sum_over_agrees(all, low, |c: AccountId| whole(c) * one);
    lemma_sum_over_plus(all, low, rest);
    lemma_sum_over_agrees(all, high, |c: AccountId| low(c) + rest(c));
    lemma_sum_over_constant(all, one);
    lemma_sum_over_agrees(all, rest, |c: AccountId| one);
    let (x, h) = (after.agg(netuid).b_sigma as int, footprints_held(after, netuid));
    assert((x - h) * one == x * one - h * one) by (nonlinear_arith);
}

} // verus!
