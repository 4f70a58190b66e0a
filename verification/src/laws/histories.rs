//! Custody through any history: openings, top-ups, closings, defaults and blocks in any order, and
//! what the rest of the chain does between them.
use crate::accounts::{AccountId, Origin};
use crate::close::{close_outcome, default_outcome};
use crate::decay::decay_tick;
use crate::fixed::ONE_BITS;
use crate::laws::books::{
    counted, law_close_keeps_counts, law_decay_keeps_positions, law_default_keeps_counts,
    law_open_keeps_counts, law_top_up_keeps_counts, lemma_owners_finite, owners,
};
use crate::laws::bounds::{
    block_bound, entries_past, law_block_adds_few_bits, law_decay_keeps_entries_past,
    law_operations_keep_entries_past, lemma_whole_rao,
};
use crate::laws::custody::{
    backed, floors, law_other_custody_is_untouched, obligations, share_bits,
};
use crate::laws::ledger::{
    law_close_conserves_tao, law_decay_conserves_tao, law_default_recycles_the_floor,
    law_open_conserves_tao, law_top_up_conserves_tao, sound,
};
use crate::laws::pools::{law_operations_keep_pools_apart, pools_apart};
use crate::laws::shortfall::{
    law_close_adds_no_shortfall, law_default_adds_no_shortfall, law_no_shortfall_is_backing,
    law_obligations_within_the_shortfall, law_open_adds_no_shortfall,
    law_shortfalls_are_independent, law_top_up_adds_no_shortfall, shortfall,
};
use crate::laws::sums::lemma_sum_over_agrees;
use crate::open::{open_outcome, top_up_outcome};
use crate::pallet::State;
use vstd::prelude::*;

verus! {

/// What may happen next.
pub enum Step {
    /// Somebody opens a short, or tries to.
    Open { netuid: u16, origin: Origin, hotkey: AccountId, input: u64, max_q: u64 },
    /// Somebody tops up a short, or tries to.
    TopUp { netuid: u16, origin: Origin, amount: u64 },
    /// Somebody closes a short, or tries to.
    Close { netuid: u16, origin: Origin, fraction_ppb: u64 },
    /// Somebody defaults a short, or tries to.
    Default { netuid: u16, origin: Origin, coldkey: AccountId },
    /// A block decays the shorts of a subnet.
    Decay { netuid: u16 },
    /// The rest of the chain leads to another state.
    Elsewhere { after: State },
}

/// Where a call that may be refused leads.
pub open spec fn led_to<E>(s: State, outcome: Result<State, E>) -> State {
    match outcome {
        Ok(after) => after,
        Err(_) => s,
    }
}

/// The state after a step.
pub open spec fn stepped(s: State, step: Step) -> State {
    match step {
        Step::Open { netuid, origin, hotkey, input, max_q } => led_to(
            s,
            open_outcome(s, origin, hotkey, netuid, input, max_q),
        ),
        Step::TopUp { netuid, origin, amount } => led_to(
            s,
            top_up_outcome(s, origin, netuid, amount),
        ),
        Step::Close { netuid, origin, fraction_ppb } => led_to(
            s,
            close_outcome(s, origin, netuid, fraction_ppb),
        ),
        Step::Default { netuid, origin, coldkey } => led_to(
            s,
            default_outcome(s, origin, coldkey, netuid),
        ),
        Step::Decay { netuid } => decay_tick(s, netuid),
        Step::Elsewhere { after } => after,
    }
}

/// The books are in order.
pub open spec fn in_order(s: State) -> bool {
    sound(s) && counted(s) && pools_apart(s) && entries_past(s)
}

/// Nobody signs for a custody account.
pub open spec fn not_custody(s: State, origin: Origin) -> bool {
    origin matches Origin::Signed(signer) ==> forall|n: u16| signer != #[trigger] s.custody(n)
}

/// The amounts of a subnet fit the arithmetic, and there is room for a block in its accumulator.
pub open spec fn in_range(s: State, netuid: u16) -> bool {
    &&& s.decay_bounded(netuid)
    &&& forall|c: AccountId| #[trigger] s.position_wholly_bounded(netuid, c)
    &&& s.agg(netuid).omega.bits + ONE_BITS <= i128::MAX
}

/// The sums of a subnet have not run into the end of their type.
pub open spec fn sums_fit(s: State, netuid: u16) -> bool {
    s.agg(netuid).r_sigma < u64::MAX && s.agg(netuid).e_sigma < u64::MAX
}

/// The rest of the chain leaves the shorts alone, takes nothing out of custody, and keeps the
/// books in order.
pub open spec fn left_alone(s: State, after: State) -> bool {
    &&& after.pallet_id == s.pallet_id
    &&& after.positions == s.positions
    &&& after.aggregates == s.aggregates
    &&& after.counts == s.counts
    &&& forall|n: u16| after.balance(#[trigger] s.custody(n)) >= s.balance(s.custody(n))
    &&& sound(after)
    &&& pools_apart(after)
}

/// A step is an ordinary one as far as a subnet is concerned.
pub open spec fn ordinary(s: State, netuid: u16, step: Step) -> bool {
    match step {
        Step::Open { netuid: n, origin, .. } => not_custody(s, origin) && (n == netuid ==> in_range(
            s,
            netuid,
        ) && sums_fit(stepped(s, step), netuid)),
        Step::TopUp { netuid: n, origin, .. } => not_custody(s, origin) && (n == netuid ==> in_range(
            s,
            netuid,
        ) && sums_fit(stepped(s, step), netuid)),
        Step::Close { netuid: n, origin, .. } => not_custody(s, origin) && (n == netuid ==> in_range(
            s,
            netuid,
        )),
        Step::Default { netuid: n, origin, .. } => not_custody(s, origin) && (n == netuid
            ==> in_range(s, netuid)),
        Step::Decay { netuid: n } => n == netuid ==> in_range(s, netuid),
        Step::Elsewhere { after } => left_alone(s, after),
    }
}

/// What a step may add to the shortfall of a subnet, in bits: nothing, but for a block on it.
pub open spec fn step_bound(s: State, netuid: u16, step: Step) -> int {
    match step {
        Step::Decay { netuid: n } => if n == netuid {
            block_bound(s, netuid)
        } else {
            0
        },
        _ => 0,
    }
}

/// The state after a history.
pub open spec fn run(s: State, steps: Seq<Step>) -> State
    decreases steps.len(),
{
    if steps.len() == 0 {
        s
    } else {
        stepped(run(s, steps.drop_last()), steps.last())
    }
}

/// Every step of a history is an ordinary one as far as a subnet is concerned.
pub open spec fn all_ordinary(s: State, netuid: u16, steps: Seq<Step>) -> bool
    decreases steps.len(),
{
    steps.len() == 0 || (all_ordinary(s, netuid, steps.drop_last()) && ordinary(
        run(s, steps.drop_last()),
        netuid,
        steps.last(),
    ))
}

/// What a history may add to the shortfall of a subnet, in bits: for each block on it a number of
/// bits for each rao that was written down as a buffer or as an escrow at that time.
pub open spec fn run_bound(s: State, netuid: u16, steps: Seq<Step>) -> int
    decreases steps.len(),
{
    if steps.len() == 0 {
        0
    } else {
        run_bound(s, netuid, steps.drop_last()) + step_bound(
            run(s, steps.drop_last()),
            netuid,
            steps.last(),
        )
    }
}

/// What the rest of the chain does adds nothing to a shortfall.
proof fn lemma_elsewhere(s: State, after: State, netuid: u16)
    requires
        in_order(s),
        left_alone(s, after),
    ensures
        in_order(after),
        shortfall(after, netuid) <= shortfall(s, netuid),
{
    assert forall|n: u16| #[trigger] after.count(n) == owners(after, n).len() by {
        assert(s.count(n) == owners(s, n).len());
        assert(owners(after, n) =~= owners(s, n));
    }
    assert forall|n: u16| 0 <= (#[trigger] after.agg(n)).omega.bits by {
        assert(s.agg(n).omega.bits >= 0);
    }
    assert forall|n: u16, k: AccountId| #[trigger] after.has_position(n, k) implies 0
        <= after.position(n, k).omega_entry.bits <= after.agg(n).omega.bits by {
        assert(s.has_position(n, k));
    }
    let all = owners(s, netuid);
    assert(owners(after, netuid) =~= all);
    lemma_owners_finite(s, netuid);
    lemma_sum_over_agrees(
        all,
        |c: AccountId| after.position(netuid, c).p_floor as int,
        |c: AccountId| s.position(netuid, c).p_floor as int,
    );
    lemma_sum_over_agrees(
        all,
        |c: AccountId| after.position(netuid, c).r_stored * share_bits(after, netuid, c),
        |c: AccountId| s.position(netuid, c).r_stored * share_bits(s, netuid, c),
    );
    lemma_sum_over_agrees(
        all,
        |c: AccountId| after.position(netuid, c).e_stored * share_bits(after, netuid, c),
        |c: AccountId| s.position(netuid, c).e_stored * share_bits(s, netuid, c),
    );
    assert(floors(after, netuid) == floors(s, netuid));
    assert(after.balance(s.custody(netuid)) >= s.balance(s.custody(netuid)));
}

/// A step keeps the books in order and adds no more than its bound to a shortfall.
pub proof fn law_step_adds_its_bound(s: State, netuid: u16, step: Step)
    requires
        in_order(s),
        ordinary(s, netuid, step),
    ensures
        in_order(stepped(s, step)),
        shortfall(stepped(s, step), netuid) <= shortfall(s, netuid) + step_bound(s, netuid, step),
{
    let after = stepped(s, step);
    assert(s.subnet(netuid).account != s.custody(netuid));
    match step {
        Step::Open { netuid: n, origin, hotkey, input, max_q } => {
            law_open_conserves_tao(s, origin, hotkey, n, input, max_q);
            law_open_keeps_counts(s, origin, hotkey, n, input, max_q);
            law_operations_keep_pools_apart(s, origin, hotkey, hotkey, n, input, max_q);
            law_operations_keep_entries_past(s, origin, hotkey, hotkey, n, input, max_q);
            if open_outcome(s, origin, hotkey, n, input, max_q) is Ok {
                let signer = origin->Signed_0;
                assert(signer != s.custody(netuid));
                if n == netuid {
                    assert(s.position_wholly_bounded(netuid, signer));
                    law_open_adds_no_shortfall(s, origin, hotkey, n, input, max_q);
                } else {
                    assert(s.subnet(n).account != s.custody(netuid));
                    law_other_custody_is_untouched(
                        s,
                        origin,
                        hotkey,
                        hotkey,
                        n,
                        netuid,
                        input,
                        max_q,
                    );
                    law_shortfalls_are_independent(s, after, netuid);
                }
            }
        },
        Step::TopUp { netuid: n, origin, amount } => {
            let any = s.custody(n);
            law_top_up_conserves_tao(s, origin, n, amount);
            law_top_up_keeps_counts(s, origin, n, amount);
            law_operations_keep_pools_apart(s, origin, any, any, n, amount, 0);
            law_operations_keep_entries_past(s, origin, any, any, n, amount, 0);
            if top_up_outcome(s, origin, n, amount) is Ok {
                let signer = origin->Signed_0;
                assert(signer != s.custody(netuid));
                if n == netuid {
                    assert(s.position_wholly_bounded(netuid, signer));
                    law_top_up_adds_no_shortfall(s, origin, n, amount);
                } else {
                    assert(s.subnet(n).account != s.custody(netuid));
                    law_other_custody_is_untouched(s, origin, any, any, n, netuid, amount, 0);
                    law_shortfalls_are_independent(s, after, netuid);
                }
            }
        },
        Step::Close { netuid: n, origin, fraction_ppb } => {
            let any = s.custody(n);
            law_close_conserves_tao(s, origin, n, fraction_ppb);
            law_close_keeps_counts(s, origin, n, fraction_ppb);
            law_operations_keep_pools_apart(s, origin, any, any, n, fraction_ppb, 0);
            law_operations_keep_entries_past(s, origin, any, any, n, fraction_ppb, 0);
            if close_outcome(s, origin, n, fraction_ppb) is Ok {
                let signer = origin->Signed_0;
                assert(signer != s.custody(netuid));
                if n == netuid {
                    assert(s.position_wholly_bounded(netuid, signer));
                    law_close_adds_no_shortfall(s, origin, n, fraction_ppb);
                } else {
                    assert(s.subnet(n).account != s.custody(netuid));
                    law_other_custody_is_untouched(s, origin, any, any, n, netuid, fraction_ppb, 0);
                    law_shortfalls_are_independent(s, after, netuid);
                }
            }
        },
        Step::Default { netuid: n, origin, coldkey } => {
            assert(s.subnet(n).account != s.custody(n));
            law_default_recycles_the_floor(s, origin, coldkey, n);
            law_default_keeps_counts(s, origin, coldkey, n);
            law_operations_keep_pools_apart(s, origin, coldkey, coldkey, n, 0, 0);
            law_operations_keep_entries_past(s, origin, coldkey, coldkey, n, 0, 0);
            if default_outcome(s, origin, coldkey, n) is Ok {
                let signer = origin->Signed_0;
                assert(signer != s.custody(netuid));
                if n == netuid {
                    assert(s.position_wholly_bounded(netuid, coldkey));
                    law_default_adds_no_shortfall(s, origin, coldkey, n);
                } else {
                    assert(s.subnet(n).account != s.custody(netuid));
                    law_other_custody_is_untouched(s, origin, coldkey, coldkey, n, netuid, 0, 0);
                    law_shortfalls_are_independent(s, after, netuid);
                }
            }
        },
        Step::Decay { netuid: n } => {
            let any = s.custody(n);
            law_decay_conserves_tao(s, n);
            law_decay_keeps_positions(s, n);
            law_operations_keep_pools_apart(s, Origin::Root, any, any, n, 0, 0);
            law_decay_keeps_entries_past(s, n);
            if n == netuid {
                law_block_adds_few_bits(s, netuid);
            } else {
                assert(s.subnet(n).account != s.custody(netuid));
                law_other_custody_is_untouched(s, Origin::Root, any, any, n, netuid, 0, 0);
                law_shortfalls_are_independent(s, after, netuid);
            }
        },
        Step::Elsewhere { after } => {
            lemma_elsewhere(s, after, netuid);
        },
    }
}

/// Custody covers the shorts of a subnet through any history, in numbers. However openings,
/// top-ups, closings, defaults and blocks follow each other, on this subnet and on others, the
/// shorts are due no more than custody holds, the shortfall that there was at first, and for each
/// block on the subnet a number of bits for each rao that was written down as a buffer or as an
/// escrow at that time. Where custody backed them at first, it is short of no more whole rao than
/// those bits make; and of none while they make less than one.
pub proof fn law_custody_covers_through_any_history(s: State, netuid: u16, steps: Seq<Step>)
    requires
        in_order(s),
        all_ordinary(s, netuid, steps),
        forall|c: AccountId| #[trigger] run(s, steps).position_bounded(netuid, c),
    ensures
        in_order(run(s, steps)),
        ({
            let after = run(s, steps);
            let held = after.balance(after.custody(netuid));
            let bound = run_bound(s, netuid, steps);
            &&& obligations(after, netuid) * ONE_BITS <= held * ONE_BITS + shortfall(s, netuid)
                + bound
            &&& backed(s, netuid) ==> obligations(after, netuid) <= held + bound / (ONE_BITS as int)
            &&& backed(s, netuid) && bound < ONE_BITS ==> obligations(after, netuid) <= held
        }),
{
    law_history_adds_its_bound(s, netuid, steps);
    law_obligations_within_the_shortfall(run(s, steps), netuid);
    law_no_shortfall_is_backing(s, netuid);
    let after = run(s, steps);
    lemma_whole_rao(
        obligations(after, netuid),
        after.balance(after.custody(netuid)) as int,
        run_bound(s, netuid, steps),
    );
}

/// A history keeps the books in order, and adds no more to a shortfall than its blocks may.
pub proof fn law_history_adds_its_bound(s: State, netuid: u16, steps: Seq<Step>)
    requires
        in_order(s),
        all_ordinary(s, netuid, steps),
    ensures
        in_order(run(s, steps)),
        shortfall(run(s, steps), netuid) <= shortfall(s, netuid) + run_bound(s, netuid, steps),
    decreases steps.len(),
{
    if steps.len() > 0 {
        law_history_adds_its_bound(s, netuid, steps.drop_last());
        law_step_adds_its_bound(run(s, steps.drop_last()), netuid, steps.last());
    }
}

} // verus!
