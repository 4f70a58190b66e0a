//! The laws of the library on concrete values, and the refusals.
use covered_shorts::accounts::{AccountId, Origin, OwnerKey, StakeKey};
use covered_shorts::fixed::{Fixed, ONE_BITS};
use covered_shorts::pallet::{transfer_tao, Pallet};
use covered_shorts::settle::TerminalTerms;
use covered_shorts::storage::Amounts;
use covered_shorts::types::{Error, Event, Params, ShortAgg, ShortPosition, Subnet};

const TAO: u64 = 1_000_000_000;
const WHOLE: u64 = 1_000_000_000;

fn id(n: u64) -> AccountId {
    AccountId { lo: n as u128, hi: 7 }
}

fn pool_of(netuid: u16) -> AccountId {
    AccountId { lo: netuid as u128, hi: 9 }
}

const TRADERS: [u64; 3] = [10, 20, 30];

/// Two markets and three funded traders with alpha at their hotkeys.
fn world() -> Pallet {
    let mut p = Pallet::new(77, Params::launch(900_000_000, TAO / 10, 5, 6, 100));
    p.set_shorts_enabled(true);
    p.block = 100;
    for netuid in [1u16, 2] {
        p.subnets.insert(
            netuid,
            Subnet {
                mechanism: 1,
                tao: 1000 * TAO,
                alpha_in: 2000 * TAO,
                alpha_out: 6000 * TAO,
                moving_price: 1 << 31,
                account: pool_of(netuid),
            },
        );
        p.balances.set(pool_of(netuid), 1000 * TAO);
        p.total_issuance += 1000 * TAO;
        p.total_stake += 1000 * TAO;
        for t in TRADERS {
            p.stakes.set(StakeKey { netuid, hotkey: id(t + 1), coldkey: id(t) }, 2000 * TAO);
            p.coldkey_stakes.set(OwnerKey { netuid, coldkey: id(t) }, 2000 * TAO);
        }
    }
    for t in TRADERS {
        p.balances.set(id(t), 1000 * TAO);
        p.total_issuance += 1000 * TAO;
    }
    p
}

fn open(p: &mut Pallet, t: u64, netuid: u16, input: u64) {
    assert_eq!(
        p.do_open_short(Origin::Signed(id(t)), id(t + 1), netuid, input, u64::MAX),
        Ok(())
    );
}

fn position(p: &Pallet, netuid: u16, t: u64) -> Option<ShortPosition> {
    p.positions.get(&OwnerKey { netuid, coldkey: id(t) }).copied()
}

fn custody(p: &Pallet, netuid: u16) -> u64 {
    p.balances.get(&p.short_custody_account(netuid))
}

fn supply(p: &Pallet) -> u64 {
    let mut sum = custody(p, 1) + custody(p, 2);
    sum += p.balances.get(&pool_of(1)) + p.balances.get(&pool_of(2));
    for t in TRADERS {
        sum += p.balances.get(&id(t));
    }
    sum
}

fn subnet(p: &Pallet, netuid: u16) -> Subnet {
    *p.subnets.get(&netuid).unwrap()
}

/// What custody has beyond the floors and the sums.
fn margin(p: &Pallet, netuid: u16) -> i128 {
    let agg = p.aggregate(netuid);
    let floors: u64 =
        TRADERS.iter().filter_map(|t| position(p, netuid, *t)).map(|pos| pos.p_floor).sum();
    custody(p, netuid) as i128 - floors as i128 - agg.r_sigma as i128 - agg.e_sigma as i128
}

fn owed(p: &Pallet, netuid: u16) -> u64 {
    TRADERS.iter().filter_map(|t| position(p, netuid, *t)).map(|pos| pos.q_liability).sum()
}

// ---- TAO ----

#[test]
fn transfers_conserve() {
    let mut b: Amounts<AccountId> = Amounts::new();
    b.set(id(1), 10);
    assert_eq!(transfer_tao(&mut b, id(1), id(2), 4), Ok(()));
    assert_eq!((b.get(&id(1)), b.get(&id(2))), (6, 4));
    assert_eq!(transfer_tao(&mut b, id(1), id(2), 7), Err(Error::InsufficientBalance));
    assert_eq!((b.get(&id(1)), b.get(&id(2))), (6, 4));
    assert_eq!(transfer_tao(&mut b, id(1), id(1), 6), Ok(()));
    assert_eq!(b.get(&id(1)), 6);
    b.set(id(3), u64::MAX - 1);
    assert_eq!(transfer_tao(&mut b, id(1), id(3), 2), Err(Error::BalanceOverflow));
    assert_eq!((b.get(&id(1)), b.get(&id(3))), (6, u64::MAX - 1));
}

#[test]
fn recycling_takes_no_more_than_there_is() {
    let mut p = world();
    let c = p.short_custody_account(1);
    p.balances.set(c, 50);
    p.total_issuance += 50;
    let issued = p.total_issuance;
    p.recycle_custody_tao(1, 0);
    assert_eq!((custody(&p, 1), p.total_issuance), (50, issued));
    p.recycle_custody_tao(1, 20);
    assert_eq!((custody(&p, 1), p.total_issuance), (30, issued - 20));
    p.recycle_custody_tao(1, u64::MAX);
    assert_eq!((custody(&p, 1), p.total_issuance), (0, issued - 50));
}

#[test]
fn tao_is_conserved_over_a_life() {
    let mut p = world();
    let total = supply(&p);
    assert_eq!(total, p.total_issuance);
    open(&mut p, 10, 1, 100 * TAO);
    open(&mut p, 20, 1, 50 * TAO);
    open(&mut p, 10, 2, 30 * TAO);
    assert_eq!(supply(&p), total);
    for _ in 0..50 {
        p.run_short_decay();
        assert_eq!(supply(&p), total);
    }
    assert_eq!(p.do_top_up_short(Origin::Signed(id(20)), 1, TAO), Ok(()));
    assert_eq!(supply(&p), total);
    assert_eq!(p.do_close_short(Origin::Signed(id(10)), 1, 300_000_000), Ok(()));
    assert_eq!(supply(&p), total);
    assert_eq!(p.total_issuance, total);
    // A default takes the floor out of both.
    p.set_short_dust(1000 * TAO);
    p.block += 5;
    let floor = position(&p, 1, 20).unwrap().p_floor;
    assert_eq!(p.do_default_short(Origin::Signed(id(30)), id(20), 1), Ok(()));
    assert_eq!(p.total_issuance, total - floor);
    assert_eq!(supply(&p), p.total_issuance);
    // So does the settlement with what covers the liabilities.
    p.settle_shorts_on_dereg(1);
    assert!(p.total_issuance < total - floor);
    assert_eq!(supply(&p), p.total_issuance);
    assert_eq!(custody(&p, 1), 0);
}

// ---- custody ----

#[test]
fn custody_keeps_its_margin() {
    let mut p = world();
    open(&mut p, 10, 1, 100 * TAO);
    assert_eq!(margin(&p, 1), 0);
    open(&mut p, 20, 1, 50 * TAO);
    open(&mut p, 10, 1, 5 * TAO);
    assert_eq!(margin(&p, 1), 0);
    for _ in 0..100 {
        p.run_short_decay();
        assert_eq!(margin(&p, 1), 0);
    }
    assert_eq!(p.do_top_up_short(Origin::Signed(id(20)), 1, TAO), Ok(()));
    assert_eq!(margin(&p, 1), 0);
    assert_eq!(p.do_close_short(Origin::Signed(id(10)), 1, 300_000_000), Ok(()));
    assert_eq!(margin(&p, 1), 0);
    p.set_short_dust(1000 * TAO);
    p.block += 5;
    assert_eq!(p.do_default_short(Origin::Signed(id(30)), id(20), 1), Ok(()));
    assert_eq!(margin(&p, 1), 0);
}

/// What the shorts of a subnet are due at the present.
fn obligations(p: &Pallet, netuid: u16) -> i128 {
    TRADERS
        .iter()
        .filter_map(|t| p.get_short_position(&id(*t), netuid))
        .map(|i| i.floor as i128 + i.buffer as i128 + i.escrow as i128)
        .sum()
}

#[test]
fn custody_covers_what_is_due() {
    let mut p = world();
    p.set_decay_bounds_ppb(1_000_000_000, 1_000_000_000);
    for t in TRADERS {
        open(&mut p, t, 1, (t + 5) * TAO);
    }
    assert_eq!(obligations(&p, 1), custody(&p, 1) as i128);
    for _ in 0..2000 {
        p.run_short_decay();
        assert!(obligations(&p, 1) <= custody(&p, 1) as i128);
    }
    assert_eq!(p.do_close_short(Origin::Signed(id(10)), 1, 300_000_000), Ok(()));
    assert!(obligations(&p, 1) <= custody(&p, 1) as i128);
}

/// What the shorts of a subnet have written down as buffers and escrows.
fn stored(p: &Pallet, netuid: u16) -> i128 {
    TRADERS
        .iter()
        .filter_map(|t| position(p, netuid, *t))
        .map(|pos| pos.r_stored as i128 + pos.e_stored as i128)
        .sum()
}

#[test]
fn custody_covers_within_the_bound_of_its_blocks() {
    let mut p = world();
    p.set_decay_bounds_ppb(1_000_000_000, 1_000_000_000);
    let mut bound = 0i128;
    for round in 0..3u64 {
        for t in TRADERS {
            open(&mut p, t, 1, (t + round) * TAO);
        }
        for _ in 0..1500 {
            bound += 7100 * stored(&p, 1);
            p.run_short_decay();
            let over = obligations(&p, 1) - custody(&p, 1) as i128;
            assert!(over * ONE_BITS <= bound);
        }
        assert_eq!(p.do_top_up_short(Origin::Signed(id(20)), 1, TAO), Ok(()));
        assert_eq!(p.do_close_short(Origin::Signed(id(10)), 1, 300_000_000), Ok(()));
        let over = obligations(&p, 1) - custody(&p, 1) as i128;
        assert!(over * ONE_BITS <= bound);
    }
}

#[test]
fn position_follows_its_sum_over_a_day() {
    let mut p = world();
    p.set_decay_bounds_ppb(1_000_000_000, 1_000_000_000);
    open(&mut p, 10, 1, 100 * TAO);
    let was = p.aggregate(1);
    let r0 = position(&p, 1, 10).unwrap().r_stored;
    assert_eq!(r0, was.r_sigma);
    assert!(r0 >= 1_000_000_000);
    for k in 1..=7200i128 {
        p.run_subnet_short_decay(1);
        let now = p.aggregate(1);
        let seen = p.get_short_position(&id(10), 1).unwrap();
        for (a, b, first) in [
            (seen.buffer, now.r_sigma, was.r_sigma),
            (seen.escrow, now.e_sigma, was.e_sigma),
        ] {
            let (a, b) = (a as i128 * ONE_BITS, b as i128 * ONE_BITS);
            let units = 7100 * k * first as i128;
            assert!(a <= b + units && b <= a + units + (k + 1) * ONE_BITS);
        }
    }
    let seen = p.get_short_position(&id(10), 1).unwrap();
    let now = p.aggregate(1);
    assert!(seen.buffer.abs_diff(now.r_sigma) <= r0 / 100);
    assert!(35 * r0 <= 100 * seen.buffer && 100 * seen.buffer <= 38 * r0);
}

#[test]
fn buffer_is_dust_when_it_was_foreseen() {
    let mut p = world();
    p.set_decay_bounds_ppb(1_000_000_000, 1_000_000_000);
    open(&mut p, 10, 1, 100 * TAO);
    let first = p.get_short_position(&id(10), 1).unwrap();
    p.set_short_dust(first.buffer / 2);
    let dust = first.buffer / 2;
    let blocks = p.get_short_position(&id(10), 1).unwrap().blocks_to_dust;
    assert_eq!(blocks, 4990);
    for k in 1..=blocks + 10 {
        p.run_subnet_short_decay(1);
        let sum = p.aggregate(1).r_sigma;
        if 7200 * (k + 4) <= 7198 * blocks {
            assert!(dust <= sum);
        }
        if 7200 * k >= 7202 * (blocks + 5) {
            assert!(sum <= dust + k);
        }
    }
}

#[test]
fn pools_stay_apart_from_custody() {
    let mut p = world();
    let apart = |p: &Pallet| {
        [1u16, 2].iter().all(|m| {
            [1u16, 2, 3].iter().all(|n| subnet(p, *m).account != p.short_custody_account(*n))
        })
    };
    assert!(apart(&p));
    open(&mut p, 10, 1, 100 * TAO);
    open(&mut p, 20, 2, 100 * TAO);
    p.run_short_decay();
    assert_eq!(p.do_top_up_short(Origin::Signed(id(10)), 1, TAO), Ok(()));
    assert_eq!(p.do_close_short(Origin::Signed(id(10)), 1, WHOLE), Ok(()));
    assert!(apart(&p));
    p.settle_shorts_on_dereg(2);
    assert!(apart(&p));
    assert_eq!((subnet(&p, 1).account, subnet(&p, 2).account), (pool_of(1), pool_of(2)));
}

#[test]
fn stakes_stay_tallied() {
    let mut p = world();
    // A second hotkey of the same coldkey.
    p.stakes.set(StakeKey { netuid: 1, hotkey: id(99), coldkey: id(10) }, 5 * TAO);
    p.coldkey_stakes.set(OwnerKey { netuid: 1, coldkey: id(10) }, 2005 * TAO);
    let total = |p: &Pallet| p.coldkey_stakes.get(&OwnerKey { netuid: 1, coldkey: id(10) });
    let sum = |p: &Pallet| {
        [11u64, 99]
            .iter()
            .map(|h| p.stakes.get(&StakeKey { netuid: 1, hotkey: id(*h), coldkey: id(10) }))
            .sum::<u64>()
    };
    open(&mut p, 10, 1, 100 * TAO);
    p.run_short_decay();
    assert_eq!(total(&p), sum(&p));
    let q = position(&p, 1, 10).unwrap().q_liability;
    assert_eq!(p.do_close_short(Origin::Signed(id(10)), 1, 400_000_000), Ok(()));
    assert_eq!(total(&p), sum(&p));
    assert_eq!(p.do_close_short(Origin::Signed(id(10)), 1, WHOLE), Ok(()));
    assert_eq!(total(&p), sum(&p));
    assert_eq!(total(&p), 2005 * TAO - q);
}

// ---- the books ----

#[test]
fn open_interest_is_what_is_owed() {
    let mut p = world();
    open(&mut p, 10, 1, 100 * TAO);
    open(&mut p, 20, 1, 50 * TAO);
    assert_eq!(p.aggregate(1).q_sigma, owed(&p, 1));
    for _ in 0..20 {
        p.run_short_decay();
    }
    assert_eq!(p.do_top_up_short(Origin::Signed(id(20)), 1, TAO), Ok(()));
    assert_eq!(p.aggregate(1).q_sigma, owed(&p, 1));
    assert_eq!(p.do_close_short(Origin::Signed(id(10)), 1, 123_456_789), Ok(()));
    assert_eq!(p.aggregate(1).q_sigma, owed(&p, 1));
    p.set_short_dust(1000 * TAO);
    p.block += 5;
    assert_eq!(p.do_default_short(Origin::Signed(id(30)), id(20), 1), Ok(()));
    assert_eq!(p.aggregate(1).q_sigma, owed(&p, 1));
}

#[test]
fn subnets_do_not_touch_each_other() {
    let mut p = world();
    open(&mut p, 10, 2, 100 * TAO);
    let agg = p.aggregate(2);
    let pool = subnet(&p, 2);
    let pos = position(&p, 2, 10);
    let held = custody(&p, 2);
    open(&mut p, 10, 1, 100 * TAO);
    assert_eq!(p.do_top_up_short(Origin::Signed(id(10)), 1, TAO), Ok(()));
    p.run_subnet_short_decay(1);
    assert_eq!(p.do_close_short(Origin::Signed(id(10)), 1, WHOLE), Ok(()));
    p.settle_shorts_on_dereg(1);
    assert_eq!((p.aggregate(2), subnet(&p, 2), position(&p, 2, 10), custody(&p, 2)), (agg, pool, pos, held));
    assert!(p.active.contains_key(&2));
    assert_eq!(p.position_count(2), 1);
}

#[test]
fn last_position_clears_the_subnet() {
    let mut p = world();
    open(&mut p, 10, 1, 100 * TAO);
    open(&mut p, 20, 1, 100 * TAO);
    p.run_short_decay();
    assert_eq!(p.do_close_short(Origin::Signed(id(10)), 1, WHOLE), Ok(()));
    assert!(p.aggregates.contains_key(&1));
    p.set_short_dust(1000 * TAO);
    p.block += 5;
    assert_eq!(p.do_default_short(Origin::Signed(id(10)), id(20), 1), Ok(()));
    assert!(!p.aggregates.contains_key(&1));
    assert!(!p.active.contains_key(&1));
    assert_eq!(p.position_count(1), 0);
}

#[test]
fn tracking_follows_the_sums() {
    let mut p = world();
    let live = ShortAgg { r_sigma: 0, e_sigma: 0, b_sigma: 1, q_sigma: 0, omega: Fixed { bits: 0 } };
    p.sync_active_short(1, &live);
    assert!(p.active.contains_key(&1));
    let idle = ShortAgg { b_sigma: 0, ..live };
    p.sync_active_short(1, &idle);
    assert!(!p.active.contains_key(&1));
    p.sync_active_short(1, &live);
    p.aggregates.insert(1, live);
    p.counts.insert(1, 1);
    p.cleanup_short_if_empty(1);
    assert!(p.active.contains_key(&1));
    p.counts.insert(1, 0);
    p.cleanup_short_if_empty(1);
    assert!(!p.active.contains_key(&1) && !p.aggregates.contains_key(&1));
}

// ---- opening ----

#[test]
fn open_spares_the_pool_and_keeps_the_cap() {
    let mut p = world();
    for input in [TAO, 10 * TAO, 100 * TAO, 300 * TAO] {
        let before = subnet(&p, 1);
        let used = p.aggregate(1).b_sigma;
        let cap = p.get_subnet_short_state(1).unwrap().footprint_cap;
        let quote = p.quote_open_short(1, input).unwrap();
        assert_eq!(quote.gross_collateral, input + quote.retained_proceeds);
        let stake = p.total_stake;
        open(&mut p, 10, 1, input);
        let after = subnet(&p, 1);
        assert!(4 * quote.retained_proceeds <= before.tao);
        assert!(2 * quote.escrow <= before.tao);
        assert!(2 * quote.alpha_liability <= before.alpha_in);
        assert_eq!(before.tao - after.tao, quote.retained_proceeds + quote.escrow);
        assert_eq!(stake - p.total_stake, quote.retained_proceeds + quote.escrow);
        assert_eq!(before.alpha_in, after.alpha_in);
        assert!(p.aggregate(1).b_sigma > used && p.aggregate(1).b_sigma <= cap);
    }
}

#[test]
fn open_announces_its_terms() {
    let mut p = world();
    let quote = p.quote_open_short(1, 100 * TAO).unwrap();
    open(&mut p, 10, 1, 100 * TAO);
    assert_eq!(
        p.events,
        vec![Event::ShortOpened {
            coldkey: id(10),
            netuid: 1,
            position_input: 100 * TAO,
            retained_proceeds: quote.retained_proceeds,
            alpha_liability: quote.alpha_liability,
            escrow: quote.escrow,
        }]
    );
    assert_eq!(position(&p, 1, 10).unwrap().last_active, 100);
}

#[test]
fn open_refusals_in_order() {
    let mut p = world();
    let t = Origin::Signed(id(10));
    assert_eq!(p.do_open_short(Origin::Root, id(11), 1, TAO, u64::MAX), Err(Error::BadOrigin));
    assert_eq!(p.do_open_short(Origin::Unsigned, id(11), 1, TAO, u64::MAX), Err(Error::BadOrigin));
    assert_eq!(p.do_open_short(t, id(11), 9, TAO, u64::MAX), Err(Error::SubnetNotExists));
    p.set_shorts_enabled(false);
    assert_eq!(p.do_open_short(t, id(11), 9, TAO, u64::MAX), Err(Error::ShortsDisabled));
    p.set_shorts_enabled(true);
    // The input is tested before the price history.
    let mut s = subnet(&p, 1);
    s.moving_price = 0;
    p.subnets.insert(1, s);
    assert_eq!(p.do_open_short(t, id(11), 1, 1, u64::MAX), Err(Error::AmountTooLow));
    assert_eq!(p.do_open_short(t, id(11), 1, TAO, u64::MAX), Err(Error::ColdEmaNotAllowed));
    s.moving_price = 1 << 31;
    p.subnets.insert(1, s);
    p.set_short_kappa_ppb(2_000_000_000);
    assert_eq!(
        p.do_open_short(t, id(11), 1, 750 * TAO, u64::MAX),
        Err(Error::ReserveDomainExceeded)
    );
    p.set_short_min_input(0);
    assert_eq!(
        p.do_open_short(t, id(11), 1, 1, u64::MAX),
        Err(Error::RetainedProceedsNonPositive)
    );
    p.balances.set(id(10), 0);
    assert_eq!(p.do_open_short(t, id(11), 1, TAO, u64::MAX), Err(Error::InsufficientBalance));
    let c = p.short_custody_account(1);
    p.balances.set(id(10), TAO);
    p.balances.set(c, u64::MAX);
    assert_eq!(p.do_open_short(t, id(11), 1, TAO, u64::MAX), Err(Error::BalanceOverflow));
    p.balances.set(c, u64::MAX - TAO);
    assert_eq!(p.do_open_short(t, id(11), 1, TAO, u64::MAX), Err(Error::BalanceOverflow));
    assert_eq!((p.balances.get(&id(10)), p.balances.get(&c)), (TAO, u64::MAX - TAO));
    assert!(position(&p, 1, 10).is_none());
    assert!(p.events.is_empty());
}

// ---- topping up ----

#[test]
fn top_up_refusals() {
    let mut p = world();
    open(&mut p, 10, 1, 100 * TAO);
    assert_eq!(p.do_top_up_short(Origin::Root, 1, TAO), Err(Error::BadOrigin));
    assert_eq!(p.do_top_up_short(Origin::Signed(id(10)), 1, 0), Err(Error::AmountTooLow));
    assert_eq!(p.do_top_up_short(Origin::Signed(id(20)), 1, 0), Err(Error::AmountTooLow));
    assert_eq!(p.do_top_up_short(Origin::Signed(id(10)), 2, 1), Err(Error::ShortPositionNotFound));
    assert_eq!(
        p.do_top_up_short(Origin::Signed(id(10)), 1, 10_000 * TAO),
        Err(Error::InsufficientBalance)
    );
    assert_eq!(p.do_top_up_short(Origin::Signed(id(10)), 1, TAO), Ok(()));
    assert_eq!(
        p.events[1],
        Event::ShortToppedUp { coldkey: id(10), netuid: 1, amount: TAO }
    );
}

// ---- closing ----

#[test]
fn close_moves_what_it_quotes() {
    let mut p = world();
    open(&mut p, 10, 1, 100 * TAO);
    for _ in 0..30 {
        p.run_short_decay();
    }
    let quote = p.quote_close_short(&id(10), 1, 250_000_000).unwrap();
    let before = subnet(&p, 1);
    let (held, stake) = (p.balances.get(&id(10)), p.total_stake);
    let staked = StakeKey { netuid: 1, hotkey: id(11), coldkey: id(10) };
    assert_eq!(p.do_close_short(Origin::Signed(id(10)), 1, 250_000_000), Ok(()));
    let after = subnet(&p, 1);
    assert_eq!(p.balances.get(&id(10)), held + quote.returned_tao);
    assert_eq!(after.tao, before.tao + quote.escrow_settled);
    assert_eq!(p.total_stake, stake + quote.escrow_settled);
    assert_eq!(after.alpha_in, before.alpha_in + quote.repay_alpha);
    assert_eq!(after.alpha_in + after.alpha_out, before.alpha_in + before.alpha_out);
    assert_eq!(p.stakes.get(&staked), 2000 * TAO - quote.repay_alpha);
    assert_eq!(
        p.coldkey_stakes.get(&OwnerKey { netuid: 1, coldkey: id(10) }),
        2000 * TAO - quote.repay_alpha
    );
    assert_eq!(
        p.events[1],
        Event::ShortClosed {
            coldkey: id(10),
            netuid: 1,
            fraction_ppb: 250_000_000,
            repaid_alpha: quote.repay_alpha,
            returned: quote.returned_tao,
        }
    );
    assert!(p.quote_close_short(&id(10), 1, 0).is_none());
    assert!(p.quote_close_short(&id(10), 1, WHOLE + 1).is_none());
    assert!(p.quote_close_short(&id(20), 1, WHOLE).is_none());
}

#[test]
fn round_trip_gives_the_proceeds() {
    let mut p = world();
    let before = (p.balances.get(&id(10)), p.balances.get(&pool_of(1)), custody(&p, 1));
    let (was, stake) = (subnet(&p, 1), p.total_stake);
    open(&mut p, 10, 1, 100 * TAO);
    let (n, q) = (position(&p, 1, 10).unwrap().r_stored, position(&p, 1, 10).unwrap().q_liability);
    // The trader has the alpha that is owed, and not a rao more.
    let key = OwnerKey { netuid: 1, coldkey: id(10) };
    let stake_key = StakeKey { netuid: 1, hotkey: id(11), coldkey: id(10) };
    p.stakes.set(stake_key, q);
    p.coldkey_stakes.set(key, q + 5);
    p.locks.set(key, 5);
    assert_eq!(p.do_close_short(Origin::Signed(id(10)), 1, WHOLE), Ok(()));
    let after = (p.balances.get(&id(10)), p.balances.get(&pool_of(1)), custody(&p, 1));
    assert_eq!(after, (before.0 + n, before.1 - n, before.2));
    assert_eq!(
        subnet(&p, 1),
        Subnet {
            tao: was.tao - n,
            alpha_in: was.alpha_in + q,
            alpha_out: was.alpha_out - q,
            ..was
        }
    );
    assert_eq!(p.total_stake, stake - n);
    assert_eq!((p.stakes.get(&stake_key), p.coldkey_stakes.get(&key)), (0, 5));
    assert!(position(&p, 1, 10).is_none());
}

#[test]
fn close_refusals_in_order() {
    let mut p = world();
    let t = Origin::Signed(id(10));
    open(&mut p, 10, 1, 100 * TAO);
    let q = position(&p, 1, 10).unwrap().q_liability;
    let owner = OwnerKey { netuid: 1, coldkey: id(10) };
    assert_eq!(p.do_close_short(Origin::Unsigned, 1, WHOLE), Err(Error::BadOrigin));
    assert_eq!(p.do_close_short(t, 2, 0), Err(Error::InvalidCloseFraction));
    assert_eq!(p.do_close_short(t, 2, WHOLE), Err(Error::ShortPositionNotFound));
    // Locked alpha stays locked.
    p.locks.set(owner, 2000 * TAO - q + 1);
    assert_eq!(p.do_close_short(t, 1, WHOLE), Err(Error::StakeUnavailable));
    p.locks.set(owner, 2000 * TAO - q);
    let c = p.short_custody_account(1);
    let held = p.balances.get(&c);
    p.balances.set(c, held - 1);
    let pool = p.balances.get(&pool_of(1));
    assert_eq!(p.do_close_short(t, 1, WHOLE), Err(Error::InsufficientBalance));
    assert_eq!((p.balances.get(&c), p.balances.get(&pool_of(1))), (held - 1, pool));
    p.balances.set(c, held);
    assert_eq!(p.do_close_short(t, 1, WHOLE), Ok(()));
    assert_eq!(p.coldkey_stakes.get(&owner), p.locks.get(&owner));
}

#[test]
fn close_and_default_need_the_subnet() {
    let mut p = world();
    // A position that owes nothing on a subnet that is gone.
    p.positions.insert(
        OwnerKey { netuid: 9, coldkey: id(10) },
        ShortPosition {
            hotkey: id(11),
            p_floor: 1,
            q_liability: 0,
            r_stored: 0,
            e_stored: 0,
            b_stored: 0,
            omega_entry: Fixed { bits: 0 },
            last_active: 0,
        },
    );
    assert_eq!(p.do_close_short(Origin::Signed(id(10)), 9, WHOLE), Err(Error::SubnetNotExists));
    assert_eq!(
        p.do_default_short(Origin::Signed(id(20)), id(10), 9),
        Err(Error::SubnetNotExists)
    );
    // The settlement of such a subnet does nothing.
    p.settle_shorts_on_dereg(9);
    assert!(position(&p, 9, 10).is_some());
    assert!(p.get_subnet_short_state(9).is_none());
}

// ---- defaulting ----

#[test]
fn default_is_by_time_alone() {
    let mut p = world();
    open(&mut p, 10, 1, 100 * TAO);
    let r = position(&p, 1, 10).unwrap().r_stored;
    p.set_short_dust(r - 1);
    p.block = 105;
    let poke = Origin::Signed(id(30));
    assert_eq!(p.do_default_short(poke, id(10), 1), Err(Error::PositionNotDefaultEligible));
    p.set_short_dust(r);
    p.block = 104;
    assert_eq!(p.do_default_short(poke, id(10), 1), Err(Error::PositionNotDefaultEligible));
    // Whatever the price does.
    let mut s = subnet(&p, 1);
    s.moving_price = 50 << 32;
    s.alpha_in = 1;
    p.subnets.insert(1, s);
    assert_eq!(p.do_default_short(poke, id(10), 1), Err(Error::PositionNotDefaultEligible));
    p.block = 105;
    assert_eq!(p.do_default_short(Origin::Root, id(10), 1), Err(Error::BadOrigin));
    let trader = p.balances.get(&id(10));
    let tao = subnet(&p, 1).tao;
    let pos = position(&p, 1, 10).unwrap();
    assert_eq!(p.do_default_short(poke, id(10), 1), Ok(()));
    // The trader loses the position and no more.
    assert_eq!(p.balances.get(&id(10)), trader);
    assert_eq!(p.stakes.get(&StakeKey { netuid: 1, hotkey: id(11), coldkey: id(10) }), 2000 * TAO);
    assert_eq!(subnet(&p, 1).tao, tao + pos.r_stored + pos.e_stored);
    assert_eq!(p.events[1], Event::ShortDefaulted { coldkey: id(10), netuid: 1 });
}

// ---- decay ----

#[test]
fn decay_moves_rao_for_rao() {
    let mut p = world();
    p.set_decay_bounds_ppb(1_000_000_000, 1_000_000_000);
    open(&mut p, 10, 1, 100 * TAO);
    let agg = p.aggregate(1);
    let before = subnet(&p, 1);
    let stake = p.total_stake;
    let (c, pool) = (custody(&p, 1), p.balances.get(&pool_of(1)));
    p.run_subnet_short_decay(1);
    let after = p.aggregate(1);
    // One day's decay over 7200 blocks, rounded down.
    let lost = |n: u64| (n as u128 * (ONE_BITS as u128 / 7200) >> 64) as u64;
    assert_eq!(after.r_sigma, agg.r_sigma - lost(agg.r_sigma));
    assert_eq!(after.e_sigma, agg.e_sigma - lost(agg.e_sigma));
    assert_eq!(after.b_sigma, agg.b_sigma - lost(agg.b_sigma));
    assert_eq!(after.q_sigma, agg.q_sigma);
    let moved = lost(agg.r_sigma) + lost(agg.e_sigma);
    assert!(moved > 0);
    assert_eq!(custody(&p, 1), c - moved);
    assert_eq!(p.balances.get(&pool_of(1)), pool + moved);
    assert_eq!(subnet(&p, 1).tao, before.tao + moved);
    assert_eq!(p.total_stake, stake + moved);
    assert!(after.omega.bits >= ONE_BITS / 7200);
    assert_eq!(position(&p, 1, 10).unwrap().omega_entry.bits, 0);
}

#[test]
fn failed_restoration_changes_nothing() {
    let mut p = world();
    open(&mut p, 10, 1, 100 * TAO);
    let agg = p.aggregate(1);
    let before = subnet(&p, 1);
    let c = p.short_custody_account(1);
    p.balances.set(c, 0);
    p.run_short_decay();
    assert_eq!(p.aggregate(1), agg);
    assert_eq!(subnet(&p, 1), before);
    // No decay at all while the rates are zero.
    p.set_decay_bounds_ppb(0, 0);
    p.balances.set(c, 1000 * TAO);
    p.run_short_decay();
    assert_eq!(p.aggregate(1), agg);
    assert_eq!(custody(&p, 1), 1000 * TAO);
}

#[test]
fn decay_order_does_not_matter() {
    let run = |order: [u16; 2]| {
        let mut p = world();
        open(&mut p, 10, 1, 100 * TAO);
        open(&mut p, 20, 2, 60 * TAO);
        for _ in 0..10 {
            p.run_subnet_short_decay(order[0]);
            p.run_subnet_short_decay(order[1]);
        }
        (p.aggregate(1), p.aggregate(2), subnet(&p, 1), subnet(&p, 2), custody(&p, 1), custody(&p, 2), p.total_stake)
    };
    assert_eq!(run([1, 2]), run([2, 1]));
}

#[test]
fn decay_compounds_over_a_day() {
    let mut p = world();
    p.set_decay_bounds_ppb(1_000_000_000, 1_000_000_000);
    open(&mut p, 10, 1, 100 * TAO);
    let was = p.aggregate(1);
    for _ in 0..7200 {
        p.run_subnet_short_decay(1);
    }
    let now = p.aggregate(1);
    for (a, b) in [
        (was.r_sigma, now.r_sigma),
        (was.e_sigma, now.e_sigma),
        (was.b_sigma, now.b_sigma),
    ] {
        let (a, b) = (a as u128, b as u128);
        assert!(36_785 * a <= 100_000 * b && 100_000 * b <= 36_786 * a + 720_000_000);
    }
}

#[test]
fn decay_compounds_over_three_blocks() {
    let mut p = world();
    p.set_decay_bounds_ppb(1_000_000_000, 1_000_000_000);
    p.aggregates.insert(
        1,
        ShortAgg {
            r_sigma: 7200 * 7200 * 7200,
            e_sigma: 7199,
            b_sigma: 0,
            q_sigma: 0,
            omega: Fixed { bits: 0 },
        },
    );
    let c = p.short_custody_account(1);
    p.balances.set(c, 1000 * TAO);
    p.total_issuance += 1000 * TAO;
    for _ in 0..3 {
        p.run_subnet_short_decay(1);
    }
    let now = p.aggregate(1);
    // The share of a block is a little less than 1 / 7200, so each block rounds up by one rao.
    let exact = 7199u64 * 7199 * 7199;
    assert!(exact <= now.r_sigma && now.r_sigma <= exact + 3);
    assert_eq!(now.e_sigma, 7199);
}

// ---- settlement ----

#[test]
fn settlement_order_does_not_matter() {
    let run = |order: [u64; 3]| {
        let mut p = world();
        for t in TRADERS {
            open(&mut p, t, 1, (t + 5) * TAO);
        }
        let s = subnet(&p, 1);
        let q_sigma = owed(&p, 1) as u128;
        let terms = TerminalTerms {
            k_sigma: covered_shorts::math::terminal_price(&s, q_sigma),
            q_sigma,
            cold: false,
            omega: p.aggregate(1).omega,
        };
        for t in order {
            p.settle_short(1, id(t), &terms);
        }
        let gained: Vec<u64> = TRADERS.iter().map(|t| p.balances.get(&id(*t))).collect();
        (gained, p.balances.get(&pool_of(1)), custody(&p, 1), p.total_issuance)
    };
    let a = run([10, 20, 30]);
    assert_eq!(a, run([30, 10, 20]));
    assert_eq!(a, run([20, 30, 10]));
    // And this is what the settlement of the subnet gives.
    let mut p = world();
    for t in TRADERS {
        open(&mut p, t, 1, (t + 5) * TAO);
    }
    p.settle_shorts_on_dereg(1);
    let gained: Vec<u64> = TRADERS.iter().map(|t| p.balances.get(&id(*t))).collect();
    assert_eq!((gained, p.balances.get(&pool_of(1))), (a.0, a.1));
    assert_eq!(p.total_issuance, a.3 - a.2);
}

#[test]
fn settlement_announces_what_it_paid() {
    let mut p = world();
    open(&mut p, 10, 1, 100 * TAO);
    let pos = position(&p, 1, 10).unwrap();
    let held = p.balances.get(&id(10));
    let c = p.short_custody_account(1);
    p.settle_shorts_on_dereg(1);
    let paid = p.balances.get(&id(10)) - held;
    let claim = pos.p_floor + pos.r_stored;
    assert_eq!(
        p.events[1],
        Event::ShortTerminalSettled {
            coldkey: id(10),
            netuid: 1,
            equity: paid,
            liability_cover: claim - paid,
        }
    );
    assert!(paid > 0);
    // Where custody does not hold the equity, none is paid and none is claimed.
    let mut p = world();
    open(&mut p, 10, 1, 100 * TAO);
    p.balances.set(c, 1);
    p.settle_shorts_on_dereg(1);
    assert_eq!(p.balances.get(&id(10)), 900 * TAO);
    assert_eq!(
        p.events[1],
        Event::ShortTerminalSettled {
            coldkey: id(10),
            netuid: 1,
            equity: 0,
            liability_cover: claim - paid,
        }
    );
    assert_eq!(custody(&p, 1), 0);
}

#[test]
fn settlement_gives_the_escrows_to_the_pool() {
    let mut p = world();
    for t in TRADERS {
        open(&mut p, t, 1, (t + 5) * TAO);
    }
    let escrows: u64 =
        TRADERS.iter().map(|t| position(&p, 1, *t).unwrap().e_stored).sum();
    let (tao, stake, pool) = (subnet(&p, 1).tao, p.total_stake, p.balances.get(&pool_of(1)));
    p.settle_shorts_on_dereg(1);
    assert!(escrows > 0);
    assert_eq!(subnet(&p, 1).tao, tao + escrows);
    assert_eq!(p.total_stake, stake + escrows);
    assert_eq!(p.balances.get(&pool_of(1)), pool + escrows);
}

#[test]
fn payment_is_split_neutral() {
    let mut p = world();
    for t in TRADERS {
        open(&mut p, t, 1, (t + 5) * TAO);
    }
    let q = owed(&p, 1) as u128;
    let k = covered_shorts::math::terminal_price(&subnet(&p, 1), q) as u128;
    let claims: u64 = TRADERS
        .iter()
        .map(|t| position(&p, 1, *t).unwrap())
        .map(|pos| {
            // Every claim carries its share.
            assert!(((pos.p_floor + pos.r_stored) as u128) * q >= k * pos.q_liability as u128 + q);
            pos.p_floor + pos.r_stored
        })
        .sum();
    let before: u64 = TRADERS.iter().map(|t| p.balances.get(&id(*t))).sum();
    p.settle_shorts_on_dereg(1);
    let after: u64 = TRADERS.iter().map(|t| p.balances.get(&id(*t))).sum();
    let kept = (claims - (after - before)) as u128;
    assert!(k <= kept && kept < k + 3);
}

// ---- governance ----

#[test]
fn launch_parameters() {
    let p = Params::launch(0, 7, 8, 9, 10);
    assert!(!p.shorts_enabled && !p.longs_enabled);
    assert_eq!(p.base_ltv.bits, ONE_BITS / 2);
    assert_eq!(p.decay_min.bits, ONE_BITS / 1000);
    assert_eq!(p.decay_max.bits, ONE_BITS * 15 / 1000);
    assert_eq!(p.kappa.bits, ONE_BITS / 1_000_000_000);
    assert_eq!(p.dust, TAO);
    assert_eq!((p.min_input, p.short_default_grace, p.long_default_grace, p.max_positions), (7, 8, 9, 10));
}

#[test]
fn setters_set_what_they_say() {
    let mut p = world();
    p.set_short_base_ltv_ppb(0);
    assert_eq!(p.params.base_ltv.bits, ONE_BITS / 1_000_000_000);
    p.set_short_base_ltv_ppb(u64::MAX);
    assert!(p.params.base_ltv.bits < ONE_BITS);
    p.set_short_base_ltv_ppb(250_000_000);
    assert_eq!(p.params.base_ltv.bits, ONE_BITS / 4);
    p.set_decay_bounds_ppb(2_000_000_000, 0);
    assert_eq!((p.params.decay_min.bits, p.params.decay_max.bits), (ONE_BITS, ONE_BITS));
    p.set_decay_bounds_ppb(250_000_000, 500_000_000);
    assert_eq!((p.params.decay_min.bits, p.params.decay_max.bits), (ONE_BITS / 4, ONE_BITS / 2));
    p.set_short_dust(1);
    p.set_short_default_grace(2);
    p.set_long_default_grace(3);
    p.set_short_min_input(4);
    p.set_short_max_positions(5);
    p.set_longs_enabled(true);
    let q = &p.params;
    assert_eq!((q.dust, q.short_default_grace, q.long_default_grace, q.min_input, q.max_positions), (1, 2, 3, 4, 5));
    assert!(q.longs_enabled && q.shorts_enabled);
}

// ---- views ----

#[test]
fn market_view_on_given_numbers() {
    let mut p = world();
    p.set_short_kappa_ppb(500_000_000);
    p.aggregates.insert(
        1,
        ShortAgg { r_sigma: 3, e_sigma: 4, b_sigma: 250 * TAO, q_sigma: 5, omega: Fixed { bits: 0 } },
    );
    p.set_decay_bounds_ppb(0, 1_000_000_000);
    let m = p.get_subnet_short_state(1).unwrap();
    assert_eq!(m.t_ref, 1000 * TAO);
    assert_eq!(m.footprint_cap, 500 * TAO);
    assert_eq!(m.footprint_used, 250 * TAO);
    assert_eq!(m.footprint_remaining, 250 * TAO);
    // Half of the cap is used: a quarter of the span.
    assert_eq!(m.current_daily_decay, 250_000_000);
    assert_eq!((m.kappa, m.base_ltv), (500_000_000, 500_000_000));
    assert_eq!((m.decay_min, m.decay_max), (0, 1_000_000_000));
    assert_eq!((m.buffer_total, m.escrow_total, m.open_interest_alpha), (3, 4, 5));
    assert_eq!((m.dust_threshold, m.min_input, m.default_grace), (TAO, TAO / 10, 5));
}

#[test]
fn position_view_on_given_numbers() {
    let mut p = world();
    p.positions.insert(
        OwnerKey { netuid: 1, coldkey: id(10) },
        ShortPosition {
            hotkey: id(11),
            p_floor: 40 * TAO,
            q_liability: 2500 * TAO / 5 * 2,
            r_stored: 30 * TAO,
            e_stored: 20 * TAO,
            b_stored: 10 * TAO,
            omega_entry: Fixed { bits: 0 },
            last_active: 90,
        },
    );
    let i = p.get_short_position(&id(10), 1).unwrap();
    assert_eq!((i.floor, i.buffer, i.escrow, i.collateral_claim), (40 * TAO, 30 * TAO, 20 * TAO, 70 * TAO));
    // Half of the alpha reserve costs the whole TAO reserve.
    assert_eq!(i.est_close_cost, 1000 * TAO);
    assert_eq!((i.alpha_held, i.alpha_needed), (2000 * TAO, 0));
    assert_eq!(i.defaultable_at_block, 95);
    assert!(!i.default_eligible);
    assert_eq!(i.daily_decay, 999_999);
    p.set_short_dust(30 * TAO);
    let i = p.get_short_position(&id(10), 1).unwrap();
    assert!(i.default_eligible);
    assert_eq!(i.blocks_to_dust, 0);
    assert_eq!(p.get_short_positions(&id(10)).len(), 1);
    assert!(p.get_short_positions(&id(20)).is_empty());
    assert!(p.get_short_position(&id(20), 1).is_none());
}

#[test]
fn positions_come_in_the_order_of_the_subnets() {
    let mut p = world();
    let third = Subnet { account: pool_of(3), ..subnet(&p, 1) };
    p.subnets.insert(3, third);
    p.balances.set(pool_of(3), 1000 * TAO);
    p.total_issuance += 1000 * TAO;
    open(&mut p, 10, 3, 20 * TAO);
    open(&mut p, 10, 1, 20 * TAO);
    let all = p.get_all_subnet_netuids();
    assert_eq!(all.len(), 3);
    let listed: Vec<u16> = p.get_short_positions(&id(10)).iter().map(|i| i.netuid).collect();
    let expected: Vec<u16> = all.into_iter().filter(|n| *n != 2).collect();
    assert_eq!(listed, expected);
}

// ---- bounds ----

#[test]
fn bounds_are_told() {
    let limit = 1u64 << 63;
    let mut p = world();
    let t = Origin::Signed(id(10));
    assert!(p.market_fits(1) && p.decay_fits(1) && p.market_fits(9));
    assert!(p.open_fits(t, 1, limit - 1));
    assert!(!p.open_fits(t, 1, limit));
    // Where it does not come to the terms, nothing has to fit.
    assert!(p.open_fits(t, 9, limit) && p.open_fits(Origin::Root, 1, limit));
    open(&mut p, 10, 1, 100 * TAO);
    let key = OwnerKey { netuid: 1, coldkey: id(10) };
    let pos = position(&p, 1, 10).unwrap();
    assert!(p.position_fits(1, &id(10)) && p.position_wholly_fits(1, &id(10)));
    p.positions.insert(key, ShortPosition { q_liability: limit, ..pos });
    assert!(p.position_fits(1, &id(10)) && !p.position_wholly_fits(1, &id(10)));
    p.positions.insert(key, ShortPosition { r_stored: limit, ..pos });
    assert!(!p.position_fits(1, &id(10)) && !p.position_wholly_fits(1, &id(10)));
    assert!(!p.open_fits(t, 1, TAO));
    assert!(p.position_fits(1, &id(20)));
    assert!(!p.position_view_fits(&id(10), 1) && p.position_view_fits(&id(20), 1));
    assert!(!p.close_quote_fits(&id(10), 1, WHOLE) && p.close_quote_fits(&id(20), 1, WHOLE));
    assert!(p.close_quote_fits(&id(10), 1, 0) && p.close_quote_fits(&id(10), 1, WHOLE + 1));
    // All of the alpha reserve has no price, but half of it has.
    let all = ShortPosition { q_liability: subnet(&p, 1).alpha_in, ..pos };
    p.positions.insert(key, all);
    assert!(!p.position_view_fits(&id(10), 1) && !p.close_quote_fits(&id(10), 1, WHOLE));
    assert!(p.close_quote_fits(&id(10), 1, WHOLE / 2));
    p.positions.insert(key, pos);
    assert!(p.position_view_fits(&id(10), 1) && p.close_quote_fits(&id(10), 1, WHOLE));
    let agg = p.aggregate(1);
    p.aggregates.insert(1, ShortAgg { e_sigma: limit, ..agg });
    assert!(p.market_fits(1) && !p.decay_fits(1));
    p.aggregates.insert(1, ShortAgg { b_sigma: limit, ..agg });
    assert!(!p.market_fits(1) && !p.decay_fits(1));
    p.aggregates.insert(1, agg);
    let mut s = subnet(&p, 1);
    s.moving_price = 1 << 95;
    p.subnets.insert(1, s);
    assert!(!p.market_fits(1));
    p.params.kappa = Fixed { bits: 0 };
    assert!(!p.market_fits(2));
}

#[test]
fn quote_of_an_empty_market() {
    let mut p = world();
    let mut s = subnet(&p, 1);
    s.tao = 0;
    s.alpha_in = 0;
    p.subnets.insert(1, s);
    assert!(p.quote_open_short(1, TAO).is_none());
    assert!(p.quote_open_short(9, u64::MAX).is_none());
    p.set_shorts_enabled(false);
    assert!(p.quote_open_short(1, u64::MAX).is_none());
}

#[test]
fn settlement_clears_the_books() {
    let mut p = world();
    for t in TRADERS {
        open(&mut p, t, 1, 20 * TAO);
    }
    open(&mut p, 10, 2, 20 * TAO);
    p.settle_shorts_on_dereg(1);
    assert!(TRADERS.iter().all(|t| position(&p, 1, *t).is_none()));
    assert_eq!(p.position_count(1), 0);
    assert!(!p.aggregates.contains_key(&1) && !p.active.contains_key(&1));
    assert!(position(&p, 2, 10).is_some() && p.active.contains_key(&2));
}

#[test]
fn floors_outlive_partial_closes() {
    let mut p = world();
    open(&mut p, 10, 1, TAO);
    // However often most of it is closed, a rao of the floor is left until the whole is.
    for _ in 0..60 {
        assert_eq!(p.do_close_short(Origin::Signed(id(10)), 1, 999_999_999), Ok(()));
        assert!(position(&p, 1, 10).unwrap().p_floor > 0);
    }
    assert_eq!(position(&p, 1, 10).unwrap().p_floor, 1);
    assert_eq!(p.do_close_short(Origin::Signed(id(10)), 1, WHOLE), Ok(()));
    assert!(position(&p, 1, 10).is_none());
}
