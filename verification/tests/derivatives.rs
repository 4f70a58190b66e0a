//! Covered shorts: gating, pricing, capacity, decay, the whole lifecycle, and deregistration.
use covered_shorts::accounts::{AccountId, Origin, OwnerKey, StakeKey};
use covered_shorts::fixed::{Fixed, ONE_BITS};
use covered_shorts::pallet::Pallet;
use covered_shorts::types::{Error, Params, ShortAgg, ShortPosition, Subnet};
use substrate_fixed::types::{I64F64, I96F32, U96F32};

const TAO: u64 = 1_000_000_000;
const WHOLE: u64 = 1_000_000_000;

fn acc(n: u64) -> AccountId {
    AccountId { lo: n as u128, hi: 0 }
}

fn new_pallet() -> Pallet {
    let params = Params::launch(10_000_000, TAO / 10, 7200, 7200, 1024);
    let mut p = Pallet::new(u64::from_le_bytes(*b"bt/sbtns"), params);
    p.block = 1;
    p
}

fn bal(p: &Pallet, account: AccountId) -> u64 {
    p.balances.get(&account)
}

fn custody_bal(p: &Pallet, netuid: u16) -> u64 {
    bal(p, p.short_custody_account(netuid))
}

fn add_balance(p: &mut Pallet, account: AccountId, amount: u64) {
    let held = p.balances.get(&account);
    p.balances.set(account, held + amount);
    p.total_issuance += amount;
}

fn remove_balance(p: &mut Pallet, account: AccountId, amount: u64) {
    let held = p.balances.get(&account);
    p.balances.set(account, held - amount);
    p.total_issuance -= amount;
}

fn price_bits(price: f64) -> u128 {
    U96F32::from_num(price).to_bits()
}

fn subnet(p: &Pallet, netuid: u16) -> Subnet {
    *p.subnets.get(&netuid).unwrap()
}

fn set_price(p: &mut Pallet, netuid: u16, price: f64) {
    let mut s = subnet(p, netuid);
    s.moving_price = price_bits(price);
    p.subnets.insert(netuid, s);
}

fn add_dynamic_network(p: &mut Pallet, tao: u64, alpha: u64) -> u16 {
    let netuid = p.subnets.keys().len() as u16 + 1;
    let account = acc(1_000_000 + netuid as u64);
    p.subnets.insert(
        netuid,
        Subnet {
            mechanism: 1,
            tao,
            alpha_in: alpha,
            alpha_out: 0,
            moving_price: 0,
            account,
        },
    );
    // The pool is backed with real balance, so that custody transfers can move it.
    add_balance(p, account, tao);
    p.total_stake += tao;
    netuid
}

/// A market with backed reserves, a warm price, shorts on and a generous cap.
fn setup_market(p: &mut Pallet, tao: u64, alpha: u64, price: f64) -> u16 {
    let netuid = add_dynamic_network(p, tao, alpha);
    set_price(p, netuid, price);
    p.set_shorts_enabled(true);
    p.set_short_kappa_ppb(900_000_000);
    netuid
}

fn give_alpha(p: &mut Pallet, hotkey: AccountId, coldkey: AccountId, netuid: u16, q: u64) {
    let key = StakeKey { netuid, hotkey, coldkey };
    let staked = p.stakes.get(&key);
    p.stakes.set(key, staked + q);
    let owner = OwnerKey { netuid, coldkey };
    let total = p.coldkey_stakes.get(&owner);
    p.coldkey_stakes.set(owner, total + q);
    let mut s = subnet(p, netuid);
    s.alpha_out += q;
    p.subnets.insert(netuid, s);
}

fn open(p: &mut Pallet, coldkey: AccountId, hotkey: AccountId, netuid: u16, input: u64) -> Result<(), Error> {
    p.do_open_short(Origin::Signed(coldkey), hotkey, netuid, input, u64::MAX)
}

fn close(p: &mut Pallet, coldkey: AccountId, netuid: u16, fraction: u64) -> Result<(), Error> {
    p.do_close_short(Origin::Signed(coldkey), netuid, fraction)
}

fn position(p: &Pallet, netuid: u16, coldkey: AccountId) -> Option<ShortPosition> {
    p.positions.get(&OwnerKey { netuid, coldkey }).copied()
}

fn is_active(p: &Pallet, netuid: u16) -> bool {
    p.active.contains_key(&netuid)
}

fn positions_on(p: &Pallet, netuid: u16) -> usize {
    p.positions.keys().iter().filter(|k| k.netuid == netuid).count()
}

fn alpha_issuance(p: &Pallet, netuid: u16) -> u64 {
    subnet(p, netuid).alpha_in + subnet(p, netuid).alpha_out
}

fn step_block(p: &mut Pallet, n: u64) {
    for _ in 0..n {
        p.block += 1;
        p.run_short_decay();
    }
}

fn assert_approx(a: u64, b: u64, tol: u64, what: &str) {
    let d = a.abs_diff(b);
    assert!(d <= tol, "{what}: {a} vs {b} (diff {d} > tol {tol})");
}

/// Everything that a refused call could have touched.
fn snapshot(p: &Pallet, netuid: u16) -> (Vec<u64>, Vec<Option<ShortPosition>>, Option<Subnet>, ShortAgg, Vec<u64>, bool) {
    let mut accounts: Vec<AccountId> = (0..110).map(acc).collect();
    accounts.push(acc(1_000_000 + netuid as u64));
    accounts.push(p.short_custody_account(netuid));
    let mut staked = vec![];
    for c in 0..50 {
        for h in 0..50 {
            staked.push(p.stakes.get(&StakeKey { netuid, hotkey: acc(h), coldkey: acc(c) }));
        }
    }
    staked.push(p.total_issuance);
    staked.push(p.total_stake);
    staked.push(p.position_count(netuid) as u64);
    staked.push(p.events.len() as u64);
    (
        accounts.iter().map(|a| bal(p, *a)).collect(),
        accounts.iter().map(|a| position(p, netuid, *a)).collect(),
        p.subnets.get(&netuid).copied(),
        p.aggregate(netuid),
        staked,
        is_active(p, netuid),
    )
}

fn assert_noop_open(p: &mut Pallet, coldkey: AccountId, hotkey: AccountId, netuid: u16, input: u64, max_q: u64, e: Error) {
    let before = snapshot(p, netuid);
    assert_eq!(p.do_open_short(Origin::Signed(coldkey), hotkey, netuid, input, max_q), Err(e));
    assert!(snapshot(p, netuid) == before, "a refused call changed something");
}

fn assert_noop_close(p: &mut Pallet, coldkey: AccountId, netuid: u16, fraction: u64, e: Error) {
    let before = snapshot(p, netuid);
    assert_eq!(p.do_close_short(Origin::Signed(coldkey), netuid, fraction), Err(e));
    assert!(snapshot(p, netuid) == before, "a refused call changed something");
}

fn assert_noop_default(p: &mut Pallet, poker: AccountId, coldkey: AccountId, netuid: u16, e: Error) {
    let before = snapshot(p, netuid);
    assert_eq!(p.do_default_short(Origin::Signed(poker), coldkey, netuid), Err(e));
    assert!(snapshot(p, netuid) == before, "a refused call changed something");
}

// ---- gating ----

#[test]
fn open_short_rejected_when_disabled() {
    let mut p = new_pallet();
    let netuid = setup_market(&mut p, 1000 * TAO, 1000 * TAO, 1.0);
    p.set_shorts_enabled(false);
    add_balance(&mut p, acc(10), 1000 * TAO);
    assert_noop_open(&mut p, acc(10), acc(11), netuid, 100 * TAO, u64::MAX, Error::ShortsDisabled);
}

#[test]
fn open_short_rejected_on_stable_subnet() {
    let mut p = new_pallet();
    let netuid = setup_market(&mut p, 1000 * TAO, 1000 * TAO, 1.0);
    let mut s = subnet(&p, netuid);
    s.mechanism = 0;
    p.subnets.insert(netuid, s);
    add_balance(&mut p, acc(10), 1000 * TAO);
    assert_noop_open(&mut p, acc(10), acc(11), netuid, 100 * TAO, u64::MAX, Error::SubnetNotDynamic);
}

#[test]
fn open_short_rejects_zero_input() {
    let mut p = new_pallet();
    let netuid = setup_market(&mut p, 1000 * TAO, 1000 * TAO, 1.0);
    add_balance(&mut p, acc(10), 1000 * TAO);
    assert_noop_open(&mut p, acc(10), acc(11), netuid, 0, u64::MAX, Error::AmountTooLow);
}

// ---- the terms of a short ----

#[test]
fn quote_matches_spec_worked_example() {
    let mut p = new_pallet();
    // 1000 TAO and 100_000 alpha at 0.01, with 100 TAO of footprint already in use.
    let netuid = setup_market(&mut p, 1000 * TAO, 100_000 * TAO, 0.01);
    let mut agg = p.aggregate(netuid);
    agg.b_sigma = 100 * TAO;
    p.aggregates.insert(netuid, agg);

    let q = p.quote_open_short(netuid, 62_500_000_000).unwrap();
    assert_approx(q.gross_collateral, 100 * TAO, TAO / 10, "C");
    assert_approx(q.retained_proceeds, 37_500_000_000, TAO / 10, "N");
    assert_approx(q.alpha_liability, 3902 * TAO, 10 * TAO, "Q");
    assert_approx(q.escrow, 39 * TAO, TAO / 2, "E");
    assert_approx(q.effective_ltv, 375_000_000, 2_000_000, "lambda_eff");
}

#[test]
fn open_matches_quote_and_moves_pool() {
    let mut p = new_pallet();
    let netuid = setup_market(&mut p, 1000 * TAO, 1000 * TAO, 1.0);
    let (trader, hotkey) = (acc(10), acc(11));
    add_balance(&mut p, trader, 1000 * TAO);
    let input = 100 * TAO;

    let quote = p.quote_open_short(netuid, input).unwrap();
    let tao_before = subnet(&p, netuid).tao;
    let trader_before = bal(&p, trader);
    assert_eq!(open(&mut p, trader, hotkey, netuid, input), Ok(()));

    let pos = position(&p, netuid, trader).unwrap();
    assert_eq!(pos.r_stored, quote.retained_proceeds);
    assert_eq!(pos.q_liability, quote.alpha_liability);
    assert_eq!(pos.e_stored, quote.escrow);
    assert_eq!(pos.p_floor, input);
    assert_eq!(pos.hotkey, hotkey);
    assert!(pos.b_stored > 0);

    let n = quote.retained_proceeds;
    let e = quote.escrow;
    assert_eq!(subnet(&p, netuid).tao, tao_before - n - e);
    assert_eq!(bal(&p, trader), trader_before - input);
    assert_eq!(custody_bal(&p, netuid), input + n + e);

    let agg = p.aggregate(netuid);
    assert_eq!(agg.r_sigma, pos.r_stored);
    assert_eq!(agg.e_sigma, pos.e_stored);
    assert_eq!(agg.b_sigma, pos.b_stored);
    assert_eq!(agg.q_sigma, pos.q_liability);
}

// ---- capacity ----

#[test]
fn open_rejected_when_capacity_exceeded() {
    let mut p = new_pallet();
    let netuid = setup_market(&mut p, 1000 * TAO, 1000 * TAO, 1.0);
    p.set_short_kappa_ppb(1_000_000);
    add_balance(&mut p, acc(10), 1000 * TAO);
    assert_noop_open(&mut p, acc(10), acc(11), netuid, 100 * TAO, u64::MAX, Error::ShortCapacityExceeded);
}

#[test]
fn stacked_opens_share_capacity() {
    let mut p = new_pallet();
    let netuid = setup_market(&mut p, 1000 * TAO, 1000 * TAO, 1.0);
    p.set_short_kappa_ppb(70_000_000);
    add_balance(&mut p, acc(10), 1000 * TAO);
    add_balance(&mut p, acc(20), 1000 * TAO);
    assert_eq!(open(&mut p, acc(10), acc(11), netuid, 50 * TAO), Ok(()));
    assert_noop_open(&mut p, acc(20), acc(21), netuid, 50 * TAO, u64::MAX, Error::ShortCapacityExceeded);
}

// ---- the trader's bound, and refusals before anything moves ----

#[test]
fn open_short_rejects_when_liability_exceeds_bound() {
    let mut p = new_pallet();
    let netuid = setup_market(&mut p, 1000 * TAO, 1000 * TAO, 1.0);
    add_balance(&mut p, acc(10), 1000 * TAO);
    assert_noop_open(&mut p, acc(10), acc(11), netuid, 100 * TAO, 1, Error::SlippageTooHigh);
    assert_eq!(custody_bal(&p, netuid), 0);
    assert!(position(&p, netuid, acc(10)).is_none());
}

#[test]
fn open_short_wrong_hotkey_merge_strands_no_funds() {
    let mut p = new_pallet();
    let netuid = setup_market(&mut p, 1000 * TAO, 1000 * TAO, 1.0);
    add_balance(&mut p, acc(10), 1000 * TAO);
    assert_eq!(open(&mut p, acc(10), acc(11), netuid, 50 * TAO), Ok(()));
    assert_noop_open(&mut p, acc(10), acc(12), netuid, 50 * TAO, u64::MAX, Error::ShortHotkeyMismatch);
}

#[test]
fn open_short_failed_pool_transfer_rolls_back_atomically() {
    let mut p = new_pallet();
    let netuid = setup_market(&mut p, 1000 * TAO, 1000 * TAO, 1.0);
    let trader = acc(10);
    add_balance(&mut p, trader, 1000 * TAO);
    // The pool's account no longer covers its part, while the reserve still says so.
    let pool = subnet(&p, netuid).account;
    remove_balance(&mut p, pool, 995 * TAO);

    let trader_before = bal(&p, trader);
    let tao_before = subnet(&p, netuid).tao;
    let r = open(&mut p, trader, acc(11), netuid, 100 * TAO);
    assert!(r.is_err(), "open must fail when the pool leg can't be funded");

    assert_eq!(bal(&p, trader), trader_before, "floor must be rolled back to the trader");
    assert_eq!(custody_bal(&p, netuid), 0, "nothing may remain in custody");
    assert_eq!(subnet(&p, netuid).tao, tao_before, "pool reserve must be untouched");
    assert!(position(&p, netuid, trader).is_none());
    assert!(!is_active(&p, netuid));
}

// ---- liquidity ----

#[test]
fn low_liquidity_rejects_oversized_open() {
    let mut p = new_pallet();
    let netuid = setup_market(&mut p, 10 * TAO, 10 * TAO, 1.0);
    add_balance(&mut p, acc(10), 1000 * TAO);
    assert_noop_open(&mut p, acc(10), acc(11), netuid, 100 * TAO, u64::MAX, Error::EffectiveLtvNonPositive);
}

#[test]
fn open_rejected_on_cold_ema_subnet() {
    let mut p = new_pallet();
    let netuid = add_dynamic_network(&mut p, 1000 * TAO, 1000 * TAO);
    p.set_shorts_enabled(true);
    p.set_short_kappa_ppb(900_000_000);
    assert_eq!(subnet(&p, netuid).moving_price, 0);

    let trader = acc(10);
    add_balance(&mut p, trader, 1000 * TAO);
    assert_noop_open(&mut p, trader, acc(11), netuid, 50 * TAO, u64::MAX, Error::ColdEmaNotAllowed);
    assert!(position(&p, netuid, trader).is_none());

    set_price(&mut p, netuid, 1.0);
    assert_eq!(open(&mut p, trader, acc(11), netuid, 50 * TAO), Ok(()));
    assert!(position(&p, netuid, trader).is_some());
}

#[test]
fn tiny_pema_caps_open_size() {
    let mut p = new_pallet();
    let netuid = setup_market(&mut p, 1000 * TAO, 1000 * TAO, 1.0);
    set_price(&mut p, netuid, 0.00001);
    let trader = acc(10);
    add_balance(&mut p, trader, 1000 * TAO);
    let r = open(&mut p, trader, acc(11), netuid, 100 * TAO);
    assert!(
        r == Err(Error::EffectiveLtvNonPositive)
            || r == Err(Error::ShortCapacityExceeded)
            || r == Err(Error::RetainedProceedsNonPositive),
        "tiny pEMA must cap open size, got {r:?}"
    );
    assert!(position(&p, netuid, trader).is_none());
}

// ---- decay ----

#[test]
fn decay_shrinks_buffer_and_restores_tao() {
    let mut p = new_pallet();
    let netuid = setup_market(&mut p, 1000 * TAO, 1000 * TAO, 1.0);
    add_balance(&mut p, acc(10), 1000 * TAO);
    assert_eq!(open(&mut p, acc(10), acc(11), netuid, 100 * TAO), Ok(()));

    let r0 = p.aggregate(netuid).r_sigma;
    let tao0 = subnet(&p, netuid).tao;
    let custody0 = custody_bal(&p, netuid);
    let omega0 = p.aggregate(netuid).omega;
    for _ in 0..200 {
        p.run_short_decay();
    }
    let agg = p.aggregate(netuid);
    let r1 = agg.r_sigma;
    let tao1 = subnet(&p, netuid).tao;
    let custody1 = custody_bal(&p, netuid);

    assert!(r1 < r0, "buffer must decay: {r1} !< {r0}");
    assert!(agg.omega.bits > omega0.bits, "omega must increase");
    let restored = tao1 - tao0;
    let drained = custody0 - custody1;
    assert!(restored > 0, "TAO must be restored to the pool");
    assert_eq!(restored, drained);
}

#[test]
fn block_step_runs_decay() {
    let mut p = new_pallet();
    let netuid = setup_market(&mut p, 1000 * TAO, 1000 * TAO, 1.0);
    add_balance(&mut p, acc(10), 1000 * TAO);
    assert_eq!(open(&mut p, acc(10), acc(11), netuid, 100 * TAO), Ok(()));
    let r0 = p.aggregate(netuid).r_sigma;
    step_block(&mut p, 5);
    assert!(p.aggregate(netuid).r_sigma < r0);
}

#[test]
fn decay_rate_matches_closed_form() {
    let mut p = new_pallet();
    let netuid = setup_market(&mut p, 1000 * TAO, 1000 * TAO, 1.0);
    let trader = acc(10);
    add_balance(&mut p, trader, 1000 * TAO);
    assert_eq!(open(&mut p, trader, acc(11), netuid, 100 * TAO), Ok(()));
    p.set_decay_bounds_ppb(1_000_000_000, 1_000_000_000);

    let r0 = p.aggregate(netuid).r_sigma;
    for _ in 0..7200 {
        p.run_short_decay();
    }
    let r1 = p.aggregate(netuid).r_sigma;
    let expected = (r0 as f64 * 0.3679) as u64;
    assert_approx(r1, expected, r0 / 50, "one-day decay");

    let info = p.get_short_position(&trader, netuid).unwrap();
    assert_approx(info.buffer, r1, r0 / 100, "position == aggregate");
}

// ---- top-up ----

#[test]
fn top_up_adds_buffer_only() {
    let mut p = new_pallet();
    let netuid = setup_market(&mut p, 1000 * TAO, 1000 * TAO, 1.0);
    let trader = acc(10);
    add_balance(&mut p, trader, 1000 * TAO);
    assert_eq!(open(&mut p, trader, acc(11), netuid, 100 * TAO), Ok(()));

    let pos0 = position(&p, netuid, trader).unwrap();
    let custody0 = custody_bal(&p, netuid);
    assert_eq!(p.do_top_up_short(Origin::Signed(trader), netuid, 10 * TAO), Ok(()));
    let pos1 = position(&p, netuid, trader).unwrap();

    assert_eq!(pos1.r_stored, pos0.r_stored + 10 * TAO);
    assert_eq!(pos1.q_liability, pos0.q_liability);
    assert_eq!(pos1.e_stored, pos0.e_stored);
    assert_eq!(pos1.b_stored, pos0.b_stored);
    assert_eq!(custody_bal(&p, netuid), custody0 + 10 * TAO);
}

#[test]
fn top_up_requires_position() {
    let mut p = new_pallet();
    let netuid = setup_market(&mut p, 1000 * TAO, 1000 * TAO, 1.0);
    add_balance(&mut p, acc(10), 1000 * TAO);
    let before = snapshot(&p, netuid);
    assert_eq!(
        p.do_top_up_short(Origin::Signed(acc(10)), netuid, TAO),
        Err(Error::ShortPositionNotFound)
    );
    assert!(snapshot(&p, netuid) == before);
}

// ---- merging ----

#[test]
fn additional_open_merges_into_position() {
    let mut p = new_pallet();
    let netuid = setup_market(&mut p, 1000 * TAO, 1000 * TAO, 1.0);
    let (trader, hotkey) = (acc(10), acc(11));
    add_balance(&mut p, trader, 1000 * TAO);
    assert_eq!(open(&mut p, trader, hotkey, netuid, 50 * TAO), Ok(()));
    let p1 = position(&p, netuid, trader).unwrap();
    assert_eq!(open(&mut p, trader, hotkey, netuid, 50 * TAO), Ok(()));
    let p2 = position(&p, netuid, trader).unwrap();

    assert_eq!(p2.p_floor, 100 * TAO);
    assert!(p2.q_liability > p1.q_liability);
    assert!(p2.r_stored > p1.r_stored);
    assert_eq!(positions_on(&p, netuid), 1);
}

#[test]
fn merge_with_mismatched_hotkey_rejected() {
    let mut p = new_pallet();
    let netuid = setup_market(&mut p, 1000 * TAO, 1000 * TAO, 1.0);
    let trader = acc(10);
    add_balance(&mut p, trader, 1000 * TAO);
    assert_eq!(open(&mut p, trader, acc(11), netuid, 50 * TAO), Ok(()));
    assert_noop_open(&mut p, trader, acc(12), netuid, 50 * TAO, u64::MAX, Error::ShortHotkeyMismatch);
    let pos = position(&p, netuid, trader).unwrap();
    assert_eq!(pos.hotkey, acc(11));
    assert_eq!(pos.p_floor, 50 * TAO);
}

// ---- closing ----

#[test]
fn full_close_conserves_value() {
    let mut p = new_pallet();
    let netuid = setup_market(&mut p, 1000 * TAO, 1000 * TAO, 1.0);
    let (trader, hotkey) = (acc(10), acc(11));
    add_balance(&mut p, trader, 1000 * TAO);
    let input = 100 * TAO;
    assert_eq!(open(&mut p, trader, hotkey, netuid, input), Ok(()));

    let pos = position(&p, netuid, trader).unwrap();
    let (n, e, q) = (pos.r_stored, pos.e_stored, pos.q_liability);
    let tao_after_open = subnet(&p, netuid).tao;
    let alpha_after_open = subnet(&p, netuid).alpha_in;
    give_alpha(&mut p, hotkey, trader, netuid, q + 10 * TAO);
    let trader_before_close = bal(&p, trader);
    assert_eq!(close(&mut p, trader, netuid, WHOLE), Ok(()));

    assert!(position(&p, netuid, trader).is_none());
    let agg = p.aggregate(netuid);
    assert_eq!(agg.r_sigma, 0);
    assert_eq!(agg.q_sigma, 0);
    assert_eq!(custody_bal(&p, netuid), 0);
    assert_eq!(subnet(&p, netuid).tao, tao_after_open + e);
    assert_eq!(subnet(&p, netuid).alpha_in, alpha_after_open + q);
    assert_eq!(bal(&p, trader), trader_before_close + input + n);
}

#[test]
fn partial_close_reduces_prorata() {
    let mut p = new_pallet();
    let netuid = setup_market(&mut p, 1000 * TAO, 1000 * TAO, 1.0);
    let (trader, hotkey) = (acc(10), acc(11));
    add_balance(&mut p, trader, 1000 * TAO);
    assert_eq!(open(&mut p, trader, hotkey, netuid, 100 * TAO), Ok(()));
    let pos0 = position(&p, netuid, trader).unwrap();
    give_alpha(&mut p, hotkey, trader, netuid, pos0.q_liability);

    assert_eq!(close(&mut p, trader, netuid, 500_000_000), Ok(()));
    let pos1 = position(&p, netuid, trader).unwrap();
    assert_approx(pos1.p_floor, pos0.p_floor / 2, 2, "p/2");
    assert_approx(pos1.q_liability, pos0.q_liability / 2, 2, "q/2");
    assert_approx(pos1.r_stored, pos0.r_stored / 2, 2, "r/2");
    assert_approx(pos1.e_stored, pos0.e_stored / 2, 2, "e/2");
}

#[test]
fn close_without_alpha_rejected() {
    let mut p = new_pallet();
    let netuid = setup_market(&mut p, 1000 * TAO, 1000 * TAO, 1.0);
    add_balance(&mut p, acc(10), 1000 * TAO);
    assert_eq!(open(&mut p, acc(10), acc(11), netuid, 100 * TAO), Ok(()));
    assert_noop_close(&mut p, acc(10), netuid, WHOLE, Error::InsufficientAlphaToClose);
}

#[test]
fn close_invalid_fraction_rejected() {
    let mut p = new_pallet();
    let netuid = setup_market(&mut p, 1000 * TAO, 1000 * TAO, 1.0);
    add_balance(&mut p, acc(10), 1000 * TAO);
    assert_eq!(open(&mut p, acc(10), acc(11), netuid, 100 * TAO), Ok(()));
    assert_noop_close(&mut p, acc(10), netuid, 0, Error::InvalidCloseFraction);
    assert_noop_close(&mut p, acc(10), netuid, 1_000_000_001, Error::InvalidCloseFraction);
}

#[test]
fn open_close_roundtrip_is_not_profitable() {
    let mut p = new_pallet();
    let netuid = setup_market(&mut p, 1000 * TAO, 1000 * TAO, 1.0);
    let (trader, hotkey) = (acc(10), acc(11));
    add_balance(&mut p, trader, 1000 * TAO);
    let before = bal(&p, trader);
    assert_eq!(open(&mut p, trader, hotkey, netuid, 100 * TAO), Ok(()));
    let pos = position(&p, netuid, trader).unwrap();
    let n = pos.r_stored;
    give_alpha(&mut p, hotkey, trader, netuid, pos.q_liability);
    assert_eq!(close(&mut p, trader, netuid, WHOLE), Ok(()));
    assert_eq!(bal(&p, trader), before + n);
    assert!(p.get_subnet_short_state(netuid).is_some());
}

#[test]
fn close_guards_against_alpha_mint() {
    let mut p = new_pallet();
    let netuid = setup_market(&mut p, 1000 * TAO, 1000 * TAO, 1.0);
    let (trader, hotkey) = (acc(10), acc(11));
    add_balance(&mut p, trader, 1000 * TAO);
    assert_eq!(open(&mut p, trader, hotkey, netuid, 100 * TAO), Ok(()));
    let pos = position(&p, netuid, trader).unwrap();
    give_alpha(&mut p, hotkey, trader, netuid, pos.q_liability);

    let mut s = subnet(&p, netuid);
    s.alpha_out = 0;
    p.subnets.insert(netuid, s);
    let alpha_in_before = subnet(&p, netuid).alpha_in;
    assert_noop_close(&mut p, trader, netuid, WHOLE, Error::InsufficientAlphaToClose);
    assert_eq!(subnet(&p, netuid).alpha_in, alpha_in_before);
}

#[test]
fn short_many_partial_closes_drain_cleanly() {
    let mut p = new_pallet();
    let netuid = setup_market(&mut p, 10_000 * TAO, 10_000 * TAO, 1.0);
    let (trader, hotkey) = (acc(10), acc(11));
    add_balance(&mut p, trader, 1000 * TAO);
    give_alpha(&mut p, hotkey, trader, netuid, 5000 * TAO);
    let tao0 = p.total_issuance;
    assert_eq!(open(&mut p, trader, hotkey, netuid, 100 * TAO), Ok(()));
    for _ in 0..9 {
        assert_eq!(close(&mut p, trader, netuid, 100_000_000), Ok(()));
    }
    assert_eq!(close(&mut p, trader, netuid, WHOLE), Ok(()));

    assert!(position(&p, netuid, trader).is_none());
    assert_eq!(p.total_issuance, tao0);
    assert!(custody_bal(&p, netuid) <= 10_000, "custody dust after partial closes");
    assert!(!is_active(&p, netuid));
}

// ---- defaulting ----

#[test]
fn default_rejected_when_buffer_above_dust() {
    let mut p = new_pallet();
    let netuid = setup_market(&mut p, 1000 * TAO, 1000 * TAO, 1.0);
    add_balance(&mut p, acc(10), 1000 * TAO);
    assert_eq!(open(&mut p, acc(10), acc(11), netuid, 100 * TAO), Ok(()));
    assert_noop_default(&mut p, acc(99), acc(10), netuid, Error::PositionNotDefaultEligible);
}

#[test]
fn default_recycles_floor_and_restores_residual() {
    let mut p = new_pallet();
    let netuid = setup_market(&mut p, 1000 * TAO, 1000 * TAO, 1.0);
    let trader = acc(10);
    add_balance(&mut p, trader, 1000 * TAO);
    assert_eq!(open(&mut p, trader, acc(11), netuid, 100 * TAO), Ok(()));
    let pos = position(&p, netuid, trader).unwrap();
    let (floor, n, e) = (pos.p_floor, pos.r_stored, pos.e_stored);
    p.set_short_dust(1000 * TAO);
    p.set_short_default_grace(0);

    let tao0 = subnet(&p, netuid).tao;
    let ti0 = p.total_issuance;
    assert_eq!(p.do_default_short(Origin::Signed(acc(99)), trader, netuid), Ok(()));

    assert!(position(&p, netuid, trader).is_none());
    assert_eq!(subnet(&p, netuid).tao, tao0 + n + e);
    assert_eq!(custody_bal(&p, netuid), 0);
    assert_eq!(p.total_issuance, ti0 - floor);
    assert_eq!(p.aggregate(netuid).r_sigma, 0);
}

#[test]
fn default_requires_position() {
    let mut p = new_pallet();
    let netuid = setup_market(&mut p, 1000 * TAO, 1000 * TAO, 1.0);
    assert_noop_default(&mut p, acc(99), acc(10), netuid, Error::ShortPositionNotFound);
}

#[test]
fn permissionless_default_respects_grace_window() {
    let mut p = new_pallet();
    let netuid = setup_market(&mut p, 1000 * TAO, 1000 * TAO, 1.0);
    let trader = acc(10);
    add_balance(&mut p, trader, 1000 * TAO);
    assert_eq!(open(&mut p, trader, acc(11), netuid, 100 * TAO), Ok(()));
    p.set_short_dust(1000 * TAO);
    p.set_short_default_grace(5);
    assert_noop_default(&mut p, acc(99), trader, netuid, Error::PositionNotDefaultEligible);

    step_block(&mut p, 6);
    assert_eq!(p.do_default_short(Origin::Signed(acc(99)), trader, netuid), Ok(()));
    assert!(position(&p, netuid, trader).is_none());
}

#[test]
fn top_up_resets_default_grace() {
    let mut p = new_pallet();
    let netuid = setup_market(&mut p, 1000 * TAO, 1000 * TAO, 1.0);
    let trader = acc(10);
    add_balance(&mut p, trader, 1000 * TAO);
    assert_eq!(open(&mut p, trader, acc(11), netuid, 100 * TAO), Ok(()));
    p.set_short_dust(1000 * TAO);
    p.set_short_default_grace(5);
    step_block(&mut p, 6);
    assert_eq!(p.do_top_up_short(Origin::Signed(trader), netuid, TAO), Ok(()));
    assert_noop_default(&mut p, acc(99), trader, netuid, Error::PositionNotDefaultEligible);
}

#[test]
fn default_grace_independent_per_side() {
    let mut p = new_pallet();
    let netuid = setup_market(&mut p, 1000 * TAO, 1000 * TAO, 1.0);
    p.set_longs_enabled(true);
    let (sc, sh) = (acc(10), acc(11));
    add_balance(&mut p, sc, 1000 * TAO);
    assert_eq!(open(&mut p, sc, sh, netuid, 100 * TAO), Ok(()));
    p.set_short_dust(10_000 * TAO);
    p.set_short_default_grace(0);
    p.set_long_default_grace(5);
    assert_eq!(p.params.long_default_grace, 5);
    assert_eq!(p.do_default_short(Origin::Signed(acc(99)), sc, netuid), Ok(()));
}

#[test]
fn proof_default_recycles_exactly_the_floor() {
    let mut p = new_pallet();
    let netuid = setup_market(&mut p, 1000 * TAO, 1000 * TAO, 1.0);
    let (s_cold, s_hot) = (acc(10), acc(11));
    add_balance(&mut p, s_cold, 1000 * TAO);
    p.set_short_default_grace(0);
    p.set_short_dust(10_000 * TAO);
    assert_eq!(open(&mut p, s_cold, s_hot, netuid, 100 * TAO), Ok(()));
    let tao_before = p.total_issuance;
    assert_eq!(p.do_default_short(Origin::Signed(acc(99)), s_cold, netuid), Ok(()));
    assert_eq!(
        p.total_issuance,
        tao_before - 100 * TAO,
        "short default must recycle exactly the floor"
    );
}

// ---- deregistration ----

#[test]
fn dereg_settles_in_the_money_short() {
    let mut p = new_pallet();
    let netuid = setup_market(&mut p, 1000 * TAO, 1000 * TAO, 1.0);
    let trader = acc(10);
    add_balance(&mut p, trader, 1000 * TAO);
    assert_eq!(open(&mut p, trader, acc(11), netuid, 100 * TAO), Ok(()));
    let pos = position(&p, netuid, trader).unwrap();
    let c = pos.p_floor + pos.r_stored;
    let trader_before = bal(&p, trader);
    p.settle_shorts_on_dereg(netuid);

    assert!(position(&p, netuid, trader).is_none());
    assert_eq!(custody_bal(&p, netuid), 0);
    let gained = bal(&p, trader) - trader_before;
    assert!(gained > 0 && gained < c, "equity {gained} not in (0,{c})");
}

#[test]
fn dereg_settles_underwater_short_with_zero_equity() {
    let mut p = new_pallet();
    let netuid = setup_market(&mut p, 1000 * TAO, 1000 * TAO, 1.0);
    let trader = acc(10);
    add_balance(&mut p, trader, 1000 * TAO);
    assert_eq!(open(&mut p, trader, acc(11), netuid, 100 * TAO), Ok(()));
    set_price(&mut p, netuid, 50.0);
    let trader_before = bal(&p, trader);
    let ti0 = p.total_issuance;
    p.settle_shorts_on_dereg(netuid);

    assert!(position(&p, netuid, trader).is_none());
    assert_eq!(custody_bal(&p, netuid), 0);
    assert_eq!(bal(&p, trader), trader_before);
    assert!(p.total_issuance < ti0);
}

#[test]
fn dereg_cold_ema_caps_equity_at_floor() {
    let mut p = new_pallet();
    let netuid = setup_market(&mut p, 1000 * TAO, 1000 * TAO, 1.0);
    let trader = acc(10);
    add_balance(&mut p, trader, 1000 * TAO);
    assert_eq!(open(&mut p, trader, acc(11), netuid, 100 * TAO), Ok(()));
    let p_floor = position(&p, netuid, trader).unwrap().p_floor;
    set_price(&mut p, netuid, 0.0);
    let before = bal(&p, trader);
    p.settle_shorts_on_dereg(netuid);
    let gained = bal(&p, trader) - before;
    assert!(gained <= p_floor, "cold-EMA equity {gained} must not exceed floor {p_floor}");
    assert_eq!(custody_bal(&p, netuid), 0);
}

fn buyback(pay: u128, recv: u128, amt: u128) -> u128 {
    if recv <= amt {
        u64::MAX as u128
    } else {
        pay.saturating_mul(amt).div_ceil(recv - amt).min(u64::MAX as u128)
    }
}

#[test]
fn terminal_settlement_order_independent() {
    let mut p = new_pallet();
    let netuid = setup_market(&mut p, 2000 * TAO, 2000 * TAO, 1.0);
    let hotkey = acc(11);
    let traders = [acc(21), acc(22), acc(23), acc(24)];
    for tr in traders.iter() {
        add_balance(&mut p, *tr, 1000 * TAO);
        assert_eq!(open(&mut p, *tr, hotkey, netuid, 50 * TAO), Ok(()));
    }
    let t0 = subnet(&p, netuid).tao as u128;
    let a0 = subnet(&p, netuid).alpha_in as u128;
    let t_ema0 = (I96F32::from_num(1.0) * I96F32::from_num(a0)).to_num::<u128>();
    let q_sigma: u128 =
        traders.iter().map(|tr| position(&p, netuid, *tr).unwrap().q_liability as u128).sum();
    let k_sigma = buyback(t0, a0, q_sigma).max(buyback(t_ema0, a0, q_sigma));
    let mut expected: Vec<u64> = vec![];
    let mut before: Vec<u64> = vec![];
    for tr in traders.iter() {
        let pos = position(&p, netuid, *tr).unwrap();
        let c = pos.p_floor as u128 + pos.r_stored as u128;
        let q = pos.q_liability as u128;
        let k_i = k_sigma.saturating_mul(q).div_ceil(q_sigma);
        expected.push(c.saturating_sub(k_i).min(u64::MAX as u128) as u64);
        before.push(bal(&p, *tr));
    }
    p.settle_shorts_on_dereg(netuid);
    for (i, tr) in traders.iter().enumerate() {
        let paid = bal(&p, *tr) - before[i];
        assert_eq!(paid, expected[i], "position {i} mispriced vs frozen snapshot");
    }
    assert!(expected[0] > 0, "expected in-the-money equity to make the test meaningful");
    assert_eq!(positions_on(&p, netuid), 0);
}

#[test]
fn terminal_settlement_split_neutral() {
    let mut p = new_pallet();
    let netuid = setup_market(&mut p, 2000 * TAO, 2000 * TAO, 1.0);
    let hotkey = acc(11);
    let traders = [acc(41), acc(42), acc(43), acc(44), acc(45)];
    for tr in traders.iter() {
        add_balance(&mut p, *tr, 1000 * TAO);
        assert_eq!(open(&mut p, *tr, hotkey, netuid, 50 * TAO), Ok(()));
    }
    let t0 = subnet(&p, netuid).tao as u128;
    let a0 = subnet(&p, netuid).alpha_in as u128;
    let t_ema0 = (I96F32::from_num(1.0) * I96F32::from_num(a0)).to_num::<u128>();
    let mut q_sigma = 0u128;
    let mut c_sigma = 0u128;
    let mut k_single_sum = 0u128;
    let mut before = vec![];
    for tr in traders.iter() {
        let pos = position(&p, netuid, *tr).unwrap();
        let q = pos.q_liability as u128;
        q_sigma += q;
        c_sigma += pos.p_floor as u128 + pos.r_stored as u128;
        k_single_sum += buyback(t0, a0, q).max(buyback(t_ema0, a0, q));
        before.push(bal(&p, *tr));
    }
    let k_agg = buyback(t0, a0, q_sigma).max(buyback(t_ema0, a0, q_sigma));
    assert!(
        k_agg > k_single_sum,
        "expected convex buyback: K(sum) {k_agg} > sum of K {k_single_sum}"
    );
    p.settle_shorts_on_dereg(netuid);
    let equity_sum: u128 =
        traders.iter().zip(before.iter()).map(|(tr, b0)| (bal(&p, *tr) - b0) as u128).sum();
    let cover_sum = c_sigma - equity_sum;
    assert!(
        cover_sum >= k_agg && cover_sum <= k_agg + traders.len() as u128,
        "total cover {cover_sum} must track aggregate {k_agg} (split-neutral)"
    );
    assert!(
        cover_sum > k_single_sum,
        "split-neutral cover {cover_sum} must exceed the per-position sum {k_single_sum}"
    );
}

#[test]
fn dissolve_network_clears_shorts() {
    let mut p = new_pallet();
    let netuid = setup_market(&mut p, 1000 * TAO, 1000 * TAO, 1.0);
    let trader = acc(10);
    add_balance(&mut p, trader, 1000 * TAO);
    assert_eq!(open(&mut p, trader, acc(11), netuid, 100 * TAO), Ok(()));
    assert!(position(&p, netuid, trader).is_some());
    p.settle_shorts_on_dereg(netuid);
    assert!(position(&p, netuid, trader).is_none());
    assert!(!p.aggregates.contains_key(&netuid));
    assert!(!is_active(&p, netuid));
}

// ---- limits and tracking ----

#[test]
fn open_below_min_input_rejected() {
    let mut p = new_pallet();
    let netuid = setup_market(&mut p, 1000 * TAO, 1000 * TAO, 1.0);
    add_balance(&mut p, acc(10), 1000 * TAO);
    p.set_short_min_input(TAO);
    assert_noop_open(&mut p, acc(10), acc(11), netuid, TAO / 2, u64::MAX, Error::AmountTooLow);
    assert_eq!(open(&mut p, acc(10), acc(11), netuid, TAO), Ok(()));
}

#[test]
fn active_subnet_set_tracks_membership() {
    let mut p = new_pallet();
    let netuid = setup_market(&mut p, 1000 * TAO, 1000 * TAO, 1.0);
    let (trader, hotkey) = (acc(10), acc(11));
    add_balance(&mut p, trader, 1000 * TAO);
    assert!(!is_active(&p, netuid));
    assert_eq!(open(&mut p, trader, hotkey, netuid, 100 * TAO), Ok(()));
    assert!(is_active(&p, netuid));
    let pos = position(&p, netuid, trader).unwrap();
    give_alpha(&mut p, hotkey, trader, netuid, pos.q_liability + 10 * TAO);
    assert_eq!(close(&mut p, trader, netuid, WHOLE), Ok(()));
    assert!(!is_active(&p, netuid));
}

#[test]
fn open_max_liability_bound_opts_out() {
    let mut p = new_pallet();
    let netuid = setup_market(&mut p, 1000 * TAO, 1000 * TAO, 1.0);
    add_balance(&mut p, acc(10), 1000 * TAO);
    assert_eq!(open(&mut p, acc(10), acc(11), netuid, 50 * TAO), Ok(()));
    assert!(position(&p, netuid, acc(10)).is_some());
    add_balance(&mut p, acc(20), 1000 * TAO);
    assert_noop_open(&mut p, acc(20), acc(21), netuid, 50 * TAO, 1, Error::SlippageTooHigh);
}

#[test]
fn position_count_cap_enforced_and_maintained() {
    let mut p = new_pallet();
    let netuid = setup_market(&mut p, 1000 * TAO, 1000 * TAO, 1.0);
    p.set_short_max_positions(2);
    let (a, b, c) = (acc(10), acc(20), acc(30));
    for k in [a, b, c] {
        add_balance(&mut p, k, 1000 * TAO);
    }
    assert_eq!(open(&mut p, a, acc(11), netuid, 20 * TAO), Ok(()));
    assert_eq!(open(&mut p, b, acc(21), netuid, 20 * TAO), Ok(()));
    assert_eq!(p.position_count(netuid), 2);
    assert_noop_open(&mut p, c, acc(31), netuid, 20 * TAO, u64::MAX, Error::ShortPositionLimit);

    let pos = position(&p, netuid, a).unwrap();
    give_alpha(&mut p, acc(11), a, netuid, pos.q_liability);
    assert_eq!(close(&mut p, a, netuid, WHOLE), Ok(()));
    assert_eq!(p.position_count(netuid), 1);
    assert_eq!(open(&mut p, c, acc(31), netuid, 20 * TAO), Ok(()));
    assert_eq!(p.position_count(netuid), 2);
    assert_eq!(open(&mut p, c, acc(31), netuid, 20 * TAO), Ok(()));
    assert_eq!(p.position_count(netuid), 2);
}

#[test]
fn cleanup_evicts_only_after_last_short_closes() {
    let mut p = new_pallet();
    let netuid = setup_market(&mut p, 10_000 * TAO, 10_000 * TAO, 1.0);
    let (a, b) = (acc(10), acc(20));
    for k in [a, b] {
        add_balance(&mut p, k, 1000 * TAO);
    }
    give_alpha(&mut p, acc(11), a, netuid, 5000 * TAO);
    give_alpha(&mut p, acc(21), b, netuid, 5000 * TAO);
    assert_eq!(open(&mut p, a, acc(11), netuid, 50 * TAO), Ok(()));
    assert_eq!(open(&mut p, b, acc(21), netuid, 50 * TAO), Ok(()));
    assert_eq!(close(&mut p, a, netuid, WHOLE), Ok(()));
    assert!(is_active(&p, netuid), "still active while b open");
    assert_eq!(close(&mut p, b, netuid, WHOLE), Ok(()));
    assert!(!is_active(&p, netuid), "evicted after last close");
}

#[test]
fn governance_setters_clamp_ranges() {
    let mut p = new_pallet();
    p.set_short_kappa_ppb(0);
    assert!(p.params.kappa.bits > 0, "kappa=0 must clamp above 0");
    p.set_short_kappa_ppb(10_000_000_000);
    assert_eq!(p.params.kappa, Fixed { bits: 2 * ONE_BITS }, "kappa clamps to 2.0");
    assert_eq!(I64F64::from_bits(p.params.kappa.bits), I64F64::from_num(2));

    p.set_decay_bounds_ppb(500_000_000, 100_000_000);
    assert!(p.params.decay_max.bits >= p.params.decay_min.bits);
    p.set_decay_bounds_ppb(0, 5_000_000_000);
    assert!(p.params.decay_max.bits <= ONE_BITS, "decay max clamps to 1.0/day");
}

#[test]
fn short_and_long_flags_are_independent() {
    let mut p = new_pallet();
    let netuid = setup_market(&mut p, 1000 * TAO, 1000 * TAO, 1.0);
    let (trader, hotkey) = (acc(10), acc(11));
    add_balance(&mut p, trader, 1000 * TAO);
    give_alpha(&mut p, hotkey, trader, netuid, 500 * TAO);
    assert!(!p.params.longs_enabled);
    assert_eq!(open(&mut p, trader, hotkey, netuid, 50 * TAO), Ok(()));
    p.set_shorts_enabled(false);
    p.set_longs_enabled(true);
    assert!(p.params.longs_enabled);
    assert_noop_open(&mut p, acc(20), hotkey, netuid, 50 * TAO, u64::MAX, Error::ShortsDisabled);
}

// ---- views ----

#[test]
fn position_view_materializes_decay() {
    let mut p = new_pallet();
    let netuid = setup_market(&mut p, 1000 * TAO, 1000 * TAO, 1.0);
    let trader = acc(10);
    add_balance(&mut p, trader, 1000 * TAO);
    assert_eq!(open(&mut p, trader, acc(11), netuid, 100 * TAO), Ok(()));
    p.set_decay_bounds_ppb(1_000_000_000, 1_000_000_000);
    let raw = position(&p, netuid, trader).unwrap().r_stored;
    for _ in 0..2000 {
        p.run_short_decay();
    }
    let info = p.get_short_position(&trader, netuid).unwrap();
    assert!(info.buffer < raw, "view buffer {} !< raw {}", info.buffer, raw);
    assert_eq!(position(&p, netuid, trader).unwrap().r_stored, raw);
    assert_eq!(info.collateral_claim, info.floor + info.buffer);
    assert!(info.daily_decay > 0);
    assert!(info.blocks_to_dust > 0 && info.blocks_to_dust < u64::MAX);
    assert_eq!(info.alpha_needed, info.alpha_liability);
}

#[test]
fn position_view_reports_default_window() {
    let mut p = new_pallet();
    let netuid = setup_market(&mut p, 1000 * TAO, 1000 * TAO, 1.0);
    let trader = acc(10);
    add_balance(&mut p, trader, 1000 * TAO);
    assert_eq!(open(&mut p, trader, acc(11), netuid, 100 * TAO), Ok(()));
    p.set_short_dust(1000 * TAO);
    p.set_short_default_grace(5);
    let info = p.get_short_position(&trader, netuid).unwrap();
    assert!(!info.default_eligible, "within grace, not yet defaultable");
    step_block(&mut p, 6);
    let info2 = p.get_short_position(&trader, netuid).unwrap();
    assert!(info2.default_eligible, "after grace, defaultable");
    assert_eq!(info2.defaultable_at_block, info.defaultable_at_block);
}

#[test]
fn market_view_reports_capacity() {
    let mut p = new_pallet();
    let netuid = setup_market(&mut p, 1000 * TAO, 1000 * TAO, 1.0);
    let trader = acc(10);
    add_balance(&mut p, trader, 1000 * TAO);
    assert_eq!(open(&mut p, trader, acc(11), netuid, 100 * TAO), Ok(()));
    let pos = position(&p, netuid, trader).unwrap();
    let m = p.get_subnet_short_state(netuid).unwrap();
    assert!(m.shorts_enabled);
    assert!(m.footprint_used > 0);
    assert!(m.footprint_cap > m.footprint_used);
    assert_eq!(m.footprint_remaining, m.footprint_cap - m.footprint_used);
    assert_eq!(m.open_interest_alpha, pos.q_liability);
    assert_eq!(m.buffer_total, pos.r_stored);
    assert!(m.current_daily_decay > 0);
}

#[test]
fn close_quote_matches_position() {
    let mut p = new_pallet();
    let netuid = setup_market(&mut p, 1000 * TAO, 1000 * TAO, 1.0);
    let trader = acc(10);
    add_balance(&mut p, trader, 1000 * TAO);
    assert_eq!(open(&mut p, trader, acc(11), netuid, 100 * TAO), Ok(()));
    let pos = position(&p, netuid, trader).unwrap();
    let full = p.quote_close_short(&trader, netuid, 1_000_000_000).unwrap();
    assert_eq!(full.repay_alpha, pos.q_liability);
    assert_eq!(full.returned_tao, pos.p_floor + pos.r_stored);
    assert_eq!(full.alpha_needed, pos.q_liability);
    assert!(full.est_buyback_cost > 0);
    let half = p.quote_close_short(&trader, netuid, 500_000_000).unwrap();
    assert_approx(half.repay_alpha, full.repay_alpha / 2, 2, "half repay");
    assert_approx(half.returned_tao, full.returned_tao / 2, 2, "half return");
}

#[test]
fn materialize_never_inflates() {
    let mut p = new_pallet();
    let netuid = setup_market(&mut p, 1000 * TAO, 1000 * TAO, 1.0);
    let trader = acc(10);
    add_balance(&mut p, trader, 1000 * TAO);
    assert_eq!(open(&mut p, trader, acc(11), netuid, 100 * TAO), Ok(()));
    let mut pos = position(&p, netuid, trader).unwrap();
    let buf = pos.r_stored;
    pos.omega_entry = Fixed { bits: I64F64::from_num(1000).to_bits() };
    p.positions.insert(OwnerKey { netuid, coldkey: trader }, pos);
    let info = p.get_short_position(&trader, netuid).unwrap();
    assert!(info.buffer <= buf, "materialize inflated: {} > {}", info.buffer, buf);
}

#[test]
fn open_quote_gated_by_enable_flag() {
    let mut p = new_pallet();
    let netuid = setup_market(&mut p, 1000 * TAO, 1000 * TAO, 1.0);
    assert!(p.quote_open_short(netuid, 100 * TAO).is_some());
    p.set_shorts_enabled(false);
    assert!(p.quote_open_short(netuid, 100 * TAO).is_none());
}

#[test]
fn list_positions_across_subnets() {
    let mut p = new_pallet();
    let n1 = setup_market(&mut p, 1000 * TAO, 1000 * TAO, 1.0);
    let n2 = setup_market(&mut p, 1000 * TAO, 1000 * TAO, 1.0);
    let trader = acc(10);
    add_balance(&mut p, trader, 1000 * TAO);
    assert_eq!(open(&mut p, trader, acc(11), n1, 50 * TAO), Ok(()));
    assert_eq!(open(&mut p, trader, acc(12), n2, 50 * TAO), Ok(()));
    let all = p.get_short_positions(&trader);
    assert_eq!(all.len(), 2);
    let mut netuids: Vec<u16> = all.iter().map(|i| i.netuid).collect();
    netuids.sort();
    let mut want = vec![n1, n2];
    want.sort();
    assert_eq!(netuids, want);
}

// ---- conservation ----

#[test]
fn proof_full_lifecycle_conserves_tao_and_alpha() {
    let mut p = new_pallet();
    let netuid = setup_market(&mut p, 1000 * TAO, 1000 * TAO, 1.0);
    let (s_cold, s_hot) = (acc(10), acc(11));
    add_balance(&mut p, s_cold, 1000 * TAO);
    give_alpha(&mut p, s_hot, s_cold, netuid, 5000 * TAO);
    let tao0 = p.total_issuance;
    let alpha0 = alpha_issuance(&p, netuid);
    assert_eq!(open(&mut p, s_cold, s_hot, netuid, 100 * TAO), Ok(()));
    for _ in 0..500 {
        p.run_short_decay();
    }
    assert_eq!(p.do_top_up_short(Origin::Signed(s_cold), netuid, 10 * TAO), Ok(()));
    assert_eq!(close(&mut p, s_cold, netuid, 500_000_000), Ok(()));
    assert_eq!(close(&mut p, s_cold, netuid, WHOLE), Ok(()));

    assert_eq!(p.total_issuance, tao0, "TAO supply not conserved");
    let alpha1 = alpha_issuance(&p, netuid);
    let dust_tol: u64 = 1_000_000;
    assert!(alpha1 <= alpha0, "Alpha was minted: {alpha1} > {alpha0}");
    assert!(alpha0 - alpha1 <= dust_tol, "Alpha loss {} exceeds dust tol", alpha0 - alpha1);
    assert!(custody_bal(&p, netuid) <= dust_tol, "short custody dust too large");
    assert!(position(&p, netuid, s_cold).is_none());
    assert_eq!(p.position_count(netuid), 0);
    assert_eq!(p.aggregate(netuid).q_sigma, 0);
    assert!(!is_active(&p, netuid));
}

#[test]
fn proof_custody_geq_obligations_under_decay() {
    let mut p = new_pallet();
    let netuid = setup_market(&mut p, 1000 * TAO, 1000 * TAO, 1.0);
    p.set_decay_bounds_ppb(100_000_000, 1_000_000_000);
    let traders = [(acc(10), acc(11)), (acc(20), acc(21)), (acc(30), acc(31))];
    for (c, h) in traders.iter() {
        add_balance(&mut p, *c, 1000 * TAO);
        give_alpha(&mut p, *h, *c, netuid, 1000 * TAO);
    }
    for (i, (c, h)) in traders.iter().enumerate() {
        assert_eq!(open(&mut p, *c, *h, netuid, (20 + 10 * i as u64) * TAO), Ok(()));
    }
    let obligations = |p: &Pallet| -> u64 {
        traders
            .iter()
            .filter_map(|(c, _)| p.get_short_position(c, netuid))
            .map(|i| i.floor + i.buffer + i.escrow)
            .sum()
    };
    assert!(custody_bal(&p, netuid) >= obligations(&p), "custody < obligations at open");
    for k in 0..3000 {
        p.run_short_decay();
        assert!(
            custody_bal(&p, netuid) >= obligations(&p),
            "custody < obligations during decay (block {k})"
        );
    }
    assert_eq!(close(&mut p, traders[0].0, netuid, 400_000_000), Ok(()));
    assert!(
        custody_bal(&p, netuid) >= obligations(&p),
        "custody < obligations after partial close"
    );
}

#[test]
fn proof_position_count_matches_map_through_churn() {
    let mut p = new_pallet();
    let netuid = setup_market(&mut p, 1000 * TAO, 1000 * TAO, 1.0);
    let traders = [(acc(10), acc(11)), (acc(20), acc(21)), (acc(30), acc(31))];
    for (c, h) in traders.iter() {
        add_balance(&mut p, *c, 1000 * TAO);
        give_alpha(&mut p, *h, *c, netuid, 1000 * TAO);
    }
    let check = |p: &Pallet| {
        assert_eq!(p.position_count(netuid) as usize, positions_on(p, netuid), "count != map size");
        let agg = p.aggregate(netuid);
        let nonzero = !(agg.r_sigma == 0 && agg.e_sigma == 0 && agg.b_sigma == 0 && agg.q_sigma == 0);
        assert_eq!(is_active(p, netuid), nonzero, "active-set membership != nonzero aggregate");
    };
    check(&p);
    for (c, h) in traders.iter() {
        assert_eq!(open(&mut p, *c, *h, netuid, 30 * TAO), Ok(()));
        check(&p);
    }
    assert_eq!(close(&mut p, traders[0].0, netuid, 500_000_000), Ok(()));
    check(&p);
    assert_eq!(close(&mut p, traders[1].0, netuid, WHOLE), Ok(()));
    check(&p);
    assert_eq!(close(&mut p, traders[0].0, netuid, WHOLE), Ok(()));
    check(&p);
    assert_eq!(close(&mut p, traders[2].0, netuid, WHOLE), Ok(()));
    check(&p);
    assert_eq!(p.position_count(netuid), 0);
    assert!(!is_active(&p, netuid));
}

#[test]
fn proof_multi_position_decay_conserves() {
    let mut p = new_pallet();
    let netuid = setup_market(&mut p, 10_000 * TAO, 10_000 * TAO, 1.0);
    let shorts = [
        (acc(10), acc(11), 50 * TAO),
        (acc(12), acc(13), 100 * TAO),
        (acc(14), acc(15), 30 * TAO),
    ];
    for (c, h, _) in shorts {
        add_balance(&mut p, c, 2000 * TAO);
        give_alpha(&mut p, h, c, netuid, 5000 * TAO);
    }
    let tao0 = p.total_issuance;
    let alpha0 = alpha_issuance(&p, netuid);
    for (c, h, input) in shorts {
        assert_eq!(open(&mut p, c, h, netuid, input), Ok(()));
    }
    for _ in 0..300 {
        p.run_short_decay();
    }
    for (c, _, _) in shorts {
        assert_eq!(close(&mut p, c, netuid, WHOLE), Ok(()));
    }
    let tol: u64 = 10_000_000;
    assert_eq!(p.total_issuance, tao0, "TAO supply not conserved");
    let alpha1 = alpha_issuance(&p, netuid);
    assert!(alpha1 <= alpha0, "Alpha minted across many positions");
    assert!(alpha0 - alpha1 <= tol, "Alpha drift {} > tol", alpha0 - alpha1);
    assert!(custody_bal(&p, netuid) <= tol, "custody not drained across many positions");
    assert_eq!(p.position_count(netuid), 0);
    assert!(!is_active(&p, netuid));
}
