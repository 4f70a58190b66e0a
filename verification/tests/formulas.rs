//! Exact values of the formulas, and what the calls into the outside crates give.
use covered_shorts::accounts::{custody_account, AccountId};
use covered_shorts::close::take_slice;
use covered_shorts::fixed::{Fixed, ONE_BITS};
use covered_shorts::math;
use covered_shorts::migration::{
    migrate_root_claim_type_to_keep, DbWeight, MigrationLog, RootClaimTypeEnum, RootClaims, Weight,
};
use covered_shorts::open::{open_terms, OpenTerms};
use covered_shorts::storage::{Amounts, StorageMap};
use covered_shorts::types::{Error, Params, ShortPosition, Subnet};

const TAO: u64 = 1_000_000_000;

fn fx(n: i128) -> Fixed {
    Fixed { bits: n * ONE_BITS }
}

fn bits(bits: i128) -> Fixed {
    Fixed { bits }
}

fn market(tao: u64, alpha_in: u64, price_bits: u128) -> Subnet {
    Subnet {
        mechanism: 1,
        tao,
        alpha_in,
        alpha_out: 0,
        moving_price: price_bits,
        account: AccountId { lo: 5, hi: 0 },
    }
}

fn params() -> Params {
    Params::launch(900_000_000, 1, 0, 0, 10)
}

fn pos(p: u64, q: u64, r: u64, e: u64, b: u64) -> ShortPosition {
    ShortPosition {
        hotkey: AccountId { lo: 1, hi: 0 },
        p_floor: p,
        q_liability: q,
        r_stored: r,
        e_stored: e,
        b_stored: b,
        omega_entry: Fixed { bits: 0 },
        last_active: 3,
    }
}

// ---- fixed point ----

#[test]
fn quotients_round_toward_zero_and_default_to_zero() {
    assert_eq!(fx(1).safe_div(fx(3)).bits, 0x5555_5555_5555_5555);
    assert_eq!(fx(-1).safe_div(fx(3)).bits, -0x5555_5555_5555_5555);
    assert_eq!(fx(1).safe_div(fx(0)).bits, 0);
    // Two to the power of 62 over a quarter does not fit.
    assert_eq!(fx(1 << 62).safe_div(bits(ONE_BITS / 4)).bits, 0);
    assert_eq!(fx(7).min(fx(3)), fx(3));
    assert_eq!(fx(-7).min(Fixed::zero()), fx(-7));
}

#[test]
fn square_roots() {
    assert_eq!(fx(4).checked_sqrt(), Some(fx(2)));
    assert_eq!(bits(ONE_BITS / 4).checked_sqrt(), Some(bits(ONE_BITS / 2)));
    assert_eq!(fx(2).checked_sqrt(), Some(bits(26_087_635_650_665_564_424)));
    assert_eq!(fx(0).checked_sqrt(), Some(fx(0)));
    assert_eq!(fx(1).checked_sqrt(), Some(fx(1)));
    assert_eq!(fx(-1).checked_sqrt(), None);
    // The two least numbers: the root of two to the power of -64, and of twice that.
    assert_eq!(bits(1).checked_sqrt(), Some(bits(1 << 32)));
    assert_eq!(bits(2).checked_sqrt(), Some(bits(6_074_000_999)));
    assert_eq!(bits(3).checked_sqrt(), Some(bits(7_439_101_573)));
}

#[test]
fn exponentials() {
    assert_eq!(fx(0).checked_exp(), Some(fx(1)));
    // The inverse of e, to 64 bits: 0.36787944117144232...
    assert_eq!(fx(-1).checked_exp(), Some(bits(6_786_177_901_268_885_275)));
    assert_eq!(fx(-50).checked_exp(), None);
    assert_eq!(fx(-40).checked_exp(), Some(bits(78)));
}

#[test]
fn exponentials_lie_between() {
    // 1 - y <= exp(-y) <= 1 / (1 + y), for y with at most 62 bits.
    for shift in 0..62 {
        let y = 1i128 << shift;
        let v = bits(-y).checked_exp().unwrap().bits;
        assert!(ONE_BITS - y <= v && v <= ONE_BITS);
        assert!(v as f64 * (1.0 + y as f64 / ONE_BITS as f64) <= ONE_BITS as f64 * (1.0 + 1e-15));
    }
    for y in 1..40 {
        let v = fx(-y).checked_exp().unwrap().bits;
        assert!(0 <= v && v * (1 + y) <= ONE_BITS);
    }
}

#[test]
fn exponentials_are_the_inverse_of_the_series() {
    assert_eq!(bits(-(1 << 63)).checked_exp(), Some(bits(11_188_515_852_577_165_302)));
    assert_eq!(bits(-13 * (ONE_BITS / 4)).checked_exp(), Some(bits(715_257_888_532_600_469)));
    assert_eq!(bits(1 - 8 * ONE_BITS).checked_exp(), Some(bits(6_188_193_243_211_692)));
    assert_eq!(bits(-20 * ONE_BITS - 12_345).checked_exp(), Some(bits(38_021_573_369)));
    assert_eq!(bits(-1).checked_exp(), Some(bits(ONE_BITS - 1)));
    assert_eq!(bits(i128::MIN).checked_exp(), None);
}

#[test]
fn logarithms_come_close() {
    // The number, its logarithm, and the true one rounded down.
    let given: [(i128, i128, i128); 5] = [
        (2 * ONE_BITS, 12_786_308_815_896_786_259, 12_786_308_645_202_655_659),
        (1_000_000_000 * ONE_BITS, 382_276_786_368_901_473_826, 382_276_781_265_598_821_176),
        (3 * ONE_BITS + 7, 20_265_819_995_836_735_735, 20_265_819_725_292_939_640),
        (i128::MAX, 805_537_455_401_497_534_360, 805_537_444_647_767_306_566),
        (ONE_BITS + 1, 0, 0),
    ];
    for (x, log, truth) in given {
        let v = bits(x).checked_ln().unwrap().bits;
        assert_eq!(v, log);
        assert!(v - v / (1 << 26) - 4 <= truth && truth + 1 <= v + 4);
    }
    // Below one, down to the least number that has an inverse.
    assert!(bits(ONE_BITS / 2).checked_ln().unwrap().bits < 0);
    assert!(bits(3).checked_ln().unwrap().bits < 0);
    assert_eq!(bits(2).checked_ln(), None);
    assert_eq!(bits(1).checked_ln(), None);
}

#[test]
fn logarithms() {
    assert_eq!(fx(1).checked_ln(), Some(fx(0)));
    let ln2 = fx(2).checked_ln().unwrap().bits;
    // 0.6931471... to the precision that the logarithm has.
    assert!((ln2 as f64 / ONE_BITS as f64 - core::f64::consts::LN_2).abs() < 1e-6);
    assert_eq!(fx(0).checked_ln(), None);
    assert_eq!(fx(-3).checked_ln(), None);
}

// ---- amounts and rates ----

#[test]
fn shares_of_amounts() {
    assert_eq!(math::mul_amount(10, bits(ONE_BITS / 2)), 5);
    assert_eq!(math::mul_amount(11, bits(ONE_BITS / 2)), 5);
    assert_eq!(math::mul_amount(11, fx(-1)), 0);
    assert_eq!(math::mul_amount(11, fx(3)), 33);
    assert_eq!(math::ratio_from_ppb(500_000_000), bits(ONE_BITS / 2));
    assert_eq!(math::ratio_from_ppb(1_000_000_000), fx(1));
    assert_eq!(math::ratio_to_ppb(bits(ONE_BITS / 4)), 250_000_000);
    assert_eq!(math::ratio_to_ppb(fx(-1)), 0);
}

#[test]
fn reference_reserve_is_the_smaller_one() {
    let half = 1u128 << 31;
    assert_eq!(math::slow_price(&market(0, 0, half)), bits(ONE_BITS / 2));
    assert_eq!(math::ema_reserve(&market(7, 1000, half)), fx(500));
    assert_eq!(math::short_t_ref(&market(400, 1000, half)), fx(400));
    assert_eq!(math::short_t_ref(&market(600, 1000, half)), fx(500));
    // Pumping the live reserve changes nothing.
    assert_eq!(math::short_t_ref(&market(6_000_000, 1000, half)), fx(500));
    // Without a moving price the live reserve is all there is.
    assert_eq!(math::short_t_ref(&market(600, 1000, 0)), fx(600));
}

#[test]
fn decay_curve_is_convex() {
    let mut p = params();
    p.decay_min = bits(ONE_BITS / 8);
    p.decay_max = bits(ONE_BITS / 2);
    assert_eq!(math::decay_curve(&p, fx(0)), p.decay_min);
    assert_eq!(math::decay_curve(&p, fx(1)), p.decay_max);
    // 1/8 + 3/8 / 4
    assert_eq!(math::decay_curve(&p, bits(ONE_BITS / 2)), bits(ONE_BITS / 8 + 3 * ONE_BITS / 32));
    assert_eq!(math::utilization(fx(50), fx(100)), bits(ONE_BITS / 2));
    assert_eq!(math::utilization(fx(500), fx(100)), fx(1));
    assert_eq!(math::utilization(fx(500), fx(0)), fx(0));
    p.kappa = fx(1);
    assert_eq!(
        math::short_daily_decay(&p, &market(200, 1000, 1 << 32), 100),
        bits(ONE_BITS / 8 + 3 * ONE_BITS / 32)
    );
    assert_eq!(math::per_block(fx(1)).bits, ONE_BITS / 7200);
}

#[test]
fn log_loss_to_the_third_order() {
    // 1/2 + 1/8 + 1/24
    assert_eq!(
        math::neg_ln_one_minus(bits(ONE_BITS / 2)).bits,
        ONE_BITS / 2 + ONE_BITS / 8 + 0x0aaa_aaaa_aaaa_aa80
    );
    assert_eq!(math::neg_ln_one_minus(fx(0)), fx(0));
}

// ---- opening ----

#[test]
fn collateral_and_pool_fraction() {
    assert_eq!(
        math::collateral_from_root(fx(100), bits(ONE_BITS / 2), bits(ONE_BITS / 2)),
        Some((fx(200), fx(100)))
    );
    assert_eq!(math::collateral_from_root(fx(100), fx(1), fx(1)), None);
    assert_eq!(math::solve_collateral(fx(100), fx(0), fx(0), bits(ONE_BITS / 2)), None);
    let (c, n) = math::solve_collateral(
        fx(100 * TAO as i128),
        fx(1000 * TAO as i128),
        fx(0),
        bits(ONE_BITS / 2),
    )
    .unwrap();
    assert_eq!(c.bits, 3_379_737_863_033_172_517_987_266_361_998);
    assert_eq!(c.bits, 100 * TAO as i128 * ONE_BITS + n.bits);
    // The root of 0.25 * c^2 / 1000 + 0.5 * c = 100.
    let c = c.bits as f64 / ONE_BITS as f64 / TAO as f64;
    assert!((0.25 * c * c / 1000.0 + 0.5 * c - 100.0).abs() < 1e-6);

    assert_eq!(math::phi_from_root(bits(ONE_BITS / 2)), bits(ONE_BITS / 4));
    assert_eq!(math::solve_phi(fx(3), fx(16)), Some(bits(ONE_BITS / 4)));
    assert_eq!(math::solve_phi(fx(4), fx(16)), Some(bits(ONE_BITS / 2)));
    assert_eq!(math::solve_phi(fx(5), fx(16)), None);
    assert_eq!(math::solve_phi(fx(5), fx(0)), None);
}

#[test]
fn roots_are_near() {
    let square = |v: i128| v * v;
    for shift in 0..62 {
        for x in [(1i128 << shift), (1 << shift) + 1, (1 << shift) * 5 / 4, (1 << shift) * 3 / 2] {
            let root = bits(x).checked_sqrt().unwrap().bits;
            assert!(square(root - 2) < x * ONE_BITS && x * ONE_BITS < square(root + 2), "{x}");
        }
    }
}

#[test]
fn fraction_of_a_pool_far_too_small() {
    // The quotient of four times the proceeds and the pool does not fit.
    assert_eq!(math::solve_phi(bits(1 << 62), bits(1)), None);
    assert_eq!(math::solve_phi(fx(1 << 61), bits(3)), None);
    // Nor do four times the proceeds.
    assert_eq!(math::solve_phi(bits(i128::MAX), bits(i128::MAX)), None);
    assert_eq!(math::solve_phi(bits((1 << 125) + 1), bits(i128::MAX)), None);
}

#[test]
fn pool_fraction_up_to_the_quarter() {
    // One unit, and two, in the last place short of a quarter.
    assert_eq!(
        math::solve_phi(bits(1 << 64), bits((1 << 66) + 1)),
        Some(bits((1 << 63) - (1 << 31)))
    );
    assert_eq!(
        math::solve_phi(bits(1 << 63), bits((1 << 65) + 3)),
        Some(bits(((1i128 << 64) - 6_074_000_999) / 2))
    );
    assert_eq!(math::solve_phi(bits(0), bits(1)), Some(bits(0)));
    assert_eq!(math::solve_phi(fx(1), bits(4 * ONE_BITS - 1)), Some(bits(ONE_BITS / 2)));
    assert_eq!(math::solve_phi(fx(1), bits(4 * ONE_BITS - 8)), None);
}

#[test]
fn pool_fraction_takes_the_proceeds() {
    let t = 1000 * TAO as i128;
    for percent in 0..26 {
        let n = t * percent / 100;
        let phi = math::solve_phi(fx(n), fx(t)).unwrap();
        assert!(0 <= phi.bits && phi.bits <= ONE_BITS / 2);
        let x = phi.bits as f64 / ONE_BITS as f64;
        assert!((x * (1.0 - x) * t as f64 - n as f64).abs() < 2e-9 * t as f64);
    }
    assert_eq!(math::solve_phi(fx(t * 26 / 100), fx(t)), None);
}

#[test]
fn terms_and_why_there_are_none() {
    let m = market(1000 * TAO, 2000 * TAO, 1 << 32);
    let p = params();
    let t = open_terms(&p, &m, 0, 100 * TAO).unwrap();
    // n = 83.2 TAO, 1 - sqrt(1 - 4n/1000) = 2 phi.
    let n = t.n as f64 / TAO as f64;
    let phi = (1.0 - (1.0 - 4.0 * n / 1000.0f64).sqrt()) / 2.0;
    assert!((n - 83.2159).abs() < 1e-3, "{n}");
    assert!((t.e as f64 / TAO as f64 - phi * 1000.0).abs() < 1e-6);
    assert!((t.q as f64 / TAO as f64 - phi * 2000.0).abs() < 1e-6);
    assert!((t.b as f64 / TAO as f64 - 0.5 * (100.0 + n)).abs() < 1e-6);
    assert_eq!(t, OpenTerms { n: t.n, e: t.e, b: t.b, q: t.q });

    assert_eq!(
        open_terms(&p, &market(0, 2000 * TAO, 1 << 32), 0, TAO),
        Err(Error::EffectiveLtvNonPositive)
    );
    let mut tight = p;
    tight.kappa = bits(1);
    assert_eq!(open_terms(&tight, &m, 0, TAO), Err(Error::ShortCapacityExceeded));
    // Just above a quarter of the pool.
    let mut loose = p;
    loose.kappa = fx(2);
    assert_eq!(open_terms(&loose, &m, 0, 750 * TAO), Err(Error::ReserveDomainExceeded));
    // Less than one rao of proceeds.
    assert_eq!(open_terms(&p, &m, 0, 1), Err(Error::RetainedProceedsNonPositive));
}

// ---- positions ----

#[test]
fn materialization_shrinks_what_decays() {
    assert_eq!(math::decay_factor(fx(5), fx(5)), fx(1));
    assert_eq!(math::decay_factor(fx(5), fx(4)), fx(1));
    assert_eq!(math::decay_factor(fx(0), fx(1)), bits(6_786_177_901_268_885_275));
    assert_eq!(math::decay_factor(fx(0), fx(100)), fx(0));

    let mut half = pos(100, 50, 11, 7, 3);
    math::shrink_by(&mut half, bits(ONE_BITS / 2), fx(9));
    let mut want = pos(100, 50, 5, 3, 1);
    want.omega_entry = fx(9);
    assert_eq!(half, want);

    let mut p = pos(100, 50, 1_000_000, 2_000_000, 3_000_000);
    math::materialize_short(&mut p, fx(1));
    assert_eq!((p.r_stored, p.e_stored, p.b_stored), (367_879, 735_758, 1_103_638));
    assert_eq!((p.p_floor, p.q_liability, p.omega_entry), (100, 50, fx(1)));
    // At the same accumulator nothing changes.
    let again = p;
    math::materialize_short(&mut p, fx(1));
    assert_eq!(p, again);
}

#[test]
fn slices_are_pro_rata() {
    let s = take_slice(&pos(1000, 500, 300, 200, 100), math::ratio_from_ppb(250_000_000));
    assert_eq!((s.p, s.q, s.r, s.e, s.b), (250, 125, 75, 50, 25));
    let s = take_slice(&pos(1000, 500, 300, 200, 100), math::ratio_from_ppb(1_000_000_000));
    assert_eq!((s.p, s.q, s.r, s.e, s.b), (1000, 500, 300, 200, 100));
    // A third is rounded down.
    let s = take_slice(&pos(1000, 500, 300, 200, 100), math::ratio_from_ppb(333_333_333));
    assert_eq!((s.p, s.q, s.r, s.e, s.b), (333, 166, 99, 66, 33));
}

// ---- buying back ----

#[test]
fn buying_back_is_never_undercharged() {
    assert_eq!(math::div_ceil(7, 2), 4);
    assert_eq!(math::div_ceil(8, 2), 4);
    assert_eq!(math::div_ceil(0, 2), 0);
    assert_eq!(math::buyback_cost_rao(1000, 1000, 500), 1000);
    assert_eq!(math::buyback_cost_rao(1000, 1000, 1), 2);
    assert_eq!(math::buyback_cost_rao(1000, 1000, 0), 0);
    assert_eq!(math::buyback_cost_rao(1000, 1000, 1000), u64::MAX);
    assert_eq!(math::buyback_cost_rao(1000, 1000, 2000), u64::MAX);
    assert_eq!(math::buyback_cost_rao(u128::MAX, 1000, 999), u64::MAX);
    for (pay, recv, amount) in [(1000u128, 1000u128, 333u128), (7, 13, 5), (123_456, 789, 700)] {
        let cost = math::buyback_cost_rao(pay, recv, amount) as u128;
        assert!((pay + cost) * (recv - amount) >= pay * recv);
        assert!((pay + cost - 1) * (recv - amount) < pay * recv);
    }
    assert_eq!(math::short_spot_close_cost(&market(1000, 1000, 0), 500), fx(1000));
}

#[test]
fn terminal_price_is_the_dearer_one() {
    // The live pool says 1000, the moving price of two says 2000.
    assert_eq!(math::terminal_price(&market(1000, 1000, 2 << 32), 500), 2000);
    // A pressed live price does not help.
    assert_eq!(math::terminal_price(&market(1, 1000, 2 << 32), 500), 2000);
    assert_eq!(math::terminal_price(&market(4000, 1000, 2 << 32), 500), 4000);
    assert_eq!(math::terminal_price(&market(4000, 1000, 0), 500), 4000);
    assert_eq!(math::terminal_price(&market(4000, 1000, 1 << 32), 1000), u64::MAX);
}

#[test]
fn claims_are_split() {
    let p = pos(100, 30, 60, 0, 0);
    // A share of 30 in 90 of a price of 200, rounded up: 67.
    assert_eq!(math::terminal_split(200, 90, false, &p), (93, 67));
    // Under water.
    assert_eq!(math::terminal_split(2000, 90, false, &p), (0, 160));
    // Without a moving price the buffer is never paid out.
    assert_eq!(math::terminal_split(30, 90, true, &p), (100, 60));
    assert_eq!(math::terminal_split(30, 90, false, &p), (150, 10));
    // What cannot be bought back is charged in full.
    assert_eq!(math::terminal_split(u64::MAX, 90, false, &p), (0, 160));
    // Nothing is owed by anybody.
    assert_eq!(math::terminal_split(0, 0, false, &p), (160, 0));
}

#[test]
fn shares_add_up_to_the_price() {
    let shares: Vec<u64> = [10u64, 20, 33].iter().map(|q| {
        math::terminal_split(100, 63, false, &pos(1000, *q, 0, 0, 0)).1
    }).collect();
    assert_eq!(shares, vec![16, 32, 53]);
    let sum: u64 = shares.iter().sum();
    assert!(100 <= sum && sum < 103);
}

#[test]
fn time_until_dust() {
    assert_eq!(math::short_blocks_to_dust(10, 10, fx(1)), 0);
    assert_eq!(math::short_blocks_to_dust(0, 0, fx(1)), 0);
    assert_eq!(math::short_blocks_to_dust(0, 5, fx(1)), u64::MAX);
    assert_eq!(math::short_blocks_to_dust(10, 20, fx(0)), u64::MAX);
    // ln 2 / -ln(1 - 1/7200) = 4990.3
    assert_eq!(math::short_blocks_to_dust(10, 20, fx(1)), 4990);
    assert_eq!(math::blocks_for_log(fx(10), fx(3)), 3);
    assert_eq!(math::blocks_for_log(fx(-1), fx(3)), 0);
}

#[test]
fn time_until_dust_is_the_right_one() {
    for (r, dust, daily) in [
        (1_000_000_000_000u64, 1_000u64, ONE_BITS),
        (1_000_000_000, 999_999_000, ONE_BITS / 3),
        (7_000_000_000_000_000, 100, ONE_BITS / 500),
        (3, 1, ONE_BITS / 50_000),
    ] {
        let blocks = math::short_blocks_to_dust(dust, r, bits(daily));
        let keep = 1.0 - (daily / 7200) as f64 / ONE_BITS as f64;
        let left = |n: f64| r as f64 * keep.powf(n);
        let early = (7198.0 * blocks as f64 / 7200.0).floor() - 4.0;
        let late = (7202.0 * (blocks as f64 + 5.0) / 7200.0).ceil();
        assert!(early < 0.0 || dust as f64 <= left(early));
        assert!(left(late) <= dust as f64);
    }
}

// ---- accounts ----

#[test]
fn custody_accounts_are_spelled_out() {
    let mut want = [0u8; 32];
    want[..4].copy_from_slice(b"modl");
    want[4..12].copy_from_slice(b"bt/sbtns");
    want[12] = 16;
    want[13..17].copy_from_slice(b"shrt");
    want[17..19].copy_from_slice(&700u16.to_le_bytes());
    let account = custody_account(u64::from_le_bytes(*b"bt/sbtns"), 700);
    let mut got = [0u8; 32];
    got[..16].copy_from_slice(&account.lo.to_le_bytes());
    got[16..].copy_from_slice(&account.hi.to_le_bytes());
    assert_eq!(got, want);
    assert_ne!(custody_account(1, 1), custody_account(1, 2));
    assert_ne!(custody_account(1, 1), custody_account(2, 1));
}

// ---- storage ----

#[test]
fn storage_keeps_the_last_value() {
    let mut m: StorageMap<u16, u64> = StorageMap::new();
    assert!(m.get(&1).is_none());
    m.insert(1, 10);
    m.insert(2, 20);
    m.insert(1, 11);
    assert_eq!(m.get(&1), Some(&11));
    assert_eq!(m.keys().len(), 2);
    m.remove(&1);
    m.remove(&3);
    assert!(!m.contains_key(&1));
    assert_eq!(m.keys(), vec![2]);

    let mut a: Amounts<u16> = Amounts::new();
    assert_eq!(a.get(&1), 0);
    a.set(1, 5);
    assert_eq!(a.get(&1), 5);
    a.set(1, 0);
    assert_eq!(a.get(&1), 0);
}

// ---- the migration ----

fn claims(n: u64) -> RootClaims {
    let mut claim_types = StorageMap::new();
    for i in 0..n {
        let old = match i % 4 {
            0 => RootClaimTypeEnum::Swap,
            1 => RootClaimTypeEnum::Keep,
            2 => RootClaimTypeEnum::KeepSubnets { subnets: vec![1, 2] },
            _ => RootClaimTypeEnum::AutoKeep,
        };
        claim_types.insert(AccountId { lo: i as u128, hi: 0 }, old);
    }
    RootClaims { claim_types, has_migration_run: MigrationLog::new() }
}

#[test]
fn migration_makes_everything_keep_once() {
    let db = DbWeight { read: 25, write: 100 };
    let mut c = claims(5);
    assert!(!c.has_migration_run.has_run("migrate_root_claim_type_to_keep"));
    let w = migrate_root_claim_type_to_keep(&mut c, db);
    // One read, five reads and writes, one write.
    assert_eq!(w, Weight { ref_time: 25 + 5 * 125 + 100, proof_size: 0 });
    for i in 0..5 {
        assert_eq!(
            c.claim_types.get(&AccountId { lo: i, hi: 0 }),
            Some(&RootClaimTypeEnum::Keep)
        );
    }
    assert!(c.claim_types.get(&AccountId { lo: 5, hi: 0 }).is_none());
    assert!(c.has_migration_run.has_run("migrate_root_claim_type_to_keep"));

    // What has changed since then stays.
    c.claim_types.insert(AccountId { lo: 0, hi: 0 }, RootClaimTypeEnum::AutoKeep);
    let w = migrate_root_claim_type_to_keep(&mut c, db);
    assert_eq!(w, Weight { ref_time: 25, proof_size: 0 });
    assert_eq!(
        c.claim_types.get(&AccountId { lo: 0, hi: 0 }),
        Some(&RootClaimTypeEnum::AutoKeep)
    );
}

#[test]
fn migration_weight_saturates() {
    let db = DbWeight { read: u64::MAX / 2, write: u64::MAX / 2 };
    let mut c = claims(2);
    let w = migrate_root_claim_type_to_keep(&mut c, db);
    assert_eq!(w, Weight { ref_time: u64::MAX, proof_size: 0 });
    let mut c = claims(0);
    let w = migrate_root_claim_type_to_keep(&mut c, DbWeight { read: 3, write: 4 });
    assert_eq!(w, Weight { ref_time: 7, proof_size: 0 });
}

#[test]
fn another_migration_does_not_count() {
    let mut c = claims(1);
    c.has_migration_run.record("another");
    assert!(c.has_migration_run.has_run("another"));
    migrate_root_claim_type_to_keep(&mut c, DbWeight { read: 1, write: 1 });
    assert_eq!(
        c.claim_types.get(&AccountId { lo: 0, hi: 0 }),
        Some(&RootClaimTypeEnum::Keep)
    );
}

#[test]
fn escrows_match_the_proceeds() {
    let p = params();
    for (tao, alpha, input) in [
        (1000 * TAO, 2000 * TAO, 100 * TAO),
        (1000 * TAO, 2000 * TAO, 10 * TAO),
        (50_000 * TAO, 3_000_000 * TAO, 777 * TAO + 13),
    ] {
        let m = market(tao, alpha, ((tao as u128) << 32) / alpha as u128);
        let t = open_terms(&p, &m, 0, input).unwrap();
        assert!(t.e <= 2 * t.n + 3 && t.n <= t.e + 1);
        // The fraction is the escrow over the pool, and the escrow is n / (1 - phi).
        let phi = t.e as f64 / tao as f64;
        assert!((t.e as f64 * (1.0 - phi) - t.n as f64).abs() < 4.0);
    }
}
