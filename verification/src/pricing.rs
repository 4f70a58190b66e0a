//! What the amounts of a short are of the numbers that they are priced from.
use crate::fixed::{fits, lemma_over, lemma_times, lemma_whole, near_root, Fixed, ONE_BITS};
use crate::math::{
    collateral_for_root, discriminant, linear_term, quadratic_term, reference_reserve, HALF_BITS,
};
use crate::residuals::{
    collateral_computable, lemma_collateral, solves_collateral, takes_proceeds,
};
use crate::types::{Error, Params, Subnet};
use vstd::prelude::*;

verus! {

/// The proceeds `n` of a collateral `c` on the input `p`, at a loan to value `ltv`, a reference
/// reserve and a footprint `s` in use, all of them bits. What is lent is the loan to value of the
/// collateral, less what the footprint and the collateral itself press the price:
/// `n * reserve = ltv * c * reserve - ltv^2 * c^2 - 2 * ltv * s * c`, but for some units in the last
/// place of the collateral.
pub open spec fn collateral_balances(
    n: int,
    c: int,
    p: int,
    reserve: int,
    s: int,
    ltv: int,
) -> bool {
    let one = ONE_BITS as int;
    let gap = n * (one * one) * reserve + (ltv * c) * (ltv * c) + 2 * (ltv * s) * (c * one) - (ltv
        * c) * (one * reserve);
    let bound = 11 * one * ((c + 2) * (c + 2)) * reserve + 4 * p * (2 * (one * one) * reserve + one
        * one + (one + reserve) * (c * c + c * one));
    &&& c == p + n
    &&& -bound <= 4 * p * gap <= bound
}

/// The proceeds are no more than the loan to value of the collateral, but for a part in `2^32`.
pub open spec fn within_the_loan(n: int, c: int, ltv: int) -> bool {
    n * ONE_BITS <= c * (ltv + 0x1_0000_0000)
}

/// What the two coefficients of the collateral equation are of the numbers that they come from.
proof fn lemma_coefficients(reserve: Fixed, s: Fixed, ltv: Fixed)
    requires
        reserve.bits >= ONE_BITS,
        0 <= 2 * s.bits <= i128::MAX,
        0 < ltv.bits <= ONE_BITS,
    ensures
        ({
            let one = ONE_BITS as int;
            let (a, b) = (
                quadratic_term(reserve, ltv).bits as int,
                linear_term(reserve, s, ltv).bits as int,
            );
            let (r, l, f) = (reserve.bits as int, ltv.bits as int, s.bits as int);
            let g = b - (one - l);
            &&& 0 <= a <= one
            &&& a * r <= l * l < a * r + one + r
            &&& 0 <= g
            &&& g * r <= 2 * (l * f)
            &&& 2 * (l * f) < g * r + one + r || b == i128::MAX
        }),
{
    let one = ONE_BITS as int;
    let (r, l, f) = (reserve.bits as int, ltv.bits as int, s.bits as int);
    // The square of the loan to value, over the reserve.
    let ll = l * l;
    let t = ll / one;
    assert(0 <= ll && ll <= one * one) by (nonlinear_arith)
        requires
            ll == l * l,
            0 < l <= one,
    ;
    vstd::arithmetic::div_mod::lemma_fundamental_div_mod(ll, one);
    vstd::arithmetic::div_mod::lemma_div_pos_is_pos(ll, one);
    lemma_times(ltv, ltv);
    assert(ltv.times(ltv).bits == t);
    lemma_over(ltv.times(ltv), reserve);
    let a = (t * one) / r;
    vstd::arithmetic::div_mod::lemma_fundamental_div_mod(t * one, r);
    assert(0 <= a && a <= one) by (nonlinear_arith)
        requires
            t * one == r * a + (t * one) % r,
            0 <= (t * one) % r < r,
            0 <= t <= one,
            r >= one,
            one > 0,
    {
        assert(t * one <= one * one);
        if a > one {
            assert(r * a >= one * (one + 1));
        }
        if a < 0 {
            assert(r * a <= -r);
            assert(t * one >= 0);
        }
    }
    assert(quadratic_term(reserve, ltv).bits == a);
    assert(r * a == a * r) by (nonlinear_arith);
    assert(a * r <= ll && ll < a * r + one + r) by {
        assert(one * t == t * one);
    }
    // Twice the loan to value times the footprint, over the reserve.
    let two = Fixed::whole(2);
    assert((2 * one) * l == one * (2 * l)) by (nonlinear_arith);
    vstd::arithmetic::div_mod::lemma_div_multiples_vanish(2 * l, one);
    assert(two.times(ltv).bits == 2 * l);
    let lf = l * f;
    assert((2 * l) * f == 2 * lf && 0 <= lf && lf <= one * f) by (nonlinear_arith)
        requires
            lf == l * f,
            0 < l <= one,
            f >= 0,
    ;
    let m = (2 * lf) / one;
    vstd::arithmetic::div_mod::lemma_fundamental_div_mod(2 * lf, one);
    vstd::arithmetic::div_mod::lemma_div_pos_is_pos(2 * lf, one);
    assert(m <= 2 * f);
    let x = two.times(ltv).times(s);
    assert(x.bits == m);
    lemma_over(x, reserve);
    let g = (m * one) / r;
    vstd::arithmetic::div_mod::lemma_fundamental_div_mod(m * one, r);
    assert(0 <= g && g <= m) by (nonlinear_arith)
        requires
            m * one == r * g + (m * one) % r,
            0 <= (m * one) % r < r,
            0 <= m,
            r >= one,
            one > 0,
    {
        if g > m {
            assert(r * g >= r * (m + 1));
            assert(r * (m + 1) >= one * (m + 1));
        }
        if g < 0 {
            assert(r * g <= -r);
            assert(m * one >= 0);
        }
    }
    assert(x.over(reserve).bits == g);
    assert(r * g == g * r) by (nonlinear_arith);
    assert(g * r <= 2 * lf && 2 * lf < g * r + one + r) by {
        assert(one * m == m * one);
    }
    assert(Fixed::whole(1).minus(ltv).bits == one - l);
    let b = linear_term(reserve, s, ltv).bits as int;
    let h = b - (one - l);
    assert(0 <= h <= g);
    assert(h * r <= g * r) by (nonlinear_arith)
        requires
            h <= g,
            r > 0,
    ;
}

/// What a root is of the linear coefficient, where there are proceeds at all.
proof fn lemma_proceeds_bound_the_root(p: Fixed, reserve: Fixed, s: Fixed, ltv: Fixed, root: Fixed)
    requires
        p.bits >= 0,
        s.bits >= 0,
        reserve.bits > 0,
        0 < ltv.bits <= ONE_BITS,
        near_root(discriminant(p, reserve, s, ltv).bits, root.bits),
        collateral_for_root(p, linear_term(reserve, s, ltv), root) is Some,
    ensures
        ({
            let one = ONE_BITS as int;
            let b = linear_term(reserve, s, ltv).bits as int;
            let (c, n) = collateral_for_root(p, linear_term(reserve, s, ltv), root)->0;
            &&& one - ltv.bits <= b
            &&& 0 <= root.bits
            &&& 0 < b + root.bits < 2 * one
            &&& c.bits == p.bits + n.bits
            &&& n.bits > 0
            &&& c.bits * (b + root.bits) <= 2 * p.bits * one
            &&& discriminant(p, reserve, s, ltv).bits < i128::MAX
            &&& b * b < (root.bits + 2) * (root.bits + 2) + one
        }),
{
    let one = ONE_BITS as int;
    let two = Fixed::whole(2);
    let b = linear_term(reserve, s, ltv);
    let a = quadratic_term(reserve, ltv);
    let (bi, si, pi) = (b.bits as int, root.bits as int, p.bits as int);
    lemma_times(ltv, ltv);
    lemma_over(ltv.times(ltv), reserve);
    lemma_times(two, ltv);
    lemma_times(two.times(ltv), s);
    lemma_over(two.times(ltv).times(s), reserve);
    assert(one - ltv.bits <= bi);
    let (c, n) = collateral_for_root(p, b, root)->0;
    let sum = b.plus(root);
    let twice = two.times(p);
    assert((2 * one) * pi == one * (2 * pi)) by (nonlinear_arith);
    vstd::arithmetic::div_mod::lemma_div_multiples_vanish(2 * pi, one);
    assert(0 <= twice.bits <= 2 * pi);
    let z = sum.bits as int;
    assert(z >= 0);
    assert(c.bits > pi);
    if z == 0 {
        assert(twice.over(sum) == Fixed::nil());
    }
    lemma_over(twice, sum);
    let ci = c.bits as int;
    vstd::arithmetic::div_mod::lemma_fundamental_div_mod(twice.bits * one, z);
    assert(z * ci <= twice.bits * one);
    assert(z * ci <= 2 * pi * one && z < 2 * one) by (nonlinear_arith)
        requires
            z * ci <= twice.bits * one,
            twice.bits <= 2 * pi,
            ci > pi,
            pi >= 0,
            z > 0,
            one > 0,
    {
        assert(twice.bits * one <= (2 * pi) * one);
        if z >= 2 * one {
            assert(z * ci >= (2 * one) * ci);
            assert((2 * one) * ci >= (2 * one) * (pi + 1));
            assert((2 * one) * (pi + 1) == 2 * pi * one + 2 * one);
        }
    }
    assert(z == bi + si);
    assert(ci * z == z * ci) by (nonlinear_arith);
    // The discriminant is at least the square of the linear coefficient, rounded down.
    let disc = discriminant(p, reserve, s, ltv);
    let d = disc.bits as int;
    let bb = bi * bi;
    assert(0 <= bb && bb <= 4 * (one * one)) by (nonlinear_arith)
        requires
            bb == bi * bi,
            0 <= bi < 2 * one,
    ;
    vstd::arithmetic::div_mod::lemma_fundamental_div_mod(bb, one);
    vstd::arithmetic::div_mod::lemma_div_pos_is_pos(bb, one);
    assert(bb / one <= 4 * one) by (nonlinear_arith)
        requires
            bb == one * (bb / one) + bb % one,
            0 <= bb % one,
            bb <= 4 * (one * one),
            one > 0,
    ;
    lemma_times(Fixed::whole(4), a);
    lemma_times(Fixed::whole(4).times(a), p);
    assert(d >= bb / one);
    let e = si + 2;
    assert(d < i128::MAX && bb < e * e + one) by {
        assert(d * one < e * e);
        assert(e * e <= (2 * one + 2) * (2 * one + 2)) by (nonlinear_arith)
            requires
                0 <= e <= 2 * one + 2,
        ;
        assert(d < 5 * one) by (nonlinear_arith)
            requires
                d * one < e * e,
                e * e <= (2 * one + 2) * (2 * one + 2),
                one > 100,
        {
            assert((2 * one + 2) * (2 * one + 2) == 4 * (one * one) + 8 * one + 4);
            if d >= 5 * one {
                assert(d * one >= (5 * one) * one);
            }
        }
        assert(d * one >= one * (bb / one)) by (nonlinear_arith)
            requires
                d >= bb / one,
                one > 0,
        ;
    }
}

/// The proceeds are within the loan.
pub proof fn lemma_within_the_loan(p: Fixed, reserve: Fixed, s: Fixed, ltv: Fixed, root: Fixed)
    requires
        p.bits >= 0,
        s.bits >= 0,
        reserve.bits > 0,
        0 < ltv.bits <= ONE_BITS,
        near_root(discriminant(p, reserve, s, ltv).bits, root.bits),
    ensures
        collateral_for_root(p, linear_term(reserve, s, ltv), root) matches Some((c, n))
            ==> within_the_loan(n.bits as int, c.bits as int, ltv.bits as int),
{
    if let Some((c, n)) = collateral_for_root(p, linear_term(reserve, s, ltv), root) {
        lemma_proceeds_bound_the_root(p, reserve, s, ltv, root);
        let one = ONE_BITS as int;
        let b = linear_term(reserve, s, ltv).bits as int;
        let si = root.bits as int;
        let k = 0x2_0000_0000int;
        assert(b - si <= k) by (nonlinear_arith)
            requires
                b * b < (si + 2) * (si + 2) + one,
                si >= 0,
                one == 0x1_0000_0000_0000_0000,
                k == 0x2_0000_0000,
        {
            if b - si > k {
                let x = b - k + 1;
                assert(si + 2 <= x);
                assert((si + 2) * (si + 2) <= x * x);
                assert(x * x == b * b - 2 * b * (k - 1) + (k - 1) * (k - 1));
                assert(b > k);
                assert(2 * b * (k - 1) >= 2 * k * (k - 1));
                assert(2 * k * (k - 1) - (k - 1) * (k - 1) >= k * (k - 1));
                assert(k * (k - 1) >= one);
            }
        }
        let (ci, ni, pi, l) = (c.bits as int, n.bits as int, p.bits as int, ltv.bits as int);
        assert(ni * one <= ci * (l + 0x1_0000_0000)) by (nonlinear_arith)
            requires
                ci * (b + si) <= 2 * pi * one,
                b - si <= k,
                one - l <= b,
                ci == pi + ni,
                ci >= 0,
                k == 0x2_0000_0000,
        {
            assert(ci * (2 * b - k) <= ci * (b + si));
            assert(ci * (2 * (one - l) - k) <= ci * (2 * b - k));
            assert(2 * pi * one == 2 * (ci * one) - 2 * (ni * one));
            assert(ci * (2 * (one - l) - k) == 2 * (ci * one) - 2 * (ci * l) - ci * k);
            assert(ci * (l + 0x1_0000_0000) == ci * l + ci * 0x1_0000_0000);
        }
    }
}

/// The collateral balances, for a reserve of a rao or more.
pub proof fn lemma_collateral_balances(p: Fixed, reserve: Fixed, s: Fixed, ltv: Fixed, root: Fixed)
    requires
        0 <= 2 * p.bits <= i128::MAX,
        0 <= 2 * s.bits <= i128::MAX,
        reserve.bits >= ONE_BITS,
        0 < ltv.bits <= ONE_BITS,
        near_root(discriminant(p, reserve, s, ltv).bits, root.bits),
    ensures
        collateral_for_root(p, linear_term(reserve, s, ltv), root) matches Some((c, n))
            ==> collateral_balances(
            n.bits as int,
            c.bits as int,
            p.bits as int,
            reserve.bits as int,
            s.bits as int,
            ltv.bits as int,
        ),
{
    if let Some((c, n)) = collateral_for_root(p, linear_term(reserve, s, ltv), root) {
        let one = ONE_BITS as int;
        lemma_proceeds_bound_the_root(p, reserve, s, ltv, root);
        lemma_coefficients(reserve, s, ltv);
        assert(collateral_computable(p, reserve, s, ltv));
        lemma_collateral(p, reserve, s, ltv, root);
        let (a, b) = (
            quadratic_term(reserve, ltv).bits as int,
            linear_term(reserve, s, ltv).bits as int,
        );
        assert(solves_collateral(c, p, quadratic_term(reserve, ltv), linear_term(reserve, s, ltv)));
        let (l, r) = (ltv.bits as int, reserve.bits as int);
        assert(0 <= a * r && l * l <= one * one) by (nonlinear_arith)
            requires
                0 <= a,
                r > 0,
                0 < l <= one,
        ;
        lemma_balance(
            a,
            b,
            c.bits as int,
            n.bits as int,
            p.bits as int,
            reserve.bits as int,
            s.bits as int,
            ltv.bits as int,
        );
    }
}

/// The balance from the equation and its coefficients.
proof fn lemma_balance(a: int, b: int, c: int, n: int, p: int, r: int, f: int, l: int)
    requires
        ({
            let one = ONE_BITS as int;
            let g = b - (one - l);
            let x = a * (c * c) + (b * c) * one - p * (one * one);
            let bound = 11 * one * ((c + 2) * (c + 2)) + 4 * p * (2 * (one * one) + a);
            &&& 0 <= a * r <= l * l < a * r + one + r
            &&& g * r <= 2 * (l * f) < g * r + one + r
            &&& -bound <= 4 * p * x <= bound
            &&& c == p + n
            &&& c > 0
            &&& p >= 0
            &&& r > 0
            &&& l * l <= one * one
        }),
    ensures
        collateral_balances(n, c, p, r, f, l),
{
    let one = ONE_BITS as int;
    let o2 = one * one;
    let g = b - (one - l);
    let cc = c * c;
    let x = a * cc + (b * c) * one - p * o2;
    let w = 11 * one * ((c + 2) * (c + 2));
    let bound = w + 4 * p * (2 * o2 + a);
    let (ar, gr, ll, lf) = (a * r, g * r, l * l, l * f);
    let lc = l * c;
    let gap = n * o2 * r + lc * lc + 2 * lf * (c * one) - lc * (one * r);
    // The equation times the reserve.
    let co = c * one;
    assert((b * c) * one == (one - l) * co + g * co) by (nonlinear_arith)
        requires
            b == g + (one - l),
            co == c * one,
    ;
    assert((one - l) * co - p * o2 == n * o2 - l * co) by (nonlinear_arith)
        requires
            co == c * one,
            o2 == one * one,
            c == p + n,
    ;
    assert(x == a * cc + g * co + n * o2 - l * co);
    assert(x * r == ar * cc + gr * co + n * o2 * r - lc * (one * r)) by (nonlinear_arith)
        requires
            x == a * cc + g * co + n * o2 - l * co,
            ar == a * r,
            gr == g * r,
            lc == l * c,
            co == c * one,
    {
        assert((a * cc) * r == (a * r) * cc);
        assert((g * co) * r == (g * r) * co);
        assert((l * co) * r == (l * c) * (one * r));
        assert(x * r == (a * cc) * r + (g * co) * r + (n * o2) * r - (l * co) * r);
    }
    assert(lc * lc == ll * cc) by (nonlinear_arith)
        requires
            lc == l * c,
            ll == l * l,
            cc == c * c,
    ;
    let (u, v) = (ll - ar, 2 * lf - gr);
    assert(gap == x * r + u * cc + v * co) by (nonlinear_arith)
        requires
            x * r == ar * cc + gr * co + n * o2 * r - lc * (one * r),
            lc * lc == ll * cc,
            gap == n * o2 * r + lc * lc + 2 * lf * (c * one) - lc * (one * r),
            u == ll - ar,
            v == 2 * lf - gr,
            co == c * one,
    {
        assert(u * cc == ll * cc - ar * cc);
        assert(v * co == 2 * lf * co - gr * co);
    }
    let h = one + r;
    assert(0 <= u * cc <= h * cc && 0 <= v * co <= h * co) by (nonlinear_arith)
        requires
            0 <= u < h,
            0 <= v < h,
            cc == c * c,
            co == c * one,
            c > 0,
            one > 0,
    {
        assert(cc >= 0 && co >= 0);
    }
    let k = h * cc + h * co;
    assert(k == h * (cc + co)) by (nonlinear_arith)
        requires
            k == h * cc + h * co,
    ;
    let m = 4 * p;
    assert(-(bound * r) <= m * gap && m * gap <= bound * r + m * k) by (nonlinear_arith)
        requires
            gap == x * r + u * cc + v * co,
            0 <= u * cc + v * co <= k,
            -bound <= m * x <= bound,
            m >= 0,
            r > 0,
    {
        assert(m * gap == (m * x) * r + m * (u * cc + v * co));
        assert((m * x) * r <= bound * r);
        assert((-bound) * r <= (m * x) * r);
        assert(0 <= m * (u * cc + v * co) <= m * k);
    }
    let full = w * r + m * (2 * o2 * r + o2 + k);
    assert(bound * r <= w * r + m * (2 * o2 * r + o2) && m * k >= 0) by (nonlinear_arith)
        requires
            bound == w + m * (2 * o2 + a),
            a * r <= o2,
            m >= 0,
            k >= 0,
    {
        assert(bound * r == w * r + (m * (2 * o2 + a)) * r);
        assert((m * (2 * o2 + a)) * r == m * (2 * o2 * r + a * r));
        assert(m * (2 * o2 * r + a * r) <= m * (2 * o2 * r + o2));
    }
    assert(m * (2 * o2 * r + o2 + k) == m * (2 * o2 * r + o2) + m * k) by (nonlinear_arith);
    assert(-full <= m * gap <= full);
    assert(full == 11 * one * ((c + 2) * (c + 2)) * r + 4 * p * (2 * (one * one) * r + one * one + (
    one + r) * (c * c + c * one)));
}

/// There is something to lend: the reserve exceeds twice the footprint and the loan to value of the
/// input, by three units in the last place of the loan.
pub open spec fn room_to_lend(p: int, reserve: int, s: int, ltv: int) -> bool {
    (ltv * ltv) * p <= ONE_BITS * (ltv * reserve - 2 * (ltv * s) - 3 * reserve)
}

/// There is nothing to lend: twice the footprint and the loan to value of the input exceed the
/// reserve, by some units in the last place.
pub open spec fn no_room_to_lend(p: int, reserve: int, s: int, ltv: int) -> bool {
    ONE_BITS * (ltv * reserve - 2 * (ltv * s) + 3 * reserve + ONE_BITS) <= (ltv * ltv - ONE_BITS
        - reserve) * p
}

/// Where there is room there are proceeds, and where there is none there are none.
pub proof fn lemma_room_decides(p: Fixed, reserve: Fixed, s: Fixed, ltv: Fixed, root: Fixed)
    requires
        2 * ONE_BITS <= 2 * p.bits <= i128::MAX,
        0 <= 2 * s.bits <= i128::MAX,
        reserve.bits >= ONE_BITS,
        0 < ltv.bits <= ONE_BITS,
        near_root(discriminant(p, reserve, s, ltv).bits, root.bits),
    ensures
        ({
            let found = collateral_for_root(p, linear_term(reserve, s, ltv), root) is Some;
            let (pi, r, f, l) = (
                p.bits as int,
                reserve.bits as int,
                s.bits as int,
                ltv.bits as int,
            );
            &&& 2 * p.bits * ONE_BITS <= (ONE_BITS - ltv.bits) * i128::MAX && room_to_lend(
                pi,
                r,
                f,
                l,
            ) ==> found
            &&& no_room_to_lend(pi, r, f, l) ==> !found
        }),
{
    let one = ONE_BITS as int;
    let (pi, r, f, l) = (p.bits as int, reserve.bits as int, s.bits as int, ltv.bits as int);
    let (a, b) = (quadratic_term(reserve, ltv).bits as int, linear_term(reserve, s, ltv).bits as int);
    let si = root.bits as int;
    lemma_coefficients(reserve, s, ltv);
    let g = b - (one - l);
    let (ar, gr, ll, lf) = (a * r, g * r, l * l, l * f);
    let disc = discriminant(p, reserve, s, ltv);
    let d = disc.bits as int;
    // The discriminant, where it does not saturate.
    let bb = b * b;
    let ap = 4 * a * pi;
    assert(bb >= 0 && ap >= 0 && (4 * a) * pi == ap) by (nonlinear_arith)
        requires
            bb == b * b,
            ap == 4 * a * pi,
            a >= 0,
            pi >= 0,
    ;
    assert((4 * one) * a == one * (4 * a)) by (nonlinear_arith);
    vstd::arithmetic::div_mod::lemma_div_multiples_vanish(4 * a, one);
    assert(Fixed::whole(4).times(quadratic_term(reserve, ltv)).bits == 4 * a);
    vstd::arithmetic::div_mod::lemma_fundamental_div_mod(bb, one);
    vstd::arithmetic::div_mod::lemma_fundamental_div_mod(ap, one);
    vstd::arithmetic::div_mod::lemma_div_pos_is_pos(bb, one);
    vstd::arithmetic::div_mod::lemma_div_pos_is_pos(ap, one);
    let (qb, qa) = (bb / one, ap / one);
    if no_room_to_lend(pi, r, f, l) && collateral_for_root(p, linear_term(reserve, s, ltv), root)
        is Some {
        lemma_proceeds_bound_the_root(p, reserve, s, ltv, root);
        assert(d == qb + qa);
        let e = si + 2;
        assert(d * one < e * e);
        assert(e <= 2 * one - b + 1);
        let t = 2 * one - b + 1;
        assert(e * e <= t * t) by (nonlinear_arith)
            requires
                0 <= e <= t,
        ;
        assert(bb + ap < t * t + 2 * one);
        assert(t * t == 4 * (one * one) - 4 * (one * b) + bb + 4 * one - 2 * b + 1)
            by (nonlinear_arith)
            requires
                t == 2 * one - b + 1,
                bb == b * b,
        ;
        // one * (l - g) + 2 * one > a * p
        assert(4 * (one * one) - 4 * (one * b) == 4 * (one * (l - g))) by (nonlinear_arith)
            requires
                b == g + one - l,
        ;
        assert(a * pi < one * (l - g) + 2 * one) by {
            assert(ap == 4 * (a * pi)) by (nonlinear_arith)
                requires
                    ap == 4 * a * pi,
            ;
        }
        assert(ar * pi < one * (l * r - gr + 2 * r)) by (nonlinear_arith)
            requires
                a * pi < one * (l - g) + 2 * one,
                ar == a * r,
                gr == g * r,
                r > 0,
        {
            assert((a * pi) * r < (one * (l - g) + 2 * one) * r);
            assert((a * pi) * r == ar * pi);
            assert((one * (l - g) + 2 * one) * r == one * (l * r - g * r + 2 * r));
        }
        assert((ll - one - r) * pi <= ar * pi) by (nonlinear_arith)
            requires
                ll < ar + one + r,
                pi >= 0,
        ;
        assert(one * (l * r - gr + 2 * r) <= one * (l * r - 2 * lf + one + r + 2 * r))
            by (nonlinear_arith)
            requires
                2 * lf < gr + one + r,
                one > 0,
        ;
        assert(false);
    }
    if 2 * pi * one <= (one - l) * i128::MAX && room_to_lend(pi, r, f, l) {
        // a * p + 3 * one <= one * (l - g)
        assert(one * (l * r - 2 * lf - 3 * r) <= one * (l * r - gr - 3 * r)) by (nonlinear_arith)
            requires
                gr <= 2 * lf,
                one > 0,
        ;
        assert(ar * pi <= ll * pi) by (nonlinear_arith)
            requires
                ar <= ll,
                pi >= 0,
        ;
        assert(a * pi <= one * (l - g - 3)) by (nonlinear_arith)
            requires
                ar * pi <= one * (l * r - gr - 3 * r),
                ar == a * r,
                gr == g * r,
                r > 0,
        {
            assert((a * pi) * r == ar * pi);
            assert((one * (l - g - 3)) * r == one * (l * r - g * r - 3 * r));
        }
        assert(l - g - 3 >= 0) by (nonlinear_arith)
            requires
                0 <= a * pi,
                a * pi <= one * (l - g - 3),
                one > 0,
        ;
        assert(0 <= a * pi) by (nonlinear_arith)
            requires
                a >= 0,
                pi >= 0,
        ;
        assert(0 <= b && b <= one - 3);
        assert(bb <= one * one && ap <= 4 * (one * one)) by (nonlinear_arith)
            requires
                bb == b * b,
                0 <= b <= one,
                ap == 4 * a * pi,
                a * pi <= one * (l - g - 3),
                l - g - 3 <= one,
                one > 0,
        {
            assert(one * (l - g - 3) <= one * one);
            assert(4 * a * pi == 4 * (a * pi));
        }
        assert(qb <= one && qa <= 4 * one) by (nonlinear_arith)
            requires
                bb == one * qb + bb % one,
                ap == one * qa + ap % one,
                0 <= bb % one,
                0 <= ap % one,
                bb <= one * one,
                ap <= 4 * (one * one),
                one > 0,
        ;
        assert(d == qb + qa);
        assert(d * one <= bb + ap) by (nonlinear_arith)
            requires
                d == qb + qa,
                bb == one * qb + bb % one,
                ap == one * qa + ap % one,
                0 <= bb % one,
                0 <= ap % one,
        ;
        let t = 2 * one - b;
        assert(bb + ap <= (t - 3) * (t - 3)) by (nonlinear_arith)
            requires
                bb == b * b,
                ap == 4 * a * pi,
                a * pi <= one * (l - g - 3),
                b == g + one - l,
                t == 2 * one - b,
                0 <= b,
                one > 3,
        {
            assert(4 * a * pi == 4 * (a * pi));
            assert((t - 3) * (t - 3) == t * t - 6 * t + 9);
            assert(t * t == 4 * (one * one) - 4 * (one * b) + b * b);
            assert(4 * (one * (l - g - 3)) == 4 * (one * one) - 4 * (one * b) - 12 * one);
        }
        assert(si < t - 1) by (nonlinear_arith)
            requires
                si >= 2 ==> (si - 2) * (si - 2) < d * one,
                d * one <= (t - 3) * (t - 3),
                t >= 10,
        {
            if si >= t - 1 {
                assert((si - 2) * (si - 2) >= (t - 3) * (t - 3));
            }
        }
        let z = b + si;
        assert(0 <= z <= 2 * one - 2);
        // The divisor is not zero, and the quotient fits and exceeds the input.
        let num = 2 * pi * one;
        assert(one - l > 0) by (nonlinear_arith)
            requires
                num <= (one - l) * i128::MAX,
                num == 2 * pi * one,
                pi > 0,
                one > 0,
        {
            assert(num > 0);
        }
        assert(z >= one - l);
        let twice = Fixed::whole(2).times(p);
        assert((2 * one) * pi == one * (2 * pi)) by (nonlinear_arith);
        vstd::arithmetic::div_mod::lemma_div_multiples_vanish(2 * pi, one);
        assert(twice.bits == 2 * pi);
        let sum = linear_term(reserve, s, ltv).plus(root);
        assert(sum.bits == z);
        lemma_over(twice, sum);
        let c = num / z;
        vstd::arithmetic::div_mod::lemma_fundamental_div_mod(num, z);
        assert(c <= i128::MAX && c > pi) by (nonlinear_arith)
            requires
                num == z * c + num % z,
                0 <= num % z < z,
                num == 2 * pi * one,
                num <= (one - l) * i128::MAX,
                0 < one - l <= z <= 2 * one - 2,
                pi >= one,
        {
            if c > i128::MAX {
                assert(z * c >= (one - l) * (i128::MAX + 1));
            }
            if c <= pi {
                assert(z * c <= z * pi);
                assert(z * pi <= (2 * one - 2) * pi);
                assert((2 * one - 2) * pi == num - 2 * pi);
            }
        }
    }
}

/// The smaller of the live reserve and the moving price times the alpha reserve, in bits; without
/// such a price the live reserve.
pub open spec fn is_reference(subnet: Subnet, reserve: int) -> bool {
    let live = subnet.tao * ONE_BITS;
    let implied = subnet.moving_price * subnet.alpha_in * 0x1_0000_0000;
    &&& reserve <= live
    &&& implied > 0 ==> reserve <= implied
    &&& reserve == live || (implied > 0 && reserve == implied)
}

/// The reference and the amounts are such that nothing saturates on the way to the collateral: the
/// reference is a rao or more, and the input and the footprint are less than half of what fits.
pub open spec fn lends_exactly(reserve: int, input: u64, b_sigma: u64) -> bool {
    &&& reserve >= ONE_BITS
    &&& 2 * (input * ONE_BITS) <= i128::MAX
    &&& 2 * (b_sigma * ONE_BITS) <= i128::MAX
}

/// What is lent, `x` in bits, on an input in a market with the given footprint.
pub open spec fn lent(
    params: Params,
    subnet: Subnet,
    b_sigma: u64,
    input: u64,
    reserve: int,
    x: int,
) -> bool {
    let ltv = params.base_ltv.bits as int;
    let p = input * ONE_BITS;
    &&& x > 0
    &&& is_reference(subnet, reserve)
    &&& within_the_loan(x, p + x, ltv)
    &&& lends_exactly(reserve, input, b_sigma) ==> collateral_balances(
        x,
        p + x,
        p,
        reserve,
        b_sigma * ONE_BITS,
        ltv,
    )
}

/// The fraction `phi` of a pool, in bits and at most a half, is what the pool gives `x` for:
/// `phi * (1 - phi) * tao = x`, but for two units in the last place of the fraction.
pub open spec fn drawn(x: int, tao: int, phi: int) -> bool {
    let one = ONE_BITS as int;
    &&& 0 <= 2 * phi <= one
    &&& -(2 * (tao * one)) <= phi * (one - phi) * tao - x * one <= 2 * (tao * one)
}

/// The escrow `e` and the liability `q` are the same fraction of the two reserves of a pool, the one
/// that the pool gives `x` for, rounded down.
pub open spec fn draws(x: int, tao: int, alpha: int, e: int, q: int) -> bool {
    let one = ONE_BITS as int;
    exists|phi: int| #[trigger]
        drawn(x, tao, phi) && e * one <= phi * tao < (e + 1) * one && q * one <= phi * alpha < (q
            + 1) * one
}

/// The amounts of a short are what they should be of the numbers that they are priced from:
///
/// - the proceeds `n` are what is lent, rounded down;
/// - the footprint `b` is the loan to value of the input and what is lent, rounded down;
/// - the footprint, with the one in use, is within the cap, `kappa` times the reference, but for a
///   unit in the last place;
/// - the escrow `e` and the liability `q` are what the pool gives what is lent for; so the pool pays
///   the proceeds for the escrow, `n * tao = e * (tao - e)`, but for two rao of `n`, and the
///   liability is the same part of the alpha reserve as the escrow is of the pool.
pub open spec fn priced_right(
    params: Params,
    subnet: Subnet,
    b_sigma: u64,
    input: u64,
    n: int,
    e: int,
    b: int,
    q: int,
) -> bool {
    let one = ONE_BITS as int;
    let ltv = params.base_ltv.bits as int;
    let (tao, alpha) = (subnet.tao as int, subnet.alpha_in as int);
    &&& n > 0
    &&& exists|reserve: int, x: int| #[trigger]
        lent(params, subnet, b_sigma, input, reserve, x) && {
            let pressed = ltv * (input * one + x);
            &&& n * one <= x < (n + 1) * one
            &&& b * (one * one) <= pressed < (b + 1) * (one * one)
            &&& params.kappa.bits * reserve < i128::MAX * one ==> b_sigma * (one * one) + pressed
                < params.kappa.bits * reserve + one
            &&& draws(x, tao, alpha, e, q)
        }
    &&& n * tao <= e * (tao - e) + 2 * tao
    &&& e * (tao - e) <= (n + 2) * tao
    &&& q * tao <= (e + 1) * alpha
    &&& e * alpha <= (q + 1) * tao
    &&& 2 * e <= tao
}

/// The fraction of a pool that takes the proceeds gives the escrow and the liability.
pub proof fn lemma_escrow_and_liability(phi: Fixed, n: Fixed, tao: u64, alpha: u64)
    requires
        fits(tao),
        fits(alpha),
        n.bits >= 0,
        0 <= phi.bits <= HALF_BITS,
        takes_proceeds(phi, n, Fixed::whole(tao as int)),
    ensures
        ({
            let m = n.floor_amount() as int;
            let e = phi.times(Fixed::whole(tao as int)).floor_amount() as int;
            let q = phi.times(Fixed::whole(alpha as int)).floor_amount() as int;
            &&& m * tao <= e * (tao - e) + 2 * tao
            &&& e * (tao - e) <= (m + 2) * tao
            &&& q * tao <= (e + 1) * alpha
            &&& e * alpha <= (q + 1) * tao
            &&& 2 * e <= tao
            &&& draws(n.bits as int, tao as int, alpha as int, e, q)
        }),
{
    let one = ONE_BITS as int;
    let (p, t, al, m) = (phi.bits as int, tao as int, alpha as int, n.floor_amount() as int);
    let nb = n.bits as int;
    lemma_whole(tao);
    vstd::arithmetic::div_mod::lemma_fundamental_div_mod(nb, one);
    vstd::arithmetic::div_mod::lemma_div_pos_is_pos(nb, one);
    lemma_part(phi, tao);
    lemma_part(phi, alpha);
    crate::math::lemma_share_of_amount(phi, tao);
    let e = phi.times(Fixed::whole(t)).floor_amount() as int;
    let q = phi.times(Fixed::whole(al)).floor_amount() as int;
    let (pt, pa) = (p * t, p * al);
    assert(one * e <= pt < one * e + one);
    assert(one * q <= pa < one * q + one);
    // The liability beside the escrow.
    assert(q * t <= (e + 1) * al && e * al <= (q + 1) * t) by (nonlinear_arith)
        requires
            one * e <= pt < one * e + one,
            one * q <= pa < one * q + one,
            pt == p * t,
            pa == p * al,
            t >= 0,
            al >= 0,
            one > 0,
    {
        assert((one * q) * t <= pa * t);
        assert(pa * t == pt * al);
        assert(pt * al <= (one * e + one) * al);
        assert(one * (q * t) <= one * ((e + 1) * al));
        assert((one * e) * al <= pt * al);
        assert(pa * t <= (one * q + one) * t);
        assert(one * (e * al) <= one * ((q + 1) * t));
    }
    // The residual, without the two factors of one.
    let keep = one - p;
    let w = pt * keep;
    assert(-(2 * (t * one)) <= w - nb * one && w - nb * one <= 2 * (t * one)) by (nonlinear_arith)
        requires
            -(2 * ((t * one) * one)) <= p * keep * (t * one) - nb * (one * one),
            p * keep * (t * one) - nb * (one * one) <= 2 * ((t * one) * one),
            w == pt * keep,
            pt == p * t,
            one > 0,
    {
        assert(p * keep * (t * one) == one * w);
        assert(nb * (one * one) == one * (nb * one));
        assert(one * (w - nb * one) <= one * (2 * (t * one)));
        assert(one * (-(2 * (t * one))) <= one * (w - nb * one));
    }
    assert(drawn(nb, t, p)) by {
        assert(p * keep * t == w) by (nonlinear_arith)
            requires
                w == pt * keep,
                pt == p * t,
        ;
    }
    // Times the pool: `pt * (t * one - pt)`.
    let to = t * one;
    let y = pt * (to - pt);
    assert(w * t == y) by (nonlinear_arith)
        requires
            w == pt * keep,
            keep == one - p,
            pt == p * t,
            to == t * one,
            y == pt * (to - pt),
    {
        assert(keep * t == to - pt);
        assert((pt * keep) * t == pt * (keep * t));
    }
    let z = one * e;
    let x = z * (to - z);
    assert(2 * pt <= to) by (nonlinear_arith)
        requires
            pt == p * t,
            to == t * one,
            2 * p <= one,
            t >= 0,
    ;
    assert(pt >= 0 && z >= 0) by (nonlinear_arith)
        requires
            pt == p * t,
            p >= 0,
            t >= 0,
            z == one * e,
            e >= 0,
            one > 0,
    ;
    // The escrow rounded down: less by up to a rao, which the pool pays for with less than all it is.
    assert(x <= y && y <= x + one * to) by (nonlinear_arith)
        requires
            x == z * (to - z),
            y == pt * (to - pt),
            0 <= z <= pt,
            pt < z + one,
            2 * pt <= to,
            one > 0,
    {
        let d = pt - z;
        assert(y - x == d * (to - pt - z)) by {
            assert(pt * (to - pt) - z * (to - z) == (pt - z) * to - (pt * pt - z * z));
            assert(pt * pt - z * z == (pt - z) * (pt + z));
        }
        assert(to - pt - z >= 0);
        assert(d * (to - pt - z) >= 0);
        assert(to - pt - z <= to);
        assert(d * (to - pt - z) <= one * (to - pt - z));
        assert(one * (to - pt - z) <= one * to);
    }
    let et = e * (t - e);
    assert(x == (one * one) * et) by (nonlinear_arith)
        requires
            x == z * (to - z),
            z == one * e,
            to == t * one,
            et == e * (t - e),
    ;
    let nt = nb * t;
    assert(y - nt * one <= 2 * (t * to) && -(2 * (t * to)) <= y - nt * one) by (nonlinear_arith)
        requires
            w * t == y,
            -(2 * to) <= w - nb * one,
            w - nb * one <= 2 * to,
            nt == nb * t,
            t >= 0,
    {
        assert((w - nb * one) * t == y - nt * one);
        assert((w - nb * one) * t <= (2 * to) * t);
        assert((-(2 * to)) * t <= (w - nb * one) * t);
    }
    assert(2 * (t * to) <= one * to) by (nonlinear_arith)
        requires
            2 * t <= one,
            to >= 0,
    ;
    assert(to >= 0);
    assert(m * t <= et + 2 * t) by (nonlinear_arith)
        requires
            one * m <= nb,
            nt == nb * t,
            nt * one <= y + one * to,
            y <= x + one * to,
            x == (one * one) * et,
            to == t * one,
            t >= 0,
            one > 0,
    {
        assert((one * m) * t <= nt);
        assert(one * ((one * m) * t) <= one * nt);
        assert(nt * one <= (one * one) * et + 2 * (one * (t * one)));
        assert((one * one) * (m * t) <= (one * one) * (et + 2 * t));
    }
    assert(et <= (m + 2) * t) by (nonlinear_arith)
        requires
            nb < one * m + one,
            nt == nb * t,
            y <= nt * one + one * to,
            x <= y,
            x == (one * one) * et,
            to == t * one,
            t >= 0,
            one > 0,
    {
        assert(nt <= (one * m + one) * t);
        assert(one * nt <= one * ((one * m + one) * t));
        assert((one * one) * et <= (one * one) * ((m + 2) * t));
    }
}

/// A fraction of an amount.
proof fn lemma_part(phi: Fixed, amount: u64)
    requires
        fits(amount),
        0 <= phi.bits <= HALF_BITS,
    ensures
        phi.times(Fixed::whole(amount as int)).floor_amount() == (phi.bits * amount) / (
        ONE_BITS as int),
        ({
            let m = phi.times(Fixed::whole(amount as int)).floor_amount();
            ONE_BITS * m <= phi.bits * amount < ONE_BITS * m + ONE_BITS
        }),
{
    let one = ONE_BITS as int;
    let (p, t) = (phi.bits as int, amount as int);
    lemma_whole(amount);
    let pt = p * t;
    assert(p * (t * one) == one * pt) by (nonlinear_arith)
        requires
            pt == p * t,
    ;
    vstd::arithmetic::div_mod::lemma_div_multiples_vanish(pt, one);
    assert(0 <= pt && pt <= i128::MAX) by (nonlinear_arith)
        requires
            pt == p * t,
            0 <= p <= 0x8000_0000_0000_0000,
            0 <= t < 0x8000_0000_0000_0000,
    {
        assert(p * t <= 0x8000_0000_0000_0000 * t);
    }
    assert(phi.times(Fixed::whole(t)).bits == pt);
    vstd::arithmetic::div_mod::lemma_div_pos_is_pos(pt, one);
    vstd::arithmetic::div_mod::lemma_fundamental_div_mod(pt, one);
}

/// The footprint of a collateral.
proof fn lemma_footprint(ltv: Fixed, c: Fixed, input: u64, n: Fixed)
    requires
        0 <= ltv.bits <= ONE_BITS,
        n.bits >= 0,
        c.bits == input * ONE_BITS + n.bits,
    ensures
        ({
            let one = ONE_BITS as int;
            let m = n.floor_amount() as int;
            let b = ltv.times(c).floor_amount() as int;
            &&& b * (one * one) <= ltv.bits * c.bits < (b + 1) * (one * one)
            &&& ltv.bits * c.bits < (ltv.times(c).bits + 1) * one
            &&& m * one <= n.bits < (m + 1) * one
        }),
{
    let one = ONE_BITS as int;
    let (l, ci, nb) = (ltv.bits as int, c.bits as int, n.bits as int);
    let m = n.floor_amount() as int;
    vstd::arithmetic::div_mod::lemma_fundamental_div_mod(nb, one);
    vstd::arithmetic::div_mod::lemma_div_pos_is_pos(nb, one);
    lemma_times(ltv, c);
    let lc = l * ci;
    assert(0 <= lc && lc <= one * ci) by (nonlinear_arith)
        requires
            lc == l * ci,
            0 <= l <= one,
            ci >= 0,
    ;
    vstd::arithmetic::div_mod::lemma_fundamental_div_mod(lc, one);
    vstd::arithmetic::div_mod::lemma_div_pos_is_pos(lc, one);
    let f = lc / one;
    assert(f <= ci) by (nonlinear_arith)
        requires
            one * f <= lc,
            lc <= one * ci,
            one > 0,
    ;
    assert(ltv.times(c).bits == f);
    let b = ltv.times(c).floor_amount() as int;
    vstd::arithmetic::div_mod::lemma_fundamental_div_mod(f, one);
    vstd::arithmetic::div_mod::lemma_div_pos_is_pos(f, one);
    assert(b == f / one);
    assert(b * (one * one) <= lc && lc < (b + 1) * (one * one)) by (nonlinear_arith)
        requires
            one * b <= f,
            f < one * b + one,
            one * f <= lc,
            lc < one * f + one,
            one > 0,
    {
        assert(one * (one * b) <= one * f);
        assert(one * (f + 1) <= one * (one * b + one));
    }
}

/// The terms of a short are right, from what its two equations say.
pub proof fn lemma_priced_right(
    params: Params,
    subnet: Subnet,
    b_sigma: u64,
    input: u64,
    c: Fixed,
    n: Fixed,
    phi: Fixed,
)
    requires
        params.valid(),
        subnet.bounded(),
        fits(b_sigma),
        fits(input),
        n.bits > 0,
        c.bits == input * ONE_BITS + n.bits,
        lent(
            params,
            subnet,
            b_sigma,
            input,
            reference_reserve(subnet).bits as int,
            n.bits as int,
        ),
        Fixed::whole(b_sigma as int).plus(params.base_ltv.times(c)).bits <= params.kappa.times(
            reference_reserve(subnet),
        ).bits,
        0 <= phi.bits <= HALF_BITS,
        takes_proceeds(phi, n, Fixed::whole(subnet.tao as int)),
        n.floor_amount() > 0,
    ensures
        priced_right(
            params,
            subnet,
            b_sigma,
            input,
            n.floor_amount() as int,
            phi.times(Fixed::whole(subnet.tao as int)).floor_amount() as int,
            params.base_ltv.times(c).floor_amount() as int,
            phi.times(Fixed::whole(subnet.alpha_in as int)).floor_amount() as int,
        ),
{
    let one = ONE_BITS as int;
    lemma_escrow_and_liability(phi, n, subnet.tao, subnet.alpha_in);
    lemma_footprint(params.base_ltv, c, input, n);
    lemma_whole(b_sigma);
    let reserve = reference_reserve(subnet).bits as int;
    let kr = params.kappa.bits * reserve;
    vstd::arithmetic::div_mod::lemma_fundamental_div_mod(kr, one);
    let b = params.base_ltv.times(c).floor_amount() as int;
    if kr < i128::MAX * one {
        let k = kr / one;
        assert(kr >= 0) by (nonlinear_arith)
            requires
                kr == params.kappa.bits * reserve,
                params.kappa.bits >= 0,
                reserve >= 0,
        ;
        vstd::arithmetic::div_mod::lemma_div_pos_is_pos(kr, one);
        assert(k < i128::MAX) by (nonlinear_arith)
            requires
                one * k <= kr,
                kr < i128::MAX * one,
                one > 0,
        ;
        assert(params.kappa.times(reference_reserve(subnet)).bits == k);
        let f = params.base_ltv.times(c).bits as int;
        lemma_times(params.base_ltv, c);
        assert(b_sigma * one + f <= k);
        let g = b_sigma as int;
        let pressed = params.base_ltv.bits * c.bits;
        assert(g * (one * one) + pressed < kr + one) by (nonlinear_arith)
            requires
                g * one + f <= k,
                pressed < (f + 1) * one,
                one * k <= kr,
                one > 0,
        {
            assert(one * (g * one + f) <= one * k);
        }
    }
    assert(lent(params, subnet, b_sigma, input, reserve, n.bits as int));
}

/// A short is refused for its price only where it has to be: nothing is lent only where there is no
/// room for it, and where there is none nothing is; the cap is exceeded, the pool is asked for more
/// than a quarter of it, or less than a rao is lent.
pub open spec fn refused_right(
    params: Params,
    subnet: Subnet,
    b_sigma: u64,
    input: u64,
    error: Error,
) -> bool {
    let one = ONE_BITS as int;
    let ltv = params.base_ltv.bits as int;
    let p = input * one;
    match error {
        Error::EffectiveLtvNonPositive => forall|reserve: int| #[trigger]
            is_reference(subnet, reserve) && lends_exactly(reserve, input, b_sigma) && input > 0 && 2
                * p * one <= (one - ltv) * i128::MAX ==> !room_to_lend(
                p,
                reserve,
                b_sigma * one,
                ltv,
            ),
        Error::ShortCapacityExceeded => exists|reserve: int, x: int| #[trigger]
            lent(params, subnet, b_sigma, input, reserve, x) && b_sigma * (one * one) + ltv * (p + x)
                > params.kappa.bits * reserve,
        Error::ReserveDomainExceeded => exists|reserve: int, x: int| #[trigger]
            lent(params, subnet, b_sigma, input, reserve, x) && 4 * x > subnet.tao * one,
        Error::RetainedProceedsNonPositive => exists|reserve: int, x: int| #[trigger]
            lent(params, subnet, b_sigma, input, reserve, x) && x < one,
        _ => false,
    }
}

/// What is lent is within the room for it.
pub open spec fn room_for_what_is_lent(
    params: Params,
    subnet: Subnet,
    b_sigma: u64,
    input: u64,
) -> bool {
    forall|reserve: int| #[trigger]
        is_reference(subnet, reserve) && lends_exactly(reserve, input, b_sigma) && input > 0
            ==> !no_room_to_lend(
            input * ONE_BITS,
            reserve,
            b_sigma * ONE_BITS,
            params.base_ltv.bits as int,
        )
}

/// The cap is exceeded in numbers where it is exceeded.
pub proof fn lemma_capacity_exceeded(
    params: Params,
    subnet: Subnet,
    b_sigma: u64,
    input: u64,
    c: Fixed,
    n: Fixed,
)
    requires
        params.valid(),
        subnet.bounded(),
        fits(b_sigma),
        c.bits == input * ONE_BITS + n.bits,
        lent(
            params,
            subnet,
            b_sigma,
            input,
            reference_reserve(subnet).bits as int,
            n.bits as int,
        ),
        Fixed::whole(b_sigma as int).plus(params.base_ltv.times(c)).bits > params.kappa.times(
            reference_reserve(subnet),
        ).bits,
    ensures
        refused_right(params, subnet, b_sigma, input, Error::ShortCapacityExceeded),
{
    let one = ONE_BITS as int;
    lemma_whole(b_sigma);
    let reserve = reference_reserve(subnet).bits as int;
    let kr = params.kappa.bits * reserve;
    vstd::arithmetic::div_mod::lemma_fundamental_div_mod(kr, one);
    let (l, ci) = (params.base_ltv.bits as int, c.bits as int);
    let lc = l * ci;
    vstd::arithmetic::div_mod::lemma_fundamental_div_mod(lc, one);
    lemma_times(params.base_ltv, c);
    let f = params.base_ltv.times(c).bits as int;
    assert(0 <= lc && lc <= one * ci) by (nonlinear_arith)
        requires
            lc == l * ci,
            0 <= l <= one,
            ci >= 0,
    ;
    vstd::arithmetic::div_mod::lemma_div_pos_is_pos(lc, one);
    let fl = lc / one;
    assert(fl <= ci) by (nonlinear_arith)
        requires
            one * fl <= lc,
            lc <= one * ci,
            one > 0,
    ;
    assert(f == fl);
    let k = kr / one;
    let g = b_sigma as int;
    assert(g * one + f > k);
    assert(g * (one * one) + lc > kr) by (nonlinear_arith)
        requires
            g * one + f >= k + 1,
            one * f <= lc,
            kr < one * k + one,
            one > 0,
    {
        assert(one * (g * one + f) >= one * (k + 1));
    }
    assert(lent(params, subnet, b_sigma, input, reserve, n.bits as int));
}

} // verus!
