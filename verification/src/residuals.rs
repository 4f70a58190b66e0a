//! How well the solutions of the two quadratic equations solve them.
use crate::fixed::{fits, lemma_over, lemma_times, lemma_whole, near_root, Fixed, ONE_BITS};
use crate::math::{
    collateral_for_root, discriminant, fraction_for_root, linear_term, pool_fraction,
    quadratic_term, within_a_quarter, HALF_BITS,
};
use vstd::prelude::*;

verus! {

/// The fraction `phi` takes the proceeds out of the pool: `phi * (1 - phi) * t` is `n`, but for two
/// units in the last place of the fraction.
pub open spec fn takes_proceeds(phi: Fixed, n: Fixed, t: Fixed) -> bool {
    let one = ONE_BITS as int;
    -(2 * (t.bits * one)) <= phi.bits * (one - phi.bits) * t.bits - n.bits * (one * one) <= 2 * (
    t.bits * one)
}

/// The escrow `e` is the proceeds `n` over what the fraction `phi` leaves, `n / (1 - phi)`, but for
/// the rounding to whole rao. As a fraction is at most a half, an escrow is no more than twice the
/// proceeds and three rao; and the proceeds are no more than the escrow and one rao.
pub open spec fn escrow_matches(n: u64, e: u64, phi: Fixed) -> bool {
    &&& e * (ONE_BITS - phi.bits) < (n + 2) * ONE_BITS
    &&& n * ONE_BITS < (e + 1) * (ONE_BITS - phi.bits) + ONE_BITS
    &&& e <= 2 * n + 3
    &&& n <= e + 1
}

/// A fraction that takes the proceeds gives an escrow that matches them.
pub proof fn lemma_escrow_matches(phi: Fixed, n: Fixed, tao: u64)
    requires
        fits(tao),
        n.bits >= 0,
        0 <= phi.bits <= HALF_BITS,
        takes_proceeds(phi, n, Fixed::whole(tao as int)),
    ensures
        escrow_matches(n.floor_amount(), phi.times(Fixed::whole(tao as int)).floor_amount(), phi),
{
    let one = ONE_BITS as int;
    let (p, t, m) = (phi.bits as int, tao as int, n.floor_amount() as int);
    let keep = one - p;
    lemma_whole(tao);
    vstd::arithmetic::div_mod::lemma_fundamental_div_mod(n.bits as int, one);
    vstd::arithmetic::div_mod::lemma_div_pos_is_pos(n.bits as int, one);
    let e = phi.times(Fixed::whole(tao as int)).floor_amount() as int;
    let pt = p * t;
    assert(p * (t * one) == one * pt) by (nonlinear_arith)
        requires
            pt == p * t,
    ;
    vstd::arithmetic::div_mod::lemma_div_multiples_vanish(pt, one);
    assert(0 <= pt && pt <= i128::MAX) by (nonlinear_arith)
        requires
            pt == p * t,
            0 <= p <= 0x8000_0000_0000_0000,
            0 <= t < 0x8000_0000_0000_0000,
    {
        assert(p * t <= 0x8000_0000_0000_0000 * t);
    }
    assert(phi.times(Fixed::whole(tao as int)).bits == pt);
    vstd::arithmetic::div_mod::lemma_div_pos_is_pos(pt, one);
    assert(e == pt / one);
    vstd::arithmetic::div_mod::lemma_fundamental_div_mod(pt, one);
    let nb = n.bits as int;
    // What the residual says, without the two factors of one.
    let w = pt * keep;
    assert(-(2 * (t * one)) <= w - nb * one && w - nb * one <= 2 * (t * one)) by (nonlinear_arith)
        requires
            -(2 * ((t * one) * one)) <= p * keep * (t * one) - nb * (one * one),
            p * keep * (t * one) - nb * (one * one) <= 2 * ((t * one) * one),
            w == pt * keep,
            pt == p * t,
            one > 0,
    {
        assert(p * keep * (t * one) == one * w);
        assert(nb * (one * one) == one * (nb * one));
        assert(one * (w - nb * one) <= one * (2 * (t * one)));
        assert(one * (-(2 * (t * one))) <= one * (w - nb * one));
    }
    assert(2 * t < one);
    assert(e * keep < (m + 2) * one) by (nonlinear_arith)
        requires
            one * e <= pt,
            w == pt * keep,
            w - nb * one <= 2 * (t * one),
            nb < one * m + one,
            2 * t < one,
            keep > 0,
            one > 0,
    {
        assert((one * e) * keep <= pt * keep);
        assert(one * (e * keep) <= one * (nb + 2 * t));
        assert(e * keep <= nb + 2 * t);
    }
    assert(m * one < (e + 1) * keep + one) by (nonlinear_arith)
        requires
            pt < one * e + one,
            w == pt * keep,
            -(2 * (t * one)) <= w - nb * one,
            one * m <= nb,
            2 * t < one,
            keep > 0,
            one > 0,
    {
        assert(pt * keep <= (one * e + one) * keep);
        assert((one * e + one) * keep == one * ((e + 1) * keep));
        assert(one * nb <= one * ((e + 1) * keep + 2 * t));
        assert(nb <= (e + 1) * keep + 2 * t);
    }
    assert(e <= 2 * m + 3) by (nonlinear_arith)
        requires
            e * keep < (m + 2) * one,
            2 * keep >= one,
            e >= 0,
            one > 0,
    {
        assert(e * (2 * keep) >= e * one);
        assert(e * one < (2 * m + 4) * one);
    }
    assert(m <= e + 1) by (nonlinear_arith)
        requires
            m * one < (e + 1) * keep + one,
            keep <= one,
            e >= 0,
            one > 0,
    {
        assert((e + 1) * keep <= (e + 1) * one);
        assert(m * one < (e + 2) * one);
    }
}

/// Proceeds of up to a quarter of the pool are within it.
pub proof fn lemma_quarter(n: Fixed, t: Fixed)
    requires
        0 <= 4 * n.bits <= t.bits,
        t.bits > 0,
    ensures
        within_a_quarter(n, t),
{
    let one = ONE_BITS as int;
    let m = 4 * n.bits;
    let d = t.bits as int;
    assert(m * one <= d * one) by (nonlinear_arith)
        requires
            m <= d,
            one > 0,
    ;
    vstd::arithmetic::div_mod::lemma_div_is_ordered(m * one, d * one, d);
    vstd::arithmetic::div_mod::lemma_div_multiples_vanish(one, d);
}

/// What a root is off by, squared.
pub proof fn lemma_near_square(x: i128, root: i128)
    requires
        x >= 0,
        near_root(x, root),
    ensures
        -(4 * root + 4) <= root * root - x * ONE_BITS <= 4 * root + 4,
{
    let s = root as int;
    let square = x * ONE_BITS;
    assert((s + 2) * (s + 2) == s * s + 4 * s + 4) by (nonlinear_arith);
    assert((s - 2) * (s - 2) == s * s - 4 * s + 4) by (nonlinear_arith);
    if s < 2 {
        assert(s * s <= 1) by (nonlinear_arith)
            requires
                0 <= s < 2,
        ;
    }
}

/// The fraction for a root that is at most a unit above one.
proof fn lemma_fraction_for_root(root: Fixed)
    requires
        0 <= root.bits <= ONE_BITS + 1,
    ensures
        ({
            let d = ONE_BITS - 2 * fraction_for_root(root).bits - root.bits;
            &&& 0 <= fraction_for_root(root).bits <= HALF_BITS
            &&& -1 <= d <= 1
        }),
{
    let one = ONE_BITS as int;
    let x = Fixed::whole(1).minus(root);
    let two = Fixed::whole(2);
    assert(two.bits == 2 * one && x.bits == one - root.bits);
    if x.bits >= 0 {
        lemma_over(x, two);
        vstd::arithmetic::div_mod::lemma_div_denominator(x.bits * one, one, 2);
        vstd::arithmetic::div_mod::lemma_div_by_multiple(x.bits as int, one);
        assert((x.bits * one) / (one * 2) == (x.bits as int) / 2);
    } else {
        assert(x.bits * one == -one);
        assert(one / (2 * one) == 0);
    }
}

/// What four times the proceeds are of the pool: not negative for proceeds that are not, at most
/// zero for others, and only proceeds beyond a quarter do not fit.
pub proof fn lemma_quarters(n: Fixed, t: Fixed)
    requires
        t.bits > 0,
        4 * n.bits <= i128::MAX,
    ensures
        n.bits >= 0 ==> ({
            let q = (4 * n.bits * ONE_BITS) / (t.bits as int);
            match Fixed::whole(4).times(n).quotient(t) {
                Some(frac) => frac.bits == q && q >= 0,
                None => q > i128::MAX,
            }
        }),
        n.bits <= 0 ==> Fixed::whole(4).times(n).over(t).bits <= 0 && within_a_quarter(n, t),
{
    let one = ONE_BITS as int;
    let four = Fixed::whole(4);
    let d = t.bits as int;
    let m = 4 * n.bits;
    assert(four.bits * n.bits == one * m) by (nonlinear_arith)
        requires
            four.bits == 4 * one,
            m == 4 * n.bits,
    ;
    vstd::arithmetic::div_mod::lemma_div_multiples_vanish(m, one);
    if n.bits >= 0 {
        assert(four.times(n).bits == m);
        lemma_over(four.times(n), t);
        vstd::arithmetic::div_mod::lemma_div_pos_is_pos(m * one, d);
    }
    if n.bits <= 0 {
        let x = four.times(n).bits as int;
        assert(x <= 0 && x * one <= 0);
        if x < 0 {
            vstd::arithmetic::div_mod::lemma_div_pos_is_pos(-(x * one), d);
        } else {
            lemma_over(four.times(n), t);
            assert(0int / d == 0) by (nonlinear_arith)
                requires
                    d > 0,
            ;
        }
        assert((m * one) / d <= 0) by (nonlinear_arith)
            requires
                m * one <= 0,
                d > 0,
        ;
    }
}

/// There is a fraction for proceeds within a quarter of the pool, and for no others.
pub proof fn law_fraction_up_to_a_quarter(n: Fixed, t: Fixed)
    requires
        n.bits >= 0,
        t.bits > 0,
    ensures
        pool_fraction(n, t) is Some <==> within_a_quarter(n, t),
        4 * n.bits <= t.bits ==> pool_fraction(n, t) is Some,
{
    if within_a_quarter(n, t) {
        lemma_quarters(n, t);
    }
    if 4 * n.bits <= t.bits {
        lemma_quarter(n, t);
    }
}

/// A fraction from a root that is near enough takes the proceeds, and is at most a half.
pub proof fn lemma_fraction(n: Fixed, t: Fixed)
    requires
        n.bits >= 0,
        t.bits > 0,
        Fixed::whole(1).minus(Fixed::whole(4).times(n).over(t)).root() matches Some(root)
            ==> near_root(
            Fixed::whole(1).minus(Fixed::whole(4).times(n).over(t)).bits,
            root.bits,
        ),
    ensures
        pool_fraction(n, t) matches Some(phi) ==> 0 <= phi.bits <= HALF_BITS && takes_proceeds(
            phi,
            n,
            t,
        ),
{
    let one = ONE_BITS as int;
    let frac = Fixed::whole(4).times(n).over(t);
    let num = 4 * n.bits * one;
    vstd::arithmetic::div_mod::lemma_fundamental_div_mod(num, t.bits as int);
    let x = Fixed::whole(1).minus(frac);
    if within_a_quarter(n, t) {
        lemma_quarters(n, t);
        assert(x.bits == one - frac.bits);
        let root = x.root()->0;
        let s = root.bits as int;
        assert(near_root(x.bits, root.bits));
        assert(s <= one + 1) by (nonlinear_arith)
            requires
                s >= 2 ==> (s - 2) * (s - 2) < x.bits * one,
                0 <= x.bits <= one,
                s >= 0,
                one > 1,
        {
            assert(x.bits * one <= one * one);
            if s >= one + 2 {
                assert((s - 2) * (s - 2) >= one * one);
            }
        }
        lemma_fraction_for_root(root);
        lemma_near_square(x.bits, root.bits);
        let phi = fraction_for_root(root);
        lemma_proceeds(
            phi.bits as int,
            s,
            x.bits as int,
            frac.bits as int,
            n.bits as int,
            t.bits as int,
            one,
        );
    }
}

/// The residual of the fraction, from those of the root, of its half and of the quotient.
proof fn lemma_proceeds(phi: int, s: int, x: int, f: int, n: int, t: int, one: int)
    requires
        one > 100,
        t > 0,
        0 <= s <= one + 1,
        x == one - f,
        -1 <= one - 2 * phi - s <= 1,
        -(4 * s + 4) <= s * s - x * one <= 4 * s + 4,
        t * f <= 4 * n * one < t * f + t,
    ensures
        -(2 * (t * one)) <= phi * (one - phi) * t - n * (one * one) <= 2 * (t * one),
{
    let d = one - 2 * phi - s;
    let full = s + d;
    // 4 * phi * (1 - phi) = 1 - (1 - 2 * phi)^2
    assert(4 * (phi * (one - phi)) == one * one - full * full) by (nonlinear_arith)
        requires
            full == one - 2 * phi,
    ;
    assert(full * full == s * s + 2 * (d * s) + d * d) by (nonlinear_arith)
        requires
            full == s + d,
    ;
    assert(-s <= d * s <= s && 0 <= d * d <= 1) by (nonlinear_arith)
        requires
            -1 <= d <= 1,
            s >= 0,
    ;
    assert(one * one == f * one + x * one) by (nonlinear_arith)
        requires
            x == one - f,
    ;
    let m = 4 * (phi * (one - phi)) - f * one;
    assert(-(7 * one) <= m <= 7 * one);
    assert(-(7 * one) * t <= m * t <= (7 * one) * t) by (nonlinear_arith)
        requires
            -(7 * one) <= m <= 7 * one,
            t > 0,
    ;
    assert((f * one) * t == (t * f) * one) by (nonlinear_arith);
    assert((t * f) * one <= (4 * n * one) * one && (4 * n * one) * one <= (t * f) * one + t
        * one) by (nonlinear_arith)
        requires
            t * f <= 4 * n * one < t * f + t,
            one > 0,
    ;
    assert((4 * n * one) * one == 4 * (n * (one * one))) by (nonlinear_arith);
    assert(m * t == 4 * (phi * (one - phi) * t) - (f * one) * t) by (nonlinear_arith)
        requires
            m == 4 * (phi * (one - phi)) - f * one,
    ;
    assert((7 * one) * t == 7 * (t * one) && -(7 * one) * t == -(7 * (t * one)))
        by (nonlinear_arith);
    assert(-(8 * (t * one)) <= 4 * (phi * (one - phi) * t) - 4 * (n * (one * one)) <= 8 * (t
        * one));
}

/// Nothing saturates on the way to the collateral.
pub open spec fn collateral_computable(p: Fixed, reserve: Fixed, s: Fixed, ltv: Fixed) -> bool {
    &&& 2 * p.bits <= i128::MAX
    &&& 4 * quadratic_term(reserve, ltv).bits <= i128::MAX
    &&& discriminant(p, reserve, s, ltv).bits < i128::MAX
}

/// What `a * c^2 + b * c` exceeds `p` by, in bits of the third power.
pub open spec fn collateral_residual(c: Fixed, p: Fixed, a: Fixed, b: Fixed) -> int {
    let one = ONE_BITS as int;
    a.bits * (c.bits * c.bits) + (b.bits * c.bits) * one - p.bits * (one * one)
}

/// The collateral `c` solves `a * c^2 + b * c = p`: it is off by no more units in the last place
/// than `11 / 4` times `c^2 / p`, and two and `a`.
pub open spec fn solves_collateral(c: Fixed, p: Fixed, a: Fixed, b: Fixed) -> bool {
    let one = ONE_BITS as int;
    let f = collateral_residual(c, p, a, b);
    let bound = 11 * one * ((c.bits + 2) * (c.bits + 2)) + 4 * p.bits * (2 * (one * one) + a.bits);
    -bound <= 4 * p.bits * f <= bound
}

/// The collateral solves its equation, where nothing saturates.
pub proof fn lemma_collateral(p: Fixed, reserve: Fixed, s: Fixed, ltv: Fixed, root: Fixed)
    requires
        p.bits >= 0,
        s.bits >= 0,
        reserve.bits > 0,
        0 < ltv.bits <= ONE_BITS,
        collateral_computable(p, reserve, s, ltv),
        near_root(discriminant(p, reserve, s, ltv).bits, root.bits),
    ensures
        collateral_for_root(p, linear_term(reserve, s, ltv), root) matches Some((c, n))
            ==> solves_collateral(
            c,
            p,
            quadratic_term(reserve, ltv),
            linear_term(reserve, s, ltv),
        ),
{
    let one = ONE_BITS as int;
    let two = Fixed::whole(2);
    let four = Fixed::whole(4);
    let a = quadratic_term(reserve, ltv);
    let b = linear_term(reserve, s, ltv);
    let disc = discriminant(p, reserve, s, ltv);
    if let Some((c, n)) = collateral_for_root(p, b, root) {
        lemma_times(ltv, ltv);
        lemma_over(ltv.times(ltv), reserve);
        lemma_times(two, ltv);
        lemma_times(two.times(ltv), s);
        lemma_over(two.times(ltv).times(s), reserve);
        lemma_small_multiple(2, p);
        lemma_small_multiple(4, a);
        let (ai, bi, pi, si) = (a.bits as int, b.bits as int, p.bits as int, root.bits as int);
        // The discriminant without its two roundings.
        let bb = bi * bi;
        let ap = 4 * ai * pi;
        assert(0 <= bb && 0 <= ap) by (nonlinear_arith)
            requires
                bb == bi * bi,
                ap == 4 * ai * pi,
                ai >= 0,
                pi >= 0,
        ;
        assert(four.times(a).bits * p.bits == ap);
        vstd::arithmetic::div_mod::lemma_div_pos_is_pos(bb, one);
        vstd::arithmetic::div_mod::lemma_div_pos_is_pos(ap, one);
        vstd::arithmetic::div_mod::lemma_fundamental_div_mod(bb, one);
        vstd::arithmetic::div_mod::lemma_fundamental_div_mod(ap, one);
        assert(disc.bits == bb / one + ap / one);
        assert(0 <= bb + ap - disc.bits * one < 2 * one);
        lemma_near_square(disc.bits, root.bits);
        // The divisor fits, and is positive and less than two.
        let sum = b.plus(root);
        lemma_divisor_fits(bi, si, disc.bits as int, one);
        assert(sum.bits == bi + si);
        let r = bi + si;
        let twice = two.times(p);
        assert(twice.bits == 2 * pi);
        assert(r > 0);
        lemma_over(twice, sum);
        let num = 2 * pi * one;
        vstd::arithmetic::div_mod::lemma_fundamental_div_mod(num, r);
        let ci = c.bits as int;
        assert(ci == num / r);
        assert(ci > pi);
        assert(r < 2 * one) by (nonlinear_arith)
            requires
                r * ci <= 2 * pi * one,
                ci > pi,
                pi >= 0,
                r > 0,
                one > 0,
        {
            if r >= 2 * one {
                assert(r * ci >= (2 * one) * ci);
                assert((2 * one) * ci >= (2 * one) * (pi + 1));
                assert((2 * one) * (pi + 1) == 2 * pi * one + 2 * one);
            }
        }
        assert(r * ci == ci * r) by (nonlinear_arith);
        lemma_residual(ai, bi, pi, si, ci, one);
    }
}

/// A small whole number times a number, where that fits.
proof fn lemma_small_multiple(k: int, x: Fixed)
    requires
        0 <= k <= 4,
        x.bits >= 0,
        k * x.bits <= i128::MAX,
    ensures
        Fixed::whole(k).times(x).bits == k * x.bits,
{
    let one = ONE_BITS as int;
    assert(Fixed::whole(k).bits == k * one);
    assert((k * one) * x.bits == one * (k * x.bits) && k * x.bits >= 0) by (nonlinear_arith)
        requires
            k >= 0,
            x.bits >= 0,
    ;
    vstd::arithmetic::div_mod::lemma_div_multiples_vanish(k * x.bits, one);
}

proof fn lemma_divisor_fits(b: int, s: int, disc: int, one: int)
    requires
        one == ONE_BITS,
        b >= 0,
        s >= 0,
        0 <= disc < i128::MAX,
        b * b < (disc + 2) * one,
        s * s <= disc * one + 4 * s + 4,
    ensures
        b + s <= i128::MAX,
{
    let big = 0x1_0000_0000_0000_0000_0000_0000int;
    assert((disc + 2) * one <= big * big && disc * one <= big * big - 10 * big)
        by (nonlinear_arith)
        requires
            0 <= disc < 0x7fff_ffff_ffff_ffff_ffff_ffff_ffff_ffffint,
            one == 0x1_0000_0000_0000_0000int,
            big == 0x1_0000_0000_0000_0000_0000_0000int,
    ;
    assert(b <= big) by (nonlinear_arith)
        requires
            b * b < (disc + 2) * one,
            (disc + 2) * one <= big * big,
            b >= 0,
            big > 0,
    ;
    assert(s <= big) by (nonlinear_arith)
        requires
            s * s <= disc * one + 4 * s + 4,
            disc * one <= big * big - 10 * big,
            s >= 0,
            big > 100,
    {
        if s > big {
            assert((s - 4) * s >= (big - 3) * big);
        }
    }
}

/// The residual of the collateral, from those of the root and of the quotient.
proof fn lemma_residual(a: int, b: int, p: int, s: int, c: int, one: int)
    requires
        one > 1000,
        a >= 0,
        b >= 0,
        p > 0,
        s >= 0,
        c >= 0,
        0 < b + s < 2 * one,
        c * (b + s) <= 2 * p * one < c * (b + s) + (b + s),
        -(4 * s + 4) - 2 * one <= s * s - (b * b + 4 * a * p) <= 4 * s + 4 + 2 * one,
    ensures
        ({
            let f = a * (c * c) + (b * c) * one - p * (one * one);
            let bound = 11 * one * ((c + 2) * (c + 2)) + 4 * p * (2 * (one * one) + a);
            -bound <= 4 * p * f <= bound
        }),
{
    let r = b + s;
    let q = p * one;
    let m = c * r;
    let e = 2 * q - m;
    let h = b * b + 4 * a * p - s * s;
    let k = 11 * one;
    let f = a * (c * c) + (b * c) * one - p * (one * one);
    let g = 4 * (a * q) - a * e + (b * one) * r;
    assert(2 * p * one == 2 * q) by (nonlinear_arith)
        requires
            q == p * one,
    ;
    assert(0 <= e < r);
    assert(-k <= h <= k);
    lemma_residual_identity(a, b, p, s, c, one);
    assert(f * (r * r) == (q * one) * h - e * g);
    lemma_remainder_bound(a, b, p, s, c, one);
    let rr = r * r;
    assert(-(a * rr) <= e * g <= (r * one) * (r * s + k));
    let w = 11 * (q * (one * one)) + 2 * ((one * one) * rr) + 11 * ((one * one) * r) + a * rr;
    assert(-w <= f * rr <= w) by {
        assert(q >= 0 && rr >= 0 && a * rr >= 0) by (nonlinear_arith)
            requires
                q == p * one,
                p > 0,
                one > 0,
                rr == r * r,
                a >= 0,
        ;
        assert((q * one) * h <= (q * one) * k && -((q * one) * k) <= (q * one) * h)
            by (nonlinear_arith)
            requires
                -k <= h <= k,
                q >= 0,
                one > 0,
        ;
        assert((q * one) * k == 11 * (q * (one * one))) by (nonlinear_arith)
            requires
                k == 11 * one,
        ;
        assert((r * one) * (r * s + k) <= 2 * ((one * one) * rr) + 11 * ((one * one) * r))
            by (nonlinear_arith)
            requires
                k == 11 * one,
                0 <= s <= 2 * one,
                r > 0,
                one > 0,
                rr == r * r,
        {
            assert((r * one) * (r * s + k) == (one * s) * rr + 11 * ((one * one) * r));
            assert((one * s) * rr <= (one * (2 * one)) * rr);
        }
        assert(0 <= (one * one) * rr && 0 <= (one * one) * r) by (nonlinear_arith)
            requires
                rr >= 0,
                r > 0,
        ;
    }
    let bound = 11 * one * ((c + 2) * (c + 2)) + 4 * p * (2 * (one * one) + a);
    assert(4 * p * w <= bound * rr) by {
        assert((c + 1) * r == m + r) by (nonlinear_arith)
            requires
                m == c * r,
        ;
        lemma_bound_scales(a, p, q, r, c, one);
    }
    assert(-(bound * rr) <= (4 * p * f) * rr <= bound * rr) by (nonlinear_arith)
        requires
            -w <= f * rr <= w,
            4 * p * w <= bound * rr,
            p > 0,
    {
        assert((4 * p * f) * rr == 4 * p * (f * rr));
        assert(4 * p * (f * rr) <= 4 * p * w);
        assert(4 * p * (f * rr) >= 4 * p * (-w));
        assert(4 * p * (-w) == -(4 * p * w));
    }
    assert(rr > 0) by (nonlinear_arith)
        requires
            rr == r * r,
            r > 0,
    ;
    assert(-bound <= 4 * p * f <= bound) by (nonlinear_arith)
        requires
            -(bound * rr) <= (4 * p * f) * rr <= bound * rr,
            rr > 0,
    ;
}

proof fn lemma_residual_identity(a: int, b: int, p: int, s: int, c: int, one: int)
    ensures
        ({
            let r = b + s;
            let q = p * one;
            let e = 2 * q - c * r;
            let h = b * b + 4 * a * p - s * s;
            let f = a * (c * c) + (b * c) * one - p * (one * one);
            let g = 4 * (a * q) - a * e + (b * one) * r;
            f * (r * r) == (q * one) * h - e * g
        }),
{
    let r = b + s;
    let q = p * one;
    let m = c * r;
    let e = 2 * q - m;
    let h = b * b + 4 * a * p - s * s;
    let f = a * (c * c) + (b * c) * one - p * (one * one);
    let g = 4 * (a * q) - a * e + (b * one) * r;
    let rr = r * r;
    assert(f * rr == a * (m * m) + ((b * one) * r) * m - (q * one) * rr) by (nonlinear_arith)
        requires
            f == a * (c * c) + (b * c) * one - p * (one * one),
            m == c * r,
            rr == r * r,
            q == p * one,
    {
        assert(a * (m * m) == (a * (c * c)) * rr);
        assert(((b * one) * r) * m == ((b * c) * one) * rr);
        assert((q * one) * rr == (p * (one * one)) * rr);
    }
    assert(a * (m * m) == 4 * (a * (q * q)) - 4 * (a * q) * e + (a * e) * e) by (nonlinear_arith)
        requires
            e == 2 * q - m,
    {
        assert(m * m == 4 * (q * q) - 4 * q * e + e * e);
    }
    assert(((b * one) * r) * m == 2 * (q * ((b * one) * r)) - ((b * one) * r) * e)
        by (nonlinear_arith)
        requires
            e == 2 * q - m,
    ;
    assert(e * g == 4 * (a * q) * e - (a * e) * e + ((b * one) * r) * e) by (nonlinear_arith)
        requires
            g == 4 * (a * q) - a * e + (b * one) * r,
    ;
    assert((q * one) * h == 4 * (a * (q * q)) + 2 * (q * ((b * one) * r)) - (q * one) * rr)
        by (nonlinear_arith)
        requires
            h == b * b + 4 * a * p - s * s,
            q == p * one,
            r == b + s,
            rr == r * r,
    {
        assert(h == 4 * a * p + 2 * (b * r) - rr);
        assert((q * one) * (4 * a * p) == 4 * (a * (q * q)));
        assert((q * one) * (2 * (b * r)) == 2 * (q * ((b * one) * r)));
    }
}

proof fn lemma_remainder_bound(a: int, b: int, p: int, s: int, c: int, one: int)
    requires
        one > 0,
        a >= 0,
        b >= 0,
        p > 0,
        s >= 0,
        b + s > 0,
        0 <= 2 * (p * one) - c * (b + s) < b + s,
        b * b + 4 * a * p - s * s <= 11 * one,
    ensures
        ({
            let r = b + s;
            let q = p * one;
            let e = 2 * q - c * r;
            let g = 4 * (a * q) - a * e + (b * one) * r;
            -(a * (r * r)) <= e * g <= (r * one) * (r * s + 11 * one)
        }),
{
    let r = b + s;
    let q = p * one;
    let e = 2 * q - c * r;
    let g = 4 * (a * q) - a * e + (b * one) * r;
    let up = 4 * (a * q) + (b * one) * r;
    assert(up >= 0 && 0 <= (a * e) * e && (a * e) * e <= a * (r * r)) by (nonlinear_arith)
        requires
            up == 4 * (a * q) + (b * one) * r,
            q == p * one,
            a >= 0,
            b >= 0,
            p > 0,
            one > 0,
            0 <= e < r,
    {
        assert(a * q >= 0);
        assert((b * one) * r >= 0);
        assert(e * e <= r * r);
        assert((a * e) * e == a * (e * e));
    }
    assert(e * g == up * e - (a * e) * e) by (nonlinear_arith)
        requires
            g == 4 * (a * q) - a * e + (b * one) * r,
            up == 4 * (a * q) + (b * one) * r,
    ;
    assert(0 <= up * e <= up * r) by (nonlinear_arith)
        requires
            up >= 0,
            0 <= e < r,
    ;
    let h = b * b + 4 * a * p - s * s;
    assert(r * s + h == b * r + 4 * (a * p)) by (nonlinear_arith)
        requires
            r == b + s,
            h == b * b + 4 * a * p - s * s,
    ;
    assert(up == one * (b * r + 4 * (a * p))) by (nonlinear_arith)
        requires
            up == 4 * (a * q) + (b * one) * r,
            q == p * one,
    ;
    assert(up * r <= (r * one) * (r * s + 11 * one)) by (nonlinear_arith)
        requires
            up == one * (r * s + h),
            h <= 11 * one,
            r > 0,
            one > 0,
    ;
}

proof fn lemma_bound_scales(a: int, p: int, q: int, r: int, c: int, one: int)
    requires
        one > 0,
        a >= 0,
        p > 0,
        q == p * one,
        r > 0,
        c >= 0,
        2 * q < (c + 1) * r,
    ensures
        ({
            let rr = r * r;
            let w = 11 * (q * (one * one)) + 2 * ((one * one) * rr) + 11 * ((one * one) * r) + a
                * rr;
            let bound = 11 * one * ((c + 2) * (c + 2)) + 4 * p * (2 * (one * one) + a);
            4 * p * w <= bound * rr
        }),
{
    let rr = r * r;
    let d = c + 1;
    let w = 11 * (q * (one * one)) + 2 * ((one * one) * rr) + 11 * ((one * one) * r) + a * rr;
    let bound = 11 * one * ((c + 2) * (c + 2)) + 4 * p * (2 * (one * one) + a);
    // p * q * one^2 = q^2 * one, and 4 * q^2 < d^2 * r^2.
    assert(4 * p * (11 * (q * (one * one))) == (11 * one) * (4 * (q * q))) by (nonlinear_arith)
        requires
            q == p * one,
    ;
    assert(4 * (q * q) <= (d * d) * rr) by (nonlinear_arith)
        requires
            0 <= q,
            2 * q < d * r,
            rr == r * r,
    {
        assert((2 * q) * (2 * q) <= (d * r) * (d * r));
        assert((d * r) * (d * r) == (d * d) * rr);
    };
    assert(4 * p * (11 * ((one * one) * r)) == (11 * one) * (4 * (q * r))) by (nonlinear_arith)
        requires
            q == p * one,
    ;
    assert(4 * (q * r) <= 2 * (d * rr)) by (nonlinear_arith)
        requires
            2 * q < d * r,
            r > 0,
            rr == r * r,
    ;
    assert((11 * one) * (4 * (q * q)) + (11 * one) * (4 * (q * r)) <= (11 * one) * ((d * d) * rr + 2
        * (d * rr))) by (nonlinear_arith)
        requires
            4 * (q * q) <= (d * d) * rr,
            4 * (q * r) <= 2 * (d * rr),
            one > 0,
    ;
    assert((d * d) * rr + 2 * (d * rr) <= ((c + 2) * (c + 2)) * rr) by (nonlinear_arith)
        requires
            d == c + 1,
            rr >= 0,
    ;
    assert((11 * one) * ((d * d) * rr + 2 * (d * rr)) <= (11 * one) * (((c + 2) * (c + 2)) * rr))
        by (nonlinear_arith)
        requires
            (d * d) * rr + 2 * (d * rr) <= ((c + 2) * (c + 2)) * rr,
            one > 0,
    ;
    assert((11 * one) * (((c + 2) * (c + 2)) * rr) == (11 * one * ((c + 2) * (c + 2))) * rr)
        by (nonlinear_arith);
    assert(4 * p * (2 * ((one * one) * rr) + a * rr) == (4 * p * (2 * (one * one) + a)) * rr)
        by (nonlinear_arith);
    assert(4 * p * w == 4 * p * (11 * (q * (one * one))) + 4 * p * (11 * ((one * one) * r)) + 4 * p
        * (2 * ((one * one) * rr) + a * rr)) by (nonlinear_arith)
        requires
            w == 11 * (q * (one * one)) + 2 * ((one * one) * rr) + 11 * ((one * one) * r) + a * rr,
    ;
    assert(bound * rr == (11 * one * ((c + 2) * (c + 2))) * rr + (4 * p * (2 * (one * one) + a)) * rr)
        by (nonlinear_arith)
        requires
            bound == 11 * one * ((c + 2) * (c + 2)) + 4 * p * (2 * (one * one) + a),
    ;
}

} // verus!
