//! The series of the exponential, in whole bits.
use crate::fixed::{exp_fits, exp_sum, exp_term, ONE_BITS, EXP_ORDER};
use vstd::arithmetic::power::{lemma_pow0, lemma_pow1, lemma_pow_adds, lemma_pow_positive, pow};
use vstd::arithmetic::power2::{
    lemma2_to64, lemma2_to64_rest, lemma_pow2_adds, lemma_pow2_strictly_increases, pow2,
};
use vstd::prelude::*;

verus! {

/// What a term is of the one before it, but for less than one bit.
pub proof fn lemma_term(y: int, i: nat)
    requires
        y >= 0,
    ensures
        exp_term(y, i) >= 0,
        i > 0 ==> ({
            let before = exp_term(y, (i - 1) as nat);
            &&& before >= 0
            &&& i * (ONE_BITS * exp_term(y, i)) <= before * y
            &&& before * y <= i * (ONE_BITS * (exp_term(y, i) + 1))
        }),
    decreases i,
{
    if i > 0 {
        lemma_term(y, (i - 1) as nat);
        let one = ONE_BITS as int;
        let n = i as int;
        let before = exp_term(y, (i - 1) as nat);
        let m = before * y;
        assert(m >= 0) by (nonlinear_arith)
            requires
                m == before * y,
                before >= 0,
                y >= 0,
        ;
        let p = m / one;
        let t = p / n;
        vstd::arithmetic::div_mod::lemma_fundamental_div_mod(m, one);
        vstd::arithmetic::div_mod::lemma_fundamental_div_mod(p, n);
        vstd::arithmetic::div_mod::lemma_div_pos_is_pos(m, one);
        vstd::arithmetic::div_mod::lemma_div_pos_is_pos(p, n);
        assert(n * (one * t) <= m) by (nonlinear_arith)
            requires
                n * t <= p,
                one * p <= m,
                one > 0,
        {
            assert(one * (n * t) <= one * p);
            assert(one * (n * t) == n * (one * t));
        }
        assert(m <= n * (one * (t + 1))) by (nonlinear_arith)
            requires
                m < one * p + one,
                p < n * t + n,
                one > 0,
        {
            assert(one * (p + 1) <= one * (n * t + n));
            assert(one * (n * t + n) == n * (one * (t + 1)));
        }
    }
}

/// The sums grow, from one on.
pub proof fn lemma_sum(y: int, i: nat)
    requires
        y >= 0,
    ensures
        exp_sum(y, i) >= ONE_BITS,
        i > 0 ==> exp_sum(y, i) >= exp_sum(y, (i - 1) as nat),
        exp_sum(y, i) >= exp_term(y, i),
    decreases i,
{
    lemma_term(y, i);
    if i > 0 {
        lemma_sum(y, (i - 1) as nat);
    }
}

/// The inverse of a number of one or more lies between zero and one.
pub proof fn lemma_inverse(d: int)
    requires
        d >= ONE_BITS,
    ensures
        0 <= (ONE_BITS * ONE_BITS) / d <= ONE_BITS,
        ((ONE_BITS * ONE_BITS) / d) * d <= ONE_BITS * ONE_BITS,
        ONE_BITS * ONE_BITS < ((ONE_BITS * ONE_BITS) / d + 1) * d,
        d == ONE_BITS ==> (ONE_BITS * ONE_BITS) / d == ONE_BITS,
{
    let one = ONE_BITS as int;
    let n = one * one;
    let q = n / d;
    vstd::arithmetic::div_mod::lemma_fundamental_div_mod(n, d);
    vstd::arithmetic::div_mod::lemma_div_pos_is_pos(n, d);
    assert(q * d <= n && n < (q + 1) * d) by (nonlinear_arith)
        requires
            n == d * q + n % d,
            0 <= n % d < d,
    ;
    assert(q <= one) by (nonlinear_arith)
        requires
            q * d <= one * one,
            d >= one,
            one > 0,
            q >= 0,
    ;
    vstd::arithmetic::div_mod::lemma_div_multiples_vanish(one, one);
}

/// The sum is no less than its first two terms.
pub proof fn lemma_sum_is_one_and_more(y: int, i: nat)
    requires
        y >= 0,
        i > 0,
    ensures
        exp_sum(y, i) >= ONE_BITS + y,
    decreases i,
{
    let one = ONE_BITS as int;
    if i == 1 {
        assert(exp_term(y, 0) == one && exp_sum(y, 0) == one);
        vstd::arithmetic::div_mod::lemma_div_multiples_vanish(y, one);
        assert(exp_term(y, 1) == y);
    } else {
        lemma_sum_is_one_and_more(y, (i - 1) as nat);
        lemma_sum(y, i);
    }
}

/// For `y` below one everything fits, and the sum is no more than `1 / (1 - y)`.
pub proof fn lemma_series_of_less_than_one(y: int, i: nat)
    requires
        0 <= y < ONE_BITS,
        i <= EXP_ORDER,
    ensures
        exp_fits(y, i),
        exp_sum(y, i) <= (i + 1) * ONE_BITS,
        exp_term(y, i) <= ONE_BITS,
        exp_sum(y, i) * (ONE_BITS - y) + exp_term(y, i) * y <= ONE_BITS * ONE_BITS,
        exp_sum(y, i) * (ONE_BITS - y) <= ONE_BITS * ONE_BITS,
    decreases i,
{
    let one = ONE_BITS as int;
    lemma_term(y, i);
    let t = exp_term(y, i);
    let sum = exp_sum(y, i);
    if i == 0 {
        assert(one * (one - y) + one * y == one * one) by (nonlinear_arith);
    } else {
        let j = (i - 1) as nat;
        lemma_series_of_less_than_one(y, j);
        let before = exp_term(y, j);
        let less = exp_sum(y, j);
        let n = i as int;
        let m = before * y;
        assert(m <= one * one && t <= one && one * t <= m) by (nonlinear_arith)
            requires
                m == before * y,
                0 <= before <= one,
                0 <= y < one,
                n * (one * t) <= m,
                n >= 1,
                t >= 0,
                one > 0,
        {
            assert(before * y <= one * one);
            assert(one * t <= n * (one * t));
        }
        vstd::arithmetic::div_mod::lemma_div_is_ordered(m, one * one, one);
        vstd::arithmetic::div_mod::lemma_div_multiples_vanish(one, one);
        assert(sum * (one - y) + t * y == less * (one - y) + one * t) by (nonlinear_arith)
            requires
                sum == less + t,
        ;
    }
    assert(t * y >= 0) by (nonlinear_arith)
        requires
            t >= 0,
            y >= 0,
    ;
}

/// The series of `e^0` is one.
pub proof fn lemma_series_of_zero(i: nat)
    ensures
        exp_sum(0, i) == ONE_BITS,
        exp_fits(0, i),
        i > 0 ==> exp_term(0, i) == 0,
    decreases i,
{
    if i > 0 {
        lemma_series_of_zero((i - 1) as nat);
        assert(exp_term(0, (i - 1) as nat) * 0 == 0);
        assert(0int / (i as int) == 0) by (nonlinear_arith)
            requires
                i > 0,
        ;
    }
}

// ---- how the series grows ----

/// The term of order `i`, and nothing below the order zero.
pub open spec fn term_at(y: int, i: int) -> int {
    if i < 0 {
        0
    } else {
        exp_term(y, i as nat)
    }
}

/// The sum of the terms up to order `i`, and nothing below the order zero.
pub open spec fn sum_at(y: int, i: int) -> int {
    if i < 0 {
        0
    } else {
        exp_sum(y, i as nat)
    }
}

/// A term and its neighbour.
proof fn lemma_term_at(y: int, i: int)
    requires
        y >= 0,
    ensures
        term_at(y, i) >= 0,
        i * (ONE_BITS * term_at(y, i)) <= term_at(y, i - 1) * y,
        i >= 1 ==> term_at(y, i - 1) * y <= i * (ONE_BITS * (term_at(y, i) + 1)),
{
    let t = term_at(y, i);
    if i > 0 {
        lemma_term(y, i as nat);
        assert((i as nat - 1) as nat == (i - 1) as nat);
    } else {
        if i == 0 {
            lemma_term(y, 0);
        }
        assert(0 * y == 0);
        assert(i * (ONE_BITS * t) <= 0) by (nonlinear_arith)
            requires
                i <= 0,
                t >= 0,
        ;
    }
}

/// A sum and the next.
proof fn lemma_sum_step(z: int, i: nat)
    requires
        z >= 0,
        i > 0,
    ensures
        exp_sum(z, (i - 1) as nat) * z <= i * (ONE_BITS * (exp_sum(z, i) - ONE_BITS + i)),
    decreases i,
{
    let one = ONE_BITS as int;
    let j = (i - 1) as nat;
    let n = i as int;
    let less = exp_sum(z, j);
    let sum = exp_sum(z, i);
    let t = exp_term(z, i);
    lemma_term(z, i);
    lemma_sum(z, j);
    if i == 1 {
        assert(less == one && exp_term(z, 0) == one);
        assert(sum == one + t);
        assert(one * z <= n * (one * (t + 1)));
    } else {
        lemma_sum_step(z, j);
        let least = exp_sum(z, (j - 1) as nat);
        let before = exp_term(z, j);
        assert(less == least + before);
        let x = one * (less - one + (n - 1));
        assert(less * z == least * z + before * z) by (nonlinear_arith)
            requires
                less == least + before,
        ;
        assert((n - 1) * x <= n * x) by (nonlinear_arith)
            requires
                x >= 0,
        ;
        assert(n * x + n * (one * (t + 1)) == n * (one * (sum - one + n))) by (nonlinear_arith)
            requires
                x == one * (less - one + (n - 1)),
                sum == less + t,
        ;
    }
}

/// A term with a cushion for the roundings of all terms up to it.
pub open spec fn padded(z: int, i: nat, c: int) -> int {
    ONE_BITS * exp_term(z, i) + c * exp_sum(z, i)
}

/// With the cushion no term falls behind what is left unrounded.
proof fn lemma_padded(z: int, i: nat)
    requires
        z >= 0,
        0 < i <= EXP_ORDER,
    ensures
        padded(z, (i - 1) as nat, 2) * z <= i * (ONE_BITS * padded(z, i, 2)),
        padded(z, (i - 1) as nat, 4) * z + i * (ONE_BITS * ONE_BITS) <= i * (ONE_BITS * padded(
            z,
            i,
            4,
        )),
{
    let one = ONE_BITS as int;
    let j = (i - 1) as nat;
    let n = i as int;
    let (t, before) = (exp_term(z, i), exp_term(z, j));
    let (sum, less) = (exp_sum(z, i), exp_sum(z, j));
    lemma_term(z, i);
    lemma_sum_step(z, i);
    let (p, q) = (before * z, less * z);
    let nt = n * t;
    let ns = n * sum;
    let nn = n * n;
    assert(p <= one * nt + one * n) by (nonlinear_arith)
        requires
            p <= n * (one * (t + 1)),
            nt == n * t,
    ;
    assert(q <= one * ns - one * one * n + one * nn) by (nonlinear_arith)
        requires
            q <= n * (one * (sum - one + n)),
            ns == n * sum,
            nn == n * n,
    ;
    assert(nn <= 63 * n) by (nonlinear_arith)
        requires
            nn == n * n,
            0 <= n <= 63,
    ;
    assert((one * before + 2 * less) * z == one * p + 2 * q) by (nonlinear_arith)
        requires
            p == before * z,
            q == less * z,
    ;
    assert((one * before + 4 * less) * z == one * p + 4 * q) by (nonlinear_arith)
        requires
            p == before * z,
            q == less * z,
    ;
    assert(n * (one * (one * t + 2 * sum)) == one * one * nt + 2 * one * ns) by (nonlinear_arith)
        requires
            nt == n * t,
            ns == n * sum,
    ;
    assert(n * (one * (one * t + 4 * sum)) == one * one * nt + 4 * one * ns) by (nonlinear_arith)
        requires
            nt == n * t,
            ns == n * sum,
    ;
    assert(n * (one * one) == one * one * n) by (nonlinear_arith);
}

/// The sum of the padded terms.
pub open spec fn padded_sum(z: int, i: nat, c: int) -> int
    decreases i,
{
    padded(z, i, c) + if i == 0 {
        0
    } else {
        padded_sum(z, (i - 1) as nat, c)
    }
}

proof fn lemma_padded_sum(z: int, i: nat, c: int)
    requires
        z >= 0,
        c >= 0,
    ensures
        padded_sum(z, i, c) <= (ONE_BITS + c * (i + 1)) * exp_sum(z, i),
    decreases i,
{
    let one = ONE_BITS as int;
    lemma_sum(z, i);
    let sum = exp_sum(z, i);
    let n = i as int;
    if i > 0 {
        let j = (i - 1) as nat;
        lemma_padded_sum(z, j, c);
        let less = exp_sum(z, j);
        let t = exp_term(z, i);
        assert((one + c * n) * less + (one * t + c * sum) <= (one + c * (n + 1)) * sum)
            by (nonlinear_arith)
            requires
                sum == less + t,
                less <= sum,
                c >= 0,
                n >= 0,
        {
            assert((c * n) * less <= (c * n) * sum);
            assert((one + c * (n + 1)) * sum == one * sum + (c * n) * sum + c * sum);
            assert((one + c * n) * less == one * less + (c * n) * less);
        }
    } else {
        assert((one + c * 1) * one == one * one + c * one) by (nonlinear_arith);
    }
}

/// Six times what the term of order `i` comes to at `y + l`, up to the third order in `l`.
pub open spec fn raised(y: int, l: int, i: int) -> int {
    let one = ONE_BITS as int;
    6 * one * one * one * term_at(y, i) + 6 * one * one * (l * term_at(y, i - 1)) + 3 * one * (l * l
        * term_at(y, i - 2)) + l * l * l * term_at(y, i - 3)
}

/// A factor goes into a sum of four.
proof fn lemma_spread(n: int, k3: int, k2: int, k1: int, a: int, b: int, c: int, d: int)
    ensures
        n * (k3 * a + k2 * b + k1 * c + d) == k3 * (n * a) + k2 * (n * b) + k1 * (n * c) + n * d,
{
    let (w, x, y) = (k3 * a, k2 * b, k1 * c);
    assert(n * (w + x + y + d) == n * w + n * x + n * y + n * d) by (nonlinear_arith);
    assert(n * w == k3 * (n * a)) by (nonlinear_arith)
        requires
            w == k3 * a,
    ;
    assert(n * x == k2 * (n * b)) by (nonlinear_arith)
        requires
            x == k2 * b,
    ;
    assert(n * y == k1 * (n * c)) by (nonlinear_arith)
        requires
            y == k1 * c,
    ;
}

/// One step of the growth, on its numbers alone.
proof fn lemma_raise_step(n: int, y: int, l: int, a: int, b: int, c: int, d: int, e: int)
    requires
        l >= 0,
        e >= 0,
        n * (ONE_BITS * a) <= b * y,
        (n - 1) * (ONE_BITS * b) <= c * y,
        (n - 2) * (ONE_BITS * c) <= d * y,
        (n - 3) * (ONE_BITS * d) <= e * y,
    ensures
        ({
            let one = ONE_BITS as int;
            let now = 6 * one * one * one * a + 6 * one * one * (l * b) + 3 * one * (l * l * c) + l
                * l * l * d;
            let before = 6 * one * one * one * b + 6 * one * one * (l * c) + 3 * one * (l * l * d) + l
                * l * l * e;
            n * (one * now) <= before * (y + l)
        }),
{
    let one = ONE_BITS as int;
    let (l2, l3) = (l * l, l * l * l);
    assert(l2 >= 0 && l3 >= 0) by (nonlinear_arith)
        requires
            l >= 0,
            l2 == l * l,
            l3 == l * l * l,
    ;
    let (na, nb, nc, nd) = (n * a, n * b, n * c, n * d);
    let (yb, yc, yd, ye) = (b * y, c * y, d * y, e * y);
    assert(one * na <= yb && one * nb - one * b <= yc && one * nc - 2 * one * c <= yd && one * nd - 3
        * one * d <= ye) by (nonlinear_arith)
        requires
            n * (one * a) <= yb,
            (n - 1) * (one * b) <= yc,
            (n - 2) * (one * c) <= yd,
            (n - 3) * (one * d) <= ye,
            na == n * a,
            nb == n * b,
            nc == n * c,
            nd == n * d,
    ;
    let u1 = l * (one * b + yc - one * nb);
    let u2 = l2 * (2 * one * c + yd - one * nc);
    let u3 = l3 * (3 * one * d + ye - one * nd);
    let u4 = l3 * (l * e);
    assert(u1 >= 0) by (nonlinear_arith)
        requires
            u1 == l * (one * b + yc - one * nb),
            l >= 0,
            one * nb - one * b <= yc,
    ;
    assert(u2 >= 0) by (nonlinear_arith)
        requires
            u2 == l2 * (2 * one * c + yd - one * nc),
            l2 >= 0,
            one * nc - 2 * one * c <= yd,
    ;
    assert(u3 >= 0) by (nonlinear_arith)
        requires
            u3 == l3 * (3 * one * d + ye - one * nd),
            l3 >= 0,
            one * nd - 3 * one * d <= ye,
    ;
    assert(u4 >= 0) by (nonlinear_arith)
        requires
            u4 == l3 * (l * e),
            l3 >= 0,
            l >= 0,
            e >= 0,
    ;
    let (k3, k2, k1) = (6 * one * one * one, 6 * one * one, 3 * one);
    let now = k3 * a + k2 * (l * b) + k1 * (l2 * c) + l3 * d;
    let before = k3 * b + k2 * (l * c) + k1 * (l2 * d) + l3 * e;
    lemma_spread(n, k3, k2, k1, a, l * b, l2 * c, l3 * d);
    lemma_spread(y, k3, k2, k1, b, l * c, l2 * d, l3 * e);
    lemma_spread(l, k3, k2, k1, b, l * c, l2 * d, l3 * e);
    assert(n * (l * b) == l * nb && n * (l2 * c) == l2 * nc && n * (l3 * d) == l3 * nd)
        by (nonlinear_arith)
        requires
            nb == n * b,
            nc == n * c,
            nd == n * d,
    ;
    assert(y * (l * c) == l * yc && y * (l2 * d) == l2 * yd && y * (l3 * e) == l3 * ye && y * b
        == yb) by (nonlinear_arith)
        requires
            yb == b * y,
            yc == c * y,
            yd == d * y,
            ye == e * y,
    ;
    assert(l * (l * c) == l2 * c && l * (l2 * d) == l3 * d && l * (l3 * e) == u4)
        by (nonlinear_arith)
        requires
            l2 == l * l,
            l3 == l * l * l,
            u4 == l3 * (l * e),
    ;
    assert(n * (one * now) == one * (n * now)) by (nonlinear_arith);
    assert(l * (one * nb) == one * (l * nb) && l2 * (one * nc) == one * (l2 * nc) && l3 * (one * nd)
        == one * (l3 * nd)) by (nonlinear_arith);
    assert(u1 == one * (l * b) + l * yc - l * (one * nb)) by (nonlinear_arith)
        requires
            u1 == l * (one * b + yc - one * nb),
    ;
    assert(u2 == 2 * one * (l2 * c) + l2 * yd - l2 * (one * nc)) by (nonlinear_arith)
        requires
            u2 == l2 * (2 * one * c + yd - one * nc),
    ;
    assert(u3 == 3 * one * (l3 * d) + l3 * ye - l3 * (one * nd)) by (nonlinear_arith)
        requires
            u3 == l3 * (3 * one * d + ye - one * nd),
    ;
    assert(before * (y + l) == y * before + l * before) by (nonlinear_arith);
    assert(y * before == k3 * yb + k2 * (l * yc) + k1 * (l2 * yd) + l3 * ye);
    assert(l * before == k3 * (l * b) + k2 * (l2 * c) + k1 * (l3 * d) + u4);
    assert(n * now == k3 * na + k2 * (l * nb) + k1 * (l2 * nc) + l3 * nd);
    let (lb, lyc, lnb) = (l * b, l * yc, l * nb);
    let (l2c, l2yd, l2nc) = (l2 * c, l2 * yd, l2 * nc);
    let (l3d, l3ye, l3nd) = (l3 * d, l3 * ye, l3 * nd);
    assert(k2 * u1 == k3 * lb + k2 * lyc - k3 * lnb && k2 * u1 >= 0) by (nonlinear_arith)
        requires
            u1 == one * lb + lyc - one * lnb,
            u1 >= 0,
            k3 == k2 * one,
            k2 >= 0,
    ;
    assert(k1 * u2 == k2 * l2c + k1 * l2yd - (k1 * one) * l2nc && k1 * u2 >= 0) by (nonlinear_arith)
        requires
            u2 == 2 * one * l2c + l2yd - one * l2nc,
            u2 >= 0,
            k2 == 2 * (k1 * one),
            k1 >= 0,
    ;
    assert(one * (n * now) == k3 * (one * na) + k3 * lnb + (k1 * one) * l2nc + one * l3nd)
        by (nonlinear_arith)
        requires
            n * now == k3 * na + k2 * lnb + k1 * l2nc + l3nd,
            k3 == k2 * one,
    {
        assert(one * (k3 * na + k2 * lnb + k1 * l2nc + l3nd) == one * (k3 * na) + one * (k2 * lnb)
            + one * (k1 * l2nc) + one * l3nd);
        assert(one * (k3 * na) == k3 * (one * na));
        assert(one * (k2 * lnb) == (k2 * one) * lnb);
        assert(one * (k1 * l2nc) == (k1 * one) * l2nc);
    }
    assert(k3 * (one * na) <= k3 * yb) by (nonlinear_arith)
        requires
            one * na <= yb,
            k3 >= 0,
    ;
    assert(k1 * l3d == 3 * one * l3d);
}

/// One step of the fall, on its numbers alone.
proof fn lemma_lower_step(n: int, z: int, l: int, a: int, b: int, c: int, d: int, e: int)
    requires
        n >= 0,
        0 <= 2 * l <= ONE_BITS,
        e >= 0,
        n * (ONE_BITS * a) <= b * z,
        c * z <= (n - 1) * (ONE_BITS * b) + n * ONE_BITS,
        (n - 2) * (ONE_BITS * c) <= d * z,
        e * z <= (n - 3) * (ONE_BITS * d) + n * ONE_BITS,
    ensures
        ({
            let one = ONE_BITS as int;
            let m = -l;
            let now = 6 * one * one * one * a + 6 * one * one * (m * b) + 3 * one * (m * m * c) + m
                * m * m * d;
            let before = 6 * one * one * one * b + 6 * one * one * (m * c) + 3 * one * (m * m * d) + m
                * m * m * e;
            n * (one * now) <= before * (z - l) + 6 * (one * one * one * one) * n
        }),
{
    let one = ONE_BITS as int;
    let m = -l;
    let (l2, l3) = (l * l, l * l * l);
    let (m2, m3) = (m * m, m * m * m);
    assert(m2 == l2 && m3 == -l3 && l2 >= 0 && l3 >= 0) by (nonlinear_arith)
        requires
            m == -l,
            l >= 0,
            m2 == m * m,
            m3 == m * m * m,
            l2 == l * l,
            l3 == l * l * l,
    ;
    let (na, nb, nc, nd) = (n * a, n * b, n * c, n * d);
    let (zb, zc, zd, ze) = (b * z, c * z, d * z, e * z);
    assert(one * na <= zb && zc <= one * nb - one * b + one * n && one * nc - 2 * one * c <= zd && ze
        <= one * nd - 3 * one * d + one * n) by (nonlinear_arith)
        requires
            n * (one * a) <= zb,
            zc <= (n - 1) * (one * b) + n * one,
            (n - 2) * (one * c) <= zd,
            ze <= (n - 3) * (one * d) + n * one,
            na == n * a,
            nb == n * b,
            nc == n * c,
            nd == n * d,
    ;
    let u1 = l * (zc + one * b - one * nb);
    let u2 = l2 * (2 * one * c + zd - one * nc);
    let u3 = l3 * (3 * one * d + ze - one * nd);
    let u4 = l3 * (l * e);
    assert(2 * u1 <= one * one * n) by (nonlinear_arith)
        requires
            u1 == l * (zc + one * b - one * nb),
            zc <= one * nb - one * b + one * n,
            0 <= 2 * l <= one,
            n >= 0,
    {
        assert(u1 <= l * (one * n));
        assert((2 * l) * (one * n) <= one * (one * n));
    }
    assert(u2 >= 0) by (nonlinear_arith)
        requires
            u2 == l2 * (2 * one * c + zd - one * nc),
            l2 >= 0,
            one * nc - 2 * one * c <= zd,
    ;
    assert(l3 <= one * one * one) by (nonlinear_arith)
        requires
            l3 == l * l * l,
            0 <= l <= one,
    {
        assert(l * l <= one * one);
        assert((l * l) * l <= (one * one) * one);
    }
    assert(u3 <= one * one * one * one * n) by (nonlinear_arith)
        requires
            u3 == l3 * (3 * one * d + ze - one * nd),
            ze <= one * nd - 3 * one * d + one * n,
            0 <= l3 <= one * one * one,
            n >= 0,
            one > 0,
    {
        assert(u3 <= l3 * (one * n));
        assert(l3 * (one * n) <= (one * one * one) * (one * n));
    }
    assert(u4 >= 0) by (nonlinear_arith)
        requires
            u4 == l3 * (l * e),
            l3 >= 0,
            l >= 0,
            e >= 0,
    ;
    let (k3, k2, k1) = (6 * one * one * one, 6 * one * one, 3 * one);
    let now = k3 * a + k2 * (m * b) + k1 * (m2 * c) + m3 * d;
    let before = k3 * b + k2 * (m * c) + k1 * (m2 * d) + m3 * e;
    lemma_spread(n, k3, k2, k1, a, m * b, m2 * c, m3 * d);
    lemma_spread(z, k3, k2, k1, b, m * c, m2 * d, m3 * e);
    lemma_spread(m, k3, k2, k1, b, m * c, m2 * d, m3 * e);
    let (lb, lzc, lnb) = (l * b, l * zc, l * nb);
    let (l2c, l2zd, l2nc) = (l2 * c, l2 * zd, l2 * nc);
    let (l3d, l3ze, l3nd) = (l3 * d, l3 * ze, l3 * nd);
    assert(n * (m * b) == -lnb && n * (m2 * c) == l2nc && n * (m3 * d) == -l3nd)
        by (nonlinear_arith)
        requires
            m == -l,
            m2 == l2,
            m3 == -l3,
            nb == n * b,
            nc == n * c,
            nd == n * d,
            lnb == l * nb,
            l2nc == l2 * nc,
            l3nd == l3 * nd,
    ;
    assert(z * (m * c) == -lzc && z * (m2 * d) == l2zd && z * (m3 * e) == -l3ze && z * b == zb)
        by (nonlinear_arith)
        requires
            m == -l,
            m2 == l2,
            m3 == -l3,
            zb == b * z,
            zc == c * z,
            zd == d * z,
            ze == e * z,
            lzc == l * zc,
            l2zd == l2 * zd,
            l3ze == l3 * ze,
    ;
    assert(m * b == -lb && m * (m * c) == l2c && m * (m2 * d) == -l3d && m * (m3 * e) == u4)
        by (nonlinear_arith)
        requires
            m == -l,
            m2 == l2,
            m3 == -l3,
            l2 == l * l,
            l3 == l * l * l,
            lb == l * b,
            l2c == l2 * c,
            l3d == l3 * d,
            u4 == l3 * (l * e),
    ;
    assert(n * (one * now) == one * (n * now)) by (nonlinear_arith);
    assert(before * (z - l) == z * before + m * before) by (nonlinear_arith)
        requires
            m == -l,
    ;
    assert(k3 * (-lb) == -(k3 * lb) && k2 * (-lnb) == -(k2 * lnb) && k2 * (-lzc) == -(k2 * lzc) && k1
        * (-l3d) == -(k1 * l3d)) by (nonlinear_arith);
    assert(z * before == k3 * zb - k2 * lzc + k1 * l2zd - l3ze);
    assert(m * before == -(k3 * lb) + k2 * l2c - k1 * l3d + u4);
    assert(n * now == k3 * na - k2 * lnb + k1 * l2nc - l3nd);
    assert(u1 == one * lb + lzc - one * lnb) by (nonlinear_arith)
        requires
            u1 == l * (zc + one * b - one * nb),
            lb == l * b,
            lzc == l * zc,
            lnb == l * nb,
    ;
    assert(u2 == 2 * one * l2c + l2zd - one * l2nc) by (nonlinear_arith)
        requires
            u2 == l2 * (2 * one * c + zd - one * nc),
            l2c == l2 * c,
            l2zd == l2 * zd,
            l2nc == l2 * nc,
    ;
    assert(u3 == 3 * one * l3d + l3ze - one * l3nd) by (nonlinear_arith)
        requires
            u3 == l3 * (3 * one * d + ze - one * nd),
            l3d == l3 * d,
            l3ze == l3 * ze,
            l3nd == l3 * nd,
    ;
    assert(k2 * u1 == k3 * lb + k2 * lzc - k3 * lnb) by (nonlinear_arith)
        requires
            u1 == one * lb + lzc - one * lnb,
            k3 == k2 * one,
    ;
    assert(k1 * u2 == k2 * l2c + k1 * l2zd - (k1 * one) * l2nc && k1 * u2 >= 0) by (nonlinear_arith)
        requires
            u2 == 2 * one * l2c + l2zd - one * l2nc,
            u2 >= 0,
            k2 == 2 * (k1 * one),
            k1 >= 0,
    ;
    assert(one * (n * now) == k3 * (one * na) - k3 * lnb + (k1 * one) * l2nc - one * l3nd)
        by (nonlinear_arith)
        requires
            n * now == k3 * na - k2 * lnb + k1 * l2nc - l3nd,
            k3 == k2 * one,
    {
        assert(one * (k3 * na - k2 * lnb + k1 * l2nc - l3nd) == one * (k3 * na) - one * (k2 * lnb)
            + one * (k1 * l2nc) - one * l3nd);
        assert(one * (k3 * na) == k3 * (one * na));
        assert(one * (k2 * lnb) == (k2 * one) * lnb);
        assert(one * (k1 * l2nc) == (k1 * one) * l2nc);
    }
    assert(k3 * (one * na) <= k3 * zb) by (nonlinear_arith)
        requires
            one * na <= zb,
            k3 >= 0,
    ;
    assert(k1 * l3d == 3 * one * l3d);
    assert(k2 * u1 <= 3 * (one * one * one * one) * n) by (nonlinear_arith)
        requires
            2 * u1 <= one * one * n,
            k2 == 6 * one * one,
    {
        assert((3 * one * one) * (2 * u1) <= (3 * one * one) * (one * one * n));
        assert((3 * one * one) * (2 * u1) == k2 * u1);
        assert((3 * one * one) * (one * one * n) == 3 * (one * one * one * one) * n);
    }
    let room = one * one * one * one * n;
    assert(3 * (one * one * one * one) * n == 3 * room && 6 * (one * one * one * one) * n == 6
        * room && room >= 0) by (nonlinear_arith)
        requires
            room == one * one * one * one * n,
            n >= 0,
            one > 0,
    {
        assert(one * one * one * one > 0);
        assert((one * one * one * one) * n == room);
    }
    assert(n * (one * now) <= before * (z - l) + 6 * room);
}

/// With its cushion the term at `y + l` is no less than the third order says.
proof fn lemma_raised(y: int, l: int, i: nat)
    requires
        y >= 0,
        l >= 0,
        i <= EXP_ORDER,
    ensures
        ONE_BITS * raised(y, l, i as int) <= 6 * ONE_BITS * ONE_BITS * ONE_BITS * padded(
            y + l,
            i,
            2,
        ),
    decreases i,
{
    let one = ONE_BITS as int;
    let k3 = 6 * one * one * one;
    let z = y + l;
    let n = i as int;
    let p = padded(z, i, 2);
    let r = raised(y, l, n);
    if i == 0 {
        assert(6 * one * one * one * one + 6 * one * one * (l * 0) + 3 * one * (l * l * 0) + l * l
            * l * 0 == (6 * one * one * one) * one) by (nonlinear_arith);
        assert(r == k3 * one);
        assert(one * (k3 * one) <= k3 * p) by (nonlinear_arith)
            requires
                p >= one * one,
                k3 > 0,
        {
            assert(k3 * (one * one) <= k3 * p);
        }
        assert(p == one * one + 2 * one);
    } else {
        let j = (i - 1) as nat;
        lemma_raised(y, l, j);
        lemma_padded(z, i);
        let before = padded(z, j, 2);
        let rb = raised(y, l, n - 1);
        lemma_term_at(y, n);
        lemma_term_at(y, n - 1);
        lemma_term_at(y, n - 2);
        lemma_term_at(y, n - 3);
        lemma_term_at(y, n - 4);
        lemma_raise_step(
            n,
            y,
            l,
            term_at(y, n),
            term_at(y, n - 1),
            term_at(y, n - 2),
            term_at(y, n - 3),
            term_at(y, n - 4),
        );
        assert(n * (one * r) <= rb * z);
        assert(k3 * 0 == 0);
        lemma_one_step(n, one, k3, r, rb, before, p, z, 0);
    }
}

/// With its cushion the term at `z - l` is no less than the third order says.
proof fn lemma_lowered(z: int, l: int, i: nat)
    requires
        0 <= l <= z,
        2 * l <= ONE_BITS,
        i <= EXP_ORDER,
    ensures
        ONE_BITS * raised(z, -l, i as int) <= 6 * ONE_BITS * ONE_BITS * ONE_BITS * padded(
            z - l,
            i,
            4,
        ),
    decreases i,
{
    let one = ONE_BITS as int;
    let k3 = 6 * one * one * one;
    let y = z - l;
    let n = i as int;
    let p = padded(y, i, 4);
    let m = -l;
    let r = raised(z, m, n);
    if i == 0 {
        assert(6 * one * one * one * one + 6 * one * one * (m * 0) + 3 * one * (m * m * 0) + m * m
            * m * 0 == (6 * one * one * one) * one) by (nonlinear_arith);
        assert(r == k3 * one);
        assert(one * (k3 * one) <= k3 * p) by (nonlinear_arith)
            requires
                p >= one * one,
                k3 > 0,
        {
            assert(k3 * (one * one) <= k3 * p);
        }
        assert(p == one * one + 4 * one);
    } else {
        let j = (i - 1) as nat;
        lemma_lowered(z, l, j);
        lemma_padded(y, i);
        let before = padded(y, j, 4);
        let rb = raised(z, m, n - 1);
        let (a, b, c) = (term_at(z, n), term_at(z, n - 1), term_at(z, n - 2));
        let (d, e) = (term_at(z, n - 3), term_at(z, n - 4));
        lemma_term_at(z, n);
        lemma_term_at(z, n - 1);
        lemma_term_at(z, n - 2);
        lemma_term_at(z, n - 3);
        lemma_term_at(z, n - 4);
        assert(c * z <= (n - 1) * (one * b) + n * one) by {
            if n == 1 {
                assert(0 * z == 0);
            } else {
                assert((n - 1) * (one * (b + 1)) == (n - 1) * (one * b) + (n - 1) * one)
                    by (nonlinear_arith);
            }
        }
        assert(e * z <= (n - 3) * (one * d) + n * one) by {
            if n <= 3 {
                assert(0 * z == 0);
                if n < 3 {
                    assert((n - 3) * (one * 0) == 0) by (nonlinear_arith);
                } else {
                    assert((n - 3) * (one * d) == 0) by (nonlinear_arith)
                        requires
                            n == 3,
                    ;
                }
            } else {
                assert((n - 3) * (one * (d + 1)) == (n - 3) * (one * d) + (n - 3) * one)
                    by (nonlinear_arith);
            }
        }
        lemma_lower_step(n, z, l, a, b, c, d, e);
        assert(n * (one * r) <= rb * y + 6 * (one * one * one * one) * n);
        let slack = n * (one * one);
        assert(one * (n * (one * r)) <= one * (rb * y) + k3 * slack) by (nonlinear_arith)
            requires
                n * (one * r) <= rb * y + 6 * (one * one * one * one) * n,
                one > 0,
                k3 == 6 * one * one * one,
                slack == n * (one * one),
        {
            let x = n * (one * r);
            let w = 6 * (one * one * one * one) * n;
            assert(one * x <= one * (rb * y + w));
            assert(one * (rb * y + w) == one * (rb * y) + one * w);
            assert(one * w == k3 * slack);
        }
        lemma_one_step(n, one, k3, r, rb, before, p, y, slack);
    }
}

/// What a step comes to, divided by its order.
proof fn lemma_one_step(
    n: int,
    one: int,
    k3: int,
    r: int,
    rb: int,
    before: int,
    p: int,
    y: int,
    slack: int,
)
    requires
        n > 0,
        one > 0,
        y >= 0,
        k3 > 0,
        one * (n * (one * r)) <= one * (rb * y) + k3 * slack,
        one * rb <= k3 * before,
        before * y + slack <= n * (one * p),
    ensures
        one * r <= k3 * p,
{
    let by = before * y;
    let w = n * (one * p);
    assert(one * (rb * y) <= k3 * by) by (nonlinear_arith)
        requires
            one * rb <= k3 * before,
            y >= 0,
            by == before * y,
    {
        assert((one * rb) * y <= (k3 * before) * y);
        assert((one * rb) * y == one * (rb * y));
        assert((k3 * before) * y == k3 * by);
    }
    assert(k3 * by + k3 * slack <= k3 * w) by (nonlinear_arith)
        requires
            by + slack <= w,
            k3 > 0,
    ;
    let no = n * one;
    assert(no > 0) by (nonlinear_arith)
        requires
            no == n * one,
            n > 0,
            one > 0,
    ;
    assert(one * (n * (one * r)) == no * (one * r)) by (nonlinear_arith)
        requires
            no == n * one,
    ;
    assert(k3 * w == no * (k3 * p)) by (nonlinear_arith)
        requires
            no == n * one,
            w == n * (one * p),
    ;
    let (x, q) = (one * r, k3 * p);
    assert(x <= q) by (nonlinear_arith)
        requires
            no * x <= no * q,
            no > 0,
    ;
}

/// Six times what the sum up to order `i` comes to at `y + l`, up to the third order in `l`.
pub open spec fn raised_sum(y: int, l: int, i: int) -> int {
    let one = ONE_BITS as int;
    6 * one * one * one * sum_at(y, i) + 6 * one * one * (l * sum_at(y, i - 1)) + 3 * one * (l * l
        * sum_at(y, i - 2)) + l * l * l * sum_at(y, i - 3)
}

proof fn lemma_raised_sum_step(y: int, l: int, i: int)
    ensures
        raised_sum(y, l, i) == raised_sum(y, l, i - 1) + raised(y, l, i),
{
    let one = ONE_BITS as int;
    let (k3, k2, k1) = (6 * one * one * one, 6 * one * one, 3 * one);
    let (l2, l3) = (l * l, l * l * l);
    assert forall|j: int| #[trigger] sum_at(y, j) == sum_at(y, j - 1) + term_at(y, j) by {
        if j > 0 {
            assert((j as nat - 1) as nat == (j - 1) as nat);
        }
    }
    let (a0, a1, a2, a3) = (
        sum_at(y, i - 1),
        sum_at(y, i - 2),
        sum_at(y, i - 3),
        sum_at(y, i - 4),
    );
    let (t0, t1, t2, t3) = (
        term_at(y, i),
        term_at(y, i - 1),
        term_at(y, i - 2),
        term_at(y, i - 3),
    );
    assert(sum_at(y, i) == a0 + t0 && sum_at(y, i - 1) == a1 + t1 && sum_at(y, i - 2) == a2 + t2
        && sum_at(y, i - 3) == a3 + t3);
    assert(k3 * (a0 + t0) == k3 * a0 + k3 * t0) by (nonlinear_arith);
    assert(k2 * (l * (a1 + t1)) == k2 * (l * a1) + k2 * (l * t1)) by (nonlinear_arith);
    assert(k1 * (l2 * (a2 + t2)) == k1 * (l2 * a2) + k1 * (l2 * t2)) by (nonlinear_arith);
    assert(l3 * (a3 + t3) == l3 * a3 + l3 * t3) by (nonlinear_arith);
}

proof fn lemma_raised_sum(y: int, l: int, i: nat)
    requires
        y >= 0,
        l >= 0,
        i <= EXP_ORDER,
    ensures
        ONE_BITS * raised_sum(y, l, i as int) <= 6 * ONE_BITS * ONE_BITS * ONE_BITS * padded_sum(
            y + l,
            i,
            2,
        ),
    decreases i,
{
    let one = ONE_BITS as int;
    let k3 = 6 * one * one * one;
    let n = i as int;
    lemma_raised(y, l, i);
    lemma_raised_sum_step(y, l, n);
    let p = padded(y + l, i, 2);
    let r = raised(y, l, n);
    if i > 0 {
        lemma_raised_sum(y, l, (i - 1) as nat);
        lemma_sum_of_steps(one, k3, r, raised_sum(y, l, n - 1), p, padded_sum(y + l, (i - 1) as nat, 2));
    } else {
        lemma_nothing_raised(y, l);
    }
}

proof fn lemma_lowered_sum(z: int, l: int, i: nat)
    requires
        0 <= l <= z,
        2 * l <= ONE_BITS,
        i <= EXP_ORDER,
    ensures
        ONE_BITS * raised_sum(z, -l, i as int) <= 6 * ONE_BITS * ONE_BITS * ONE_BITS * padded_sum(
            z - l,
            i,
            4,
        ),
    decreases i,
{
    let one = ONE_BITS as int;
    let k3 = 6 * one * one * one;
    let n = i as int;
    lemma_lowered(z, l, i);
    lemma_raised_sum_step(z, -l, n);
    let p = padded(z - l, i, 4);
    let r = raised(z, -l, n);
    if i > 0 {
        lemma_lowered_sum(z, l, (i - 1) as nat);
        lemma_sum_of_steps(
            one,
            k3,
            r,
            raised_sum(z, -l, n - 1),
            p,
            padded_sum(z - l, (i - 1) as nat, 4),
        );
    } else {
        lemma_nothing_raised(z, -l);
    }
}

proof fn lemma_nothing_raised(y: int, l: int)
    ensures
        raised_sum(y, l, -1) == 0,
{
    let one = ONE_BITS as int;
    assert(6 * one * one * one * 0 + 6 * one * one * (l * 0) + 3 * one * (l * l * 0) + l * l * l * 0
        == 0) by (nonlinear_arith);
}

proof fn lemma_sum_of_steps(one: int, k3: int, r: int, rest: int, p: int, padding: int)
    requires
        one * r <= k3 * p,
        one * rest <= k3 * padding,
    ensures
        one * (rest + r) <= k3 * (p + padding),
{
    assert(one * (rest + r) == one * rest + one * r && k3 * (p + padding) == k3 * p + k3 * padding)
        by (nonlinear_arith);
}

/// The whole series at `y + l` is no less than the third order says, but for 128 bits of itself.
pub proof fn lemma_growth(y: int, l: int)
    requires
        y >= 0,
        l >= 0,
    ensures
        ONE_BITS * raised_sum(y, l, EXP_ORDER as int) <= (6 * ONE_BITS * ONE_BITS * ONE_BITS) * ((
        ONE_BITS + 128) * exp_sum(y + l, EXP_ORDER as nat)),
{
    let one = ONE_BITS as int;
    let k3 = 6 * one * one * one;
    lemma_raised_sum(y, l, EXP_ORDER as nat);
    lemma_padded_sum(y + l, EXP_ORDER as nat, 2);
    lemma_scale(k3, padded_sum(y + l, EXP_ORDER as nat, 2), (one + 128) * exp_sum(y + l, EXP_ORDER as nat));
}

/// The whole series at `z - l` is no less than the third order says, but for 256 bits of itself.
pub proof fn lemma_fall(z: int, l: int)
    requires
        0 <= l <= z,
        2 * l <= ONE_BITS,
    ensures
        ONE_BITS * raised_sum(z, -l, EXP_ORDER as int) <= (6 * ONE_BITS * ONE_BITS * ONE_BITS) * ((
        ONE_BITS + 256) * exp_sum(z - l, EXP_ORDER as nat)),
{
    let one = ONE_BITS as int;
    let k3 = 6 * one * one * one;
    lemma_lowered_sum(z, l, EXP_ORDER as nat);
    lemma_padded_sum(z - l, EXP_ORDER as nat, 4);
    lemma_scale(k3, padded_sum(z - l, EXP_ORDER as nat, 4), (one + 256) * exp_sum(z - l, EXP_ORDER as nat));
}

proof fn lemma_scale(k: int, a: int, b: int)
    requires
        k >= 0,
        a <= b,
    ensures
        k * a <= k * b,
{
    assert(k * a <= k * b) by (nonlinear_arith)
        requires
            k >= 0,
            a <= b,
    ;
}

/// A greater number has no smaller terms and sums, and fits only where a smaller one does.
pub proof fn lemma_series_is_monotone(y: int, z: int, i: nat)
    requires
        0 <= y <= z,
    ensures
        0 <= exp_term(y, i) <= exp_term(z, i),
        exp_sum(y, i) <= exp_sum(z, i),
        exp_fits(z, i) ==> exp_fits(y, i),
    decreases i,
{
    lemma_term(y, i);
    if i > 0 {
        let j = (i - 1) as nat;
        lemma_series_is_monotone(y, z, j);
        let one = ONE_BITS as int;
        let (a, b) = (exp_term(y, j), exp_term(z, j));
        assert(a * y <= b * z) by (nonlinear_arith)
            requires
                0 <= a <= b,
                0 <= y <= z,
        ;
        vstd::arithmetic::div_mod::lemma_div_is_ordered(a * y, b * z, one);
        vstd::arithmetic::div_mod::lemma_div_is_ordered((a * y) / one, (b * z) / one, i as int);
    }
}

// ---- the last terms ----

/// The product of the `k` numbers after `i`.
spec fn rising(i: int, k: nat) -> int
    decreases k,
{
    if k == 0 {
        1
    } else {
        (i + k) * rising(i, (k - 1) as nat)
    }
}

proof fn lemma_rising_positive(i: int, k: nat)
    requires
        i >= 0,
    ensures
        rising(i, k) > 0,
    decreases k,
{
    if k > 0 {
        lemma_rising_positive(i, (k - 1) as nat);
        let r = rising(i, (k - 1) as nat);
        assert((i + k) * r > 0) by (nonlinear_arith)
            requires
                i >= 0,
                k > 0,
                r > 0,
        ;
    }
}

/// A later term is no more than an earlier one times a power.
proof fn lemma_later_term(y: int, i: nat, k: nat)
    requires
        y >= 0,
    ensures
        exp_term(y, i + k) * (rising(i as int, k) * pow(ONE_BITS as int, k)) <= exp_term(y, i) * pow(
            y,
            k,
        ),
    decreases k,
{
    let one = ONE_BITS as int;
    lemma_pow0(y);
    lemma_pow0(one);
    if k > 0 {
        let j = (k - 1) as nat;
        lemma_later_term(y, i, j);
        lemma_term(y, i + k);
        lemma_pow_adds(y, j, 1);
        lemma_pow_adds(one, j, 1);
        lemma_pow1(y);
        lemma_pow1(one);
        lemma_pow_positive(one, j);
        lemma_rising_positive(i as int, j);
        assert((i + k - 1) as nat == i + j);
        let (t, before, first) = (exp_term(y, i + k), exp_term(y, i + j), exp_term(y, i));
        let n = (i + k) as int;
        let r = rising(i as int, j);
        let (po, py) = (pow(one, j), pow(y, j));
        let w = r * po;
        assert(w > 0) by (nonlinear_arith)
            requires
                w == r * po,
                r > 0,
                po > 0,
        ;
        assert(t * ((n * r) * (po * one)) == (n * (one * t)) * w) by (nonlinear_arith)
            requires
                w == r * po,
        ;
        assert((n * (one * t)) * w <= (before * y) * w) by (nonlinear_arith)
            requires
                n * (one * t) <= before * y,
                w > 0,
        ;
        assert((before * y) * w == (before * w) * y) by (nonlinear_arith);
        assert((before * w) * y <= (first * py) * y) by (nonlinear_arith)
            requires
                before * w <= first * py,
                y >= 0,
        ;
        assert((first * py) * y == first * (py * y)) by (nonlinear_arith);
    } else {
        let t = exp_term(y, i);
        assert(i + k == i);
        assert(t * (1 * 1) == t * 1);
    }
}

/// With its cushion a term is no less than the power over the factorial.
proof fn lemma_padded_power(y: int, k: nat)
    requires
        y >= 0,
        k <= EXP_ORDER,
    ensures
        (ONE_BITS * ONE_BITS) * pow(y, k) <= padded(y, k, 2) * (rising(0, k) * pow(
            ONE_BITS as int,
            k,
        )),
    decreases k,
{
    let one = ONE_BITS as int;
    lemma_pow0(y);
    lemma_pow0(one);
    if k > 0 {
        let j = (k - 1) as nat;
        lemma_padded_power(y, j);
        lemma_padded(y, k);
        lemma_pow_adds(y, j, 1);
        lemma_pow_adds(one, j, 1);
        lemma_pow1(y);
        lemma_pow1(one);
        lemma_pow_positive(one, j);
        lemma_rising_positive(0, j);
        let (p, before) = (padded(y, k, 2), padded(y, j, 2));
        let n = k as int;
        let r = rising(0, j);
        let (po, py) = (pow(one, j), pow(y, j));
        let w = r * po;
        let oo = one * one;
        assert(w > 0) by (nonlinear_arith)
            requires
                w == r * po,
                r > 0,
                po > 0,
        ;
        assert(oo * (py * y) == (oo * py) * y) by (nonlinear_arith);
        assert((oo * py) * y <= (before * w) * y) by (nonlinear_arith)
            requires
                oo * py <= before * w,
                y >= 0,
        ;
        assert((before * w) * y == (before * y) * w) by (nonlinear_arith);
        assert((before * y) * w <= (n * (one * p)) * w) by (nonlinear_arith)
            requires
                before * y <= n * (one * p),
                w > 0,
        ;
        assert((n * (one * p)) * w == p * ((n * r) * (po * one))) by (nonlinear_arith)
            requires
                w == r * po,
        ;
        assert((0 + k) * r == n * r);
    } else {
        let p = padded(y, 0, 2);
        assert(p == one * one + 2 * one);
        assert((one * one) * 1 <= p * (1 * 1)) by (nonlinear_arith)
            requires
                p >= one * one,
        ;
    }
}

/// A late term is small beside the square of the sum.
proof fn lemma_late_term(y: int, i: nat, k: nat)
    requires
        y >= 0,
        i + k <= EXP_ORDER,
        0x4_0000_0000_0000 * rising(0, k) <= rising(i as int, k),
    ensures
        0x2_0000_0000_0000 * (ONE_BITS * exp_term(y, i + k)) <= exp_sum(y, EXP_ORDER as nat)
            * exp_sum(y, EXP_ORDER as nat),
{
    let one = ONE_BITS as int;
    let order = EXP_ORDER as nat;
    lemma_later_term(y, i, k);
    lemma_padded_power(y, k);
    lemma_pow_positive(one, k);
    lemma_rising_positive(0, k);
    lemma_term(y, i + k);
    lemma_sum_covers(y, i, order);
    lemma_sum_covers(y, k, order);
    let (t, first, p) = (exp_term(y, i + k), exp_term(y, i), padded(y, k, 2));
    let (r0, r) = (rising(0, k), rising(i as int, k));
    let (po, py) = (pow(one, k), pow(y, k));
    let sum = exp_sum(y, order);
    let c = 0x4_0000_0000_0000int;
    let oo = one * one;
    let w = r0 * po;
    assert(w > 0) by (nonlinear_arith)
        requires
            w == r0 * po,
            r0 > 0,
            po > 0,
    ;
    // t * c * one^2 * w <= t * r * po * one^2 <= first * py * one^2 <= first * p * w
    assert((t * (c * oo)) * w <= (t * (r * po)) * oo) by (nonlinear_arith)
        requires
            c * r0 <= r,
            w == r0 * po,
            t >= 0,
            po > 0,
            oo > 0,
    {
        assert((t * (c * oo)) * w == (t * oo) * ((c * r0) * po));
        assert((c * r0) * po <= r * po);
        assert(t * oo >= 0);
        assert((t * oo) * ((c * r0) * po) <= (t * oo) * (r * po));
        assert((t * oo) * (r * po) == (t * (r * po)) * oo);
    }
    assert((t * (r * po)) * oo <= (first * py) * oo) by (nonlinear_arith)
        requires
            t * (r * po) <= first * py,
            oo > 0,
    ;
    assert((first * py) * oo <= (first * p) * w) by (nonlinear_arith)
        requires
            oo * py <= p * w,
            first >= 0,
    {
        assert(first * (oo * py) <= first * (p * w));
    }
    let x = t * (c * oo);
    let q = first * p;
    assert(x <= q) by (nonlinear_arith)
        requires
            x * w <= q * w,
            w > 0,
    ;
    assert(p <= (one + 2) * sum) by (nonlinear_arith)
        requires
            p == one * exp_term(y, k) + 2 * exp_sum(y, k),
            exp_term(y, k) <= sum,
            exp_sum(y, k) <= sum,
            one > 0,
    ;
    assert(q <= (2 * one) * (sum * sum)) by (nonlinear_arith)
        requires
            q == first * p,
            0 <= first <= sum,
            p <= (one + 2) * sum,
            one > 2,
            sum > 0,
    {
        assert(first * p <= first * ((one + 2) * sum));
        assert(first * ((one + 2) * sum) <= sum * ((one + 2) * sum));
        assert(sum * ((one + 2) * sum) == (one + 2) * (sum * sum));
        assert((one + 2) * (sum * sum) <= (2 * one) * (sum * sum));
    }
    let h = 0x2_0000_0000_0000int;
    assert(h * (one * t) <= sum * sum) by (nonlinear_arith)
        requires
            t * (c * oo) <= (2 * one) * (sum * sum),
            c == 2 * h,
            oo == one * one,
            one > 0,
    {
        assert(t * (c * oo) == (2 * one) * (h * (one * t)));
    }
}

/// The whole sum is no less than any of its terms and of its partial sums.
proof fn lemma_sum_covers(y: int, i: nat, order: nat)
    requires
        y >= 0,
        i <= order,
    ensures
        0 <= exp_term(y, i) <= exp_sum(y, order),
        exp_sum(y, i) <= exp_sum(y, order),
        exp_sum(y, order) >= ONE_BITS,
    decreases order - i,
{
    lemma_sum(y, order);
    lemma_sum(y, i);
    lemma_term(y, i);
    if i < order {
        lemma_sum(y, i + 1);
        lemma_sum_covers(y, i + 1, order);
    }
}

/// One more factor: `(i + k) / k` is no less than `m`.
proof fn lemma_rising_step(i: int, k: nat, a: int, m: int, b: int)
    requires
        k > 0,
        0 <= m,
        0 <= a,
        m * k <= i + k,
        a * m == b,
        a * rising(0, (k - 1) as nat) <= rising(i, (k - 1) as nat),
    ensures
        b * rising(0, k) <= rising(i, k),
{
    lemma_rising_positive(0, (k - 1) as nat);
    let (r0, r) = (rising(0, (k - 1) as nat), rising(i, (k - 1) as nat));
    let n = k as int;
    assert((a * m) * (n * r0) <= (i + n) * r) by (nonlinear_arith)
        requires
            a * r0 <= r,
            0 <= m * n <= i + n,
            0 <= a,
            r0 > 0,
    {
        assert((m * n) * (a * r0) <= (i + n) * (a * r0));
        assert((i + n) * (a * r0) <= (i + n) * r);
        assert((m * n) * (a * r0) == (a * m) * (n * r0));
    }
}

/// The product of thirty numbers after 31, or of one more, is great beside the factorial.
proof fn lemma_rising_ratio(i: int)
    requires
        i >= 31,
    ensures
        0x4_0000_0000_0000 * rising(0, 30) <= rising(i, 30),
        0x4_0000_0000_0000 * rising(0, 31) <= rising(i, 31),
{
    lemma_rising_positive(0, 30);
    lemma_rising_positive(0, 31);
    lemma_rising_step(i, 1, 1, 32, 32);
    lemma_rising_step(i, 2, 32, 16, 512);
    lemma_rising_step(i, 3, 512, 11, 5632);
    lemma_rising_step(i, 4, 5632, 8, 45056);
    lemma_rising_step(i, 5, 45056, 7, 315392);
    lemma_rising_step(i, 6, 315392, 6, 1892352);
    lemma_rising_step(i, 7, 1892352, 5, 9461760);
    lemma_rising_step(i, 8, 9461760, 4, 37847040);
    lemma_rising_step(i, 9, 37847040, 4, 151388160);
    lemma_rising_step(i, 10, 151388160, 4, 605552640);
    lemma_rising_step(i, 11, 605552640, 3, 1816657920);
    lemma_rising_step(i, 12, 1816657920, 3, 5449973760);
    lemma_rising_step(i, 13, 5449973760, 3, 16349921280);
    lemma_rising_step(i, 14, 16349921280, 3, 49049763840);
    lemma_rising_step(i, 15, 49049763840, 3, 147149291520);
    lemma_rising_step(i, 16, 147149291520, 2, 294298583040);
    lemma_rising_step(i, 17, 294298583040, 2, 588597166080);
    lemma_rising_step(i, 18, 588597166080, 2, 1177194332160);
    lemma_rising_step(i, 19, 1177194332160, 2, 2354388664320);
    lemma_rising_step(i, 20, 2354388664320, 2, 4708777328640);
    lemma_rising_step(i, 21, 4708777328640, 2, 9417554657280);
    lemma_rising_step(i, 22, 9417554657280, 2, 18835109314560);
    lemma_rising_step(i, 23, 18835109314560, 2, 37670218629120);
    lemma_rising_step(i, 24, 37670218629120, 2, 75340437258240);
    lemma_rising_step(i, 25, 75340437258240, 2, 150680874516480);
    lemma_rising_step(i, 26, 150680874516480, 2, 301361749032960);
    lemma_rising_step(i, 27, 301361749032960, 2, 602723498065920);
    lemma_rising_step(i, 28, 602723498065920, 2, 1205446996131840);
    lemma_rising_step(i, 29, 1205446996131840, 2, 2410893992263680);
    lemma_rising_step(i, 30, 2410893992263680, 2, 4821787984527360);
    lemma_rising_step(i, 31, 4821787984527360, 2, 9643575969054720);
    assert(4821787984527360 * rising(0, 30) <= rising(i, 30));
}

/// The last three terms are small beside the square of the sum.
pub proof fn lemma_last_terms(y: int)
    requires
        y >= 0,
    ensures
        0x2_0000_0000_0000 * (ONE_BITS * exp_term(y, 61)) <= exp_sum(y, EXP_ORDER as nat) * exp_sum(
            y,
            EXP_ORDER as nat,
        ),
        0x2_0000_0000_0000 * (ONE_BITS * exp_term(y, 62)) <= exp_sum(y, EXP_ORDER as nat) * exp_sum(
            y,
            EXP_ORDER as nat,
        ),
        0x2_0000_0000_0000 * (ONE_BITS * exp_term(y, 63)) <= exp_sum(y, EXP_ORDER as nat) * exp_sum(
            y,
            EXP_ORDER as nat,
        ),
{
    lemma_rising_ratio(31);
    lemma_rising_ratio(32);
    lemma_late_term(y, 31, 30);
    lemma_late_term(y, 31, 31);
    lemma_late_term(y, 32, 31);
}

// ---- numbers up to eight ----

/// For a number up to eight no term exceeds `2^24`.
proof fn lemma_terms_to_eight(z: int, i: nat)
    requires
        0 <= z <= 8 * ONE_BITS,
    ensures
        0 <= exp_term(z, i) <= 0x100_0000 * ONE_BITS,
        i <= 8 ==> exp_term(z, i) <= pow2(3 * i) * ONE_BITS,
        i > 0 ==> i * exp_term(z, i) <= 8 * exp_term(z, (i - 1) as nat),
    decreases i,
{
    let one = ONE_BITS as int;
    lemma_term(z, i);
    lemma2_to64();
    if i > 0 {
        let j = (i - 1) as nat;
        lemma_terms_to_eight(z, j);
        let (t, before) = (exp_term(z, i), exp_term(z, j));
        let n = i as int;
        assert(n * t <= 8 * before) by (nonlinear_arith)
            requires
                n * (one * t) <= before * z,
                0 <= z <= 8 * one,
                before >= 0,
                one > 0,
        {
            assert(before * z <= before * (8 * one));
            assert(n * (one * t) == one * (n * t));
            assert(before * (8 * one) == one * (8 * before));
        }
        if i <= 8 {
            lemma_pow2_adds(3 * j, 3);
            assert(pow2(3) == 8);
            assert((3 * j + 3) as nat == 3 * i);
            let (q, r) = (pow2(3 * j) as int, pow2(3 * i) as int);
            assert(t <= n * t) by (nonlinear_arith)
                requires
                    n >= 1,
                    t >= 0,
            ;
            assert(q * 8 == r);
            assert(t <= r * one) by (nonlinear_arith)
                requires
                    t <= 8 * before,
                    before <= q * one,
                    r == q * 8,
            ;
            if i < 8 {
                lemma_pow2_strictly_increases(3 * i, 24);
            }
            assert(r <= 0x100_0000);
            assert(r * one <= 0x100_0000 * one) by (nonlinear_arith)
                requires
                    r <= 0x100_0000,
                    one > 0,
            ;
        } else {
            assert(t <= before) by (nonlinear_arith)
                requires
                    n * t <= 8 * before,
                    n >= 8,
                    t >= 0,
                    before >= 0,
            {
                assert(8 * t <= n * t);
            }
        }
    }
}

/// For a number up to eight the late terms vanish, and everything fits.
pub proof fn lemma_up_to_eight(z: int, i: nat)
    requires
        0 <= z <= 8 * ONE_BITS,
        i <= EXP_ORDER,
    ensures
        exp_fits(z, i),
        exp_sum(z, i) <= (i + 1) * (0x100_0000 * ONE_BITS),
        15 <= i <= 31 ==> pow2((i - 15) as nat) * exp_term(z, i) <= 0x100_0000 * ONE_BITS,
        31 <= i ==> pow2((16 + 2 * (i - 31)) as nat) * exp_term(z, i) <= 0x100_0000 * ONE_BITS,
    decreases i,
{
    let one = ONE_BITS as int;
    lemma2_to64();
    lemma_terms_to_eight(z, i);
    if i > 0 {
        let j = (i - 1) as nat;
        lemma_up_to_eight(z, j);
        lemma_terms_to_eight(z, j);
        let (t, before) = (exp_term(z, i), exp_term(z, j));
        let n = i as int;
        let m = before * z;
        assert(m <= (0x800_0000 * one) * one) by (nonlinear_arith)
            requires
                m == before * z,
                0 <= before <= 0x100_0000 * one,
                0 <= z <= 8 * one,
        ;
        vstd::arithmetic::div_mod::lemma_div_is_ordered(m, (0x800_0000 * one) * one, one);
        vstd::arithmetic::div_mod::lemma_div_by_multiple(0x800_0000 * one, one);
        if 15 < i <= 31 {
            lemma_pow2_adds((j - 15) as nat, 1);
            assert(((j - 15) as nat + 1) as nat == (i - 15) as nat);
            let q = pow2((j - 15) as nat) as int;
            assert(2 * t <= before) by (nonlinear_arith)
                requires
                    n * t <= 8 * before,
                    n >= 16,
                    t >= 0,
            {
                assert(16 * t <= n * t);
            }
            assert((q * 2) * t <= q * before) by (nonlinear_arith)
                requires
                    2 * t <= before,
                    q >= 0,
            ;
        }
        if 31 < i {
            lemma_pow2_adds((16 + 2 * (j - 31)) as nat, 2);
            assert(((16 + 2 * (j - 31)) as nat + 2) as nat == (16 + 2 * (i - 31)) as nat);
            let q = pow2((16 + 2 * (j - 31)) as nat) as int;
            assert(4 * t <= before) by (nonlinear_arith)
                requires
                    n * t <= 8 * before,
                    n >= 32,
                    t >= 0,
            {
                assert(32 * t <= n * t);
            }
            assert((q * 4) * t <= q * before) by (nonlinear_arith)
                requires
                    4 * t <= before,
                    q >= 0,
            ;
        }
        if i == 15 {
            let q = pow2(0) as int;
            assert(q * t == t) by (nonlinear_arith)
                requires
                    q == 1,
            ;
        }
    }
}

/// For a number up to eight the last two terms are next to nothing.
pub proof fn lemma_last_terms_to_eight(z: int)
    requires
        0 <= z <= 8 * ONE_BITS,
    ensures
        exp_fits(z, EXP_ORDER as nat),
        0 <= exp_term(z, 62) <= 0x400,
        0 <= exp_term(z, 63) <= 0x400,
{
    lemma_up_to_eight(z, 62);
    lemma_up_to_eight(z, 63);
    lemma_term(z, 62);
    lemma_term(z, 63);
    lemma_terms_to_eight(z, 63);
    lemma2_to64();
    lemma2_to64_rest();
    lemma_pow2_adds(64, 14);
    let t = exp_term(z, 62);
    let one = ONE_BITS as int;
    assert(pow2(78) == one * 0x4000);
    assert(t <= 0x400) by (nonlinear_arith)
        requires
            (one * 0x4000) * t <= 0x100_0000 * one,
            one > 0,
    {
        assert(one * (0x4000 * t) <= one * 0x100_0000);
    }
    let u = exp_term(z, 63);
    assert(u <= 63 * u) by (nonlinear_arith)
        requires
            u >= 0,
    ;
}

} // verus!
