//! Signed fixed-point numbers with 64 integer and 64 fractional bits.
//!
//! The arithmetic is that of `substrate_fixed::types::I64F64`. A [`Fixed`] holds the bits of such
//! a number, so that contracts can speak of its value: the number is `bits / 2^64`.
//!
//! The root, the exponential and the logarithm are those of `substrate_fixed::transcendental`. A
//! runtime that takes them from another crate, such as `safe_math`, rounds them in other places, so
//! its amounts may differ from those computed here in the last digits.
use substrate_fixed::transcendental;
use substrate_fixed::types::{I64F64, U96F32};
use vstd::arithmetic::power::pow;
use vstd::prelude::*;

verus! {

/// The bits of the number one: two to the power of the number of fractional bits.
pub const ONE_BITS: i128 = 0x1_0000_0000_0000_0000;

/// Amounts from here on (two to the power of 63) do not fit the integer part of a [`Fixed`].
pub const AMOUNT_LIMIT: u64 = 0x8000_0000_0000_0000;

/// Prices from here on, as bits with 32 fractional ones, do not fit a [`Fixed`].
pub const PRICE_LIMIT: u128 = 0x8000_0000_0000_0000_0000_0000;

/// The lowest factor for which the product of two negative numbers is used here.
pub const NEGATIVE_FACTOR_LIMIT: i128 = -0x4000_0000_0000_0000_0000_0000_0000_0000;

/// The bits of the root of the least positive number.
pub const LEAST_ROOT_BITS: i128 = 4_294_967_296;

/// The bits of the root of the number with the bits two, rounded down.
pub const SECOND_ROOT_BITS: i128 = 6_074_000_999;

/// A signed fixed-point number, held as its bits.
#[derive(Clone, Copy, Debug, PartialEq, Eq, Structural)]
pub struct Fixed {
    pub bits: i128,
}

/// The bits nearest to `x` that a [`Fixed`] can hold.
pub open spec fn saturated(x: int) -> i128 {
    if x < i128::MIN {
        i128::MIN
    } else if x > i128::MAX {
        i128::MAX
    } else {
        x as i128
    }
}

/// The quotient of `n` and `d`, rounded toward zero.
pub open spec fn truncated_quotient(n: int, d: int) -> int
    recommends
        d != 0,
{
    let an = if n < 0 {
        -n
    } else {
        n
    };
    let ad = if d < 0 {
        -d
    } else {
        d
    };
    if (n < 0) == (d < 0) {
        an / ad
    } else {
        -(an / ad)
    }
}

/// `bits`, and zero for less than zero.
pub open spec fn bounded_below(bits: i128) -> i128 {
    if bits < 0 {
        0
    } else {
        bits
    }
}

/// The order of the last term of the series of the exponential.
pub const EXP_ORDER: u64 = 63;

/// The term of order `i` of the series of `e^y`, in bits: the one before it times `y` over `i`, the
/// product and the quotient rounded down.
pub open spec fn exp_term(y: int, i: nat) -> int
    decreases i,
{
    if i == 0 {
        ONE_BITS as int
    } else {
        ((exp_term(y, (i - 1) as nat) * y) / (ONE_BITS as int)) / (i as int)
    }
}

/// The sum of the terms up to order `i`.
pub open spec fn exp_sum(y: int, i: nat) -> int
    decreases i,
{
    if i == 0 {
        ONE_BITS as int
    } else {
        exp_sum(y, (i - 1) as nat) + exp_term(y, i)
    }
}

/// The products and the sums up to order `i` fit.
pub open spec fn exp_fits(y: int, i: nat) -> bool
    decreases i,
{
    i == 0 || (exp_fits(y, (i - 1) as nat) && (exp_term(y, (i - 1) as nat) * y) / (ONE_BITS as int)
        <= i128::MAX && exp_sum(y, i) <= i128::MAX)
}

/// Whether `n` fits the integer part of a [`Fixed`].
pub open spec fn fits(n: u64) -> bool {
    n < AMOUNT_LIMIT
}

/// `root` is less than two units in the last place off the true square root of the number with
/// the given bits. In bits that root is the root of `bits * 2^64`.
pub open spec fn near_root(bits: i128, root: i128) -> bool {
    let square = bits * ONE_BITS;
    &&& root >= 0
    &&& square < (root + 2) * (root + 2)
    &&& root >= 2 ==> (root - 2) * (root - 2) < square
}

/// One and the `n`th part of `x`, taken `n` times: it comes to `e^x` from below as `n` grows. The
/// numerator, over that of `x == 0`.
pub open spec fn powered(x: int, n: nat) -> int {
    pow(n * ONE_BITS + x, n)
}

/// A logarithm less a part in `2^26` of it and less four units.
pub open spec fn log_floor(log: i128) -> int {
    log - (log as int) / 0x400_0000 - 4
}

/// A logarithm and four units.
pub open spec fn log_ceiling(log: i128) -> int {
    log + 4
}

/// The natural logarithm of the number with the given bits, one or more, lies between the floor
/// and the ceiling of `log`: the exponential of the floor is at most the number, and that of the
/// ceiling at least. So is then every power of one and a part of the floor, and the inverse of
/// every power of one less a part of the ceiling.
pub open spec fn near_logarithm(bits: i128, log: i128) -> bool {
    &&& log >= 0
    &&& forall|n: nat|
        log_floor(log) >= 0 ==> #[trigger] powered(log_floor(log), n) * ONE_BITS <= bits * powered(
            0,
            n,
        )
    &&& forall|n: nat|
        n * ONE_BITS >= log_ceiling(log) ==> bits * #[trigger] powered(-log_ceiling(log), n)
            <= ONE_BITS * powered(0, n)
}

/// What `substrate_fixed::transcendental::sqrt` returns for the `I64F64` with the given bits, as
/// bits.
pub uninterp spec fn square_root_of(bits: i128) -> Option<i128>;

/// What `substrate_fixed::transcendental::ln` returns for the `I64F64` with the given bits, as
/// bits.
pub uninterp spec fn logarithm_of(bits: i128) -> Option<i128>;

/// `substrate_fixed::transcendental::sqrt` on an `I64F64`. It fails on a negative number and on
/// one whose inverse does not fit, and on no other; a root is never negative, and the root of
/// zero is zero.
///
/// Every root is less than two units in the last place off the true one. From one on it takes 64
/// steps from `l` to the mean of `l` and `x / l`, which in bits is the integer iteration
/// `(l + (x * 2^64) / l) / 2` with both quotients rounded down. It starts above the root, halves
/// the distance until it is near, then squares the error, and ends at the root rounded down or
/// one more. Below one it takes the root of the inverse and inverts that; the two roundings of
/// the inverses and that of the root come to less than two units.
#[verifier::external_body]
fn square_root(bits: i128) -> (r: Option<i128>)
    ensures
        r == square_root_of(bits),
        r is None <==> bits < 0 || bits == 1 || bits == 2,
        r matches Some(v) ==> near_root(bits, v),
        bits == 0 ==> r == Some(0i128),
{
    match transcendental::sqrt::<I64F64, I64F64>(I64F64::from_bits(bits)) {
        Ok(v) => Some(v.to_bits()),
        Err(_) => None,
    }
}

/// `substrate_fixed::transcendental::exp` on an `I64F64` that is not positive. That of `-y` is the
/// inverse, rounded down, of the series of `e^y` up to the order 63, in which every product and
/// every quotient is rounded down. It fails where a product or a sum does not fit.
#[verifier::external_body]
fn exponential(bits: i128) -> (r: Option<i128>)
    requires
        bits <= 0,
    ensures
        r == (if exp_fits(-bits, EXP_ORDER as nat) {
            Some(((ONE_BITS * ONE_BITS) / exp_sum(-bits, EXP_ORDER as nat)) as i128)
        } else {
            None
        }),
{
    match transcendental::exp::<I64F64, I64F64>(I64F64::from_bits(bits)) {
        Ok(v) => Some(v.to_bits()),
        Err(_) => None,
    }
}

/// `substrate_fixed::transcendental::ln` on an `I64F64`. It fails on a number that is not positive
/// and on one whose inverse does not fit, and on no other. It is not negative from one on, and not
/// positive below.
///
/// From one on it is near the true logarithm. It halves the number down to below two, rounding up,
/// and takes the 64 fractional bits of the binary logarithm one by one, each by squaring what is
/// left, rounded down, and halving it, rounded up, where that is two or more. An error of one
/// squaring or halving counts half as much as that of the one before, and the binary logarithm
/// comes out less than three units off. That is divided, rounding down, by the binary logarithm of
/// e to 23 fractional bits, which is too small by less than a part in `2^26`.
#[verifier::external_body]
fn logarithm(bits: i128) -> (r: Option<i128>)
    ensures
        r == logarithm_of(bits),
        r is None <==> bits <= 2,
        r matches Some(v) ==> (bits >= ONE_BITS ==> near_logarithm(bits, v)) && (bits <= ONE_BITS
            ==> v <= 0),
{
    match transcendental::ln::<I64F64, I64F64>(I64F64::from_bits(bits)) {
        Ok(v) => Some(v.to_bits()),
        Err(_) => None,
    }
}

impl Fixed {
    /// The number zero.
    pub open spec fn nil() -> Fixed {
        Fixed { bits: 0 }
    }

    /// The whole number `n`.
    pub open spec fn whole(n: int) -> Fixed {
        Fixed { bits: (n * ONE_BITS) as i128 }
    }

    /// The sum, saturating.
    pub open spec fn plus(self, rhs: Fixed) -> Fixed {
        Fixed { bits: saturated(self.bits + rhs.bits) }
    }

    /// The difference, saturating.
    pub open spec fn minus(self, rhs: Fixed) -> Fixed {
        Fixed { bits: saturated(self.bits - rhs.bits) }
    }

    /// The product rounded down, saturating.
    pub open spec fn times(self, rhs: Fixed) -> Fixed {
        Fixed { bits: saturated((self.bits * rhs.bits) / (ONE_BITS as int)) }
    }

    /// The quotient rounded toward zero, or nothing where there is none that fits.
    pub open spec fn quotient(self, rhs: Fixed) -> Option<Fixed> {
        if rhs.bits == 0 {
            None
        } else {
            let q = truncated_quotient(self.bits * ONE_BITS, rhs.bits as int);
            if i128::MIN <= q <= i128::MAX {
                Some(Fixed { bits: q as i128 })
            } else {
                None
            }
        }
    }

    /// The quotient rounded toward zero, and zero where there is none that fits.
    pub open spec fn over(self, rhs: Fixed) -> Fixed {
        match self.quotient(rhs) {
            Some(q) => q,
            None => Fixed::nil(),
        }
    }

    /// The smaller of two numbers.
    pub open spec fn lesser(self, rhs: Fixed) -> Fixed {
        if rhs.bits < self.bits {
            rhs
        } else {
            self
        }
    }

    /// The whole part, and zero for a negative number.
    pub open spec fn floor_amount(self) -> u64 {
        if self.bits <= 0 {
            0
        } else {
            (self.bits / ONE_BITS) as u64
        }
    }

    /// The square root of a number that is not negative: never negative, and zero has the root
    /// zero. The two least positive numbers have no inverse to take the root of, so theirs are
    /// given.
    pub open spec fn root(self) -> Option<Fixed> {
        if self.bits < 0 {
            None
        } else if self.bits == 0 {
            Some(Fixed::nil())
        } else if self.bits == 1 {
            Some(Fixed { bits: LEAST_ROOT_BITS })
        } else if self.bits == 2 {
            Some(Fixed { bits: SECOND_ROOT_BITS })
        } else {
            Some(Fixed { bits: bounded_below(square_root_of(self.bits)->0) })
        }
    }

    /// The exponential of a number that is not positive: the inverse of the series, rounded down,
    /// where that fits.
    pub open spec fn shrinking_exp(self) -> Option<Fixed>
        recommends
            self.bits <= 0,
    {
        if exp_fits(-self.bits, EXP_ORDER as nat) {
            Some(
                Fixed {
                    bits: ((ONE_BITS * ONE_BITS) / exp_sum(-self.bits, EXP_ORDER as nat)) as i128,
                },
            )
        } else {
            None
        }
    }

    /// The natural logarithm of a number that is one or more: never negative.
    pub open spec fn growing_log(self) -> Fixed
        recommends
            self.bits >= ONE_BITS,
    {
        Fixed { bits: bounded_below(logarithm_of(self.bits)->0) }
    }

    /// The number zero.
    pub fn zero() -> (r: Fixed)
        ensures
            r == Fixed::nil(),
    {
        Fixed { bits: 0 }
    }

    /// `I64F64::from_num` of a whole number: the number itself. It panics, or wraps, on one
    /// that does not fit the 63 bits of the integer part.
    #[verifier::external_body]
    pub(crate) fn from_num(n: u64) -> (r: Fixed)
        requires
            fits(n),
        ensures
            r == Fixed::whole(n as int),
    {
        Fixed { bits: I64F64::from_num(n).to_bits() }
    }

    /// `I64F64::from_num` of a `U96F32`, given by its bits: the same number, with 32 more
    /// fractional bits. It panics, or wraps, on a number that does not fit.
    #[verifier::external_body]
    pub(crate) fn from_price(price_bits: u128) -> (r: Fixed)
        requires
            price_bits < PRICE_LIMIT,
        ensures
            r.bits == price_bits * 0x1_0000_0000,
    {
        Fixed { bits: I64F64::from_num(U96F32::from_bits(price_bits)).to_bits() }
    }

    /// `I64F64::saturating_add`: the sum of the bits, or the nearest bound.
    #[verifier::external_body]
    pub(crate) fn saturating_add(self, rhs: Fixed) -> (r: Fixed)
        ensures
            r == self.plus(rhs),
    {
        Fixed { bits: I64F64::from_bits(self.bits).saturating_add(I64F64::from_bits(rhs.bits)).to_bits() }
    }

    /// `I64F64::saturating_sub`: the difference of the bits, or the nearest bound.
    #[verifier::external_body]
    pub(crate) fn saturating_sub(self, rhs: Fixed) -> (r: Fixed)
        ensures
            r == self.minus(rhs),
    {
        Fixed { bits: I64F64::from_bits(self.bits).saturating_sub(I64F64::from_bits(rhs.bits)).to_bits() }
    }

    /// `I64F64::saturating_mul`: the product of the bits without its lowest 64 bits, that is
    /// rounded down, or the nearest bound. On two numbers that are both far below zero a debug
    /// assertion inside it can fail, so those are left out.
    #[verifier::external_body]
    pub(crate) fn saturating_mul(self, rhs: Fixed) -> (r: Fixed)
        requires
            self.bits >= 0 || rhs.bits >= 0 || (self.bits >= NEGATIVE_FACTOR_LIMIT && rhs.bits
                >= NEGATIVE_FACTOR_LIMIT),
        ensures
            r == self.times(rhs),
    {
        Fixed { bits: I64F64::from_bits(self.bits).saturating_mul(I64F64::from_bits(rhs.bits)).to_bits() }
    }

    /// `I64F64::checked_div`: the quotient rounded toward zero, and `None` on a zero divisor or
    /// where the quotient does not fit.
    #[verifier::external_body]
    pub(crate) fn checked_div(self, rhs: Fixed) -> (r: Option<Fixed>)
        ensures
            r == self.quotient(rhs),
    {
        match I64F64::from_bits(self.bits).checked_div(I64F64::from_bits(rhs.bits)) {
            Some(q) => Some(Fixed { bits: q.to_bits() }),
            None => None,
        }
    }

    /// `I64F64::saturating_to_num` into a `u64`: the whole part, and zero for a negative
    /// number. The whole part has 63 bits, so nothing saturates above.
    #[verifier::external_body]
    pub(crate) fn to_amount(self) -> (r: u64)
        ensures
            r == self.floor_amount(),
    {
        I64F64::from_bits(self.bits).saturating_to_num::<u64>()
    }

    /// The quotient, and zero where it does not exist or does not fit.
    pub fn safe_div(self, rhs: Fixed) -> (r: Fixed)
        ensures
            r == self.over(rhs),
    {
        match self.checked_div(rhs) {
            Some(q) => q,
            None => Fixed::zero(),
        }
    }

    /// The square root of a number that is not negative, less than two units in the last place
    /// off the true one.
    pub fn checked_sqrt(self) -> (r: Option<Fixed>)
        ensures
            r == self.root(),
            r is Some <==> self.bits >= 0,
            r matches Some(root) ==> near_root(self.bits, root.bits),
    {
        if self.bits == 1 {
            return Some(Fixed { bits: LEAST_ROOT_BITS });
        }
        if self.bits == 2 {
            return Some(Fixed { bits: SECOND_ROOT_BITS });
        }
        match square_root(self.bits) {
            Some(bits) => Some(Fixed { bits }),
            None => None,
        }
    }

    /// The exponential of a number that is not positive, where it fits.
    pub fn checked_exp(self) -> (r: Option<Fixed>)
        requires
            self.bits <= 0,
        ensures
            r == self.shrinking_exp(),
    {
        match exponential(self.bits) {
            Some(bits) => Some(Fixed { bits }),
            None => None,
        }
    }

    /// The natural logarithm: there is none of a number that is not positive or whose inverse does
    /// not fit, and one of every other.
    pub fn checked_ln(self) -> (r: Option<Fixed>)
        ensures
            r is None <==> self.bits <= 2,
            self.bits >= ONE_BITS ==> r == Some(self.growing_log()) && near_logarithm(
                self.bits,
                self.growing_log().bits,
            ),
            r matches Some(v) ==> (self.bits <= ONE_BITS ==> v.bits <= 0),
            r == (match logarithm_of(self.bits) {
                Some(bits) => Some(Fixed { bits }),
                None => None,
            }),
    {
        match logarithm(self.bits) {
            Some(bits) => Some(Fixed { bits }),
            None => None,
        }
    }

    /// The smaller of two numbers.
    pub fn min(self, rhs: Fixed) -> (r: Fixed)
        ensures
            r == self.lesser(rhs),
    {
        if rhs.bits < self.bits {
            rhs
        } else {
            self
        }
    }
}

/// A product of numbers that are not negative is not negative, and not more than one factor if
/// the other is at most one.
pub proof fn lemma_times(a: Fixed, b: Fixed)
    requires
        a.bits >= 0,
        b.bits >= 0,
    ensures
        0 <= a.times(b).bits,
        b.bits <= ONE_BITS ==> a.times(b).bits <= a.bits,
        a.bits <= ONE_BITS ==> a.times(b).bits <= b.bits,
{
    let x = a.bits as int;
    let y = b.bits as int;
    let one = ONE_BITS as int;
    assert(0 <= x * y) by (nonlinear_arith)
        requires
            0 <= x,
            0 <= y,
    ;
    vstd::arithmetic::div_mod::lemma_div_pos_is_pos(x * y, one);
    if y <= one {
        assert(x * y <= x * one) by (nonlinear_arith)
            requires
                0 <= x,
                y <= one,
        ;
        vstd::arithmetic::div_mod::lemma_div_is_ordered(x * y, x * one, one);
        vstd::arithmetic::div_mod::lemma_div_by_multiple(x, one);
    }
    if x <= one {
        assert(x * y <= y * one) by (nonlinear_arith)
            requires
                0 <= y,
                x <= one,
        ;
        vstd::arithmetic::div_mod::lemma_div_is_ordered(x * y, y * one, one);
        vstd::arithmetic::div_mod::lemma_div_by_multiple(y, one);
    }
}

/// A quotient of a number that is not negative and a positive one is not negative.
pub proof fn lemma_over(a: Fixed, b: Fixed)
    requires
        a.bits >= 0,
        b.bits > 0,
    ensures
        a.over(b).bits >= 0,
        a.over(b).bits == 0 || a.over(b).bits == (a.bits * ONE_BITS) / (b.bits as int),
        (a.bits * ONE_BITS) / (b.bits as int) <= i128::MAX ==> a.over(b).bits == (a.bits
            * ONE_BITS) / (b.bits as int),
{
    let n = a.bits * ONE_BITS;
    assert(n >= 0) by (nonlinear_arith)
        requires
            n == a.bits * ONE_BITS,
            a.bits >= 0,
    ;
    vstd::arithmetic::div_mod::lemma_div_pos_is_pos(n, b.bits as int);
}

/// The whole number `n` has the bits `n` times those of one.
pub proof fn lemma_whole(n: u64)
    requires
        fits(n),
    ensures
        Fixed::whole(n as int).bits == n * ONE_BITS,
        Fixed::whole(n as int).bits >= 0,
        n > 0 ==> Fixed::whole(n as int).bits >= ONE_BITS,
        Fixed::whole(n as int).floor_amount() == n,
{
    vstd::arithmetic::div_mod::lemma_div_by_multiple(n as int, ONE_BITS as int);
}

} // verus!
