//! Single-precision numbers as their bit patterns.
//!
//! Chart coordinates are single-precision. As with `Double`, a number crosses
//! the edge of this crate as its IEEE 754 pattern, here the 32 bits of binary32.
use crate::double::{self, Double};
use crate::magnitude::{
    difference, difference_bits, lemma_steps_monotone, parts, product, product_bits, quotient,
    quotient_bits, rounding_keeps_numbers, rounding_keeps_order, sum, sum_bits,
};
use crate::rounding::{nearest, nearest_bits, steps};
use vstd::arithmetic::power2::{lemma_pow2_adds, lemma_pow2_pos, pow2};
use vstd::math::abs;
use vstd::prelude::*;
use vstd::std_specs::cmp::PartialEqSpecImpl;

verus! {

/// The weight of the leading significand bit.
pub const LEAD: u64 = 0x80_0000;

/// The exponent field of infinities and of what is not a number.
pub const TOP: u64 = 255;

/// Magnitudes are whole numbers of `2^-LEAST`.
pub const LEAST: u32 = 149;

/// The bit pattern of positive infinity.
pub const INFINITE: u32 = 0x7f80_0000;

/// The weight of the sign bit.
pub const SIGN: u32 = 0x8000_0000;

/// A single-precision number.
#[derive(Clone, Copy, Debug)]
pub struct Single {
    pub bits: u32,
}

impl Single {
    pub open spec fn negative(self) -> bool {
        self.bits >= SIGN
    }

    /// The pattern without its sign.
    pub open spec fn magnitude(self) -> nat {
        if self.bits >= SIGN {
            (self.bits - SIGN) as nat
        } else {
            self.bits as nat
        }
    }

    pub open spec fn is_nan(self) -> bool {
        self.magnitude() > INFINITE
    }

    pub open spec fn is_finite(self) -> bool {
        self.magnitude() < INFINITE
    }

    /// The number as a whole number of `2^-LEAST`.
    pub open spec fn value(self) -> int {
        let m = steps(self.magnitude(), LEAD as nat) as int;
        if self.negative() {
            -m
        } else {
            m
        }
    }

    /// Where the number stands among all numbers; both zeros stand at the same place.
    pub open spec fn place(self) -> int {
        if self.negative() {
            -self.magnitude()
        } else {
            self.magnitude() as int
        }
    }

    pub open spec fn less(self, other: Single) -> bool {
        !self.is_nan() && !other.is_nan() && self.place() < other.place()
    }

    pub open spec fn at_most(self, other: Single) -> bool {
        !self.is_nan() && !other.is_nan() && self.place() <= other.place()
    }

    /// Whether both are the same number: the two zeros are, and nothing that is
    /// not a number is the same as anything.
    pub open spec fn equals(self, other: Single) -> bool {
        !self.is_nan() && !other.is_nan() && self.place() == other.place()
    }
}

/// `==` compares numbers, not bit patterns.
impl PartialEq for Single {
    fn eq(&self, other: &Single) -> (r: bool) {
        self.no_more_than(*other) && other.no_more_than(*self)
    }
}

impl PartialEqSpecImpl for Single {
    open spec fn obeys_eq_spec() -> bool {
        true
    }

    open spec fn eq_spec(&self, other: &Single) -> bool {
        self.equals(*other)
    }
}

/// A magnitude with a sign.
pub open spec fn signed(negative: bool, magnitude: nat) -> Single {
    Single {
        bits: if negative {
            (SIGN + magnitude) as u32
        } else {
            magnitude as u32
        },
    }
}

/// The number nearest to the whole number `n`.
pub open spec fn whole(n: nat) -> Single {
    signed(false, nearest(n * pow2(LEAST as nat), 1, LEAD as nat, TOP as nat))
}

/// `a / b`, rounded, for finite numbers that are not negative, `b` not zero.
pub open spec fn over(a: Single, b: Single) -> Single {
    signed(
        false,
        quotient(a.magnitude(), b.magnitude(), LEAD as nat, TOP as nat, LEAST as nat),
    )
}

/// `a * b`, rounded, for finite numbers that are not negative.
pub open spec fn times(a: Single, b: Single) -> Single {
    signed(
        false,
        product(a.magnitude(), b.magnitude(), LEAD as nat, TOP as nat, LEAST as nat),
    )
}

/// `a - b`, rounded, for finite numbers that are not negative.
pub open spec fn minus(a: Single, b: Single) -> Single {
    if b.bits <= a.bits {
        signed(false, difference(a.magnitude(), b.magnitude(), LEAD as nat, TOP as nat))
    } else {
        signed(true, difference(b.magnitude(), a.magnitude(), LEAD as nat, TOP as nat))
    }
}

/// `a + b`, rounded, for finite numbers that are not negative.
pub open spec fn plus(a: Single, b: Single) -> Single {
    signed(false, sum(a.magnitude(), b.magnitude(), LEAD as nat, TOP as nat))
}

/// The single-precision number nearest to a double-precision one.
pub open spec fn narrowed(d: Double) -> Single {
    if d.is_nan() {
        Single { bits: 0x7fc0_0000 }
    } else if d.is_infinite() {
        signed(d.negative(), INFINITE as nat)
    } else {
        signed(
            d.negative(),
            nearest(
                steps(d.magnitude(), double::LEAD as nat),
                pow2((double::LEAST - LEAST) as nat),
                LEAD as nat,
                TOP as nat,
            ),
        )
    }
}

/// The same number in double precision.
pub open spec fn widened(s: Single) -> Double {
    if s.is_nan() {
        double::not_a_number()
    } else if s.magnitude() == INFINITE {
        double::signed(s.negative(), double::INFINITE as nat)
    } else {
        double::signed(
            s.negative(),
            nearest(
                steps(s.magnitude(), LEAD as nat) * pow2((double::LEAST - LEAST) as nat),
                1,
                double::LEAD as nat,
                double::TOP as nat,
            ),
        )
    }
}

impl Single {
    fn with_sign(negative: bool, magnitude: u64) -> (r: Single)
        requires
            magnitude <= INFINITE,
        ensures
            r == signed(negative, magnitude as nat),
    {
        if negative {
            Single { bits: SIGN + magnitude as u32 }
        } else {
            Single { bits: magnitude as u32 }
        }
    }

    /// The place of a number that is one.
    fn standing(self) -> (r: Option<i64>)
        ensures
            r == if self.is_nan() {
                None
            } else {
                Some(self.place() as i64)
            },
            r matches Some(place) ==> place == self.place(),
    {
        let magnitude: u32 = if self.bits >= SIGN {
            self.bits - SIGN
        } else {
            self.bits
        };
        if magnitude > INFINITE {
            None
        } else if self.bits >= SIGN {
            Some(-(magnitude as i64))
        } else {
            Some(magnitude as i64)
        }
    }

    pub fn less_than(self, other: Single) -> (r: bool)
        ensures
            r == self.less(other),
    {
        match (self.standing(), other.standing()) {
            (Some(a), Some(b)) => a < b,
            _ => false,
        }
    }

    pub fn no_more_than(self, other: Single) -> (r: bool)
        ensures
            r == self.at_most(other),
    {
        match (self.standing(), other.standing()) {
            (Some(a), Some(b)) => a <= b,
            _ => false,
        }
    }

    /// The number nearest to `n`.
    pub fn from_u64(n: u64) -> (r: Single)
        ensures
            r == whole(n as nat),
            r.bits <= INFINITE,
    {
        proof {
            vstd::arithmetic::power2::lemma2_to64();
        }
        Single::with_sign(false, nearest_bits(n as u128, 1, LEAST as i32, LEAD, TOP))
    }

    pub fn divided_by(self, divisor: Single) -> (r: Single)
        requires
            self.bits < INFINITE,
            0 < divisor.bits < INFINITE,
        ensures
            r == over(self, divisor),
            r.bits <= INFINITE,
    {
        Single::with_sign(
            false,
            quotient_bits(self.bits as u64, divisor.bits as u64, LEAD, TOP, LEAST),
        )
    }

    pub fn multiplied_by(self, factor: Single) -> (r: Single)
        requires
            self.bits < INFINITE,
            factor.bits < INFINITE,
        ensures
            r == times(self, factor),
            r.bits <= INFINITE,
    {
        Single::with_sign(
            false,
            product_bits(self.bits as u64, factor.bits as u64, LEAD, TOP, LEAST),
        )
    }

    pub fn subtract(self, other: Single) -> (r: Single)
        requires
            self.bits < INFINITE,
            other.bits < INFINITE,
        ensures
            r == minus(self, other),
    {
        if other.bits <= self.bits {
            Single::with_sign(
                false,
                difference_bits(self.bits as u64, other.bits as u64, LEAD, TOP, LEAST),
            )
        } else {
            Single::with_sign(
                true,
                difference_bits(other.bits as u64, self.bits as u64, LEAD, TOP, LEAST),
            )
        }
    }

    pub fn increase(self, other: Single) -> (r: Single)
        requires
            self.bits < INFINITE,
            other.bits < INFINITE,
        ensures
            r == plus(self, other),
            r.bits <= INFINITE,
    {
        Single::with_sign(
            false,
            sum_bits(self.bits as u64, other.bits as u64, LEAD, TOP, LEAST),
        )
    }

    pub fn from_double(d: Double) -> (r: Single)
        ensures
            r == narrowed(d),
    {
        let negative: bool = d.bits >= double::SIGN;
        let bits: u64 = if negative {
            d.bits - double::SIGN
        } else {
            d.bits
        };
        if bits > double::INFINITE {
            return Single { bits: 0x7fc0_0000 };
        }
        if bits == double::INFINITE {
            return Single::with_sign(negative, INFINITE as u64);
        }
        let (m, k) = parts(bits, double::LEAD);
        let shift: u32 = double::LEAST - LEAST;
        let s: i32 = k as i32 - shift as i32;
        proof {
            vstd::arithmetic::power2::lemma2_to64();
            let p1 = m as nat * crate::rounding::up(s as int);
            let q1 = 1 * crate::rounding::down(s as int);
            let p2 = steps(bits as nat, double::LEAD as nat);
            let q2 = pow2(shift as nat);
            lemma_pow2_pos(shift as nat);
            crate::rounding::lemma_up_pos(-s as int);
            if s >= 0 {
                lemma_pow2_adds(s as nat, shift as nat);
                assert(p1 * q2 == p2 * q1) by (nonlinear_arith)
                    requires
                        p1 == m * pow2(s as nat),
                        q1 == 1,
                        p2 == m * pow2(k as nat),
                        pow2(k as nat) == pow2(s as nat) * q2,
                ;
            } else {
                let d = (-s) as nat;
                lemma_pow2_adds(k as nat, d);
                assert(p1 == m) by (nonlinear_arith)
                    requires
                        p1 == m as nat * crate::rounding::up(s as int),
                        crate::rounding::up(s as int) == 1,
                ;
                assert(p1 * q2 == p2 * q1) by (nonlinear_arith)
                    requires
                        p1 == m,
                        q1 == pow2(d),
                        p2 == m * pow2(k as nat),
                        q2 == pow2(k as nat) * pow2(d),
                ;
            }
            crate::magnitude::lemma_nearest_ratio(p1, q1, p2, q2, LEAD as nat, TOP as nat);
        }
        Single::with_sign(negative, nearest_bits(m as u128, 1, s, LEAD, TOP))
    }

    pub fn to_double(self) -> (r: Double)
        ensures
            r == widened(self),
    {
        let negative: bool = self.bits >= SIGN;
        let bits: u32 = if negative {
            self.bits - SIGN
        } else {
            self.bits
        };
        let magnitude: u64 = if bits > INFINITE {
            return Double { bits: 0x7ff8_0000_0000_0000 };
        } else if bits == INFINITE {
            double::INFINITE
        } else {
            let (m, k) = parts(bits as u64, LEAD);
            let shift: u32 = double::LEAST - LEAST;
            proof {
                lemma_pow2_adds(k as nat, shift as nat);
                assert(m * pow2((k + shift) as nat) == m * pow2(k as nat) * pow2(shift as nat))
                    by (nonlinear_arith)
                    requires pow2((k + shift) as nat) == pow2(k as nat) * pow2(shift as nat),
                ;
            }
            nearest_bits(m as u128, 1, k as i32 + shift as i32, double::LEAD, double::TOP)
        };
        if negative {
            Double { bits: double::SIGN + magnitude }
        } else {
            Double { bits: magnitude }
        }
    }
}

/// The bit pattern of one.
pub const ONE: u32 = 0x3f80_0000;

/// Powers of two are numbers of the format.
pub proof fn lemma_power(e: int)
    requires
        -100 <= e <= 100,
    ensures
        nearest(pow2((LEAST + e) as nat), 1, LEAD as nat, TOP as nat) == ONE + e * LEAD,
        steps((ONE + e * LEAD) as nat, LEAD as nat) == pow2((LEAST + e) as nat),
{
    let bits = (ONE + e * LEAD) as nat;
    let field = 127 + e;
    vstd::arithmetic::power2::lemma2_to64();
    assert(bits == LEAD * field);
    vstd::arithmetic::div_mod::lemma_fundamental_div_mod_converse(
        bits as int,
        LEAD as int,
        field,
        0,
    );
    let k = (field - 1) as nat;
    lemma_pow2_adds(23, k);
    assert(23 + k == LEAST + e);
    rounding_keeps_numbers(bits, LEAD as nat, TOP as nat);
}

/// Whole numbers that fit in 64 bits are finite, and those from one on are at least one.
pub proof fn lemma_whole(n: nat)
    requires
        n <= u64::MAX,
    ensures
        whole(n).bits < INFINITE,
        n == 0 ==> whole(n).bits == 0,
        n > 0 ==> whole(n).bits >= ONE,
        whole(1).bits == ONE,
{
    let unit = pow2(LEAST as nat);
    lemma_pow2_pos(LEAST as nat);
    vstd::arithmetic::power2::lemma2_to64_rest();
    lemma_pow2_adds(LEAST as nat, 64);
    lemma_power(64);
    lemma_power(0);
    assert(n * unit <= pow2((LEAST + 64) as nat)) by (nonlinear_arith)
        requires n <= pow2(64), pow2((LEAST + 64) as nat) == unit * pow2(64), unit > 0,
    ;
    rounding_keeps_order(n * unit, 1, pow2((LEAST + 64) as nat), 1, LEAD as nat, TOP as nat);
    assert(1 * unit == unit);
    if n > 0 {
        assert(unit <= n * unit) by (nonlinear_arith)
            requires n >= 1, unit > 0,
        ;
        rounding_keeps_order(unit, 1, n * unit, 1, LEAD as nat, TOP as nat);
    } else {
        assert(0 * unit == 0);
        rounding_keeps_numbers(0, LEAD as nat, TOP as nat);
    }
}

/// Larger whole numbers have no smaller nearest numbers.
pub proof fn lemma_whole_ordered(n: nat, m: nat)
    requires
        n <= m <= u64::MAX,
    ensures
        whole(n).bits <= whole(m).bits,
{
    let unit = pow2(LEAST as nat);
    assert(n * unit <= m * unit) by (nonlinear_arith)
        requires n <= m, unit >= 0,
    ;
    rounding_keeps_order(n * unit, 1, m * unit, 1, LEAD as nat, TOP as nat);
    lemma_whole(n);
    lemma_whole(m);
}

/// A whole number of no more bits than a significand is a number of the format.
pub proof fn lemma_exact(n: nat)
    requires
        n < 2 * LEAD,
    ensures
        steps(whole(n).magnitude(), LEAD as nat) == n * pow2(LEAST as nat),
{
    lemma_whole(n);
    assert(0 * pow2(LEAST as nat) == 0);
    if n > 0 {
        vstd::arithmetic::power2::lemma2_to64();
        assert(n * 1 == n);
        lemma_exact_shifted(n, 0);
    }
}

/// The same, for a number whose significand is known to need a shift by `j` or more.
proof fn lemma_exact_shifted(n: nat, j: nat)
    requires
        0 < n,
        j <= 24,
        n * pow2(j) < 2 * LEAD,
        whole(n).bits < INFINITE,
    ensures
        steps(whole(n).magnitude(), LEAD as nat) == n * pow2(LEAST as nat),
    decreases 24 - j,
{
    let m = n * pow2(j);
    vstd::arithmetic::power2::lemma2_to64();
    if m < LEAD {
        assert(j < 24) by {
            if j == 24 {
                assert(n * pow2(24) >= 1 * pow2(24)) by (nonlinear_arith)
                    requires n >= 1, pow2(24) > 0,
                ;
            }
        }
        vstd::arithmetic::power2::lemma_pow2_unfold((j + 1) as nat);
        assert(n * pow2((j + 1) as nat) == 2 * m) by (nonlinear_arith)
            requires m == n * pow2(j), pow2((j + 1) as nat) == 2 * pow2(j),
        ;
        lemma_exact_shifted(n, (j + 1) as nat);
    } else {
        let k = (LEAST - j) as nat;
        let bits = k * LEAD as nat + m;
        let l = LEAD as nat;
        vstd::arithmetic::div_mod::lemma_fundamental_div_mod_converse(
            bits as int,
            l as int,
            (k + 1) as int,
            m - l,
        );
        lemma_pow2_adds(j, k);
        assert(m * pow2(k) == n * pow2(LEAST as nat)) by (nonlinear_arith)
            requires m == n * pow2(j), pow2(LEAST as nat) == pow2(j) * pow2(k),
        ;
        assert(steps(bits, l) == m * pow2(k));
        assert(bits < TOP * LEAD) by (nonlinear_arith)
            requires bits == k * LEAD + m, k <= 149, m < 2 * LEAD, TOP == 255, LEAD > 0,
        ;
        rounding_keeps_numbers(bits, l, TOP as nat);
    }
}

/// A part of something is at most one of it.
pub proof fn lemma_part(a: Single, b: Single)
    requires
        a.bits <= b.bits,
        0 < b.bits < INFINITE,
    ensures
        over(a, b).bits <= ONE,
{
    let x = a.magnitude();
    let y = b.magnitude();
    let unit = pow2(LEAST as nat);
    let l = LEAD as nat;
    lemma_steps_monotone(x, y, l);
    lemma_steps_monotone(0, y, l);
    lemma_power(0);
    assert(steps(x, l) * unit * 1 <= unit * steps(y, l)) by (nonlinear_arith)
        requires steps(x, l) <= steps(y, l), unit >= 0,
    ;
    rounding_keeps_order(steps(x, l) * unit, steps(y, l), unit, 1, l, TOP as nat);
}

/// More divided by the same is no less.
pub proof fn lemma_over_ordered(a: Single, b: Single, c: Single)
    requires
        a.bits <= b.bits < INFINITE,
        0 < c.bits < INFINITE,
    ensures
        over(a, c).bits <= over(b, c).bits,
{
    let unit = pow2(LEAST as nat);
    let l = LEAD as nat;
    let x = steps(a.magnitude(), l);
    let y = steps(b.magnitude(), l);
    let z = steps(c.magnitude(), l);
    lemma_steps_monotone(a.magnitude(), b.magnitude(), l);
    lemma_steps_monotone(0, c.magnitude(), l);
    assert((x * unit) * z <= (y * unit) * z) by (nonlinear_arith)
        requires x <= y, unit >= 0, z >= 0,
    ;
    rounding_keeps_order(x * unit, z, y * unit, z, l, TOP as nat);
}

/// The less is taken from one, the more is left, but no more than one.
pub proof fn lemma_rest_ordered(a: Single, b: Single)
    requires
        a.bits <= b.bits <= ONE,
    ensures
        minus(whole(1), b).bits <= minus(whole(1), a).bits <= ONE,
        minus(whole(1), whole(0)) == whole(1),
{
    let l = LEAD as nat;
    let one = ONE as nat;
    lemma_whole(1);
    lemma_whole(0);
    lemma_steps_monotone(a.magnitude(), b.magnitude(), l);
    lemma_steps_monotone(b.magnitude(), one, l);
    rounding_keeps_numbers(one, l, TOP as nat);
    let x = (steps(one, l) - steps(a.magnitude(), l)) as nat;
    let y = (steps(one, l) - steps(b.magnitude(), l)) as nat;
    rounding_keeps_order(y, 1, x, 1, l, TOP as nat);
    rounding_keeps_order(x, 1, steps(one, l), 1, l, TOP as nat);
    assert(steps(0, l) == 0);
}

/// The order of bit patterns is the order of the numbers.
pub proof fn order_of_places(a: Single, b: Single)
    requires
        a.is_finite(),
        b.is_finite(),
    ensures
        a.less(b) <==> a.value() < b.value(),
        a.at_most(b) <==> a.value() <= b.value(),
        a.equals(b) <==> a.value() == b.value(),
{
    let x = a.magnitude();
    let y = b.magnitude();
    let l = LEAD as nat;
    if x <= y {
        lemma_steps_monotone(x, y, l);
    } else {
        lemma_steps_monotone(y, x, l);
    }
    lemma_steps_monotone(0, x, l);
    lemma_steps_monotone(0, y, l);
}

/// Narrowing picks the nearest single-precision number: no other one is nearer
/// to the double-precision one, and it has its sign. Only what is larger than
/// all single-precision numbers becomes infinite. In the units of the two
/// formats, a number of one is `2^925` times as many of the other.
pub proof fn narrowing_is_to_nearest(d: Double, z: Single)
    requires
        d.is_finite(),
        z.is_finite(),
    ensures
        narrowed(d).negative() == d.negative(),
        !narrowed(d).is_nan(),
        narrowed(d).is_finite() ==> abs(narrowed(d).value() * pow2(925) - d.value()) <= abs(
            z.value() * pow2(925) - d.value(),
        ),
        !narrowed(d).is_finite() ==> abs(d.value()) > abs(z.value() * pow2(925)),
{
    let l = LEAD as nat;
    let t = TOP as nat;
    let q = pow2(925);
    let p = steps(d.magnitude(), double::LEAD as nat);
    let n = nearest(p, q, l, t);
    let x = steps(n, l) as int;
    let y = steps(z.magnitude(), l) as int;
    lemma_pow2_pos(925);
    assert((-x) * q == -(x * q)) by (nonlinear_arith);
    assert((-y) * q == -(y * q)) by (nonlinear_arith);
    assert(x * q >= 0 && y * q >= 0) by (nonlinear_arith)
        requires x >= 0, y >= 0, q > 0,
    ;
    if n < INFINITE {
        crate::magnitude::rounding_is_to_nearest(p, q, z.magnitude(), l, t);
    } else {
        crate::magnitude::only_the_largest_round_to_infinity(p, q, z.magnitude(), l, t);
    }
}

/// Narrowing keeps the order of numbers, and every number of single precision.
pub proof fn narrowing_keeps_order_and_numbers(a: Double, b: Double, z: Single)
    requires
        a.is_finite(),
        b.is_finite(),
        z.is_finite(),
    ensures
        a.value() <= b.value() ==> narrowed(a).at_most(narrowed(b)),
        a.value() == z.value() * pow2(925) ==> narrowed(a).is_finite() && narrowed(a).value()
            == z.value(),
{
    let l = LEAD as nat;
    let t = TOP as nat;
    let q = pow2(925);
    lemma_pow2_pos(925);
    let x = steps(a.magnitude(), double::LEAD as nat);
    let y = steps(b.magnitude(), double::LEAD as nat);
    rounding_keeps_numbers(0, l, t);
    assert(steps(0, l) == 0);
    crate::magnitude::lemma_nearest_ratio(0, q, 0, 1, l, t);
    assert(x <= y ==> x * q <= y * q) by (nonlinear_arith)
        requires q > 0,
    ;
    assert(y <= x ==> y * q <= x * q) by (nonlinear_arith)
        requires q > 0,
    ;
    if x <= y {
        rounding_keeps_order(x, q, y, q, l, t);
    } else {
        rounding_keeps_order(y, q, x, q, l, t);
    }
    if a.value() == z.value() * q {
        narrowing_is_to_nearest(a, z);
        let n = narrowed(a);
        assert(n.value() == z.value()) by (nonlinear_arith)
            requires n.value() * q == z.value() * q, q > 0,
        ;
    }
}

/// No number is nearer to a quotient than the computed one; an infinite one is
/// larger than all numbers.
pub proof fn quotients_are_nearest(a: Single, b: Single, z: Single)
    requires
        a.bits < INFINITE,
        0 < b.bits < INFINITE,
        z.bits < INFINITE,
    ensures
        over(a, b).bits < INFINITE ==> abs(
            over(a, b).value() * b.value() - a.value() * pow2(LEAST as nat),
        ) <= abs(z.value() * b.value() - a.value() * pow2(LEAST as nat)),
        over(a, b).bits >= INFINITE ==> a.value() * pow2(LEAST as nat) > z.value() * b.value(),
{
    let l = LEAD as nat;
    let t = TOP as nat;
    let p = steps(a.magnitude(), l) * pow2(LEAST as nat);
    let q = steps(b.magnitude(), l);
    lemma_steps_monotone(0, b.magnitude(), l);
    if nearest(p, q, l, t) < INFINITE {
        crate::magnitude::rounding_is_to_nearest(p, q, z.magnitude(), l, t);
    } else {
        crate::magnitude::only_the_largest_round_to_infinity(p, q, z.magnitude(), l, t);
    }
}

/// No number is nearer to a product than the computed one; an infinite one is
/// larger than all numbers.
pub proof fn products_are_nearest(a: Single, b: Single, z: Single)
    requires
        a.bits < INFINITE,
        b.bits < INFINITE,
        z.bits < INFINITE,
    ensures
        times(a, b).bits < INFINITE ==> abs(
            times(a, b).value() * pow2(LEAST as nat) - a.value() * b.value(),
        ) <= abs(z.value() * pow2(LEAST as nat) - a.value() * b.value()),
        times(a, b).bits >= INFINITE ==> a.value() * b.value() > z.value() * pow2(LEAST as nat),
{
    let l = LEAD as nat;
    let t = TOP as nat;
    let p = steps(a.magnitude(), l) * steps(b.magnitude(), l);
    let q = pow2(LEAST as nat);
    lemma_pow2_pos(LEAST as nat);
    if nearest(p, q, l, t) < INFINITE {
        crate::magnitude::rounding_is_to_nearest(p, q, z.magnitude(), l, t);
    } else {
        crate::magnitude::only_the_largest_round_to_infinity(p, q, z.magnitude(), l, t);
    }
}

/// No number is nearer to a sum than the computed one; an infinite one is
/// larger than all numbers.
pub proof fn sums_are_nearest(a: Single, b: Single, z: Single)
    requires
        a.bits < INFINITE,
        b.bits < INFINITE,
        z.bits < INFINITE,
    ensures
        plus(a, b).bits < INFINITE ==> abs(plus(a, b).value() - (a.value() + b.value())) <= abs(
            z.value() - (a.value() + b.value()),
        ),
        plus(a, b).bits >= INFINITE ==> a.value() + b.value() > z.value(),
{
    let l = LEAD as nat;
    let t = TOP as nat;
    let p = steps(a.magnitude(), l) + steps(b.magnitude(), l);
    if nearest(p, 1, l, t) < INFINITE {
        crate::magnitude::rounding_is_to_nearest(p, 1, z.magnitude(), l, t);
    } else {
        crate::magnitude::only_the_largest_round_to_infinity(p, 1, z.magnitude(), l, t);
    }
}

/// The difference of two magnitudes, the larger first, and how near it is.
proof fn lemma_difference(a: nat, b: nat, z: nat)
    requires
        b <= a < INFINITE,
        z < INFINITE,
    ensures
        difference(a, b, LEAD as nat, TOP as nat) < INFINITE,
        ({
            let exact = steps(a, LEAD as nat) - steps(b, LEAD as nat);
            let made = steps(difference(a, b, LEAD as nat, TOP as nat), LEAD as nat);
            exact >= 0 && abs(made - exact) <= abs(steps(z, LEAD as nat) - exact)
        }),
{
    let l = LEAD as nat;
    let t = TOP as nat;
    lemma_steps_monotone(b, a, l);
    let p = (steps(a, l) - steps(b, l)) as nat;
    rounding_keeps_order(p, 1, steps(a, l), 1, l, t);
    rounding_keeps_numbers(a, l, t);
    crate::magnitude::rounding_is_to_nearest(p, 1, z, l, t);
}

/// No number is nearer to a difference than the computed one.
pub proof fn differences_are_nearest(a: Single, b: Single, z: Single)
    requires
        a.bits < INFINITE,
        b.bits < INFINITE,
        z.is_finite(),
    ensures
        minus(a, b).is_finite(),
        abs(minus(a, b).value() - (a.value() - b.value())) <= abs(
            z.value() - (a.value() - b.value()),
        ),
{
    if b.bits <= a.bits {
        lemma_difference(a.magnitude(), b.magnitude(), z.magnitude());
    } else {
        lemma_difference(b.magnitude(), a.magnitude(), z.magnitude());
    }
}

/// How much a whole number's nearest number is off.
pub proof fn lemma_whole_close(n: nat)
    requires
        n <= u64::MAX,
    ensures
        (2 * LEAD) * abs(steps(whole(n).magnitude(), LEAD as nat) - n * pow2(LEAST as nat)) <= n
            * pow2(LEAST as nat),
        steps(whole(n).magnitude(), LEAD as nat) <= 2 * (n * pow2(LEAST as nat)),
        n > 0 ==> steps(whole(n).magnitude(), LEAD as nat) >= pow2(LEAST as nat),
        pow2(LEAST as nat) >= 0x1_0000 * LEAD * pow2(64),
{
    let unit = pow2(LEAST as nat);
    let l = LEAD as nat;
    let w = steps(whole(n).magnitude(), l);
    lemma_whole(n);
    vstd::arithmetic::power2::lemma2_to64();
    vstd::arithmetic::power2::lemma2_to64_rest();
    lemma_pow2_adds(23, 16);
    lemma_pow2_adds(39, 64);
    lemma_pow2_adds(103, 46);
    lemma_pow2_pos(103);
    assert(unit >= 0x1_0000 * LEAD * pow2(64)) by (nonlinear_arith)
        requires
            unit == pow2(103) * pow2(46),
            pow2(103) == pow2(39) * pow2(64),
            pow2(39) == 0x1_0000 * LEAD,
            pow2(46) >= 1,
            pow2(64) > 0,
    ;
    lemma_power(0);
    if n > 0 {
        assert(n * unit >= unit) by (nonlinear_arith)
            requires n >= 1, unit > 0,
        ;
        crate::magnitude::rounding_is_close(n * unit, 1, l, TOP as nat);
        assert(2 * l * abs(w - n * unit) >= abs(w - n * unit)) by (nonlinear_arith)
            requires l >= 1, abs(w - n * unit) >= 0,
        ;
        lemma_steps_monotone(ONE as nat, whole(n).magnitude(), l);
    } else {
        assert(0 * unit == 0);
        assert(steps(0, l) == 0);
    }
}

/// The ratio of a part to a whole is their quotient, but for rounding.
pub proof fn lemma_share_close(part: nat, total: nat)
    requires
        part <= total,
        0 < total <= u64::MAX,
    ensures
        ({
            let q = steps(over(whole(part), whole(total)).magnitude(), LEAD as nat);
            let u = pow2(LEAST as nat);
            &&& q <= u
            &&& -(4 * (total * u)) <= (2 * LEAD) * (q * total - part * u) <= 4 * (total * u)
        }),
{
    let u = pow2(LEAST as nat);
    let l = LEAD as nat;
    let e = (2 * l) as int;
    let x = over(whole(part), whole(total));
    let wt = steps(whole(total).magnitude(), l);
    let wi = steps(whole(part).magnitude(), l);
    let q = steps(x.magnitude(), l);
    lemma_whole(part);
    lemma_whole(total);
    lemma_whole_ordered(part, total);
    lemma_part(whole(part), whole(total));
    lemma_whole_close(part);
    lemma_whole_close(total);
    lemma_power(0);
    lemma_pow2_pos(LEAST as nat);
    lemma_steps_monotone(x.magnitude(), ONE as nat, l);
    vstd::arithmetic::power2::lemma2_to64_rest();
    if part > 0 {
        assert(wi * u >= l * wt) by (nonlinear_arith)
            requires
                wi >= u,
                wt <= 2 * (total * u),
                total <= pow2(64),
                u >= 0x1_0000 * l * pow2(64),
                u > 0,
                l > 0,
                pow2(64) >= 0,
        ;
        crate::magnitude::rounding_is_close(wi * u, wt, l, TOP as nat);
        double::lemma_abs(e, q * wt - wi * u, (wi * u) as int);
    } else {
        assert(0 * u == 0);
        lemma_steps_monotone(0, whole(total).magnitude(), l);
        crate::magnitude::rounding_is_close(0, wt, l, TOP as nat);
        assert(q * wt == 0) by (nonlinear_arith)
            requires 2 * (q * wt) <= wt, wt > 0, q >= 0,
        ;
        assert(e * 0 == 0);
    }
    double::lemma_abs(e, wt - total * u, (total * u) as int);
    double::lemma_abs(e, wi - part * u, (part * u) as int);
    double::lemma_share_error(
        e,
        u as int,
        total as int,
        part as int,
        wt as int,
        wi as int,
        q as int,
    );
}

/// A number of no more bits than a significand, scaled by a power of two, is a
/// number of the double-precision format.
proof fn lemma_wide_exact(n: nat, c: nat, j: nat)
    requires
        0 < n,
        n * pow2(j) < 2 * double::LEAD,
        j <= 53 <= c,
        c <= 1300,
    ensures
        nearest(n * pow2(c), 1, double::LEAD as nat, double::TOP as nat) < double::INFINITE,
        steps(
            nearest(n * pow2(c), 1, double::LEAD as nat, double::TOP as nat),
            double::LEAD as nat,
        ) == n * pow2(c),
    decreases 53 - j,
{
    let l = double::LEAD as nat;
    let t = double::TOP as nat;
    let m = n * pow2(j);
    vstd::arithmetic::power2::lemma2_to64();
    vstd::arithmetic::power2::lemma2_to64_rest();
    if m < l {
        assert(j < 53) by {
            if j == 53 {
                assert(n * pow2(53) >= 1 * pow2(53)) by (nonlinear_arith)
                    requires n >= 1, pow2(53) > 0,
                ;
            }
        }
        vstd::arithmetic::power2::lemma_pow2_unfold((j + 1) as nat);
        assert(n * pow2((j + 1) as nat) == 2 * m) by (nonlinear_arith)
            requires m == n * pow2(j), pow2((j + 1) as nat) == 2 * pow2(j),
        ;
        lemma_wide_exact(n, c, (j + 1) as nat);
    } else {
        let k = (c - j) as nat;
        let bits = k * l + m;
        assert(bits as int == (k + 1) * l + (m - l)) by (nonlinear_arith)
            requires bits == k * l + m,
        ;
        vstd::arithmetic::div_mod::lemma_fundamental_div_mod_converse(
            bits as int,
            l as int,
            (k + 1) as int,
            m - l,
        );
        lemma_pow2_adds(j, k);
        assert(m * pow2(k) == n * pow2(c)) by (nonlinear_arith)
            requires m == n * pow2(j), pow2(c) == pow2(j) * pow2(k),
        ;
        if bits < 2 * l {
            assert(k == 0) by (nonlinear_arith)
                requires bits == k * l + m, m >= l, bits < 2 * l, l > 0,
            ;
            assert(m * 1 == m);
        }
        assert(steps(bits, l) == m * pow2(k));
        assert(bits < t * l) by (nonlinear_arith)
            requires bits == k * l + m, k <= 1300, m < 2 * l, t == 2047, l > 0,
        ;
        rounding_keeps_numbers(bits, l, t);
    }
}

/// Widening keeps every finite number as it is. In the units of the two formats,
/// a number of one is `2^925` times as many of the other.
pub proof fn widening_keeps_numbers(s: Single)
    requires
        s.is_finite(),
    ensures
        widened(s).is_finite(),
        widened(s).negative() == s.negative(),
        widened(s).value() == s.value() * pow2(925),
{
    let l = LEAD as nat;
    let bits = s.magnitude();
    let (n, k): (nat, nat) = if bits < 2 * l {
        (bits, 0)
    } else {
        (l + bits % l, (bits / l - 1) as nat)
    };
    let p = steps(bits, l) * pow2(925);
    vstd::arithmetic::power2::lemma2_to64();
    assert(bits / l < 255) by {
        vstd::arithmetic::div_mod::lemma_fundamental_div_mod(bits as int, l as int);
    }
    lemma_pow2_adds(k, 925);
    assert(steps(bits, l) == n * pow2(k)) by {
        if bits < 2 * l {
            assert(n * 1 == n);
        }
    }
    assert(p == n * pow2(k + 925)) by (nonlinear_arith)
        requires
            p == steps(bits, l) * pow2(925),
            steps(bits, l) == n * pow2(k),
            pow2(k + 925) == pow2(k) * pow2(925),
    ;
    if n > 0 {
        assert(n * 1 == n);
        lemma_wide_exact(n, k + 925, 0);
    } else {
        assert(0 * pow2(k + 925) == 0);
        rounding_keeps_numbers(0, double::LEAD as nat, double::TOP as nat);
        assert(steps(0, double::LEAD as nat) == 0);
    }
    let m = steps(bits, l) as int;
    assert((-m) * pow2(925) == -(m * pow2(925))) by (nonlinear_arith);
}

/// Half of a single-precision number is a double-precision number.
pub proof fn lemma_half(s: Single)
    requires
        s.is_finite(),
    ensures
        2 * double::over(widened(s), double::whole(2)).value() == s.value() * pow2(925),
{
    let l = LEAD as nat;
    let bits = s.magnitude();
    let (n, k): (nat, nat) = if bits < 2 * l {
        (bits, 0)
    } else {
        (l + bits % l, (bits / l - 1) as nat)
    };
    vstd::arithmetic::power2::lemma2_to64();
    assert(bits / l < 255) by {
        vstd::arithmetic::div_mod::lemma_fundamental_div_mod(bits as int, l as int);
    }
    widening_keeps_numbers(s);
    lemma_pow2_adds(k, 925);
    vstd::arithmetic::power2::lemma_pow2_unfold(k + 925);
    assert(steps(bits, l) == n * pow2(k)) by {
        if bits < 2 * l {
            assert(n * 1 == n);
        }
    }
    let h = n * pow2((k + 924) as nat);
    assert(steps(bits, l) * pow2(925) == 2 * h) by (nonlinear_arith)
        requires
            steps(bits, l) == n * pow2(k),
            pow2(k + 925) == pow2(k) * pow2(925),
            pow2(k + 925) == 2 * pow2((k + 924) as nat),
            h == n * pow2((k + 924) as nat),
    ;
    let near = nearest(h, 1, double::LEAD as nat, double::TOP as nat);
    if n > 0 {
        assert(n * 1 == n);
        lemma_wide_exact(n, (k + 924) as nat, 0);
    } else {
        assert(0 * pow2((k + 924) as nat) == 0);
        rounding_keeps_numbers(0, double::LEAD as nat, double::TOP as nat);
        assert(steps(0, double::LEAD as nat) == 0);
    }
    let z = double::signed(s.negative(), near);
    let w = widened(s);
    let x = double::over(w, double::whole(2));
    let u = pow2(double::LEAST as nat);
    let m = steps(bits, l) as int;
    assert((-m) * pow2(925) == -(m * pow2(925))) by (nonlinear_arith);
    assert(2 * z.value() == w.value());
    double::lemma_whole(2);
    double::lemma_exact(2);
    lemma_pow2_pos(double::LEAST as nat);
    double::quotients_are_nearest(w, double::whole(2), z);
    assert(z.value() * (2 * u) == w.value() * u) by (nonlinear_arith)
        requires 2 * z.value() == w.value(),
    ;
    assert(x.value() * (2 * u) == w.value() * u);
    assert(2 * x.value() == w.value()) by (nonlinear_arith)
        requires x.value() * (2 * u) == w.value() * u, u > 0,
    ;
}

} // verus!
