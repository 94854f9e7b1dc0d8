//! Double-precision numbers as their bit patterns.
//!
//! A number crosses the edge of this crate as the 64 bits of its IEEE 754
//! binary64 pattern. Arithmetic rounds the exact result to nearest, ties to
//! even, and every result is specified by that exact result.
use crate::magnitude::{
    difference, difference_bits, lemma_steps_monotone, parts, product, product_bits, quotient,
    quotient_bits, sum, sum_bits,
};
use crate::numeral::scaled_decimal;
use crate::rounding::{half_even, nearest, nearest_bits, steps};
use crate::text::{
    all_digits, decimal, decimal_text, digit, digit_char, digits_value, two_digit_text, two_digits,
};
use vstd::arithmetic::power2::{lemma_pow2_adds, lemma_pow2_pos, lemma_pow2_unfold, pow2};
use vstd::math::abs;
use vstd::prelude::*;
use vstd::std_specs::cmp::PartialEqSpecImpl;

verus! {

/// The weight of the leading significand bit.
pub const LEAD: u64 = 0x10_0000_0000_0000;

/// The exponent field of infinities and of what is not a number.
pub const TOP: u64 = 2047;

/// Magnitudes are whole numbers of `2^-LEAST`.
pub const LEAST: u32 = 1074;

/// The bit pattern of positive infinity.
pub const INFINITE: u64 = 0x7ff0_0000_0000_0000;

/// The weight of the sign bit.
pub const SIGN: u64 = 0x8000_0000_0000_0000;

/// A double-precision number.
#[derive(Clone, Copy, Debug)]
pub struct Double {
    pub bits: u64,
}

impl Double {
    pub open spec fn negative(self) -> bool {
        self.bits >= SIGN
    }

    /// The pattern without its sign.
    pub open spec fn magnitude(self) -> nat {
        if self.bits >= SIGN {
            (self.bits - SIGN) as nat
        } else {
            self.bits as nat
        }
    }

    pub open spec fn is_nan(self) -> bool {
        self.magnitude() > INFINITE
    }

    pub open spec fn is_infinite(self) -> bool {
        self.magnitude() == INFINITE
    }

    pub open spec fn is_finite(self) -> bool {
        self.magnitude() < INFINITE
    }

    /// The number as a whole number of `2^-LEAST`.
    pub open spec fn value(self) -> int {
        let m = steps(self.magnitude(), LEAD as nat) as int;
        if self.negative() {
            -m
        } else {
            m
        }
    }

    /// The place of the number in the order of all numbers; both zeros share one place.
    pub open spec fn place(self) -> int {
        if self.negative() {
            -(self.magnitude() as int)
        } else {
            self.magnitude() as int
        }
    }

    /// `self < other`, which nothing that is not a number satisfies.
    pub open spec fn less(self, other: Double) -> bool {
        !self.is_nan() && !other.is_nan() && self.place() < other.place()
    }

    /// `self <= other`, which nothing that is not a number satisfies.
    pub open spec fn at_most(self, other: Double) -> bool {
        !self.is_nan() && !other.is_nan() && self.place() <= other.place()
    }

    /// Whether both are the same number: the two zeros are, and nothing that is
    /// not a number is the same as anything.
    pub open spec fn equals(self, other: Double) -> bool {
        !self.is_nan() && !other.is_nan() && self.place() == other.place()
    }
}

/// `==` compares numbers, not bit patterns.
impl PartialEq for Double {
    fn eq(&self, other: &Double) -> (r: bool) {
        self.no_more_than(*other) && other.no_more_than(*self)
    }
}

impl PartialEqSpecImpl for Double {
    open spec fn obeys_eq_spec() -> bool {
        true
    }

    open spec fn eq_spec(&self, other: &Double) -> bool {
        self.equals(*other)
    }
}

/// A magnitude with a sign.
pub open spec fn signed(negative: bool, magnitude: nat) -> Double {
    Double {
        bits: if negative {
            (SIGN + magnitude) as u64
        } else {
            magnitude as u64
        },
    }
}

/// The pattern that stands for every result that is not a number.
pub open spec fn not_a_number() -> Double {
    Double { bits: 0x7ff8_0000_0000_0000 }
}

/// The number nearest to the whole number `n`.
pub open spec fn whole(n: nat) -> Double {
    signed(false, nearest(n * pow2(LEAST as nat), 1, LEAD as nat, TOP as nat))
}

/// `a / b`, rounded.
pub open spec fn over(a: Double, b: Double) -> Double {
    let negative = a.negative() != b.negative();
    if a.is_nan() || b.is_nan() || (a.is_infinite() && b.is_infinite()) || (a.magnitude() == 0
        && b.magnitude() == 0) {
        not_a_number()
    } else if a.is_infinite() || b.magnitude() == 0 {
        signed(negative, INFINITE as nat)
    } else if b.is_infinite() {
        signed(negative, 0)
    } else {
        signed(
            negative,
            quotient(a.magnitude(), b.magnitude(), LEAD as nat, TOP as nat, LEAST as nat),
        )
    }
}

/// `a * b`, rounded.
pub open spec fn times(a: Double, b: Double) -> Double {
    let negative = a.negative() != b.negative();
    if a.is_nan() || b.is_nan() || (a.is_infinite() && b.magnitude() == 0) || (b.is_infinite()
        && a.magnitude() == 0) {
        not_a_number()
    } else if a.is_infinite() || b.is_infinite() {
        signed(negative, INFINITE as nat)
    } else {
        signed(
            negative,
            product(a.magnitude(), b.magnitude(), LEAD as nat, TOP as nat, LEAST as nat),
        )
    }
}

/// `a - b`, rounded, for finite numbers that are not negative.
pub open spec fn minus(a: Double, b: Double) -> Double
    recommends
        a.bits < INFINITE,
        b.bits < INFINITE,
{
    if b.bits <= a.bits {
        signed(false, difference(a.magnitude(), b.magnitude(), LEAD as nat, TOP as nat))
    } else {
        signed(true, difference(b.magnitude(), a.magnitude(), LEAD as nat, TOP as nat))
    }
}

/// `a + b`, rounded, for finite numbers that are not negative.
pub open spec fn plus(a: Double, b: Double) -> Double
    recommends
        a.bits < INFINITE,
        b.bits < INFINITE,
{
    signed(false, sum(a.magnitude(), b.magnitude(), LEAD as nat, TOP as nat))
}

/// The nearest number of `n / scale` units, as decimal text; `scale` is 10 or 100.
pub open spec fn fraction_text(n: nat, scale: nat) -> Seq<char> {
    decimal(n / scale) + seq!['.'] + (if scale == 10 {
        seq![digit(n % scale)]
    } else {
        two_digits(n % scale)
    })
}

/// The magnitude in decimal notation, rounded to the places of `scale` (10 for
/// one place, 100 for two), the even last digit of two that are equally near.
pub open spec fn fixed_magnitude(bits: nat, scale: nat) -> Seq<char> {
    fraction_text(half_even(steps(bits, LEAD as nat) * scale, pow2(LEAST as nat)), scale)
}

/// The number in decimal notation with one place (`scale` 10) or two (`scale`
/// 100); a number without a minus sign gets a plus sign if `show_plus`.
pub open spec fn fixed(d: Double, scale: nat, show_plus: bool) -> Seq<char> {
    if d.is_nan() {
        "NaN"@
    } else {
        (if d.negative() {
            "-"@
        } else if show_plus {
            "+"@
        } else {
            ""@
        }) + (if d.is_infinite() {
            "inf"@
        } else {
            fixed_magnitude(d.magnitude(), scale)
        })
    }
}

/// The order of bit patterns is the order of the numbers.
pub proof fn order_of_places(a: Double, b: Double)
    requires
        a.is_finite(),
        b.is_finite(),
    ensures
        a.less(b) <==> a.value() < b.value(),
        a.at_most(b) <==> a.value() <= b.value(),
{
    let x = a.magnitude();
    let y = b.magnitude();
    let l = LEAD as nat;
    if x <= y {
        lemma_steps_monotone(x, y, l);
    } else {
        lemma_steps_monotone(y, x, l);
    }
    if x >= 0 {
        lemma_steps_monotone(0, x, l);
        lemma_steps_monotone(0, y, l);
    }
}

impl Double {
    fn magnitude_bits(self) -> (r: u64)
        ensures
            r == self.magnitude(),
            r < SIGN,
    {
        if self.bits >= SIGN {
            self.bits - SIGN
        } else {
            self.bits
        }
    }

    fn with_sign(negative: bool, magnitude: u64) -> (r: Double)
        requires
            magnitude < SIGN,
        ensures
            r == signed(negative, magnitude as nat),
    {
        if negative {
            Double { bits: SIGN + magnitude }
        } else {
            Double { bits: magnitude }
        }
    }

    pub fn finite(self) -> (r: bool)
        ensures
            r == self.is_finite(),
    {
        self.magnitude_bits() < INFINITE
    }

    pub fn less_than(self, other: Double) -> (r: bool)
        ensures
            r == self.less(other),
    {
        let x: u64 = self.magnitude_bits();
        let y: u64 = other.magnitude_bits();
        if x > INFINITE || y > INFINITE {
            return false;
        }
        if self.bits >= SIGN {
            if other.bits >= SIGN {
                x > y
            } else {
                x > 0 || y > 0
            }
        } else if other.bits >= SIGN {
            false
        } else {
            x < y
        }
    }

    pub fn no_more_than(self, other: Double) -> (r: bool)
        ensures
            r == self.at_most(other),
    {
        let x: u64 = self.magnitude_bits();
        let y: u64 = other.magnitude_bits();
        x <= INFINITE && y <= INFINITE && !other.less_than(self)
    }

    /// The number nearest to `n`.
    pub fn from_u64(n: u64) -> (r: Double)
        ensures
            r == whole(n as nat),
            r.bits <= INFINITE,
    {
        proof {
            vstd::arithmetic::power2::lemma2_to64();
        }
        let bits: u64 = nearest_bits(n as u128, 1, LEAST as i32, LEAD, TOP);
        Double { bits }
    }

    pub fn divided_by(self, divisor: Double) -> (r: Double)
        ensures
            r == over(self, divisor),
    {
        let negative: bool = (self.bits >= SIGN) != (divisor.bits >= SIGN);
        let x: u64 = self.magnitude_bits();
        let y: u64 = divisor.magnitude_bits();
        if x > INFINITE || y > INFINITE || (x == INFINITE && y == INFINITE) || (x == 0 && y == 0) {
            Double { bits: 0x7ff8_0000_0000_0000 }
        } else if x == INFINITE || y == 0 {
            Double::with_sign(negative, INFINITE)
        } else if y == INFINITE {
            Double::with_sign(negative, 0)
        } else {
            Double::with_sign(negative, quotient_bits(x, y, LEAD, TOP, LEAST))
        }
    }

    pub fn multiplied_by(self, factor: Double) -> (r: Double)
        ensures
            r == times(self, factor),
    {
        let negative: bool = (self.bits >= SIGN) != (factor.bits >= SIGN);
        let x: u64 = self.magnitude_bits();
        let y: u64 = factor.magnitude_bits();
        if x > INFINITE || y > INFINITE || (x == INFINITE && y == 0) || (x == 0 && y == INFINITE) {
            Double { bits: 0x7ff8_0000_0000_0000 }
        } else if x == INFINITE || y == INFINITE {
            Double::with_sign(negative, INFINITE)
        } else {
            Double::with_sign(negative, product_bits(x, y, LEAD, TOP, LEAST))
        }
    }

    pub fn subtract(self, other: Double) -> (r: Double)
        requires
            self.bits < INFINITE,
            other.bits < INFINITE,
        ensures
            r == minus(self, other),
    {
        if other.bits <= self.bits {
            Double::with_sign(false, difference_bits(self.bits, other.bits, LEAD, TOP, LEAST))
        } else {
            Double::with_sign(true, difference_bits(other.bits, self.bits, LEAD, TOP, LEAST))
        }
    }

    pub fn increase(self, other: Double) -> (r: Double)
        requires
            self.bits < INFINITE,
            other.bits < INFINITE,
        ensures
            r == plus(self, other),
    {
        Double::with_sign(false, sum_bits(self.bits, other.bits, LEAD, TOP, LEAST))
    }

    /// The number in decimal notation; see `fixed`.
    pub fn to_fixed(self, scale: u64, show_plus: bool) -> (r: String)
        requires
            scale == 10 || scale == 100,
        ensures
            r@ == fixed(self, scale as nat, show_plus),
    {
        let bits: u64 = self.magnitude_bits();
        if bits > INFINITE {
            return String::from_str("NaN");
        }
        let mut r: String = if self.bits >= SIGN {
            String::from_str("-")
        } else if show_plus {
            String::from_str("+")
        } else {
            String::from_str("")
        };
        if bits == INFINITE {
            r.append("inf");
        } else {
            let digits = magnitude_text(bits, scale);
            r.append(digits.as_str());
        }
        r
    }
}

/// The text of `n` units of `1 / scale`.
fn units_text(n: u64, scale: u64) -> (r: String)
    requires
        scale == 10 || scale == 100,
    ensures
        r@ == fraction_text(n as nat, scale as nat),
{
    let mut r = decimal_text(n / scale);
    r.push('.');
    if scale == 10 {
        r.push(digit_char((n % scale) as u8));
    } else {
        let last = two_digit_text(n % scale);
        r.append(last.as_str());
    }
    assert(r@ =~= fraction_text(n as nat, scale as nat));
    r
}

/// The finite magnitude in decimal notation.
fn magnitude_text(bits: u64, scale: u64) -> (r: String)
    requires
        bits < INFINITE,
        scale == 10 || scale == 100,
    ensures
        r@ == fixed_magnitude(bits as nat, scale as nat),
{
    let (m, k) = parts(bits, LEAD);
    let ghost whole_unit = pow2(LEAST as nat);
    let ghost total = steps(bits as nat, LEAD as nat) * scale as nat;
    proof {
        lemma_pow2_pos(LEAST as nat);
    }
    if k >= LEAST {
        let up: u32 = k - LEAST;
        let mut r = scaled_decimal(m, up);
        r.push('.');
        r.push('0');
        if scale == 100 {
            r.push('0');
        }
        proof {
            let n = m as nat * pow2(up as nat);
            lemma_pow2_adds(up as nat, LEAST as nat);
            assert(total == (n * scale) * whole_unit) by (nonlinear_arith)
                requires
                    total == m * pow2(k as nat) * scale,
                    n == m * pow2(up as nat),
                    pow2(k as nat) == pow2(up as nat) * whole_unit,
            ;
            vstd::arithmetic::div_mod::lemma_fundamental_div_mod_converse(
                total as int,
                whole_unit as int,
                n * scale,
                0,
            );
            vstd::arithmetic::div_mod::lemma_fundamental_div_mod_converse(
                n * scale,
                scale as int,
                n as int,
                0,
            );
            assert(r@ =~= fixed_magnitude(bits as nat, scale as nat));
        }
        return r;
    }
    let down: u32 = LEAST - k;
    let n: u64 = m * scale;
    // 2^62 exceeds twice any n, so that a larger unit rounds to nothing too.
    let mut unit: u64 = 1;
    let mut done: u32 = 0;
    proof {
        vstd::arithmetic::power2::lemma2_to64();
        vstd::arithmetic::power2::lemma2_to64_rest();
    }
    while done < down && done < 62
        invariant
            done <= down,
            done <= 62,
            unit == pow2(done as nat),
            pow2(62) == 0x4000_0000_0000_0000,
        decreases 62 - done,
    {
        proof {
            lemma_pow2_unfold((done + 1) as nat);
            if done + 1 < 62 {
                vstd::arithmetic::power2::lemma_pow2_strictly_increases((done + 1) as nat, 62);
            }
        }
        unit = unit * 2;
        done = done + 1;
    }
    proof {
        lemma_pow2_pos(done as nat);
    }
    let whole_part: u64 = n / unit;
    let rest: u64 = n % unit;
    let rounded: u64 = if rest < unit - rest || (rest == unit - rest && whole_part % 2 == 0) {
        whole_part
    } else {
        whole_part + 1
    };
    proof {
        lemma_pow2_adds(k as nat, down as nat);
        lemma_pow2_pos(k as nat);
        lemma_pow2_pos(down as nat);
        assert(n * whole_unit == total * pow2(down as nat)) by (nonlinear_arith)
            requires
                n == m * scale,
                total == m * pow2(k as nat) * scale,
                whole_unit == pow2(k as nat) * pow2(down as nat),
        ;
        crate::rounding::lemma_same_ratio(n as nat, pow2(down as nat), total, whole_unit);
        if done < down {
            vstd::arithmetic::power2::lemma_pow2_strictly_increases(62, down as nat);
            assert(n < 0x20_0000_0000_0000 * 100);
            vstd::arithmetic::div_mod::lemma_basic_div(n as int, unit as int);
            vstd::arithmetic::div_mod::lemma_small_mod(n as nat, unit as nat);
            assert(half_even(n as nat, pow2(down as nat)) == 0) by {
                vstd::arithmetic::div_mod::lemma_basic_div(n as int, pow2(down as nat) as int);
                vstd::arithmetic::div_mod::lemma_small_mod(n as nat, pow2(down as nat));
            }
        }
        assert(rounded == half_even(total, whole_unit));
    }
    units_text(rounded, scale)
}

/// The bit pattern of one.
pub const ONE: u64 = 0x3ff0_0000_0000_0000;

/// Powers of two are numbers of the format.
pub proof fn lemma_power(e: int)
    requires
        -1000 <= e <= 1000,
    ensures
        nearest(pow2((LEAST + e) as nat), 1, LEAD as nat, TOP as nat) == ONE + e * LEAD,
        steps((ONE + e * LEAD) as nat, LEAD as nat) == pow2((LEAST + e) as nat),
{
    let bits = (ONE + e * LEAD) as nat;
    let field = 1023 + e;
    vstd::arithmetic::power2::lemma2_to64_rest();
    assert(bits == LEAD * field);
    vstd::arithmetic::div_mod::lemma_fundamental_div_mod_converse(
        bits as int,
        LEAD as int,
        field,
        0,
    );
    let k = (field - 1) as nat;
    lemma_pow2_adds(52, k);
    assert(52 + k == LEAST + e);
    crate::magnitude::rounding_keeps_numbers(bits, LEAD as nat, TOP as nat);
}

/// Whole numbers that fit in 64 bits are finite, and those from one on are at least one.
pub proof fn lemma_whole(n: nat)
    requires
        n <= u64::MAX,
    ensures
        whole(n).bits < INFINITE,
        n == 0 ==> whole(n).bits == 0,
        n > 0 ==> whole(n).bits >= ONE,
        whole(1).bits == ONE,
{
    let unit = pow2(LEAST as nat);
    lemma_pow2_pos(LEAST as nat);
    vstd::arithmetic::power2::lemma2_to64_rest();
    lemma_pow2_adds(LEAST as nat, 64);
    lemma_power(64);
    lemma_power(0);
    assert(n * unit <= pow2((LEAST + 64) as nat)) by (nonlinear_arith)
        requires n <= pow2(64), pow2((LEAST + 64) as nat) == unit * pow2(64), unit > 0,
    ;
    crate::magnitude::rounding_keeps_order(
        n * unit,
        1,
        pow2((LEAST + 64) as nat),
        1,
        LEAD as nat,
        TOP as nat,
    );
    assert(1 * unit == unit);
    if n > 0 {
        assert(unit <= n * unit) by (nonlinear_arith)
            requires n >= 1, unit > 0,
        ;
        crate::magnitude::rounding_keeps_order(unit, 1, n * unit, 1, LEAD as nat, TOP as nat);
    } else {
        assert(0 * unit == 0);
        crate::magnitude::rounding_keeps_numbers(0, LEAD as nat, TOP as nat);
    }
}

/// Larger whole numbers have no smaller nearest numbers.
pub proof fn lemma_whole_ordered(n: nat, m: nat)
    requires
        n <= m <= u64::MAX,
    ensures
        whole(n).bits <= whole(m).bits,
{
    let unit = pow2(LEAST as nat);
    assert(n * unit <= m * unit) by (nonlinear_arith)
        requires n <= m, unit >= 0,
    ;
    crate::magnitude::rounding_keeps_order(n * unit, 1, m * unit, 1, LEAD as nat, TOP as nat);
    lemma_whole(n);
    lemma_whole(m);
}

/// A part of a whole, and what is left of it, are ratios in `0..=1`.
pub proof fn ratios_stay_within_one(part: nat, total: nat)
    requires
        part <= total,
        0 < total <= u64::MAX,
    ensures
        over(whole(part), whole(total)).bits <= ONE,
        minus(whole(1), over(whole(part), whole(total))).bits <= ONE,
{
    lemma_whole(part);
    lemma_whole(total);
    lemma_whole_ordered(part, total);
    let a = whole(part).magnitude();
    let b = whole(total).magnitude();
    let unit = pow2(LEAST as nat);
    let l = LEAD as nat;
    lemma_steps_monotone(a, b, l);
    lemma_steps_monotone(0, b, l);
    lemma_power(0);
    assert(steps(a, l) * unit * 1 <= unit * steps(b, l)) by (nonlinear_arith)
        requires steps(a, l) <= steps(b, l), unit >= 0,
    ;
    crate::magnitude::rounding_keeps_order(
        steps(a, l) * unit,
        steps(b, l),
        unit,
        1,
        l,
        TOP as nat,
    );
    let x = over(whole(part), whole(total)).magnitude();
    lemma_steps_monotone(x, ONE as nat, l);
    crate::magnitude::rounding_keeps_numbers(ONE as nat, l, TOP as nat);
    crate::magnitude::rounding_keeps_order(
        (steps(ONE as nat, l) - steps(x, l)) as nat,
        1,
        steps(ONE as nat, l),
        1,
        l,
        TOP as nat,
    );
}

/// Nothing of a whole is nothing, and all of it is one.
pub proof fn quotients_at_the_ends(total: nat)
    requires
        0 < total <= u64::MAX,
    ensures
        over(whole(0), whole(total)) == whole(0),
        over(whole(total), whole(total)) == whole(1),
        minus(whole(1), whole(0)) == whole(1),
        minus(whole(1), whole(1)) == whole(0),
{
    lemma_whole(0);
    lemma_whole(total);
    let l = LEAD as nat;
    let t = TOP as nat;
    let b = whole(total).magnitude();
    let unit = pow2(LEAST as nat);
    lemma_pow2_pos(LEAST as nat);
    lemma_steps_monotone(0, b, l);
    assert(steps(0, l) == 0);
    assert(0 * unit == 0);
    crate::magnitude::rounding_keeps_numbers(0, l, t);
    crate::magnitude::lemma_nearest_ratio(0, steps(b, l), 0, 1, l, t);
    assert(steps(b, l) * unit * 1 == unit * steps(b, l)) by (nonlinear_arith);
    crate::magnitude::lemma_nearest_ratio(steps(b, l) * unit, steps(b, l), unit, 1, l, t);
    assert(1 * unit == unit);
    crate::magnitude::rounding_keeps_numbers(ONE as nat, l, t);
}

/// Signs come out of products.
proof fn lemma_signs(x: int, y: int)
    ensures
        (-x) * y == -(x * y),
        x * (-y) == -(x * y),
        (-x) * (-y) == x * y,
{
    assert((-x) * y == -(x * y)) by (nonlinear_arith);
    assert(x * (-y) == -(x * y)) by (nonlinear_arith);
    assert((-x) * (-y) == x * y) by (nonlinear_arith);
}

/// No number is nearer to a quotient than the computed one, which has the sign
/// that the signs of both sides make; an infinite one is larger than all numbers.
pub proof fn quotients_are_nearest(a: Double, b: Double, z: Double)
    requires
        a.is_finite(),
        b.is_finite(),
        z.is_finite(),
        b.value() != 0,
    ensures
        over(a, b).negative() == (a.negative() != b.negative()),
        over(a, b).is_finite() ==> abs(
            over(a, b).value() * b.value() - a.value() * pow2(LEAST as nat),
        ) <= abs(z.value() * b.value() - a.value() * pow2(LEAST as nat)),
        !over(a, b).is_finite() ==> over(a, b).is_infinite() && abs(a.value() * pow2(LEAST as nat))
            > abs(z.value() * b.value()),
{
    let unit = pow2(LEAST as nat);
    let l = LEAD as nat;
    let t = TOP as nat;
    let x = over(a, b);
    let aa = steps(a.magnitude(), l);
    let bb = steps(b.magnitude(), l);
    let zz = steps(z.magnitude(), l);
    lemma_pow2_pos(LEAST as nat);
    lemma_steps_monotone(0, b.magnitude(), l);
    let n = quotient(a.magnitude(), b.magnitude(), l, t, LEAST as nat);
    let xx = steps(n, l);
    lemma_signs(xx as int, bb as int);
    lemma_signs(zz as int, bb as int);
    lemma_signs(aa as int, unit as int);
    assert(xx * bb >= 0 && zz * bb >= 0 && aa * unit >= 0) by (nonlinear_arith);
    if n < INFINITE {
        crate::magnitude::rounding_is_to_nearest(aa * unit, bb, z.magnitude(), l, t);
    } else {
        crate::magnitude::only_the_largest_round_to_infinity(aa * unit, bb, z.magnitude(), l, t);
    }
}

/// No number is nearer to a product than the computed one, which has the sign
/// that the signs of both sides make; an infinite one is larger than all numbers.
pub proof fn products_are_nearest(a: Double, b: Double, z: Double)
    requires
        a.is_finite(),
        b.is_finite(),
        z.is_finite(),
    ensures
        times(a, b).negative() == (a.negative() != b.negative()),
        times(a, b).is_finite() ==> abs(
            times(a, b).value() * pow2(LEAST as nat) - a.value() * b.value(),
        ) <= abs(z.value() * pow2(LEAST as nat) - a.value() * b.value()),
        !times(a, b).is_finite() ==> times(a, b).is_infinite() && abs(a.value() * b.value()) > abs(
            z.value() * pow2(LEAST as nat),
        ),
{
    let unit = pow2(LEAST as nat);
    let l = LEAD as nat;
    let t = TOP as nat;
    let aa = steps(a.magnitude(), l);
    let bb = steps(b.magnitude(), l);
    let zz = steps(z.magnitude(), l);
    lemma_pow2_pos(LEAST as nat);
    let n = product(a.magnitude(), b.magnitude(), l, t, LEAST as nat);
    let xx = steps(n, l);
    lemma_signs(xx as int, unit as int);
    lemma_signs(zz as int, unit as int);
    lemma_signs(aa as int, bb as int);
    assert(xx * unit >= 0 && zz * unit >= 0 && aa * bb >= 0) by (nonlinear_arith);
    if n < INFINITE {
        crate::magnitude::rounding_is_to_nearest(aa * bb, unit, z.magnitude(), l, t);
    } else {
        crate::magnitude::only_the_largest_round_to_infinity(aa * bb, unit, z.magnitude(), l, t);
    }
}

/// No number is nearer to a sum than the computed one; an infinite one is larger
/// than all numbers.
pub proof fn sums_are_nearest(a: Double, b: Double, z: Double)
    requires
        a.bits < INFINITE,
        b.bits < INFINITE,
        z.is_finite(),
    ensures
        plus(a, b).is_finite() ==> abs(plus(a, b).value() - (a.value() + b.value())) <= abs(
            z.value() - (a.value() + b.value()),
        ),
        !plus(a, b).is_finite() ==> a.value() + b.value() > z.value(),
{
    let l = LEAD as nat;
    let t = TOP as nat;
    let p = steps(a.magnitude(), l) + steps(b.magnitude(), l);
    let n = sum(a.magnitude(), b.magnitude(), l, t);
    assert(plus(a, b) == signed(false, n));
    if n < INFINITE {
        crate::magnitude::rounding_is_to_nearest(p, 1, z.magnitude(), l, t);
    } else {
        crate::magnitude::only_the_largest_round_to_infinity(p, 1, z.magnitude(), l, t);
    }
}

/// The difference of two magnitudes, the larger first, and how near it is.
proof fn lemma_difference(a: nat, b: nat, z: nat)
    requires
        b <= a < INFINITE,
        z < INFINITE,
    ensures
        difference(a, b, LEAD as nat, TOP as nat) < INFINITE,
        ({
            let exact = steps(a, LEAD as nat) - steps(b, LEAD as nat);
            let made = steps(difference(a, b, LEAD as nat, TOP as nat), LEAD as nat);
            exact >= 0 && abs(made - exact) <= abs(steps(z, LEAD as nat) - exact)
        }),
{
    let l = LEAD as nat;
    let t = TOP as nat;
    lemma_steps_monotone(b, a, l);
    let p = (steps(a, l) - steps(b, l)) as nat;
    crate::magnitude::rounding_keeps_order(p, 1, steps(a, l), 1, l, t);
    crate::magnitude::rounding_keeps_numbers(a, l, t);
    crate::magnitude::rounding_is_to_nearest(p, 1, z, l, t);
}

/// No number is nearer to a difference than the computed one.
pub proof fn differences_are_nearest(a: Double, b: Double, z: Double)
    requires
        a.bits < INFINITE,
        b.bits < INFINITE,
        z.is_finite(),
    ensures
        minus(a, b).is_finite(),
        abs(minus(a, b).value() - (a.value() - b.value())) <= abs(
            z.value() - (a.value() - b.value()),
        ),
{
    if b.bits <= a.bits {
        lemma_difference(a.magnitude(), b.magnitude(), z.magnitude());
    } else {
        lemma_difference(b.magnitude(), a.magnitude(), z.magnitude());
    }
}

/// No number is nearer to a whole number than the computed one, which is the
/// whole number itself if that has no more bits than a significand.
pub proof fn whole_numbers_are_nearest(n: nat, z: Double)
    requires
        n <= u64::MAX,
        z.is_finite(),
    ensures
        whole(n).bits < INFINITE,
        abs(whole(n).value() - n * pow2(LEAST as nat)) <= abs(
            z.value() - n * pow2(LEAST as nat),
        ),
        n < 2 * LEAD ==> whole(n).value() == n * pow2(LEAST as nat),
{
    let unit = pow2(LEAST as nat);
    lemma_whole(n);
    crate::magnitude::rounding_is_to_nearest(
        n * unit,
        1,
        z.magnitude(),
        LEAD as nat,
        TOP as nat,
    );
    if n < 2 * LEAD {
        lemma_exact(n);
    }
}

/// A whole number of no more bits than a significand is a number of the format.
pub proof fn lemma_exact(n: nat)
    requires
        n < 2 * LEAD,
    ensures
        steps(whole(n).magnitude(), LEAD as nat) == n * pow2(LEAST as nat),
{
    lemma_whole(n);
    assert(0 * pow2(LEAST as nat) == 0);
    if n > 0 {
        vstd::arithmetic::power2::lemma2_to64();
        assert(n * 1 == n);
        lemma_exact_shifted(n, 0);
    }
}

/// The same, for a number whose significand is known to need a shift by `j` or more.
proof fn lemma_exact_shifted(n: nat, j: nat)
    requires
        0 < n,
        j <= 53,
        n * pow2(j) < 2 * LEAD,
        whole(n).bits < INFINITE,
    ensures
        steps(whole(n).magnitude(), LEAD as nat) == n * pow2(LEAST as nat),
    decreases 53 - j,
{
    let m = n * pow2(j);
    vstd::arithmetic::power2::lemma2_to64();
    vstd::arithmetic::power2::lemma2_to64_rest();
    if m < LEAD {
        assert(j < 53) by {
            if j == 53 {
                assert(n * pow2(53) >= 1 * pow2(53)) by (nonlinear_arith)
                    requires n >= 1, pow2(53) > 0,
                ;
            }
        }
        vstd::arithmetic::power2::lemma_pow2_unfold((j + 1) as nat);
        assert(n * pow2((j + 1) as nat) == 2 * m) by (nonlinear_arith)
            requires m == n * pow2(j), pow2((j + 1) as nat) == 2 * pow2(j),
        ;
        lemma_exact_shifted(n, (j + 1) as nat);
    } else {
        let k = (LEAST - j) as nat;
        let l = LEAD as nat;
        let bits = k * l + m;
        assert(bits as int == (k + 1) * l + (m - l)) by (nonlinear_arith)
            requires bits == k * l + m,
        ;
        vstd::arithmetic::div_mod::lemma_fundamental_div_mod_converse(
            bits as int,
            l as int,
            (k + 1) as int,
            m - l,
        );
        lemma_pow2_adds(j, k);
        assert(m * pow2(k) == n * pow2(LEAST as nat)) by (nonlinear_arith)
            requires m == n * pow2(j), pow2(LEAST as nat) == pow2(j) * pow2(k),
        ;
        assert(bits >= 2 * l) by (nonlinear_arith)
            requires bits == k * l + m, k >= 1, m >= l,
        ;
        assert(steps(bits, l) == m * pow2(k));
        assert(bits < TOP * LEAD) by (nonlinear_arith)
            requires bits == k * LEAD + m, k <= 1074, m < 2 * LEAD, TOP == 2047, LEAD > 0,
        ;
        crate::magnitude::rounding_keeps_numbers(bits, l, TOP as nat);
    }
}

/// How much a whole number's nearest number is off.
pub proof fn lemma_whole_close(n: nat)
    requires
        n <= u64::MAX,
    ensures
        (2 * LEAD) * abs(steps(whole(n).magnitude(), LEAD as nat) - n * pow2(LEAST as nat)) <= n
            * pow2(LEAST as nat),
        steps(whole(n).magnitude(), LEAD as nat) <= 2 * (n * pow2(LEAST as nat)),
        n > 0 ==> steps(whole(n).magnitude(), LEAD as nat) >= pow2(LEAST as nat),
        steps(whole(n).magnitude(), LEAD as nat) <= pow2(64) * pow2(LEAST as nat),
        pow2(LEAST as nat) >= pow2(200),
        pow2(200) >= 0x100_0000 * LEAD * pow2(64),
{
    let unit = pow2(LEAST as nat);
    let l = LEAD as nat;
    let w = steps(whole(n).magnitude(), l);
    lemma_whole(n);
    vstd::arithmetic::power2::lemma2_to64();
    vstd::arithmetic::power2::lemma2_to64_rest();
    lemma_pow2_adds(200, (LEAST - 200) as nat);
    lemma_pow2_pos((LEAST - 200) as nat);
    lemma_pow2_pos(200);
    assert(unit >= pow2(200)) by (nonlinear_arith)
        requires
            unit == pow2(200) * pow2((LEAST - 200) as nat),
            pow2((LEAST - 200) as nat) >= 1,
            pow2(200) >= 1,
    ;
    lemma_pow2_adds(24, 52);
    lemma_pow2_adds(76, 64);
    lemma_pow2_adds(140, 60);
    assert(pow2(200) >= 0x100_0000 * LEAD * pow2(64)) by (nonlinear_arith)
        requires
            pow2(200) == pow2(140) * pow2(60),
            pow2(140) == pow2(76) * pow2(64),
            pow2(76) == 0x100_0000 * LEAD,
            pow2(60) >= 1,
            pow2(64) > 0,
    ;
    lemma_power(0);
    lemma_power(64);
    lemma_pow2_adds(LEAST as nat, 64);
    assert(pow2((LEAST + 64) as nat) == pow2(64) * unit) by (nonlinear_arith)
        requires pow2((LEAST + 64) as nat) == unit * pow2(64),
    ;
    if n > 0 {
        assert(n * unit >= unit) by (nonlinear_arith)
            requires n >= 1, unit > 0,
        ;
        crate::magnitude::rounding_is_close(n * unit, 1, l, TOP as nat);
        assert(2 * l * abs(w - n * unit) >= abs(w - n * unit)) by (nonlinear_arith)
            requires l >= 1, abs(w - n * unit) >= 0,
        ;
        lemma_steps_monotone(ONE as nat, whole(n).magnitude(), l);
        assert(n * unit <= pow2(64) * unit) by (nonlinear_arith)
            requires n <= pow2(64), unit > 0,
        ;
        crate::magnitude::rounding_keeps_order(
            n * unit,
            1,
            pow2((LEAST + 64) as nat),
            1,
            l,
            TOP as nat,
        );
        lemma_steps_monotone(whole(n).magnitude(), (ONE + 64 * LEAD) as nat, l);
    } else {
        assert(0 * unit == 0);
        assert(steps(0, l) == 0);
        assert(pow2(64) * unit >= 0) by (nonlinear_arith)
            requires unit > 0, pow2(64) > 0,
        ;
    }
}

/// Errors of both sides of a quotient, and its own, add up.
pub proof fn lemma_share_error(e: int, u: int, t: int, i: int, wt: int, wi: int, q: int)
    requires
        e > 0,
        u > 0,
        0 <= i <= t,
        0 <= q <= u,
        -(t * u) <= e * (wt - t * u) <= t * u,
        -(i * u) <= e * (wi - i * u) <= i * u,
        0 <= wi <= 2 * (i * u),
        -(wi * u) <= e * (q * wt - wi * u) <= wi * u,
    ensures
        -(4 * (t * u)) <= e * (q * t - i * u) <= 4 * (t * u),
{
    let d = q * t - i * u;
    let et = e * (wt - t * u);
    let ei = e * (wi - i * u);
    let eq = e * (q * wt - wi * u);
    let ct = wt - t * u;
    let ci = wi - i * u;
    let cq = q * wt - wi * u;
    assert(d * u == cq + ci * u - q * ct) by {
        assert((q * t - i * u) * u == (q * t) * u - (i * u) * u) by (nonlinear_arith);
        assert((wi - i * u) * u == wi * u - (i * u) * u) by (nonlinear_arith);
        assert(q * (wt - t * u) == q * wt - (q * t) * u) by (nonlinear_arith);
    }
    assert((e * d) * u == e * (d * u)) by (nonlinear_arith);
    assert(e * (cq + ci * u - q * ct) == e * cq + e * (ci * u) - e * (q * ct)) by (nonlinear_arith);
    assert(e * (ci * u) == (e * ci) * u) by (nonlinear_arith);
    assert(e * (q * ct) == q * (e * ct)) by (nonlinear_arith);
    let tu = t * u;
    let iu = i * u;
    assert(iu <= tu) by (nonlinear_arith)
        requires iu == i * u, tu == t * u, i <= t, u > 0,
    ;
    assert(0 <= iu) by (nonlinear_arith)
        requires iu == i * u, i >= 0, u > 0,
    ;
    assert(wi * u <= 2 * (tu * u)) by (nonlinear_arith)
        requires wi <= 2 * iu, iu <= tu, u > 0,
    ;
    assert(-(tu * u) <= ei * u <= tu * u) by (nonlinear_arith)
        requires -iu <= ei <= iu, iu <= tu, u > 0,
    ;
    assert(-(tu * u) <= q * et <= tu * u) by (nonlinear_arith)
        requires -tu <= et <= tu, 0 <= q <= u, tu >= 0,
    ;
    assert(-(4 * tu) <= e * d <= 4 * tu) by (nonlinear_arith)
        requires -(4 * (tu * u)) <= (e * d) * u <= 4 * (tu * u), u > 0,
    ;
}

/// The ratio of a part to a whole is their quotient, and what one lacks of it
/// is the share of the rest, but for rounding: the errors are below the whole's
/// `2^-50`th part.
pub proof fn ratios_are_quotients(part: nat, total: nat)
    requires
        part <= total,
        0 < total <= u64::MAX,
    ensures
        pow2(50) * abs(
            over(whole(part), whole(total)).value() * total - part * pow2(LEAST as nat),
        ) <= total * pow2(LEAST as nat),
        pow2(50) * abs(
            minus(whole(1), over(whole(part), whole(total))).value() * total - (total - part)
                * pow2(LEAST as nat),
        ) <= total * pow2(LEAST as nat),
{
    let u = pow2(LEAST as nat);
    let l = LEAD as nat;
    let e = 2 * l;
    let x = over(whole(part), whole(total));
    let r = minus(whole(1), x);
    let wt = steps(whole(total).magnitude(), l);
    let wi = steps(whole(part).magnitude(), l);
    let q = steps(x.magnitude(), l);
    let rr = steps(r.magnitude(), l);
    ratios_stay_within_one(part, total);
    lemma_whole(part);
    lemma_whole(total);
    lemma_whole_close(part);
    lemma_whole_close(total);
    lemma_power(0);
    lemma_pow2_pos(LEAST as nat);
    lemma_steps_monotone(x.magnitude(), ONE as nat, l);
    if part > 0 {
        assert(wi * u >= l * wt) by (nonlinear_arith)
            requires
                wi >= u,
                wt <= pow2(64) * u,
                u >= pow2(200),
                pow2(200) >= 0x100_0000 * l * pow2(64),
                u > 0,
                l > 0,
                pow2(64) >= 0,
        ;
        crate::magnitude::rounding_is_close(wi * u, wt, l, TOP as nat);
    } else {
        quotients_at_the_ends(total);
        lemma_whole(0);
        assert(steps(0, l) == 0);
        assert(0 * wt == 0 && 0 * u == 0);
        assert(e * 0 == 0);
    }
    lemma_abs(e as int, wt - total * u, (total * u) as int);
    lemma_abs(e as int, wi - part * u, (part * u) as int);
    lemma_abs(e as int, q * wt - wi * u, (wi * u) as int);
    lemma_share_error(
        e as int,
        u as int,
        total as int,
        part as int,
        wt as int,
        wi as int,
        q as int,
    );
    let d = q * total - part * u;
    // What is left of one.
    let rest = (u - q) as nat;
    crate::magnitude::rounding_is_close(rest, 1, l, TOP as nat);
    let f = rr - rest;
    assert(-u <= e * f <= u) by {
        if rest >= l {
            lemma_abs(e as int, f, rest as int);
        } else {
            assert(f == 0);
            assert(e * 0 == 0);
        }
    }
    let g = rr * total - (total - part) * u;
    assert(g == f * total - d) by (nonlinear_arith)
        requires
            g == rr * total - (total - part) * u,
            f == rr - (u - q),
            d == q * total - part * u,
    ;
    let tu = (total * u) as int;
    assert(-(5 * tu) <= e * g <= 5 * tu) by (nonlinear_arith)
        requires
            g == f * total - d,
            -u <= e * f <= u,
            -(4 * tu) <= e * d <= 4 * tu,
            tu == total * u,
            total > 0,
    ;
    vstd::arithmetic::power2::lemma2_to64_rest();
    assert(e == 8 * pow2(50));
    lemma_abs_back(pow2(50) as int, d, tu);
    lemma_abs_back(pow2(50) as int, g, tu);
    assert(x.value() == q && r.value() == rr);
}

/// A larger part of the same whole is no smaller a ratio, and leaves no more.
pub proof fn lemma_shares_ordered(part: nat, more: nat, total: nat)
    requires
        part <= more <= total,
        0 < total <= u64::MAX,
    ensures
        over(whole(part), whole(total)).value() <= over(whole(more), whole(total)).value(),
        minus(whole(1), over(whole(more), whole(total))).value() <= minus(
            whole(1),
            over(whole(part), whole(total)),
        ).value(),
{
    let l = LEAD as nat;
    let t = TOP as nat;
    let u = pow2(LEAST as nat);
    let x = over(whole(part), whole(total));
    let y = over(whole(more), whole(total));
    ratios_stay_within_one(part, total);
    ratios_stay_within_one(more, total);
    lemma_whole(part);
    lemma_whole(more);
    lemma_whole(total);
    lemma_whole_ordered(part, more);
    lemma_power(0);
    let a = steps(whole(part).magnitude(), l);
    let b = steps(whole(more).magnitude(), l);
    let w = steps(whole(total).magnitude(), l);
    lemma_steps_monotone(whole(part).magnitude(), whole(more).magnitude(), l);
    lemma_steps_monotone(0, whole(total).magnitude(), l);
    assert(a * u * w <= b * u * w) by (nonlinear_arith)
        requires a <= b, u >= 0, w >= 0,
    ;
    crate::magnitude::rounding_keeps_order(a * u, w, b * u, w, l, t);
    lemma_steps_monotone(x.magnitude(), y.magnitude(), l);
    lemma_steps_monotone(y.magnitude(), ONE as nat, l);
    let p = (u - steps(y.magnitude(), l)) as nat;
    let q = (u - steps(x.magnitude(), l)) as nat;
    crate::magnitude::rounding_keeps_order(p, 1, q, 1, l, t);
    lemma_steps_monotone(
        minus(whole(1), y).magnitude(),
        minus(whole(1), x).magnitude(),
        l,
    );
}

/// How much a difference is off.
pub proof fn lemma_difference_close(a: Double, b: Double)
    requires
        a.bits < INFINITE,
        b.bits < INFINITE,
    ensures
        (2 * LEAD) * abs(minus(a, b).value() - (a.value() - b.value())) <= abs(
            a.value() - b.value(),
        ),
{
    let l = LEAD as nat;
    let (x, y) = if b.bits <= a.bits {
        (a.magnitude(), b.magnitude())
    } else {
        (b.magnitude(), a.magnitude())
    };
    lemma_difference(x, y, 0);
    let p = (steps(x, l) - steps(y, l)) as nat;
    crate::magnitude::rounding_is_close(p, 1, l, TOP as nat);
}

/// A finite number in decimal notation is its sign, which a number that is not
/// negative has only if asked for, a numeral, a point, and one or two digits.
/// All the digits together say the whole number that is nearest to as many
/// tenths or hundredths, the even one of two that are equally near.
pub proof fn decimals_are_nearest(d: Double, scale: nat, show_plus: bool) -> (digits: (
    Seq<char>,
    Seq<char>,
))
    requires
        d.is_finite(),
        scale == 10 || scale == 100,
    ensures
        fixed(d, scale, show_plus) == (if d.negative() {
            seq!['-']
        } else if show_plus {
            seq!['+']
        } else {
            seq![]
        }) + digits.0 + seq!['.'] + digits.1,
        all_digits(digits.0),
        digits.0.len() > 1 ==> digits.0[0] != '0',
        digits.0.len() > 0,
        all_digits(digits.1),
        digits.1.len() == (if scale == 10 {
            1nat
        } else {
            2nat
        }),
        ({
            let n = digits_value(digits.0 + digits.1);
            let exact = abs(d.value()) * scale;
            &&& 2 * abs(n * pow2(LEAST as nat) - exact) <= pow2(LEAST as nat)
            &&& 2 * abs(n * pow2(LEAST as nat) - exact) == pow2(LEAST as nat) ==> n % 2 == 0
        }),
{
    let p = steps(d.magnitude(), LEAD as nat) * scale;
    let q = pow2(LEAST as nat);
    let n = half_even(p, q);
    lemma_pow2_pos(LEAST as nat);
    crate::magnitude::lemma_half_even_near(p, q);
    let a = decimal(n / scale);
    let b = if scale == 10 {
        seq![digit(n % scale)]
    } else {
        two_digits(n % scale)
    };
    crate::text::numerals_say_their_number(n / scale);
    crate::text::two_digits_say_their_number(n % 100);
    crate::text::digits_count_by_tens(a, b, digit(n % 10));
    reveal(vstd::arithmetic::power::pow);
    assert(vstd::arithmetic::power::pow(10, 0) == 1);
    assert(vstd::arithmetic::power::pow(10, 1) == 10);
    assert(vstd::arithmetic::power::pow(10, 2) == 100);
    assert(digits_value(b) == n % scale) by {
        if scale == 10 {
            assert(b == seq![digit(n % 10)]);
            assert(digit(n % 10) as u32 == 48 + n % 10);
        }
    }
    assert(digits_value(a + b) == n) by {
        if scale == 10 {
            assert(digits_value(a) * 10 + n % 10 == n);
        } else {
            assert(digits_value(a) * 100 + n % 100 == n);
        }
    }
    reveal_strlit("-");
    reveal_strlit("+");
    reveal_strlit("");
    let sign = if d.negative() {
        seq!['-']
    } else if show_plus {
        seq!['+']
    } else {
        seq![]
    };
    assert(fixed(d, scale, show_plus) =~= sign + a + seq!['.'] + b);
    assert(abs(d.value()) * scale == p);
    (a, b)
}

/// What rounding a quotient, and then its decimals, is off.
proof fn lemma_shown_error(e: int, u: int, k: int, scale: int, x: int, q: int, n: int)
    requires
        e > 0,
        u > 0,
        k > 0,
        scale > 0,
        x >= 0,
        -u <= 2 * (n * u - scale * q) <= u,
        -x <= e * (q * k - x) <= x || (-k <= 2 * (q * k - x) <= k && scale * k <= u),
    ensures
        -(e * ((k + 1) * u) + 2 * (scale * x)) <= 2 * (e * (n * (k * u) - scale * x)) <= e * ((k
            + 1) * u) + 2 * (scale * x),
{
    let c = q * k - x;
    let h = n * u - scale * q;
    let d = n * (k * u) - scale * x;
    assert(d == h * k + scale * c) by (nonlinear_arith)
        requires
            d == n * (k * u) - scale * x,
            h == n * u - scale * q,
            c == q * k - x,
    ;
    assert(e * d == (e * k) * h + scale * (e * c)) by (nonlinear_arith)
        requires d == h * k + scale * c,
    ;
    let ek = e * k;
    assert(ek > 0) by (nonlinear_arith)
        requires ek == e * k, e > 0, k > 0,
    ;
    assert(-(ek * u) <= 2 * (ek * h) <= ek * u) by (nonlinear_arith)
        requires -u <= 2 * h <= u, ek > 0,
    ;
    assert(e * ((k + 1) * u) == ek * u + e * u) by (nonlinear_arith)
        requires ek == e * k,
    ;
    assert(scale * x >= 0 && e * u >= 0) by (nonlinear_arith)
        requires scale > 0, x >= 0, e > 0, u > 0,
    ;
    if -x <= e * c <= x {
        assert(-(scale * x) <= scale * (e * c) <= scale * x) by (nonlinear_arith)
            requires -x <= e * c <= x, scale > 0,
        ;
    } else {
        assert(-(e * u) <= 2 * (scale * (e * c)) <= e * u) by (nonlinear_arith)
            requires -k <= 2 * c <= k, scale * k <= u, e > 0, scale > 0,
        ;
    }
}

/// A number over a whole number `k`, in decimal notation: as `decimals_are_nearest`
/// says, but of the exact quotient, from which rounding takes it less than the
/// `2^-53`th part and a `k`th part of half a unit of the last place away.
pub proof fn shown_quotients_are_nearest(x: Double, k: nat, scale: nat, show_plus: bool) -> (digits: (
    Seq<char>,
    Seq<char>,
))
    requires
        x.is_finite(),
        0 < k < 2 * LEAD,
        scale == 10 || scale == 100,
    ensures
        fixed(over(x, whole(k)), scale, show_plus) == (if x.negative() {
            seq!['-']
        } else if show_plus {
            seq!['+']
        } else {
            seq![]
        }) + digits.0 + seq!['.'] + digits.1,
        all_digits(digits.0),
        digits.0.len() > 1 ==> digits.0[0] != '0',
        digits.0.len() > 0,
        all_digits(digits.1),
        digits.1.len() == (if scale == 10 {
            1nat
        } else {
            2nat
        }),
        2 * (pow2(53) * abs(
            digits_value(digits.0 + digits.1) * (k * pow2(LEAST as nat)) - scale * abs(x.value()),
        )) <= pow2(53) * ((k + 1) * pow2(LEAST as nat)) + 2 * (scale * abs(x.value())),
{
    let l = LEAD as nat;
    let u = pow2(LEAST as nat);
    let xx = steps(x.magnitude(), l);
    let y = over(x, whole(k));
    let q = steps(y.magnitude(), l);
    lemma_whole(k);
    lemma_exact(k);
    lemma_whole_close(1);
    lemma_pow2_pos(LEAST as nat);
    vstd::arithmetic::power2::lemma2_to64_rest();
    assert(k * u > 0) by (nonlinear_arith)
        requires k > 0, u > 0,
    ;
    // The quotient is no larger than the number.
    assert((xx * u) * 1 <= xx * (k * u)) by (nonlinear_arith)
        requires k >= 1, u > 0,
    ;
    crate::magnitude::rounding_keeps_order(xx * u, k * u, xx, 1, l, TOP as nat);
    crate::magnitude::rounding_keeps_numbers(x.magnitude(), l, TOP as nat);
    crate::magnitude::rounding_is_close(xx * u, k * u, l, TOP as nat);
    let digits = decimals_are_nearest(y, scale, show_plus);
    let n = digits_value(digits.0 + digits.1);
    let e = (2 * l) as int;
    let c = q * k - xx;
    assert(q * (k * u) - xx * u == c * u) by (nonlinear_arith)
        requires c == q * k - xx,
    ;
    if xx * u >= l * (k * u) {
        lemma_abs(e, c * u, (xx * u) as int);
        assert(-(xx as int) <= e * c <= xx) by (nonlinear_arith)
            requires -(xx * u) <= e * (c * u) <= xx * u, u > 0,
        ;
    } else {
        assert(-(k as int) <= 2 * c <= k) by (nonlinear_arith)
            requires -(k * u) <= 2 * (c * u) <= k * u, u > 0,
        ;
        assert(scale * k <= u) by (nonlinear_arith)
            requires
                scale <= 100,
                k < 2 * LEAD,
                u >= pow2(200),
                pow2(200) >= 0x100_0000 * LEAD * pow2(64),
                pow2(64) >= 1,
        ;
    }
    assert(abs(y.value()) * scale == scale * q) by (nonlinear_arith)
        requires abs(y.value()) == q,
    ;
    lemma_shown_error(e, u as int, k as int, scale as int, xx as int, q as int, n as int);
    let d = n * (k * u) - scale * xx;
    assert(abs(x.value()) == xx);
    assert(pow2(53) == e);
    assert(e * (-d) == -(e * d)) by (nonlinear_arith);
    digits
}

/// A number times a whole number `k`, in decimal notation: as
/// `decimals_are_nearest` says, but of the exact product, from which rounding
/// takes it less than the `2^-53`th part away.
pub proof fn shown_products_are_nearest(x: Double, k: nat, scale: nat, show_plus: bool) -> (digits: (
    Seq<char>,
    Seq<char>,
))
    requires
        x.is_finite(),
        k < 2 * LEAD,
        times(x, whole(k)).is_finite(),
        scale == 10 || scale == 100,
    ensures
        fixed(times(x, whole(k)), scale, show_plus) == (if x.negative() {
            seq!['-']
        } else if show_plus {
            seq!['+']
        } else {
            seq![]
        }) + digits.0 + seq!['.'] + digits.1,
        all_digits(digits.0),
        digits.0.len() > 1 ==> digits.0[0] != '0',
        digits.0.len() > 0,
        all_digits(digits.1),
        digits.1.len() == (if scale == 10 {
            1nat
        } else {
            2nat
        }),
        2 * (pow2(53) * abs(
            digits_value(digits.0 + digits.1) * pow2(LEAST as nat) - scale * (k * abs(x.value())),
        )) <= pow2(53) * pow2(LEAST as nat) + 2 * (scale * (k * abs(x.value()))),
{
    let l = LEAD as nat;
    let u = pow2(LEAST as nat);
    let xx = steps(x.magnitude(), l);
    let y = times(x, whole(k));
    let t = steps(y.magnitude(), l);
    lemma_whole(k);
    lemma_exact(k);
    lemma_pow2_pos(LEAST as nat);
    vstd::arithmetic::power2::lemma2_to64_rest();
    crate::magnitude::rounding_is_close(xx * (k * u), u, l, TOP as nat);
    let digits = decimals_are_nearest(y, scale, show_plus);
    let n = digits_value(digits.0 + digits.1);
    let e = (2 * l) as int;
    let xk = (k * xx) as int;
    let c = t - xk;
    assert(xx * (k * u) == xk * u) by (nonlinear_arith)
        requires xk == k * xx,
    ;
    assert(t * u - xk * u == c * u) by (nonlinear_arith)
        requires c == t - xk,
    ;
    assert(-xk <= e * c <= xk) by {
        if xx * (k * u) >= l * u {
            lemma_abs(e, c * u, xk * u);
            assert(-xk <= e * c <= xk) by (nonlinear_arith)
                requires -(xk * u) <= e * (c * u) <= xk * u, u > 0,
            ;
        } else {
            assert(c == 0) by (nonlinear_arith)
                requires -u <= 2 * (c * u) <= u, u > 0,
            ;
            assert(e * 0 == 0);
            assert(xk >= 0) by (nonlinear_arith)
                requires xk == k * xx,
            ;
        }
    }
    assert(abs(y.value()) * scale == scale * t) by (nonlinear_arith)
        requires abs(y.value()) == t,
    ;
    let h = n * u - scale * t;
    let d = n * u - scale * xk;
    assert(e * d == e * h + scale * (e * c)) by (nonlinear_arith)
        requires d == n * u - scale * xk, h == n * u - scale * t, c == t - xk,
    ;
    assert(-(scale * xk) <= scale * (e * c) <= scale * xk) by (nonlinear_arith)
        requires -xk <= e * c <= xk, scale > 0,
    ;
    assert(-(e * u) <= 2 * (e * h) <= e * u) by (nonlinear_arith)
        requires -u <= 2 * h <= u, e > 0,
    ;
    assert(abs(x.value()) == xx);
    assert(pow2(53) == e);
    assert(e * (-d) == -(e * d)) by (nonlinear_arith);
    digits
}

/// A bound on a magnitude bounds the number.
pub proof fn lemma_abs(e: int, d: int, bound: int)
    requires
        e >= 0,
        e * abs(d) <= bound,
    ensures
        -bound <= e * d <= bound,
{
    assert(e * (-d) == -(e * d)) by (nonlinear_arith);
    assert(e * abs(d) >= 0) by (nonlinear_arith)
        requires e >= 0, abs(d) >= 0,
    ;
}

/// An eighth of a bound, the other way round.
proof fn lemma_abs_back(c: int, d: int, bound: int)
    requires
        c > 0,
        -(5 * bound) <= (8 * c) * d <= 5 * bound,
        bound >= 0,
    ensures
        c * abs(d) <= bound,
{
    assert((8 * c) * d == 8 * (c * d)) by (nonlinear_arith);
    assert(c * (-d) == -(c * d)) by (nonlinear_arith);
}

/// What is no number compares to nothing, not even to itself, and every finite
/// number lies between the two infinite ones.
pub proof fn numbers_lie_between_the_infinite_ones(a: Double, b: Double)
    ensures
        a.is_nan() ==> !a.less(b) && !b.less(a) && !a.at_most(b) && !b.at_most(a) && !a.equals(b),
        a.is_finite() && b.is_infinite() ==> (a.less(b) <==> !b.negative()) && (b.less(a)
            <==> b.negative()),
        a.is_finite() && b.is_finite() ==> (a.equals(b) <==> a.value() == b.value()),
{
    if a.is_finite() && b.is_finite() {
        order_of_places(a, b);
        order_of_places(b, a);
    }
}

/// Quotients and products that have no exact value, or no finite one: nothing
/// over nothing and the like are no numbers, and what is over nothing is infinite.
pub proof fn quotients_and_products_at_the_limits(a: Double, b: Double)
    ensures
        over(a, b).is_nan() <==> a.is_nan() || b.is_nan() || (a.is_infinite() && b.is_infinite())
            || (a.magnitude() == 0 && b.magnitude() == 0),
        !a.is_nan() && a.magnitude() > 0 && b.magnitude() == 0 ==> over(a, b).is_infinite() && over(
            a,
            b,
        ).negative() == (a.negative() != b.negative()),
        a.is_finite() && b.is_infinite() ==> over(a, b).magnitude() == 0,
        times(a, b).is_nan() <==> a.is_nan() || b.is_nan() || (a.is_infinite() && b.magnitude()
            == 0) || (b.is_infinite() && a.magnitude() == 0),
        !times(a, b).is_nan() && (a.is_infinite() || b.is_infinite()) ==> times(a, b).is_infinite(),
{
    let l = LEAD as nat;
    let t = TOP as nat;
    assert(quotient(a.magnitude(), b.magnitude(), l, t, LEAST as nat) <= INFINITE);
    assert(product(a.magnitude(), b.magnitude(), l, t, LEAST as nat) <= INFINITE);
}

/// What is no finite number is shown by a word, an infinite one with its sign.
pub proof fn infinite_numbers_are_shown_by_words(d: Double, scale: nat)
    ensures
        d.is_nan() ==> fixed(d, scale, false) == "NaN"@ && fixed(d, scale, true) == "NaN"@,
        d.is_infinite() && !d.negative() ==> fixed(d, scale, false) == "inf"@ && fixed(
            d,
            scale,
            true,
        ) == "+inf"@,
        d.is_infinite() && d.negative() ==> fixed(d, scale, false) == "-inf"@,
{
    reveal_strlit("");
    reveal_strlit("+");
    reveal_strlit("-");
    reveal_strlit("inf");
    reveal_strlit("+inf");
    reveal_strlit("-inf");
    assert(""@ + "inf"@ =~= "inf"@);
    assert("+"@ + "inf"@ =~= "+inf"@);
    assert("-"@ + "inf"@ =~= "-inf"@);
}

} // verus!
