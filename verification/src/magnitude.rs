//! Exactly rounded arithmetic on the magnitudes of a binary format.
//!
//! A magnitude is the bit pattern of a finite non-negative number. `lead` is
//! the weight of the leading significand bit, `top` the exponent field of the
//! infinity, and `2^-least` the smallest positive step.
use crate::rounding::{
    excess, half_even, lemma_excess, lemma_same_ratio, nearest, nearest_bits, steps,
};
use vstd::arithmetic::power2::{lemma_pow2_adds, lemma_pow2_pos, lemma_pow2_unfold, pow2};
use vstd::math::abs;
use vstd::prelude::*;

verus! {

/// The two formats: 24-bit significands over steps of `2^-149`, and 53-bit
/// significands over steps of `2^-1074`.
pub open spec fn is_format(lead: nat, top: nat, least: nat) -> bool {
    ||| (lead == 0x80_0000 && top == 255 && least == 149)
    ||| (lead == 0x10_0000_0000_0000 && top == 2047 && least == 1074)
}

pub open spec fn quotient(a: nat, b: nat, lead: nat, top: nat, least: nat) -> nat {
    nearest(steps(a, lead) * pow2(least), steps(b, lead), lead, top)
}

pub open spec fn product(a: nat, b: nat, lead: nat, top: nat, least: nat) -> nat {
    nearest(steps(a, lead) * steps(b, lead), pow2(least), lead, top)
}

pub open spec fn sum(a: nat, b: nat, lead: nat, top: nat) -> nat {
    nearest(steps(a, lead) + steps(b, lead), 1, lead, top)
}

pub open spec fn difference(a: nat, b: nat, lead: nat, top: nat) -> nat
    recommends
        steps(b, lead) <= steps(a, lead),
{
    nearest((steps(a, lead) - steps(b, lead)) as nat, 1, lead, top)
}

/// Fractions of equal value have the same nearest magnitude.
pub proof fn lemma_nearest_ratio(p1: nat, q1: nat, p2: nat, q2: nat, lead: nat, top: nat)
    requires
        q1 > 0,
        q2 > 0,
        p1 * q2 == p2 * q1,
    ensures
        nearest(p1, q1, lead, top) == nearest(p2, q2, lead, top),
{
    lemma_same_ratio(p1, q1, p2, q2);
    let k = excess(p1 / q1, lead);
    let c = pow2(k);
    lemma_pow2_pos(k);
    assert(q1 * c > 0 && q2 * c > 0) by (nonlinear_arith)
        requires q1 > 0, q2 > 0, c > 0,
    ;
    assert(p1 * (q2 * c) == p2 * (q1 * c)) by (nonlinear_arith)
        requires p1 * q2 == p2 * q1,
    ;
    lemma_same_ratio(p1, q1 * c, p2, q2 * c);
}

/// Splits a magnitude into a significand and a power of two.
pub fn parts(bits: u64, lead: u64) -> (mk: (u64, u32))
    requires
        0 < lead <= 0x10_0000_0000_0000,
        bits < 2048 * lead,
    ensures
        steps(bits as nat, lead as nat) == mk.0 * pow2(mk.1 as nat),
        mk.0 < 2 * lead,
        mk.1 > 0 ==> mk.0 >= lead,
        mk.1 < 2047,
        bits == mk.1 * lead + mk.0,
{
    proof {
        vstd::arithmetic::power2::lemma2_to64();
    }
    if bits < 2 * lead {
        assert(bits * 1 == bits);
        (bits, 0)
    } else {
        let field: u64 = bits / lead;
        let rest: u64 = bits % lead;
        proof {
            vstd::arithmetic::div_mod::lemma_fundamental_div_mod(bits as int, lead as int);
            assert(2 <= field < 2048) by (nonlinear_arith)
                requires
                    bits as int == lead as int * field as int + rest as int,
                    0 <= rest < lead,
                    2 * lead <= bits < 2048 * lead,
            ;
            assert((field - 1) * lead + (lead + rest) == bits) by (nonlinear_arith)
                requires bits as int == lead as int * field as int + rest as int,
            ;
        }
        (lead + rest, (field - 1) as u32)
    }
}

/// `m * 2^by`.
fn shifted(m: u64, by: u32) -> (r: u128)
    requires
        m < 0x20_0000_0000_0000,
        by <= 64,
    ensures
        r == m * pow2(by as nat),
        r < 0x20_0000_0000_0000 * 0x1_0000_0000_0000_0000,
{
    let mut r: u128 = m as u128;
    let mut done: u32 = 0;
    proof {
        vstd::arithmetic::power2::lemma2_to64();
        assert(m * 1 == m);
    }
    while done < by
        invariant
            done <= by <= 64,
            m < 0x20_0000_0000_0000,
            r == m * pow2(done as nat),
            r <= 0x1f_ffff_ffff_ffff * pow2(done as nat),
        decreases by - done,
    {
        proof {
            lemma_pow2_unfold((done + 1) as nat);
            vstd::arithmetic::power2::lemma2_to64_rest();
            vstd::arithmetic::power2::lemma2_to64();
            if done < 63 {
                vstd::arithmetic::power2::lemma_pow2_strictly_increases(done as nat, 63);
            }
            assert(m * pow2((done + 1) as nat) == 2 * (m * pow2(done as nat))) by (nonlinear_arith)
                requires pow2((done + 1) as nat) == 2 * pow2(done as nat),
            ;
        }
        r = r * 2;
        done = done + 1;
    }
    proof {
        vstd::arithmetic::power2::lemma2_to64_rest();
        if by < 64 {
            vstd::arithmetic::power2::lemma_pow2_strictly_increases(by as nat, 64);
        }
    }
    r
}

pub fn quotient_bits(a: u64, b: u64, lead: u64, top: u64, least: u32) -> (r: u64)
    requires
        is_format(lead as nat, top as nat, least as nat),
        a < top * lead,
        0 < b < top * lead,
    ensures
        r == quotient(a as nat, b as nat, lead as nat, top as nat, least as nat),
        r <= top * lead,
{
    assert(top * lead <= 2048 * lead) by (nonlinear_arith)
        requires top <= 2048, lead > 0,
    ;
    proof {
        vstd::arithmetic::power2::lemma2_to64();
    }
    let (ma, ka) = parts(a, lead);
    let (mb, kb) = parts(b, lead);
    let s: i32 = least as i32 + ka as i32 - kb as i32;
    proof {
        let p1 = ma as nat * crate::rounding::up(s as int);
        let q1 = mb as nat * crate::rounding::down(s as int);
        let p2 = steps(a as nat, lead as nat) * pow2(least as nat);
        let q2 = steps(b as nat, lead as nat);
        lemma_pow2_pos(kb as nat);
        assert(mb > 0) by {
            if mb == 0 {
                assert(kb == 0);
                assert(0 * lead == 0);
            }
        }
        assert(q2 > 0) by (nonlinear_arith)
            requires q2 == mb * pow2(kb as nat), mb > 0, pow2(kb as nat) > 0,
        ;
        crate::rounding::lemma_up_pos(-s as int);
        assert(q1 > 0) by (nonlinear_arith)
            requires q1 == mb * crate::rounding::down(s as int), mb > 0,
                crate::rounding::down(s as int) > 0,
        ;
        let l = least as nat;
        lemma_pow2_adds(ka as nat, l);
        if s >= 0 {
            lemma_pow2_adds(s as nat, kb as nat);
            assert(ka + l == s + kb);
            assert(p1 * q2 == p2 * q1) by (nonlinear_arith)
                requires
                    p1 == ma * pow2(s as nat),
                    q1 == mb * 1,
                    p2 == ma * pow2(ka as nat) * pow2(l),
                    q2 == mb * pow2(kb as nat),
                    pow2(ka as nat) * pow2(l) == pow2(s as nat) * pow2(kb as nat),
            ;
        } else {
            let d = (-s) as nat;
            lemma_pow2_adds((ka + l) as nat, d);
            assert(ka + l + d == kb);
            assert(p1 * q2 == p2 * q1) by (nonlinear_arith)
                requires
                    p1 == ma * 1,
                    q1 == mb * pow2(d),
                    p2 == ma * pow2(ka as nat) * pow2(l),
                    q2 == mb * pow2(kb as nat),
                    pow2(ka as nat) * pow2(l) * pow2(d) == pow2(kb as nat),
            ;
        }
        lemma_nearest_ratio(p1, q1, p2, q2, lead as nat, top as nat);
    }
    nearest_bits(ma as u128, mb as u128, s, lead, top)
}

pub fn product_bits(a: u64, b: u64, lead: u64, top: u64, least: u32) -> (r: u64)
    requires
        is_format(lead as nat, top as nat, least as nat),
        a < top * lead,
        b < top * lead,
    ensures
        r == product(a as nat, b as nat, lead as nat, top as nat, least as nat),
        r <= top * lead,
{
    assert(top * lead <= 2048 * lead) by (nonlinear_arith)
        requires top <= 2048, lead > 0,
    ;
    proof {
        vstd::arithmetic::power2::lemma2_to64();
    }
    let (ma, ka) = parts(a, lead);
    let (mb, kb) = parts(b, lead);
    let s: i32 = ka as i32 + kb as i32 - least as i32;
    assert(ma * mb < 0x20_0000_0000_0000 * 0x20_0000_0000_0000) by (nonlinear_arith)
        requires 0 <= ma < 0x20_0000_0000_0000, 0 <= mb < 0x20_0000_0000_0000,
    ;
    let m: u128 = ma as u128 * mb as u128;
    proof {
        let p1 = m as nat * crate::rounding::up(s as int);
        let q1 = 1 * crate::rounding::down(s as int);
        let p2 = steps(a as nat, lead as nat) * steps(b as nat, lead as nat);
        let l = least as nat;
        let q2 = pow2(l);
        lemma_pow2_pos(l);
        crate::rounding::lemma_up_pos(-s as int);
        lemma_pow2_adds(ka as nat, kb as nat);
        if s >= 0 {
            lemma_pow2_adds(s as nat, l);
            assert(s + l == ka + kb);
            assert(p1 * q2 == p2 * q1) by (nonlinear_arith)
                requires
                    p1 == (ma * mb) * pow2(s as nat),
                    q1 == 1,
                    p2 == (ma * pow2(ka as nat)) * (mb * pow2(kb as nat)),
                    q2 == pow2(l),
                    pow2(ka as nat) * pow2(kb as nat) == pow2(s as nat) * pow2(l),
            ;
        } else {
            let d = (-s) as nat;
            lemma_pow2_adds((ka + kb) as nat, d);
            assert(ka + kb + d == l);
            assert(p1 == ma * mb) by (nonlinear_arith)
                requires
                    p1 == m as nat * crate::rounding::up(s as int),
                    crate::rounding::up(s as int) == 1,
                    m == ma * mb,
            ;
            assert(p1 * q2 == p2 * q1) by (nonlinear_arith)
                requires
                    p1 == ma * mb,
                    q1 == pow2(d),
                    p2 == (ma * pow2(ka as nat)) * (mb * pow2(kb as nat)),
                    q2 == pow2(l),
                    pow2(ka as nat) * pow2(kb as nat) * pow2(d) == pow2(l),
            ;
        }
        lemma_nearest_ratio(p1, q1, p2, q2, lead as nat, top as nat);
    }
    nearest_bits(m, 1, s, lead, top)
}

/// A term below a quarter of the last place of `a` does not move it.
proof fn lemma_absorbed(m: nat, k: nat, small: nat, lead: nat, top: nat)
    requires
        k > 0,
        0 < lead <= m < 2 * lead,
        k * lead + m < top * lead,
        4 * small < pow2(k),
    ensures
        nearest(m * pow2(k) + small, 1, lead, top) == k * lead + m,
        nearest((m * pow2(k) - small) as nat, 1, lead, top) == k * lead + m,
{
    let unit = pow2(k);
    lemma_pow2_pos(k);
    let over = m * unit + small;
    vstd::arithmetic::div_mod::lemma_fundamental_div_mod_converse(
        over as int,
        unit as int,
        m as int,
        small as int,
    );
    lemma_excess(over, k, lead);
    assert(over / 1 == over);
    assert(1 * unit == unit);
    assert(m * unit >= unit) by (nonlinear_arith)
        requires m >= 1, unit > 0,
    ;
    let under = (m * unit - small) as nat;
    assert(under / 1 == under);
    if small > 0 {
        if m > lead {
            assert(under == (m - 1) * unit + (unit - small)) by (nonlinear_arith)
                requires under == m * unit - small,
            ;
            vstd::arithmetic::div_mod::lemma_fundamental_div_mod_converse(
                under as int,
                unit as int,
                m - 1,
                unit - small,
            );
            lemma_excess(under, k, lead);
        } else {
            let j = (k - 1) as nat;
            let half = pow2(j);
            lemma_pow2_unfold(k);
            lemma_pow2_pos(j);
            assert(under == (2 * lead - 1) * half + (half - small)) by (nonlinear_arith)
                requires under == lead * unit - small, unit == 2 * half,
            ;
            vstd::arithmetic::div_mod::lemma_fundamental_div_mod_converse(
                under as int,
                half as int,
                2 * lead - 1,
                half - small,
            );
            lemma_excess(under, j, lead);
            assert(1 * half == half);
            assert(j * lead + 2 * lead == k * lead + lead) by (nonlinear_arith)
                requires j == k - 1,
            ;
        }
    }
}

/// The term with the smaller exponent is below a quarter of the other's last place.
proof fn lemma_far_apart(m: nat, k: nat, small_m: nat, small_k: nat, lead: nat)
    requires
        k > small_k + 64,
        small_m < 0x20_0000_0000_0000,
    ensures
        4 * (small_m * pow2(small_k)) < pow2(k),
{
    vstd::arithmetic::power2::lemma2_to64_rest();
    lemma_pow2_pos(small_k);
    lemma_pow2_adds(64, small_k);
    vstd::arithmetic::power2::lemma_pow2_strictly_increases(64 + small_k, k);
    assert(4 * (small_m * pow2(small_k)) < pow2(64) * pow2(small_k)) by (nonlinear_arith)
        requires
            0 <= small_m < 0x20_0000_0000_0000,
            pow2(64) == 0x1_0000_0000_0000_0000,
            pow2(small_k) > 0,
    ;
}

/// `sum`, for a first term whose exponent is not the smaller.
fn ordered_sum(a: u64, b: u64, lead: u64, top: u64, least: u32) -> (r: u64)
    requires
        is_format(lead as nat, top as nat, least as nat),
        b <= a < top * lead,
    ensures
        r == sum(a as nat, b as nat, lead as nat, top as nat),
        r <= top * lead,
{
    assert(top * lead <= 2048 * lead) by (nonlinear_arith)
        requires top <= 2048, lead > 0,
    ;
    let (ma, ka) = parts(a, lead);
    let (mb, kb) = parts(b, lead);
    proof {
        lemma_exponents_ordered(ma as nat, ka as nat, mb as nat, kb as nat, lead as nat);
    }
    let gap: u32 = ka - kb;
    if gap > 64 {
        proof {
            lemma_far_apart(ma as nat, ka as nat, mb as nat, kb as nat, lead as nat);
            lemma_absorbed(
                ma as nat,
                ka as nat,
                mb as nat * pow2(kb as nat),
                lead as nat,
                top as nat,
            );
        }
        return a;
    }
    let p: u128 = shifted(ma, gap) + mb as u128;
    proof {
        lemma_pow2_adds(gap as nat, kb as nat);
        lemma_aligned(p as nat, kb as nat);
        assert((ma * pow2(gap as nat) + mb) * pow2(kb as nat) == ma * (pow2(gap as nat) * pow2(
            kb as nat,
        )) + mb * pow2(kb as nat)) by (nonlinear_arith);
    }
    nearest_bits(p, 1, kb as i32, lead, top)
}

/// The larger magnitude has the larger exponent.
proof fn lemma_exponents_ordered(ma: nat, ka: nat, mb: nat, kb: nat, lead: nat)
    requires
        kb * lead + mb <= ka * lead + ma,
        ma < 2 * lead,
        mb < 2 * lead,
        kb > 0 ==> mb >= lead,
    ensures
        kb <= ka,
{
    if kb > ka {
        assert(kb * lead + mb >= ka * lead + lead + mb) by (nonlinear_arith)
            requires kb >= ka + 1, lead >= 0,
        ;
    }
}

/// `p` times a power of two as the fraction that `nearest_bits` rounds.
proof fn lemma_aligned(p: nat, k: nat)
    ensures
        p * crate::rounding::up(k as int) == p * pow2(k),
        1 * crate::rounding::down(k as int) == 1,
{
    vstd::arithmetic::power2::lemma2_to64();
}

pub fn sum_bits(a: u64, b: u64, lead: u64, top: u64, least: u32) -> (r: u64)
    requires
        is_format(lead as nat, top as nat, least as nat),
        a < top * lead,
        b < top * lead,
    ensures
        r == sum(a as nat, b as nat, lead as nat, top as nat),
        r <= top * lead,
{
    if b <= a {
        ordered_sum(a, b, lead, top, least)
    } else {
        ordered_sum(b, a, lead, top, least)
    }
}

pub fn difference_bits(a: u64, b: u64, lead: u64, top: u64, least: u32) -> (r: u64)
    requires
        is_format(lead as nat, top as nat, least as nat),
        b <= a < top * lead,
    ensures
        r == difference(a as nat, b as nat, lead as nat, top as nat),
        steps(b as nat, lead as nat) <= steps(a as nat, lead as nat),
        r <= top * lead,
{
    assert(top * lead <= 2048 * lead) by (nonlinear_arith)
        requires top <= 2048, lead > 0,
    ;
    proof {
        lemma_steps_monotone(b as nat, a as nat, lead as nat);
    }
    let (ma, ka) = parts(a, lead);
    let (mb, kb) = parts(b, lead);
    proof {
        lemma_exponents_ordered(ma as nat, ka as nat, mb as nat, kb as nat, lead as nat);
    }
    let gap: u32 = ka - kb;
    if gap > 64 {
        proof {
            lemma_far_apart(ma as nat, ka as nat, mb as nat, kb as nat, lead as nat);
            lemma_absorbed(
                ma as nat,
                ka as nat,
                mb as nat * pow2(kb as nat),
                lead as nat,
                top as nat,
            );
        }
        return a;
    }
    let high: u128 = shifted(ma, gap);
    proof {
        lemma_pow2_adds(gap as nat, kb as nat);
        lemma_pow2_pos(kb as nat);
        assert((high - mb) * pow2(kb as nat) == ma * (pow2(gap as nat) * pow2(kb as nat)) - mb
            * pow2(kb as nat)) by (nonlinear_arith)
            requires high == ma * pow2(gap as nat),
        ;
        assert(high >= mb) by (nonlinear_arith)
            requires (high - mb) * pow2(kb as nat) >= 0, pow2(kb as nat) > 0,
        ;
    }
    let p: u128 = high - mb as u128;
    proof {
        lemma_aligned(p as nat, kb as nat);
    }
    nearest_bits(p, 1, kb as i32, lead, top)
}

/// Bit patterns of magnitudes are ordered as the numbers they stand for.
pub proof fn lemma_steps_monotone(a: nat, b: nat, lead: nat)
    requires
        lead > 0,
        a <= b,
    ensures
        steps(a, lead) <= steps(b, lead),
        a < b ==> steps(a, lead) < steps(b, lead),
    decreases b - a,
{
    if a < b {
        let c = (b - 1) as nat;
        lemma_steps_monotone(a, c, lead);
        lemma_steps_next(c, lead);
    }
}

/// The next bit pattern stands for a larger number.
proof fn lemma_steps_next(c: nat, lead: nat)
    requires
        lead > 0,
    ensures
        steps(c, lead) < steps(c + 1, lead),
{
    let b = c + 1;
    vstd::arithmetic::power2::lemma2_to64();
    if b >= 2 * lead {
        let field = b / lead;
        let rest = b % lead;
        vstd::arithmetic::div_mod::lemma_fundamental_div_mod(b as int, lead as int);
        assert(field >= 2) by (nonlinear_arith)
            requires b as int == lead * field + rest, 0 <= rest < lead, b >= 2 * lead,
        ;
        let k = (field - 1) as nat;
        lemma_pow2_pos(k);
        if rest > 0 {
            vstd::arithmetic::div_mod::lemma_fundamental_div_mod_converse(
                c as int,
                lead as int,
                field as int,
                rest - 1,
            );
            assert(c >= 2 * lead) by (nonlinear_arith)
                requires c as int == lead * field + rest - 1, field >= 2, rest >= 1, lead > 0,
            ;
            assert((lead + rest - 1) * pow2(k) < (lead + rest) * pow2(k)) by (nonlinear_arith)
                requires pow2(k) > 0,
            ;
        } else {
            assert(c == lead * (field - 1) + (lead - 1)) by (nonlinear_arith)
                requires c as int == lead * field - 1,
            ;
            vstd::arithmetic::div_mod::lemma_fundamental_div_mod_converse(
                c as int,
                lead as int,
                field - 1,
                lead - 1,
            );
            lemma_pow2_unfold(k);
            let j = (k - 1) as nat;
            lemma_pow2_pos(j);
            assert(lead * pow2(k) == 2 * lead * pow2(j)) by (nonlinear_arith)
                requires pow2(k) == 2 * pow2(j),
            ;
            if field == 2 {
                assert(k == 1);
                assert(lead * pow2(1) == 2 * lead) by (nonlinear_arith)
                    requires pow2(1) == 2,
                ;
            } else {
                assert(c >= 2 * lead) by (nonlinear_arith)
                    requires c as int == lead * (field - 1) + (lead - 1), field >= 3, lead > 0,
                ;
                assert((lead + (lead - 1)) * pow2(j) < 2 * lead * pow2(j)) by (nonlinear_arith)
                    requires pow2(j) > 0,
                ;
            }
        }
    }
}

/// After the shift by `excess` the leading bit stands at `lead`.
proof fn lemma_excess_bounds(n: nat, lead: nat)
    requires
        lead > 0,
    ensures
        n / pow2(excess(n, lead)) < 2 * lead,
        excess(n, lead) > 0 ==> lead <= n / pow2(excess(n, lead)),
    decreases n,
{
    vstd::arithmetic::power2::lemma2_to64();
    if n < 2 * lead {
        assert(n / 1 == n);
    } else {
        lemma_excess_bounds(n / 2, lead);
        let j = excess(n / 2, lead);
        lemma_pow2_unfold(j + 1);
        lemma_pow2_pos(j);
        vstd::arithmetic::div_mod::lemma_div_denominator(n as int, 2, pow2(j) as int);
        if j == 0 {
            assert((n / 2) / 1 == n / 2);
        }
    }
}

proof fn lemma_excess_monotone(n: nat, m: nat, lead: nat)
    requires
        n <= m,
    ensures
        excess(n, lead) <= excess(m, lead),
    decreases m,
{
    if n >= 2 * lead && n > 0 {
        lemma_excess_monotone(n / 2, m / 2, lead);
    }
}

proof fn lemma_half_even_monotone(p: nat, r: nat, q: nat)
    requires
        q > 0,
        p <= r,
    ensures
        half_even(p, q) <= half_even(r, q),
        r / q <= half_even(r, q) <= r / q + 1,
{
    vstd::arithmetic::div_mod::lemma_div_is_ordered(p as int, r as int, q as int);
    vstd::arithmetic::div_mod::lemma_fundamental_div_mod(p as int, q as int);
    vstd::arithmetic::div_mod::lemma_fundamental_div_mod(r as int, q as int);
}

/// Rounding keeps the order of exact results.
pub proof fn rounding_keeps_order(p1: nat, q1: nat, p2: nat, q2: nat, lead: nat, top: nat)
    requires
        lead > 0,
        q1 > 0,
        q2 > 0,
        p1 * q2 <= p2 * q1,
    ensures
        nearest(p1, q1, lead, top) <= nearest(p2, q2, lead, top),
{
    let q = q1 * q2;
    let a = p1 * q2;
    let b = p2 * q1;
    assert(q > 0) by (nonlinear_arith)
        requires q == q1 * q2, q1 > 0, q2 > 0,
    ;
    assert(a * q1 == p1 * q) by (nonlinear_arith)
        requires a == p1 * q2, q == q1 * q2,
    ;
    assert(b * q2 == p2 * q) by (nonlinear_arith)
        requires b == p2 * q1, q == q1 * q2,
    ;
    lemma_nearest_ratio(p1, q1, a, q, lead, top);
    lemma_nearest_ratio(p2, q2, b, q, lead, top);
    let n = a / q;
    let m = b / q;
    vstd::arithmetic::div_mod::lemma_div_is_ordered(a as int, b as int, q as int);
    lemma_excess_monotone(n, m, lead);
    let k = excess(n, lead);
    let l = excess(m, lead);
    lemma_pow2_pos(k);
    lemma_pow2_pos(l);
    assert(q * pow2(k) > 0 && q * pow2(l) > 0) by (nonlinear_arith)
        requires q > 0, pow2(k) > 0, pow2(l) > 0,
    ;
    vstd::arithmetic::div_mod::lemma_div_denominator(a as int, q as int, pow2(k) as int);
    vstd::arithmetic::div_mod::lemma_div_denominator(b as int, q as int, pow2(l) as int);
    lemma_excess_bounds(n, lead);
    lemma_excess_bounds(m, lead);
    lemma_half_even_monotone(a, a, q * pow2(k));
    lemma_half_even_monotone(b, b, q * pow2(l));
    if k == l {
        lemma_half_even_monotone(a, b, q * pow2(k));
    } else {
        assert(k * lead + 2 * lead <= l * lead + lead) by (nonlinear_arith)
            requires k + 1 <= l, lead > 0,
        ;
    }
}

/// A number of the format is its own nearest number.
pub proof fn rounding_keeps_numbers(bits: nat, lead: nat, top: nat)
    requires
        lead > 0,
        bits < top * lead,
    ensures
        nearest(steps(bits, lead), 1, lead, top) == bits,
{
    let n = steps(bits, lead);
    assert(n / 1 == n);
    vstd::arithmetic::power2::lemma2_to64();
    if bits < 2 * lead {
        assert(excess(n, lead) == 0);
        assert(n / (1 * 1) == n && n % (1 * 1) == 0);
        assert(0 * lead == 0);
    } else {
        let field = bits / lead;
        let rest = bits % lead;
        vstd::arithmetic::div_mod::lemma_fundamental_div_mod(bits as int, lead as int);
        assert(field >= 2) by (nonlinear_arith)
            requires bits as int == lead * field + rest, 0 <= rest < lead, bits >= 2 * lead,
        ;
        let k = (field - 1) as nat;
        let m = lead + rest;
        lemma_pow2_pos(k);
        vstd::arithmetic::div_mod::lemma_fundamental_div_mod_converse(
            n as int,
            pow2(k) as int,
            m as int,
            0,
        );
        lemma_excess(n, k, lead);
        assert(1 * pow2(k) == pow2(k));
        assert(k * lead + m == bits) by (nonlinear_arith)
            requires bits as int == lead * field + rest, k == field - 1, m == lead + rest,
        ;
    }
}

/// The nearest whole number leaves no more than half, and exactly half only if it is even.
pub proof fn lemma_half_even_near(p: nat, q: nat)
    requires
        q > 0,
    ensures
        2 * abs(half_even(p, q) * q - p) <= q,
        2 * abs(half_even(p, q) * q - p) == q ==> half_even(p, q) % 2 == 0,
        p / q <= half_even(p, q) <= p / q + 1,
{
    let w = p / q;
    let r = p % q;
    vstd::arithmetic::div_mod::lemma_fundamental_div_mod(p as int, q as int);
    assert(w * q == q * w) by (nonlinear_arith);
    assert((w + 1) * q == q * w + q) by (nonlinear_arith);
}

/// What the nearest magnitude stands for: a whole number of the unit of its
/// binade that is no more than half a unit off.
proof fn lemma_nearest_unit(p: nat, q: nat, lead: nat, top: nat)
    requires
        lead > 0,
        q > 0,
        nearest(p, q, lead, top) < top * lead,
    ensures
        ({
            let k = excess(p / q, lead);
            let c = pow2(k);
            let h = half_even(p, q * c);
            &&& c > 0
            &&& nearest(p, q, lead, top) == k * lead + h
            &&& steps(nearest(p, q, lead, top), lead) == h * c
            &&& 2 * abs((h * c) * q - p) <= q * c
            &&& 2 * abs((h * c) * q - p) == q * c ==> h % 2 == 0
            &&& k > 0 ==> (lead * c) * q <= p
        }),
{
    let k = excess(p / q, lead);
    let c = pow2(k);
    let h = half_even(p, q * c);
    let n = k * lead + h;
    vstd::arithmetic::power2::lemma2_to64();
    lemma_pow2_pos(k);
    assert(q * c > 0) by (nonlinear_arith)
        requires q > 0, c > 0,
    ;
    lemma_half_even_near(p, q * c);
    assert((h * c) * q == h * (q * c)) by (nonlinear_arith);
    lemma_excess_bounds(p / q, lead);
    vstd::arithmetic::div_mod::lemma_div_denominator(p as int, q as int, c as int);
    let f = p / (q * c);
    assert(f == (p / q) / c);
    assert(f <= h <= f + 1);
    vstd::arithmetic::div_mod::lemma_fundamental_div_mod(p as int, (q * c) as int);
    if k > 0 {
        assert((lead * c) * q <= p) by (nonlinear_arith)
            requires
                p as int == (q * c) * f + p % (q * c),
                p % (q * c) >= 0,
                lead <= f,
                q * c > 0,
        ;
    }
    if h < 2 * lead {
        if k == 0 {
            assert(h * 1 == h);
            assert(0 * lead == 0);
        } else {
            assert(n as int == (k + 1) * lead + (h - lead)) by (nonlinear_arith)
                requires n == k * lead + h,
            ;
            vstd::arithmetic::div_mod::lemma_fundamental_div_mod_converse(
                n as int,
                lead as int,
                (k + 1) as int,
                h - lead,
            );
            assert(n >= 2 * lead) by (nonlinear_arith)
                requires n == k * lead + h, k >= 1, h >= lead,
            ;
        }
    } else {
        assert(h == 2 * lead);
        assert(n as int == (k + 2) * lead + 0) by (nonlinear_arith)
            requires n == k * lead + 2 * lead,
        ;
        vstd::arithmetic::div_mod::lemma_fundamental_div_mod_converse(
            n as int,
            lead as int,
            (k + 2) as int,
            0,
        );
        lemma_pow2_unfold(k + 1);
        assert(n >= 2 * lead) by (nonlinear_arith)
            requires n == k * lead + 2 * lead, k >= 0, lead > 0,
        ;
        assert(lead * pow2(k + 1) == h * c) by (nonlinear_arith)
            requires pow2(k + 1) == 2 * c, h == 2 * lead,
        ;
    }
}

/// Numbers from a binade on are whole numbers of its unit.
proof fn lemma_multiple(b: nat, k: nat, lead: nat) -> (m: nat)
    requires
        lead > 0,
        steps(b, lead) >= lead * pow2(k),
        k > 0 || steps(b, lead) >= 0,
    ensures
        steps(b, lead) == m * pow2(k),
{
    vstd::arithmetic::power2::lemma2_to64();
    let c = pow2(k);
    lemma_pow2_pos(k);
    if k == 0 {
        assert(steps(b, lead) * 1 == steps(b, lead));
        steps(b, lead)
    } else {
        lemma_pow2_unfold(k);
        lemma_pow2_pos((k - 1) as nat);
        assert(lead * c >= 2 * lead) by (nonlinear_arith)
            requires c >= 2, lead > 0,
        ;
        let field = b / lead;
        let rest = b % lead;
        vstd::arithmetic::div_mod::lemma_fundamental_div_mod(b as int, lead as int);
        assert(field >= 2) by (nonlinear_arith)
            requires b as int == lead * field + rest, 0 <= rest < lead, b >= 2 * lead,
        ;
        let j = (field - 1) as nat;
        lemma_pow2_pos(j);
        if j < k {
            lemma_pow2_adds((j + 1) as nat, (k - j - 1) as nat);
            lemma_pow2_pos((k - j - 1) as nat);
            lemma_pow2_unfold((j + 1) as nat);
            assert((lead + rest) * pow2(j) < lead * c) by (nonlinear_arith)
                requires
                    rest < lead,
                    pow2(j) > 0,
                    c == (2 * pow2(j)) * pow2((k - j - 1) as nat),
                    pow2((k - j - 1) as nat) >= 1,
                    lead > 0,
            ;
            0
        } else {
            lemma_pow2_adds(k, (j - k) as nat);
            let m = (lead + rest) * pow2((j - k) as nat);
            assert((lead + rest) * pow2(j) == m * c) by (nonlinear_arith)
                requires
                    pow2(j) == c * pow2((j - k) as nat),
                    m == (lead + rest) * pow2((j - k) as nat),
            ;
            m
        }
    }
}

/// Rounding is to nearest: no number of the format is nearer to `p / q` than
/// the rounded one, and one that is equally near leaves it with an even pattern.
pub proof fn rounding_is_to_nearest(p: nat, q: nat, b: nat, lead: nat, top: nat)
    requires
        lead > 0,
        lead % 2 == 0,
        q > 0,
        nearest(p, q, lead, top) < top * lead,
    ensures
        abs(steps(nearest(p, q, lead, top), lead) * q - p) <= abs(steps(b, lead) * q - p),
        abs(steps(nearest(p, q, lead, top), lead) * q - p) == abs(steps(b, lead) * q - p) && b
            != nearest(p, q, lead, top) ==> nearest(p, q, lead, top) % 2 == 0,
{
    lemma_nearest_unit(p, q, lead, top);
    let n = nearest(p, q, lead, top);
    let k = excess(p / q, lead);
    let c = pow2(k);
    let h = half_even(p, q * c);
    let s = steps(b, lead);
    let half = lead / 2;
    assert(k * lead == 2 * (k * half)) by (nonlinear_arith)
        requires lead == 2 * half,
    ;
    if b < n {
        lemma_steps_monotone(b, n, lead);
    } else if n < b {
        lemma_steps_monotone(n, b, lead);
    }
    if s >= lead * c || k == 0 {
        let m: nat = if s >= lead * c {
            lemma_multiple(b, k, lead)
        } else {
            s
        };
        vstd::arithmetic::power2::lemma2_to64();
        assert(s == m * c) by {
            if k == 0 {
                assert(m * 1 == m);
            }
        }
        if m != h {
            assert(abs((m * c) * q - (h * c) * q) >= q * c) by (nonlinear_arith)
                requires m != h, c > 0, q > 0,
            ;
        }
    } else {
        assert(s * q < (lead * c) * q) by (nonlinear_arith)
            requires s < lead * c, q > 0,
        ;
        // The foot of the binade is a multiple too, and it is nearer than `s`.
        if lead != h {
            assert(abs((lead * c) * q - (h * c) * q) >= q * c) by (nonlinear_arith)
                requires lead != h, c > 0, q > 0,
            ;
        }
    }
}

/// What rounding leaves off is small: no more than the share of `p / q` that
/// one unit in the last place of a significand is, halved.
pub proof fn rounding_is_close(p: nat, q: nat, lead: nat, top: nat)
    requires
        lead > 0,
        q > 0,
        nearest(p, q, lead, top) < top * lead,
    ensures
        p >= lead * q ==> (2 * lead) * abs(steps(nearest(p, q, lead, top), lead) * q - p) <= p,
        p < lead * q ==> 2 * abs(steps(nearest(p, q, lead, top), lead) * q - p) <= q,
{
    lemma_nearest_unit(p, q, lead, top);
    let k = excess(p / q, lead);
    let c = pow2(k);
    let h = half_even(p, q * c);
    let e = abs((h * c) * q - p);
    vstd::arithmetic::power2::lemma2_to64();
    if k > 0 {
        lemma_pow2_unfold(k);
        assert((2 * lead) * e <= p) by (nonlinear_arith)
            requires 2 * e <= q * c, (lead * c) * q <= p, lead > 0,
        ;
        assert(p >= lead * q) by (nonlinear_arith)
            requires (lead * c) * q <= p, c >= 1, lead > 0, q > 0,
        ;
    } else {
        assert(q * 1 == q);
        if p >= lead * q {
            assert((2 * lead) * e <= p) by (nonlinear_arith)
                requires 2 * e <= q, lead * q <= p, lead > 0,
            ;
        }
    }
}

/// What rounds to infinity is larger than every finite number.
pub proof fn only_the_largest_round_to_infinity(p: nat, q: nat, b: nat, lead: nat, top: nat)
    requires
        lead > 0,
        q > 0,
        b < top * lead,
        nearest(p, q, lead, top) >= top * lead,
    ensures
        p > steps(b, lead) * q,
{
    if p <= steps(b, lead) * q {
        rounding_keeps_order(p, q, steps(b, lead), 1, lead, top);
        rounding_keeps_numbers(b, lead, top);
    }
}

} // verus!
