//! Round to nearest, ties to even, onto the grid of a binary floating-point format.
//!
//! Every finite magnitude of a format is a whole number of its smallest
//! positive step, so a magnitude is specified by that whole number, and an
//! exact result by a fraction of two whole numbers of steps.
use vstd::arithmetic::power2::{
    lemma_pow2_adds, lemma_pow2_pos, lemma_pow2_unfold, pow2,
};
use vstd::prelude::*;

verus! {

/// The whole number nearest to `p / q`, the even one of two that are equally near.
pub open spec fn half_even(p: nat, q: nat) -> nat
    recommends
        q > 0,
{
    let whole = p / q;
    let rest = p % q;
    if 2 * rest < q || (2 * rest == q && whole % 2 == 0) {
        whole
    } else {
        whole + 1
    }
}

/// How many low bits of `n` lie beyond the significand whose leading bit weighs `lead`.
pub open spec fn excess(n: nat, lead: nat) -> nat
    decreases n,
{
    if n < 2 * lead || n == 0 {
        0
    } else {
        1 + excess(n / 2, lead)
    }
}

/// The bit pattern of the magnitude nearest to `p / q` steps, in the format
/// whose leading significand bit weighs `lead` and whose infinity has the
/// exponent field `top`.
pub open spec fn nearest(p: nat, q: nat, lead: nat, top: nat) -> nat {
    let k = excess(p / q, lead);
    let bits = k * lead + half_even(p, q * pow2(k));
    if bits < top * lead {
        bits
    } else {
        top * lead
    }
}

/// The whole number of steps that the finite bit pattern `bits` stands for.
pub open spec fn steps(bits: nat, lead: nat) -> nat {
    if bits < 2 * lead {
        bits
    } else {
        (lead + bits % lead) * pow2((bits / lead - 1) as nat)
    }
}

/// Fractions of equal value have the same floor and round alike.
pub proof fn lemma_same_ratio(p1: nat, q1: nat, p2: nat, q2: nat)
    requires
        q1 > 0,
        q2 > 0,
        p1 * q2 == p2 * q1,
    ensures
        p1 / q1 == p2 / q2,
        half_even(p1, q1) == half_even(p2, q2),
{
    let n = p1 / q1;
    let r1 = p1 % q1;
    let r2 = (p2 - n * q2) as int;
    vstd::arithmetic::div_mod::lemma_fundamental_div_mod(p1 as int, q1 as int);
    assert(p1 == n * q1 + r1) by (nonlinear_arith)
        requires p1 == q1 * n + r1,
    ;
    assert(r1 * q2 == r2 * q1) by (nonlinear_arith)
        requires
            p1 == n * q1 + r1,
            p1 * q2 == p2 * q1,
            r2 == p2 - n * q2,
    ;
    assert(0 <= r2 < q2) by (nonlinear_arith)
        requires
            r1 * q2 == r2 * q1,
            0 <= r1 < q1,
            q2 > 0,
    ;
    vstd::arithmetic::div_mod::lemma_fundamental_div_mod_converse(
        p2 as int,
        q2 as int,
        n as int,
        r2,
    );
    assert(2 * r1 < q1 <==> 2 * r2 < q2) by (nonlinear_arith)
        requires
            r1 * q2 == r2 * q1,
            q1 > 0,
            q2 > 0,
    ;
    assert(2 * r1 == q1 <==> 2 * r2 == q2) by (nonlinear_arith)
        requires
            r1 * q2 == r2 * q1,
            q1 > 0,
            q2 > 0,
    ;
}

/// `excess` is the shift that leaves the leading bit at `lead`.
pub proof fn lemma_excess(n: nat, k: nat, lead: nat)
    requires
        lead > 0,
        n / pow2(k) < 2 * lead,
        k > 0 ==> lead <= n / pow2(k),
    ensures
        excess(n, lead) == k,
    decreases k,
{
    lemma_pow2_pos(k);
    if k == 0 {
        vstd::arithmetic::power2::lemma2_to64();
        assert(n / 1 == n);
    } else {
        let j = (k - 1) as nat;
        lemma_pow2_unfold(k);
        lemma_pow2_pos(j);
        vstd::arithmetic::div_mod::lemma_div_denominator(n as int, 2, pow2(j) as int);
        assert(n / pow2(k) == (n / 2) / pow2(j));
        assert(n >= 2 * lead) by {
            vstd::arithmetic::div_mod::lemma_fundamental_div_mod(n as int, pow2(k) as int);
            assert(n >= pow2(k) * lead) by (nonlinear_arith)
                requires
                    n as int == pow2(k) * (n / pow2(k)) + n % pow2(k),
                    lead <= n / pow2(k),
                    n % pow2(k) >= 0,
            ;
            assert(pow2(k) * lead >= 2 * lead) by (nonlinear_arith)
                requires pow2(k) == 2 * pow2(j), pow2(j) >= 1, lead > 0,
            ;
        }
        lemma_excess(n / 2, j, lead);
    }
}

/// `2^s`, written as a factor of the numerator.
pub open spec fn up(s: int) -> nat {
    if s >= 0 {
        pow2(s as nat)
    } else {
        1
    }
}

/// `2^-s`, written as a factor of the denominator.
pub open spec fn down(s: int) -> nat {
    up(-s)
}

/// Scaling both sides of a fraction by powers of two that make up for each
/// other keeps its value.
proof fn lemma_scaled(p: nat, q: nat, s: int, a: nat, b: nat, k: nat)
    requires
        k == b - a + s,
    ensures
        (p * pow2(a)) * (q * down(s) * pow2(k)) == (p * up(s)) * (q * pow2(b)),
{
    let u: nat = if s >= 0 { s as nat } else { 0 };
    let d: nat = if s >= 0 { 0 } else { (-s) as nat };
    vstd::arithmetic::power2::lemma2_to64();
    assert(up(s) == pow2(u));
    assert(down(s) == pow2(d));
    lemma_pow2_adds(a, d);
    lemma_pow2_adds(a + d, k);
    lemma_pow2_adds(u, b);
    assert(a + d + k == u + b);
    assert((p * pow2(a)) * (q * pow2(d) * pow2(k)) == (p * q) * (pow2(a) * pow2(d) * pow2(k)))
        by (nonlinear_arith);
    assert((p * pow2(u)) * (q * pow2(b)) == (p * q) * (pow2(u) * pow2(b))) by (nonlinear_arith);
}

/// The magnitude nearest to `p / q * 2^s` steps.
pub fn nearest_bits(p: u128, q: u128, s: i32, lead: u64, top: u64) -> (bits: u64)
    requires
        p < 0x4000_0000_0000_0000_0000_0000_0000_0000,
        0 < q < 0x1_0000_0000_0000_0000,
        -0x10000 < s < 0x10000,
        0 < lead <= 0x10_0000_0000_0000,
        top <= 2047,
    ensures
        bits == nearest(
            p as nat * up(s as int),
            q as nat * down(s as int),
            lead as nat,
            top as nat,
        ),
        bits <= top * lead,
{
    let ghost pp = p as nat * up(s as int);
    let ghost qq = q as nat * down(s as int);
    assert(top * lead <= 2047 * 0x10_0000_0000_0000) by (nonlinear_arith)
        requires 0 <= top <= 2047, 0 < lead <= 0x10_0000_0000_0000,
    ;
    let limit: u64 = top * lead;
    let width: u128 = lead as u128;
    proof {
        lemma_up_pos(s as int);
        lemma_up_pos(-s as int);
        assert(qq > 0) by (nonlinear_arith)
            requires qq == q as nat * down(s as int), q > 0, down(s as int) > 0,
        ;
        vstd::arithmetic::power2::lemma2_to64();
    }
    if p == 0 {
        proof {
            assert(pp == 0) by (nonlinear_arith)
                requires pp == 0 * up(s as int),
            ;
            assert(pp / qq == 0 && pp % qq == 0) by {
                vstd::arithmetic::div_mod::lemma_small_mod(0, qq);
                vstd::arithmetic::div_mod::lemma_basic_div(0, qq as int);
            }
            assert(qq * pow2(0) == qq);
            assert(0 * lead == 0);
        }
        return 0;
    }
    let mut n: u128 = p;
    let mut e: i32 = s;
    let ghost mut a: nat = 0;
    while n / q < width
        invariant
            0 < n,
            0 < q < 0x1_0000_0000_0000_0000,
            0 < width <= 0x10_0000_0000_0000,
            n == p * pow2(a),
            e == s - a,
            a <= 128,
            n >= pow2(a),
            n < 0x4000_0000_0000_0000_0000_0000_0000_0000,
            -0x10000 < s < 0x10000,
            a > 0 ==> n / q < 2 * width,
        decreases 128 - a,
    {
        assert(n < width * q) by (nonlinear_arith)
            requires n / q < width, q > 0,
        ;
        assert(width * q < 0x10_0000_0000_0000 * 0x1_0000_0000_0000_0000) by (nonlinear_arith)
            requires 0 < width <= 0x10_0000_0000_0000, 0 < q < 0x1_0000_0000_0000_0000,
        ;
        proof {
            lemma_pow2_unfold(a + 1);
            assert(p * pow2(a + 1) == 2 * (p * pow2(a))) by (nonlinear_arith)
                requires pow2(a + 1) == 2 * pow2(a),
            ;
            assert((2 * n) / (q as int) < 2 * width) by (nonlinear_arith)
                requires n < width * q, q > 0,
            ;
            assert(a < 128) by {
                if a == 128 {
                    lemma_pow2_adds(64, 64);
                    vstd::arithmetic::power2::lemma2_to64_rest();
                    assert(pow2(64) * pow2(64) == 0x1_0000_0000_0000_0000 * 0x1_0000_0000_0000_0000);
                }
            }
            a = a + 1;
        }
        n = n * 2;
        e = e - 1;
    }
    let mut d: u128 = q;
    let ghost mut b: nat = 0;
    while n / d >= 2 * width
        invariant
            0 < n < 0x4000_0000_0000_0000_0000_0000_0000_0000,
            0 < d,
            0 < width <= 0x10_0000_0000_0000,
            d == q * pow2(b),
            e == s - a + b,
            n / d >= width,
            b <= 128,
            a <= 128,
            d >= pow2(b),
            -0x10000 < s < 0x10000,
        decreases n - d,
    {
        assert(n >= 2 * width * d) by (nonlinear_arith)
            requires n / d >= 2 * width, d > 0,
        ;
        assert(n >= 2 * d) by (nonlinear_arith)
            requires n >= 2 * width * d, width >= 1, d > 0,
        ;
        assert(n as int / (2 * d) >= width) by (nonlinear_arith)
            requires n >= 2 * width * d, d > 0,
        ;
        proof {
            lemma_pow2_unfold(b + 1);
            assert(q * pow2(b + 1) == 2 * (q * pow2(b))) by (nonlinear_arith)
                requires pow2(b + 1) == 2 * pow2(b),
            ;
            assert(b < 128) by {
                if b == 128 {
                    lemma_pow2_adds(64, 64);
                    vstd::arithmetic::power2::lemma2_to64_rest();
                    assert(pow2(64) * pow2(64) == 0x1_0000_0000_0000_0000 * 0x1_0000_0000_0000_0000);
                }
            }
            b = b + 1;
        }
        d = d * 2;
        e = e + 1;
    }
    while e < 0 && d <= 2 * n
        invariant
            0 < n < 0x4000_0000_0000_0000_0000_0000_0000_0000,
            0 < d,
            0 < width,
            d == q * pow2(b),
            e == s - a + b,
            e > 0 ==> n / d >= width,
            n / d < 2 * width,
            a <= 128,
            e <= 0x20000,
        decreases -e,
    {
        proof {
            lemma_pow2_unfold(b + 1);
            assert(q * pow2(b + 1) == 2 * (q * pow2(b))) by (nonlinear_arith)
                requires pow2(b + 1) == 2 * pow2(b),
            ;
            assert(n as int / (2 * d) <= n as int / d as int) by (nonlinear_arith)
                requires d > 0, n > 0,
            ;
            b = b + 1;
        }
        d = d * 2;
        e = e + 1;
    }
    if e < 0 {
        proof {
            lemma_below_half(p as nat, q as nat, s as int, a, b, n as nat, d as nat);
            assert(pp / qq == 0 && half_even(pp, qq * pow2(0)) == 0) by {
                assert(qq * pow2(0) == qq);
                vstd::arithmetic::div_mod::lemma_basic_div(pp as int, qq as int);
                vstd::arithmetic::div_mod::lemma_small_mod(pp, qq);
            }
            assert(0 * lead == 0);
        }
        return 0;
    }
    let whole: u128 = n / d;
    let rest: u128 = n % d;
    let rounded: u128 = if rest < d - rest || (rest == d - rest && whole % 2 == 0) {
        whole
    } else {
        whole + 1
    };
    let ghost k = e as nat;
    proof {
        lemma_scaled(p as nat, q as nat, s as int, a, b, k);
        lemma_pow2_pos(k);
        assert(qq * pow2(k) > 0) by (nonlinear_arith)
            requires qq > 0, pow2(k) > 0,
        ;
        lemma_same_ratio(n as nat, d as nat, pp, qq * pow2(k));
        assert(rounded == half_even(pp, qq * pow2(k)));
        vstd::arithmetic::div_mod::lemma_div_denominator(pp as int, qq as int, pow2(k) as int);
        lemma_excess(pp / qq, k, lead as nat);
    }
    if e as u64 >= top {
        proof {
            assert(k * lead >= top * lead) by (nonlinear_arith)
                requires k >= top, lead > 0,
            ;
        }
        return limit;
    }
    assert(e * width <= 2047 * 0x10_0000_0000_0000) by (nonlinear_arith)
        requires 0 <= e <= 2047, 0 < width <= 0x10_0000_0000_0000,
    ;
    let bits: u128 = e as u128 * width + rounded;
    if bits < limit as u128 {
        bits as u64
    } else {
        limit
    }
}

pub proof fn lemma_up_pos(s: int)
    ensures
        up(s) > 0,
{
    if s >= 0 {
        lemma_pow2_pos(s as nat);
    }
}

/// What is less than half a step after a further halving is less than half a step.
proof fn lemma_below_half(p: nat, q: nat, s: int, a: nat, b: nat, n: nat, d: nat)
    requires
        q > 0,
        n == p * pow2(a),
        d == q * pow2(b),
        d > 2 * n,
        s - a + b < 0,
    ensures
        2 * (p * up(s)) < q * down(s),
{
    let gap = (a - b - s) as nat;
    lemma_scaled(p, q, s, a, b + gap, 0);
    vstd::arithmetic::power2::lemma2_to64();
    lemma_pow2_adds(b, gap);
    lemma_pow2_pos(gap);
    lemma_pow2_pos(b);
    lemma_up_pos(s);
    lemma_up_pos(-s);
    let pp = p * up(s);
    let qq = q * down(s);
    let dd = q * pow2(b + gap);
    assert(qq * pow2(0) == qq);
    assert(n * qq == pp * dd);
    assert(dd == d * pow2(gap)) by (nonlinear_arith)
        requires dd == q * (pow2(b) * pow2(gap)), d == q * pow2(b),
    ;
    assert(dd >= d) by (nonlinear_arith)
        requires dd == d * pow2(gap), pow2(gap) >= 1, d >= 0,
    ;
    assert(qq > 0) by (nonlinear_arith)
        requires qq == q * down(s), q > 0, down(s) > 0,
    ;
    assert(2 * pp < qq) by (nonlinear_arith)
        requires n * qq == pp * dd, dd > 2 * n, n >= 0, qq > 0, pp >= 0,
    {
        // dd * qq > 2 * n * qq == 2 * pp * dd
        if 2 * pp >= qq {
            assert(2 * pp * dd >= qq * dd);
            assert(dd * qq > 2 * n * qq);
        }
    }
}

} // verus!
