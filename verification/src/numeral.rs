//! Decimal numerals of whole numbers too large for a machine word.
use crate::text::{decimal, digit, digit_char};
use vstd::arithmetic::power2::{lemma_pow2_unfold, pow2};
use vstd::prelude::*;

verus! {

/// The number whose decimal digits, lowest first, are `s`.
pub open spec fn number(s: Seq<u8>) -> nat
    decreases s.len(),
{
    if s.len() == 0 {
        0
    } else {
        s[0] as nat + 10 * number(s.skip(1))
    }
}

spec fn power_of_ten(n: nat) -> nat
    decreases n,
{
    if n == 0 {
        1
    } else {
        10 * power_of_ten((n - 1) as nat)
    }
}

/// Decimal digits without a leading zero; zero itself has one digit.
pub open spec fn is_numeral(s: Seq<u8>) -> bool {
    &&& s.len() > 0
    &&& forall|i: int| 0 <= i < s.len() ==> s[i] < 10
    &&& s.len() > 1 ==> s[s.len() - 1] > 0
}

/// Appending a highest digit adds its weight.
proof fn lemma_push(s: Seq<u8>, d: u8)
    ensures
        number(s.push(d)) == number(s) + d * power_of_ten(s.len()),
    decreases s.len(),
{
    let t = s.push(d);
    if s.len() == 0 {
        assert(number(t.skip(1)) == 0);
        assert(d * 1 == d);
    } else {
        lemma_push(s.skip(1), d);
        assert(t.skip(1) =~= s.skip(1).push(d));
        let w = power_of_ten((s.len() - 1) as nat);
        assert(d * (10 * w) == 10 * (d * w)) by (nonlinear_arith);
    }
}

/// The numeral's digits, highest first, are the decimal text of its number.
proof fn lemma_decimal(s: Seq<u8>)
    requires
        is_numeral(s),
    ensures
        decimal(number(s)) == Seq::new(s.len(), |i: int| digit(s[s.len() - 1 - i] as nat)),
        s.len() > 1 ==> number(s) >= 10,
        s[s.len() - 1] > 0 ==> number(s) > 0,
    decreases s.len(),
{
    let text = Seq::new(s.len(), |i: int| digit(s[s.len() - 1 - i] as nat));
    if s.len() == 1 {
        assert(number(s.skip(1)) == 0);
        assert(text =~= seq![digit(s[0] as nat)]);
        assert(number(s) == s[0] as nat);
    } else {
        let rest = s.skip(1);
        assert(is_numeral(rest));
        lemma_decimal(rest);
        let inner = Seq::new(rest.len(), |i: int| digit(rest[rest.len() - 1 - i] as nat));
        assert(text =~= inner.push(digit(s[0] as nat)));
        assert(number(s) / 10 == number(rest) && number(s) % 10 == s[0]);
    }
}

/// The digits of `n`.
fn digits_of(n: u64) -> (r: Vec<u8>)
    ensures
        is_numeral(r@),
        number(r@) == n,
{
    let mut r: Vec<u8> = Vec::new();
    let mut rest: u64 = n;
    let ghost mut weight: nat = 1;
    assert(number(r@) == 0);
    while rest >= 10
        invariant
            forall|i: int| 0 <= i < r.len() ==> r@[i] < 10,
            weight == power_of_ten(r@.len()),
            number(r@) + rest * weight == n,
            r.len() > 0 ==> rest > 0,
        decreases rest,
    {
        let low: u8 = (rest % 10) as u8;
        proof {
            lemma_push(r@, low);
            assert(rest * weight == low * weight + (rest / 10) * (10 * weight)) by (nonlinear_arith)
                requires rest == low + 10 * (rest / 10),
            ;
            weight = 10 * weight;
        }
        r.push(low);
        rest = rest / 10;
    }
    proof {
        lemma_push(r@, rest as u8);
    }
    r.push(rest as u8);
    r
}

/// The digits of twice the number.
fn doubled(s: &Vec<u8>) -> (r: Vec<u8>)
    requires
        is_numeral(s@),
        number(s@) > 0,
    ensures
        is_numeral(r@),
        number(r@) == 2 * number(s@),
{
    let mut r: Vec<u8> = Vec::new();
    let mut carry: u8 = 0;
    let mut i: usize = 0;
    let ghost mut weight: nat = 1;
    assert(s@.skip(0) =~= s@);
    while i < s.len()
        invariant
            is_numeral(s@),
            i <= s.len(),
            r.len() == i,
            carry <= 1,
            forall|j: int| 0 <= j < r.len() ==> r@[j] < 10,
            weight == power_of_ten(r@.len()),
            number(r@) + weight * (carry + 2 * number(s@.skip(i as int))) == 2 * number(s@),
            i == s.len() && i > 0 && s@[i - 1] > 0 ==> carry > 0 || r@[i - 1] > 0,
        decreases s.len() - i,
    {
        let twice: u8 = 2 * s[i] + carry;
        let (low, next): (u8, u8) = if twice >= 10 {
            (twice - 10, 1)
        } else {
            (twice, 0)
        };
        proof {
            lemma_push(r@, low);
            let here = s@.skip(i as int);
            assert(here.skip(1) =~= s@.skip(i + 1));
            let rest = number(here.skip(1));
            assert(number(here) == s@[i as int] + 10 * rest);
            assert(weight * (carry + 2 * number(here)) == low * weight + (10 * weight) * (next + 2
                * rest)) by (nonlinear_arith)
                requires
                    number(here) == s@[i as int] + 10 * rest,
                    2 * s@[i as int] + carry == low + 10 * next,
            ;
            weight = 10 * weight;
        }
        r.push(low);
        carry = next;
        i = i + 1;
    }
    assert(number(s@.skip(i as int)) == 0);
    if carry > 0 {
        proof {
            lemma_push(r@, carry);
            assert(weight * carry == carry * weight) by (nonlinear_arith);
        }
        r.push(carry);
    } else {
        assert(weight * 0 == 0);
        assert(r.len() == 1 ==> is_numeral(r@));
    }
    r
}

/// The decimal numeral of `m * 2^k`.
pub fn scaled_decimal(m: u64, k: u32) -> (r: String)
    ensures
        r@ == decimal(m as nat * pow2(k as nat)),
{
    let mut s: Vec<u8> = digits_of(m);
    let mut done: u32 = 0;
    proof {
        vstd::arithmetic::power2::lemma2_to64();
        assert(m * 1 == m);
    }
    while done < k && m > 0
        invariant
            done <= k,
            is_numeral(s@),
            number(s@) == m as nat * pow2(done as nat),
        decreases k - done,
    {
        proof {
            lemma_pow2_unfold((done + 1) as nat);
            vstd::arithmetic::power2::lemma_pow2_pos(done as nat);
            assert(m * pow2((done + 1) as nat) == 2 * (m * pow2(done as nat))) by (nonlinear_arith)
                requires pow2((done + 1) as nat) == 2 * pow2(done as nat),
            ;
            assert(m * pow2(done as nat) > 0) by (nonlinear_arith)
                requires m > 0, pow2(done as nat) > 0,
            ;
        }
        s = doubled(&s);
        done = done + 1;
    }
    assert(m == 0 ==> 0 * pow2(k as nat) == 0 && 0 * pow2(done as nat) == 0);
    let mut r = String::new();
    let mut i: usize = s.len();
    while i > 0
        invariant
            is_numeral(s@),
            i <= s.len(),
            r@ == Seq::new((s.len() - i) as nat, |j: int| digit(s@[s.len() - 1 - j] as nat)),
        decreases i,
    {
        r.push(digit_char(s[i - 1]));
        i = i - 1;
        assert(r@ =~= Seq::new((s.len() - i) as nat, |j: int| digit(s@[s.len() - 1 - j] as nat)));
    }
    proof {
        lemma_decimal(s@);
    }
    r
}

} // verus!
