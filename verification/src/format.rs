//! Number formats that both front ends share.
use crate::double::{self, fixed, over, times, whole, Double};
use crate::text::{all_digits, digits_value};
use vstd::arithmetic::power2::pow2;
use vstd::math::abs;
use vstd::prelude::*;

verus! {

/// Bytes per second in KiB/s with one place, or from one MiB/s on in MiB/s with two.
pub open spec fn rate_text(bytes_per_sec: Double) -> Seq<char> {
    if whole(0x10_0000).at_most(bytes_per_sec) {
        fixed(over(bytes_per_sec, whole(0x10_0000)), 100, false) + " MiB/s"@
    } else {
        fixed(over(bytes_per_sec, whole(0x400)), 10, false) + " KiB/s"@
    }
}

/// A ratio in `0..1` in percent with one place.
pub open spec fn percent_text(ratio: Double) -> Seq<char> {
    fixed(times(ratio, whole(100)), 10, false) + "%"@
}

/// A frequency in MHz as GHz with two places.
pub open spec fn ghz_text(mhz: Double) -> Seq<char> {
    fixed(over(mhz, whole(1000)), 100, false) + " GHz"@
}

/// A byte count in GiB with two places, without its unit.
pub open spec fn gib_text(bytes: nat) -> Seq<char> {
    fixed(over(whole(bytes), whole(0x4000_0000)), 100, false)
}

pub open spec fn gib_pair_text(used_bytes: nat, total_bytes: nat) -> Seq<char> {
    gib_text(used_bytes) + " / "@ + gib_text(total_bytes) + " GiB"@
}

pub fn rate(bytes_per_sec: Double) -> (r: String)
    ensures
        r@ == rate_text(bytes_per_sec),
{
    let mib = Double::from_u64(0x10_0000);
    if mib.no_more_than(bytes_per_sec) {
        let mut r = bytes_per_sec.divided_by(mib).to_fixed(100, false);
        r.append(" MiB/s");
        r
    } else {
        let mut r = bytes_per_sec.divided_by(Double::from_u64(0x400)).to_fixed(10, false);
        r.append(" KiB/s");
        r
    }
}

pub fn percent(ratio: Double) -> (r: String)
    ensures
        r@ == percent_text(ratio),
{
    let mut r = ratio.multiplied_by(Double::from_u64(100)).to_fixed(10, false);
    r.append("%");
    r
}

pub fn ghz(mhz: Double) -> (r: String)
    ensures
        r@ == ghz_text(mhz),
{
    let mut r = mhz.divided_by(Double::from_u64(1000)).to_fixed(100, false);
    r.append(" GHz");
    r
}

/// A byte count in GiB with two places, without its unit.
pub fn gib(bytes: u64) -> (r: String)
    ensures
        r@ == gib_text(bytes as nat),
{
    Double::from_u64(bytes).divided_by(Double::from_u64(0x4000_0000)).to_fixed(100, false)
}

pub fn gib_pair(used_bytes: u64, total_bytes: u64) -> (r: String)
    ensures
        r@ == gib_pair_text(used_bytes as nat, total_bytes as nat),
{
    let mut r = gib(used_bytes);
    r.append(" / ");
    r.append(gib(total_bytes).as_str());
    r.append(" GiB");
    r
}

/// A rate from a mebibyte on is shown in hundredths of MiB/s, and one below in
/// tenths of KiB/s, both rounded to nearest but for less than the `2^-53`th part
/// and a unit's own part of half a place. Numbers are counted in units of `2^-1074`.
pub proof fn rates_are_shown_to_nearest(rate: Double) -> (digits: (Seq<char>, Seq<char>))
    requires
        rate.is_finite(),
        !rate.negative(),
    ensures
        rate.value() >= 0x10_0000 * pow2(1074) ==> rate_text(rate) == digits.0 + seq!['.']
            + digits.1 + " MiB/s"@ && digits.1.len() == 2 && 2 * (pow2(53) * abs(
            digits_value(digits.0 + digits.1) * (0x10_0000 * pow2(1074)) - 100 * rate.value(),
        )) <= pow2(53) * (0x10_0001 * pow2(1074)) + 200 * rate.value(),
        rate.value() < 0x10_0000 * pow2(1074) ==> rate_text(rate) == digits.0 + seq!['.']
            + digits.1 + " KiB/s"@ && digits.1.len() == 1 && 2 * (pow2(53) * abs(
            digits_value(digits.0 + digits.1) * (0x400 * pow2(1074)) - 10 * rate.value(),
        )) <= pow2(53) * (0x401 * pow2(1074)) + 20 * rate.value(),
        all_digits(digits.0),
        all_digits(digits.1),
{
    double::lemma_whole(0x10_0000);
    double::lemma_exact(0x10_0000);
    double::order_of_places(whole(0x10_0000), rate);
    let large = rate.value() >= 0x10_0000 * pow2(1074);
    let digits = if large {
        double::shown_quotients_are_nearest(rate, 0x10_0000, 100, false)
    } else {
        double::shown_quotients_are_nearest(rate, 0x400, 10, false)
    };
    assert(rate_text(rate) =~= digits.0 + seq!['.'] + digits.1 + (if large {
        " MiB/s"@
    } else {
        " KiB/s"@
    }));
    digits
}

/// A ratio is shown in tenths of a percent, rounded to nearest but for less than
/// the `2^-53`th part. Numbers are counted in units of `2^-1074`.
pub proof fn ratios_are_shown_in_percent(ratio: Double) -> (digits: (Seq<char>, Seq<char>))
    requires
        ratio.is_finite(),
        !ratio.negative(),
        times(ratio, whole(100)).is_finite(),
    ensures
        percent_text(ratio) == digits.0 + seq!['.'] + digits.1 + "%"@,
        all_digits(digits.0),
        all_digits(digits.1),
        digits.1.len() == 1,
        2 * (pow2(53) * abs(
            digits_value(digits.0 + digits.1) * pow2(1074) - 1000 * ratio.value(),
        )) <= pow2(53) * pow2(1074) + 2000 * ratio.value(),
{
    let digits = double::shown_products_are_nearest(ratio, 100, 10, false);
    assert(percent_text(ratio) =~= digits.0 + seq!['.'] + digits.1 + "%"@);
    digits
}

/// A frequency in MHz is shown in hundredths of GHz, rounded to nearest but for
/// less than the `2^-53`th part and a thousandth of half a place. Numbers are
/// counted in units of `2^-1074`.
pub proof fn frequencies_are_shown_in_gigahertz(mhz: Double) -> (digits: (Seq<char>, Seq<char>))
    requires
        mhz.is_finite(),
        !mhz.negative(),
    ensures
        ghz_text(mhz) == digits.0 + seq!['.'] + digits.1 + " GHz"@,
        all_digits(digits.0),
        all_digits(digits.1),
        digits.1.len() == 2,
        2 * (pow2(53) * abs(
            digits_value(digits.0 + digits.1) * (1000 * pow2(1074)) - 100 * mhz.value(),
        )) <= pow2(53) * (1001 * pow2(1074)) + 200 * mhz.value(),
{
    let digits = double::shown_quotients_are_nearest(mhz, 1000, 100, false);
    assert(ghz_text(mhz) =~= digits.0 + seq!['.'] + digits.1 + " GHz"@);
    digits
}

/// A byte count is shown in hundredths of GiB, rounded to nearest but for less
/// than a five-hundredth of half a place.
pub proof fn sizes_are_shown_in_gibibytes(bytes: nat) -> (digits: (Seq<char>, Seq<char>))
    requires
        bytes <= u64::MAX,
    ensures
        gib_text(bytes) == digits.0 + seq!['.'] + digits.1,
        all_digits(digits.0),
        all_digits(digits.1),
        digits.1.len() == 2,
        2 * abs(digits_value(digits.0 + digits.1) * 0x4000_0000 - 100 * bytes) <= 0x4020_0000,
{
    let u = pow2(1074);
    let k: nat = 0x4000_0000;
    let x = whole(bytes);
    double::lemma_whole(bytes);
    double::lemma_whole_close(bytes);
    let digits = double::shown_quotients_are_nearest(x, k, 100, false);
    let n = digits_value(digits.0 + digits.1);
    let xx = x.value();
    let e: int = 0x20_0000_0000_0000;
    vstd::arithmetic::power2::lemma2_to64_rest();
    vstd::arithmetic::power2::lemma_pow2_pos(1074);
    assert(gib_text(bytes) =~= digits.0 + seq!['.'] + digits.1);
    let a = n * (k * u) - 100 * xx;
    let b = xx - bytes * u;
    double::lemma_abs(e, b, (bytes * u) as int);
    double::lemma_abs(e, a, e * abs(a));
    let d = n * k - 100 * bytes;
    assert(d * u == a + 100 * b) by (nonlinear_arith)
        requires d == n * k - 100 * bytes, a == n * (k * u) - 100 * xx, b == xx - bytes * u,
    ;
    let bound = e * 0x4000_0001 + 600 * bytes;
    assert(e * ((k + 1) * u) + 400 * (bytes * u) + 200 * (bytes * u) == bound * u) by (nonlinear_arith)
        requires bound == e * (k + 1) + 600 * bytes,
    ;
    assert(2 * e * (d * u) == 2 * (e * a) + 200 * (e * b)) by (nonlinear_arith)
        requires d * u == a + 100 * b,
    ;
    assert(-bound <= 2 * (e * d) <= bound) by (nonlinear_arith)
        requires -(bound * u) <= 2 * e * (d * u) <= bound * u, u > 0,
    ;
    digits
}

/// The sizes of a pair are shown as each alone, the used one first.
pub proof fn pairs_show_both_sizes(used_bytes: nat, total_bytes: nat)
    ensures
        gib_text(used_bytes).is_prefix_of(gib_pair_text(used_bytes, total_bytes)),
        (gib_text(total_bytes) + " GiB"@).is_suffix_of(gib_pair_text(used_bytes, total_bytes)),
        gib_pair_text(used_bytes, total_bytes).len() == gib_text(used_bytes).len() + 3 + gib_text(
            total_bytes,
        ).len() + 4,
{
    reveal_strlit(" / ");
    reveal_strlit(" GiB");
    let pair = gib_pair_text(used_bytes, total_bytes);
    let a = gib_text(used_bytes);
    let b = gib_text(total_bytes) + " GiB"@;
    assert(pair.subrange(0, a.len() as int) =~= a);
    assert(pair.subrange(pair.len() - b.len(), pair.len() as int) =~= b);
}

} // verus!
