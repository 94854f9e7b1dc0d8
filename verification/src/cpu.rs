//! CPU usage from the differences of cumulative counters.
use crate::clock::{elapsed, Moment};
use crate::double::{self, minus, over, whole, Double};
use crate::sampling::MAX_SAMPLE_GAP;
use vstd::arithmetic::power2::pow2;
use vstd::math::abs;
use vstd::prelude::*;
use vstd::std_specs::cmp::PartialEqSpecImpl;

verus! {

/// Cumulative CPU times since the start of the system, over all logical
/// processors, in units of 100 ns. `kernel` holds the idle time too.
#[derive(Debug, Clone, Copy, PartialEq, Eq, Structural)]
pub struct CpuTimes {
    pub idle: u64,
    pub kernel: u64,
    pub user: u64,
}

/// The 64-bit number of which the system hands out two halves.
pub fn filetime_to_u64(high: u32, low: u32) -> (r: u64)
    ensures
        r == high * 0x1_0000_0000 + low,
{
    high as u64 * 0x1_0000_0000 + low as u64
}

/// The result of one measurement. That there is no value yet is a state of its own.
#[derive(Debug, Clone, Copy)]
pub enum CpuUsage {
    /// The first sample, or a fresh baseline: the next sample brings a value.
    Pending,
    /// The average usage between two samples, in `0..=1`.
    Busy(Double),
}

impl PartialEq for CpuUsage {
    fn eq(&self, other: &CpuUsage) -> (r: bool) {
        match (self, other) {
            (CpuUsage::Pending, CpuUsage::Pending) => true,
            (CpuUsage::Busy(a), CpuUsage::Busy(b)) => *a == *b,
            _ => false,
        }
    }
}

/// Usages are equal if their ratios are equal as numbers.
impl PartialEqSpecImpl for CpuUsage {
    open spec fn obeys_eq_spec() -> bool {
        true
    }

    open spec fn eq_spec(&self, other: &CpuUsage) -> bool {
        match (*self, *other) {
            (CpuUsage::Pending, CpuUsage::Pending) => true,
            (CpuUsage::Busy(a), CpuUsage::Busy(b)) => a.equals(b),
            _ => false,
        }
    }
}

/// Remembers the last cumulative times, and turns the next ones into a ratio.
#[derive(Debug)]
pub struct CpuSampler {
    last: Option<(CpuTimes, Moment)>,
}

/// Whether the time between two samples is one from which a rate can be had.
pub open spec fn usable_gap(at: Moment, before: Moment) -> bool {
    0 < elapsed(at, before) <= MAX_SAMPLE_GAP
}

/// No counter went back.
pub open spec fn advanced(now: CpuTimes, before: CpuTimes) -> bool {
    before.idle <= now.idle && before.kernel <= now.kernel && before.user <= now.user
}

/// The time between two readings, idle or not; idle time is part of `kernel`.
pub open spec fn total_time(now: CpuTimes, before: CpuTimes) -> int {
    (now.kernel - before.kernel) + (now.user - before.user)
}

/// The usage that a reading gives after the last one.
pub open spec fn usage(
    last: Option<(CpuTimes, Moment)>,
    now: CpuTimes,
    at: Moment,
) -> CpuUsage {
    match last {
        Some((before, before_at)) => {
            let total = total_time(now, before);
            let idle = now.idle - before.idle;
            if usable_gap(at, before_at) && advanced(now, before) && 0 < total && idle <= total {
                CpuUsage::Busy(minus(whole(1), over(whole(idle as nat), whole(total as nat))))
            } else {
                CpuUsage::Pending
            }
        },
        None => CpuUsage::Pending,
    }
}

/// Whether the total time since the last reading is a 64-bit number.
pub open spec fn measurable(
    last: Option<(CpuTimes, Moment)>,
    now: CpuTimes,
    at: Moment,
) -> bool {
    last matches Some((before, before_at)) ==> usable_gap(at, before_at) && advanced(now, before)
        ==> total_time(now, before) <= u64::MAX
}

impl CpuSampler {
    /// The last reading, from which the next one is measured.
    pub closed spec fn baseline(&self) -> Option<(CpuTimes, Moment)> {
        self.last
    }

    pub fn new() -> (r: CpuSampler)
        ensures
            r.baseline() is None,
    {
        CpuSampler { last: None }
    }

    /// Forgets the last reading.
    pub fn reset(&mut self)
        ensures
            final(self).baseline() is None,
    {
        self.last = None;
    }

    /// Whether `update` can take this reading.
    pub fn accepts(&self, now: CpuTimes, at: Moment) -> (r: bool)
        ensures
            r == measurable(self.baseline(), now, at),
    {
        match self.last {
            Some((before, before_at)) => {
                let gap: u64 = at.since(before_at);
                if gap == 0 || gap > MAX_SAMPLE_GAP || now.idle < before.idle || now.kernel
                    < before.kernel || now.user < before.user {
                    return true;
                }
                now.kernel - before.kernel <= u64::MAX - (now.user - before.user)
            },
            None => true,
        }
    }

    /// Measures against the last reading. This one is the next baseline, whatever comes out.
    pub fn update(&mut self, now: CpuTimes, at: Moment) -> (r: CpuUsage)
        requires
            measurable(old(self).baseline(), now, at),
        ensures
            r == usage(old(self).baseline(), now, at),
            final(self).baseline() == Some((now, at)),
    {
        let last = self.last;
        self.last = Some((now, at));
        match last {
            None => CpuUsage::Pending,
            Some((before, before_at)) => {
                let gap: u64 = at.since(before_at);
                if gap == 0 || gap > MAX_SAMPLE_GAP {
                    return CpuUsage::Pending;
                }
                if now.idle < before.idle || now.kernel < before.kernel || now.user < before.user {
                    return CpuUsage::Pending;
                }
                let idle: u64 = now.idle - before.idle;
                let total: u64 = (now.kernel - before.kernel) + (now.user - before.user);
                if total == 0 || idle > total {
                    return CpuUsage::Pending;
                }
                proof {
                    double::ratios_stay_within_one(idle as nat, total as nat);
                    double::lemma_whole(1);
                }
                let share = Double::from_u64(idle).divided_by(Double::from_u64(total));
                CpuUsage::Busy(Double::from_u64(1).subtract(share))
            },
        }
    }
}

impl Default for CpuSampler {
    fn default() -> (r: CpuSampler)
        ensures
            r.baseline() is None,
    {
        CpuSampler::new()
    }
}

/// Usage is a ratio in `0..=1`.
pub proof fn usage_is_a_ratio(last: Option<(CpuTimes, Moment)>, now: CpuTimes, at: Moment)
    requires
        measurable(last, now, at),
    ensures
        usage(last, now, at) matches CpuUsage::Busy(ratio) ==> ratio.bits <= double::ONE
            && ratio.is_finite() && whole(0).at_most(ratio) && ratio.at_most(whole(1)),
{
    if let CpuUsage::Busy(_) = usage(last, now, at) {
        let (before, before_at) = last->0;
        double::ratios_stay_within_one(
            (now.idle - before.idle) as nat,
            total_time(now, before) as nat,
        );
        double::lemma_whole(1);
        double::lemma_whole(0);
    }
}

/// A fully idle interval is not busy at all, and one without idle time is fully busy.
pub proof fn idle_and_busy_intervals(before: CpuTimes, now: CpuTimes, before_at: Moment, at: Moment)
    requires
        usable_gap(at, before_at),
        advanced(now, before),
        0 < total_time(now, before) <= u64::MAX,
    ensures
        now.idle - before.idle == total_time(now, before) ==> usage(
            Some((before, before_at)),
            now,
            at,
        ) == CpuUsage::Busy(whole(0)),
        now.idle == before.idle ==> usage(Some((before, before_at)), now, at) == CpuUsage::Busy(
            whole(1),
        ),
{
    let total = total_time(now, before) as nat;
    double::quotients_at_the_ends(total);
}

/// There is a usage if the clock went on by at most two and a half seconds, no
/// counter went back, some time was counted and no more of it was idle than there was.
pub proof fn usage_needs_a_usable_interval(
    last: Option<(CpuTimes, Moment)>,
    now: CpuTimes,
    at: Moment,
)
    ensures
        usage(last, now, at) is Busy <==> (last matches Some((before, before_at))
            && before_at.nanos < at.nanos <= before_at.nanos + 2_500_000_000
            && before.idle <= now.idle && before.kernel <= now.kernel && before.user <= now.user
            && before.kernel + before.user < now.kernel + now.user
            && now.idle - before.idle <= (now.kernel + now.user) - (before.kernel + before.user)),
{
}

/// A usage is the share of the counted time that was not idle: of `total` time
/// with `idle` idle time in it, the ratio times `total` is `total - idle`, but
/// for less than the `2^-50`th part of `total`. Ratios are counted in units of
/// `2^-1074`.
pub proof fn usage_is_the_share_that_was_not_idle(
    before: CpuTimes,
    before_at: Moment,
    now: CpuTimes,
    at: Moment,
    ratio: Double,
)
    requires
        measurable(Some((before, before_at)), now, at),
        usage(Some((before, before_at)), now, at) == CpuUsage::Busy(ratio),
    ensures
        ({
            let total = (now.kernel + now.user) - (before.kernel + before.user);
            let idle = now.idle - before.idle;
            pow2(50) * abs(ratio.value() * total - (total - idle) * pow2(1074)) <= total * pow2(
                1074,
            )
        }),
        0 <= ratio.value() <= pow2(1074),
{
    let total = total_time(now, before) as nat;
    let idle = (now.idle - before.idle) as nat;
    double::ratios_are_quotients(idle, total);
    double::ratios_stay_within_one(idle, total);
    double::lemma_power(0);
    crate::magnitude::lemma_steps_monotone(
        ratio.magnitude(),
        double::ONE as nat,
        double::LEAD as nat,
    );
}

/// More idle time in the same counted time is never a higher usage.
pub proof fn idle_time_lowers_usage(
    before: CpuTimes,
    before_at: Moment,
    now: CpuTimes,
    idler: CpuTimes,
    at: Moment,
    ratio: Double,
    lower: Double,
)
    requires
        measurable(Some((before, before_at)), now, at),
        measurable(Some((before, before_at)), idler, at),
        usage(Some((before, before_at)), now, at) == CpuUsage::Busy(ratio),
        usage(Some((before, before_at)), idler, at) == CpuUsage::Busy(lower),
        idler.kernel + idler.user == now.kernel + now.user,
        now.idle <= idler.idle,
    ensures
        lower.value() <= ratio.value(),
{
    let total = total_time(now, before) as nat;
    double::lemma_shares_ordered(
        (now.idle - before.idle) as nat,
        (idler.idle - before.idle) as nat,
        total,
    );
}

/// A reading can be measured unless it is usable and the time counted since the
/// last one is no 64-bit number.
pub proof fn only_overlong_times_cannot_be_measured(
    before: CpuTimes,
    before_at: Moment,
    now: CpuTimes,
    at: Moment,
)
    ensures
        measurable(None, now, at),
        measurable(Some((before, before_at)), now, at) <==> !(before_at.nanos < at.nanos
            <= before_at.nanos + 2_500_000_000 && before.idle <= now.idle && before.kernel
            <= now.kernel && before.user <= now.user && (now.kernel + now.user) - (before.kernel
            + before.user) > 0xffff_ffff_ffff_ffff),
{
}

} // verus!
