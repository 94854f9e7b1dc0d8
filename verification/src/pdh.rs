//! Performance counters: CPU frequency, disk throughput and the busiest GPU engine.
use crate::clock::{elapsed, Moment, SECOND};
use crate::double::{self, over, times, whole, Double};
use crate::sampling::MAX_SAMPLE_GAP;
use crate::text::{
    ascii_lowercase, before_zero, chars_of, decode_utf16, find, first_at, has, hex, hex_text,
    number_of, number_said, occurs_at, stands_at, text_of, to_ascii_lowercase, unsigned,
    unsigned_of, utf16,
};
use vstd::arithmetic::power2::{lemma_pow2_adds, lemma_pow2_pos, pow2};
use vstd::math::abs;
use vstd::prelude::*;
use vstd::slice::slice_subrange;

verus! {

/// A baseline younger than this gives no reading.
pub const MIN_BASELINE_AGE: u64 = 500_000_000;

/// A query that failed is opened again no sooner than after this time.
pub const RETRY_INTERVAL: u64 = 30 * SECOND;

/// The buffer is too small.
pub const PDH_MORE_DATA: u32 = 0x8000_07d2;

pub const PDH_CSTATUS_VALID_DATA: u32 = 0;

pub const PDH_CSTATUS_NEW_DATA: u32 = 1;

/// There is no adapter with this index.
pub const DXGI_ERROR_NOT_FOUND: u32 = 0x887a_0002;

/// The adapters are enumerated up to this index, should the enumeration not end by itself.
pub const MAX_ADAPTERS: u32 = 32;

/// How often the counter array is asked for while it keeps growing.
pub const ARRAY_ATTEMPTS: u32 = 3;

/// The rate at which all physical disks are read.
pub const READ_TOTAL: &'static str = "\\PhysicalDisk(_Total)\\Disk Read Bytes/sec";

/// The rate at which all physical disks are written.
pub const WRITE_TOTAL: &'static str = "\\PhysicalDisk(_Total)\\Disk Write Bytes/sec";

/// The usage of each engine by each process.
pub const GPU_ENGINES: &'static str = "\\GPU Engine(*)\\Utilization Percentage";

pub const CPU_BASE_MHZ: &'static str =
    "\\Processor Information(_Total)\\Processor Frequency";

pub const CPU_PERFORMANCE: &'static str =
    "\\Processor Information(_Total)\\% Processor Performance";

#[derive(Debug, Clone, Copy)]
pub struct DiskRates {
    pub read_bps: Double,
    pub write_bps: Double,
}

#[derive(Debug)]
pub struct EngineReading {
    pub adapter: String,
    pub pid: u32,
    pub engine_type: String,
    pub percent: Double,
}

impl Clone for EngineReading {
    fn clone(&self) -> (r: EngineReading)
        ensures
            r == *self,
    {
        EngineReading {
            adapter: self.adapter.clone(),
            pid: self.pid,
            engine_type: self.engine_type.clone(),
            percent: self.percent,
        }
    }
}

#[derive(Debug)]
pub struct Snapshot {
    pub disk: Result<DiskRates, String>,
    /// Nothing, if adapters matched but no engine is active.
    pub gpu: Result<Option<EngineReading>, String>,
}

/// A message that ends in a code.
fn code_message(before: &str, code: u32) -> (r: String)
    ensures
        r@ == before@ + hex(code as nat, 8, true),
{
    let mut r = String::from_str(before);
    r.append(hex_text(code as u64, 8, true).as_str());
    r
}

pub open spec fn status_message(operation: Seq<char>, code: i32) -> Seq<char> {
    operation + ": PDH 0x"@ + hex(unsigned(code), 8, true)
}

/// The outcome of an operation that returned `code`.
pub fn status(operation: &str, code: i32) -> (r: Result<(), String>)
    ensures
        match r {
            Ok(()) => code == 0,
            Err(e) => code != 0 && e@ == status_message(operation@, code),
        },
{
    if code == 0 {
        Ok(())
    } else {
        let mut r = String::from_str(operation);
        r.append(": PDH 0x");
        r.append(hex_text(unsigned_of(code) as u64, 8, true).as_str());
        Err(r)
    }
}

/// Whether the status of a counter value says that the value can be used.
pub open spec fn usable_status(status: u32) -> bool {
    status == PDH_CSTATUS_VALID_DATA || status == PDH_CSTATUS_NEW_DATA
}

/// A counter value is usable if it is finite and not negative.
pub open spec fn usable_value(value: Double) -> bool {
    value.is_finite() && whole(0).at_most(value)
}

/// The value that a formatted counter gives: `code` is what the query
/// returned, `value` the number it filled in with the status `value_status`,
/// and `shown` that number in print.
pub fn formatted_value(code: i32, value_status: u32, value: Double, shown: &str) -> (r: Result<
    Double,
    String,
>)
    ensures
        if code != 0 {
            r is Err && r->Err_0@ == status_message("PdhGetFormattedCounterValue"@, code)
        } else if !usable_status(value_status) {
            r is Err && r->Err_0@ == "PDH CStatus=0x"@ + hex(value_status as nat, 8, true)
        } else if usable_value(value) {
            r == Ok::<Double, String>(value)
        } else {
            r is Err && r->Err_0@ == "无效计数器值："@ + shown@
        },
{
    match status("PdhGetFormattedCounterValue", code) {
        Ok(()) => {},
        Err(e) => return Err(e),
    }
    if value_status != PDH_CSTATUS_VALID_DATA && value_status != PDH_CSTATUS_NEW_DATA {
        return Err(code_message("PDH CStatus=0x", value_status));
    }
    if value.finite() && Double::from_u64(0).no_more_than(value) {
        Ok(value)
    } else {
        let mut message = String::from_str("无效计数器值：");
        message.append(shown);
        Err(message)
    }
}

/// Rates need two collections: one too close to the baseline, or too far from
/// the last one, is not read.
#[derive(Debug, Clone, Copy, PartialEq, Eq, Structural)]
pub struct Baseline {
    pub started: Moment,
    pub last_poll: Moment,
}

#[derive(Debug, Clone, Copy, PartialEq, Eq, Structural)]
pub enum Readiness {
    /// The last collection is too long ago: collect once for a new baseline.
    Rebase,
    Warming,
    Ready,
}

pub open spec fn readiness(b: Baseline, now: Moment) -> Readiness {
    if elapsed(now, b.last_poll) > MAX_SAMPLE_GAP {
        Readiness::Rebase
    } else if elapsed(now, b.started) < MIN_BASELINE_AGE {
        Readiness::Warming
    } else {
        Readiness::Ready
    }
}

/// The baseline after a poll.
pub open spec fn polled(b: Baseline, now: Moment) -> Baseline {
    match readiness(b, now) {
        Readiness::Rebase => Baseline { started: now, last_poll: now },
        Readiness::Warming => b,
        Readiness::Ready => Baseline { started: b.started, last_poll: now },
    }
}

impl Baseline {
    pub fn new(now: Moment) -> (r: Baseline)
        ensures
            r == (Baseline { started: now, last_poll: now }),
    {
        Baseline { started: now, last_poll: now }
    }

    /// What can be done now.
    pub fn check(&mut self, now: Moment) -> (r: Readiness)
        ensures
            r == readiness(*old(self), now),
            *final(self) == polled(*old(self), now),
    {
        if now.since(self.last_poll) > MAX_SAMPLE_GAP {
            *self = Baseline { started: now, last_poll: now };
            Readiness::Rebase
        } else if now.since(self.started) < MIN_BASELINE_AGE {
            Readiness::Warming
        } else {
            self.last_poll = now;
            Readiness::Ready
        }
    }
}

/// After a new baseline, nothing is read for the time that a baseline needs,
/// and then something is, unless the next poll comes too late.
pub proof fn a_new_baseline_warms_up(b: Baseline, now: Moment, later: Moment)
    requires
        readiness(b, now) == Readiness::Rebase,
        now.nanos <= later.nanos,
    ensures
        later.nanos - now.nanos < MIN_BASELINE_AGE ==> readiness(polled(b, now), later)
            == Readiness::Warming,
        MIN_BASELINE_AGE <= later.nanos - now.nanos <= MAX_SAMPLE_GAP ==> readiness(
            polled(b, now),
            later,
        ) == Readiness::Ready,
        later.nanos - now.nanos > MAX_SAMPLE_GAP ==> readiness(polled(b, now), later)
            == Readiness::Rebase,
{
}

/// Estimates the CPU's frequency from the base frequency that the system
/// reports and the current performance in percent, over all processors.
#[derive(Debug)]
pub struct CpuFrequencySampler {
    baseline: Baseline,
}

/// What a poll of the frequency counters gave.
pub enum FrequencyPoll {
    /// A new baseline was collected, or collecting it failed.
    Rebased(Result<(), String>),
    Warming,
    /// The base frequency in MHz and the performance in percent.
    Collected(Result<(Double, Double), String>),
}

/// The estimate from a base frequency and a performance in percent.
pub open spec fn estimate(base_mhz: Double, performance_percent: Double) -> Double {
    over(times(base_mhz, performance_percent), whole(100))
}

/// Whether `r` is the frequency in MHz that a poll gave.
pub open spec fn is_frequency(r: Result<Option<Double>, String>, poll: FrequencyPoll) -> bool {
    match poll {
        FrequencyPoll::Warming | FrequencyPoll::Rebased(Ok(())) => r
            == Ok::<Option<Double>, String>(None),
        FrequencyPoll::Rebased(Err(e)) => r is Err && r->Err_0@ == e@,
        FrequencyPoll::Collected(Err(e)) => r is Err && r->Err_0@ == e@,
        FrequencyPoll::Collected(Ok((base, performance))) => if base.at_most(whole(0))
            || performance.at_most(whole(0)) {
            r == Ok::<Option<Double>, String>(None)
        } else if estimate(base, performance).is_finite() {
            r == Ok::<Option<Double>, String>(Some(estimate(base, performance)))
        } else {
            r is Err && r->Err_0@ == "CPU 估算频率不是有限数"@
        },
    }
}

impl CpuFrequencySampler {
    pub closed spec fn base(&self) -> Baseline {
        self.baseline
    }

    /// A sampler whose first collection was made at `now`.
    pub fn new(now: Moment) -> (r: CpuFrequencySampler)
        ensures
            r.base() == (Baseline { started: now, last_poll: now }),
    {
        CpuFrequencySampler { baseline: Baseline::new(now) }
    }

    /// What can be done with the counters now.
    pub fn poll(&mut self, now: Moment) -> (r: Readiness)
        ensures
            r == readiness(old(self).base(), now),
            final(self).base() == polled(old(self).base(), now),
    {
        self.baseline.check(now)
    }
}

/// The frequency in MHz; nothing while there is no baseline or no value.
pub fn frequency(poll: FrequencyPoll) -> (r: Result<Option<Double>, String>)
    ensures
        is_frequency(r, poll),
{
    match poll {
        FrequencyPoll::Warming => Ok(None),
        FrequencyPoll::Rebased(Ok(())) => Ok(None),
        FrequencyPoll::Rebased(Err(e)) => Err(e),
        FrequencyPoll::Collected(Err(e)) => Err(e),
        FrequencyPoll::Collected(Ok((base, performance))) => {
            let zero = Double::from_u64(0);
            if base.no_more_than(zero) || performance.no_more_than(zero) {
                return Ok(None);
            }
            let mhz = base.multiplied_by(performance).divided_by(Double::from_u64(100));
            if mhz.finite() {
                Ok(Some(mhz))
            } else {
                Err(String::from_str("CPU 估算频率不是有限数"))
            }
        },
    }
}

/// A graphics adapter, and the mark that its counter instances bear.
#[derive(Debug)]
pub struct Adapter {
    pub name: String,
    pub marker: String,
}

/// An adapter as the system describes it.
pub struct AdapterDescription {
    pub flags: u32,
    /// Zero-terminated UTF-16.
    pub description: Vec<u16>,
    pub luid_high: i32,
    pub luid_low: u32,
}

/// What came of asking for the next adapter.
pub enum AdapterQuery {
    Described(AdapterDescription),
    /// There was no adapter; the code says why, and the text says it in words.
    EnumerationFailed(u32, String),
    DescriptionFailed(String),
}

/// An adapter as texts.
pub struct AdapterText {
    pub name: Seq<char>,
    pub marker: Seq<char>,
}

impl View for Adapter {
    type V = AdapterText;

    open spec fn view(&self) -> AdapterText {
        AdapterText { name: self.name@, marker: self.marker@ }
    }
}

pub open spec fn marker_text(luid_high: i32, luid_low: u32) -> Seq<char> {
    "_luid_0x"@ + hex(unsigned(luid_high), 8, false) + "_0x"@ + hex(luid_low as nat, 8, false) + "_"@
}

/// The adapter that a description is of, unless it is made of software.
pub open spec fn adapter_said(d: AdapterDescription) -> Option<AdapterText> {
    if (d.flags / 2) % 2 == 1 {
        None
    } else {
        Some(
            AdapterText {
                name: decode_utf16(before_zero(d.description@)),
                marker: marker_text(d.luid_high, d.luid_low),
            },
        )
    }
}

pub open spec fn adapter_texts(adapters: Seq<Adapter>) -> Seq<AdapterText> {
    adapters.map_values(|a: Adapter| a@)
}

/// The enumeration of adapters, up to the next index.
pub struct AdapterScan {
    pub index: u32,
    pub adapters: Vec<Adapter>,
}

/// What to do after an answer of the enumeration.
pub enum AdapterStep {
    /// Ask for the adapter at the index of the scan.
    Query(AdapterScan),
    Finished(Result<Vec<Adapter>, String>),
}

/// Whether `r` is the end of an enumeration that found `adapters`.
pub open spec fn is_adapter_list(
    r: Result<Vec<Adapter>, String>,
    adapters: Seq<AdapterText>,
) -> bool {
    match r {
        Ok(list) => adapters.len() > 0 && adapter_texts(list@) == adapters,
        Err(e) => adapters.len() == 0 && e@ == "DXGI 没有枚举到物理 GPU 适配器"@,
    }
}

/// The adapters after one more description.
pub open spec fn with_described(
    before: Seq<AdapterText>,
    d: AdapterDescription,
) -> Seq<AdapterText> {
    match adapter_said(d) {
        Some(adapter) => before.push(adapter),
        None => before,
    }
}

/// Whether `step` follows from the answer to a scan's query.
pub open spec fn is_adapter_step(
    step: AdapterStep,
    index: u32,
    before: Seq<AdapterText>,
    answer: AdapterQuery,
) -> bool {
    match answer {
        AdapterQuery::Described(d) => if index + 1 < MAX_ADAPTERS {
            step matches AdapterStep::Query(next) && next.index == index + 1 && adapter_texts(
                next.adapters@,
            ) == with_described(before, d)
        } else {
            step matches AdapterStep::Finished(r) && is_adapter_list(r, with_described(before, d))
        },
        AdapterQuery::EnumerationFailed(code, text) => if code == DXGI_ERROR_NOT_FOUND {
            step matches AdapterStep::Finished(r) && is_adapter_list(r, before)
        } else {
            step matches AdapterStep::Finished(Err(e)) && e@ == "枚举 GPU 适配器失败："@ + text@
        },
        AdapterQuery::DescriptionFailed(text) => step matches AdapterStep::Finished(Err(e)) && e@
            == "读取 GPU 适配器信息失败："@ + text@,
    }
}

fn adapter_list(adapters: Vec<Adapter>) -> (r: Result<Vec<Adapter>, String>)
    ensures
        is_adapter_list(r, adapter_texts(adapters@)),
{
    if adapters.len() == 0 {
        Err(String::from_str("DXGI 没有枚举到物理 GPU 适配器"))
    } else {
        Ok(adapters)
    }
}

fn marker(luid_high: i32, luid_low: u32) -> (r: String)
    ensures
        r@ == marker_text(luid_high, luid_low),
{
    let mut r = String::from_str("_luid_0x");
    r.append(hex_text(unsigned_of(luid_high) as u64, 8, false).as_str());
    r.append("_0x");
    r.append(hex_text(luid_low as u64, 8, false).as_str());
    r.append("_");
    r
}

impl AdapterScan {
    pub fn new() -> (r: AdapterScan)
        ensures
            r.index == 0,
            r.adapters@.len() == 0,
    {
        AdapterScan { index: 0, adapters: Vec::new() }
    }

    /// Takes the answer for the current index.
    pub fn advance(self, answer: AdapterQuery) -> (r: AdapterStep)
        requires
            self.index < MAX_ADAPTERS,
        ensures
            is_adapter_step(r, self.index, adapter_texts(self.adapters@), answer),
    {
        let AdapterScan { index, adapters } = self;
        let mut adapters = adapters;
        match answer {
            AdapterQuery::Described(d) => {
                let ghost before = adapters@;
                if (d.flags / 2) % 2 != 1 {
                    adapters.push(
                        Adapter {
                            name: utf16(d.description.as_slice()),
                            marker: marker(d.luid_high, d.luid_low),
                        },
                    );
                    assert(adapter_texts(adapters@) =~= adapter_texts(before).push(
                        adapters@.last()@,
                    ));
                }
                if index + 1 < MAX_ADAPTERS {
                    AdapterStep::Query(AdapterScan { index: index + 1, adapters })
                } else {
                    AdapterStep::Finished(adapter_list(adapters))
                }
            },
            AdapterQuery::EnumerationFailed(code, text) => {
                if code == DXGI_ERROR_NOT_FOUND {
                    AdapterStep::Finished(adapter_list(adapters))
                } else {
                    let mut message = String::from_str("枚举 GPU 适配器失败：");
                    message.append(text.as_str());
                    AdapterStep::Finished(Err(message))
                }
            },
            AdapterQuery::DescriptionFailed(text) => {
                let mut message = String::from_str("读取 GPU 适配器信息失败：");
                message.append(text.as_str());
                AdapterStep::Finished(Err(message))
            },
        }
    }
}

/// The UTF-16 unit at a position of a buffer of little-endian words.
pub open spec fn unit_at(buffer: Seq<u64>, i: int) -> u16 {
    let word = buffer[i / 4];
    (if i % 4 == 0 {
        word % 0x1_0000
    } else if i % 4 == 1 {
        (word / 0x1_0000) % 0x1_0000
    } else if i % 4 == 2 {
        (word / 0x1_0000_0000) % 0x1_0000
    } else {
        word / 0x1_0000_0000_0000
    }) as u16
}

/// `count` units of a buffer from position `from` on.
pub open spec fn units(buffer: Seq<u64>, from: int, count: nat) -> Seq<u16> {
    Seq::new(count, |i: int| unit_at(buffer, from + i))
}

/// The name at the address `at` of a buffer of `used` bytes at the address
/// `base`, or why there is none.
pub open spec fn name_said(
    buffer: Seq<u64>,
    base: usize,
    used: usize,
    at: usize,
) -> Result<Seq<char>, Seq<char>> {
    let end = base + used;
    let text = units(buffer, (at - base) / 2, ((end - at) / 2) as nat);
    if end > usize::MAX {
        Err("PDH 缓冲区地址溢出"@)
    } else if at < base || at >= end || at % 2 != 0 {
        Err("PDH 实例名指针越界或未对齐"@)
    } else if !text.contains(0) {
        Err("PDH 实例名没有终止符"@)
    } else {
        Ok(decode_utf16(before_zero(text)))
    }
}

fn unit(buffer: &[u64], i: usize) -> (r: u16)
    requires
        i < 4 * buffer.len(),
    ensures
        r == unit_at(buffer@, i as int),
{
    let word: u64 = buffer[i / 4];
    if i % 4 == 0 {
        (word % 0x1_0000) as u16
    } else if i % 4 == 1 {
        ((word / 0x1_0000) % 0x1_0000) as u16
    } else if i % 4 == 2 {
        ((word / 0x1_0000_0000) % 0x1_0000) as u16
    } else {
        (word / 0x1_0000_0000_0000) as u16
    }
}

/// What stands before the first zero of a prefix that ends in it stands before that of the whole.
proof fn lemma_before_zero(s: Seq<u16>, n: int)
    requires
        0 <= n < s.len(),
        s[n] == 0,
        forall|j: int| 0 <= j < n ==> s[j] != 0,
    ensures
        before_zero(s) == s.take(n),
        before_zero(s.take(n)) == s.take(n),
    decreases n,
{
    if n > 0 {
        let t = s.skip(1);
        lemma_before_zero(t, n - 1);
        assert(t.take(n - 1) =~= s.take(n).skip(1));
        assert(seq![s[0]] + t.take(n - 1) =~= s.take(n));
    } else {
        assert(s.take(0) =~= seq![]);
    }
}

/// Reads the zero-terminated name at an address within a filled buffer.
pub fn name_from_buffer(buffer: &[u64], base: usize, used: usize, at: usize) -> (r: Result<
    String,
    String,
>)
    requires
        base % 8 == 0,
        used <= 8 * buffer.len(),
    ensures
        match (r, name_said(buffer@, base, used, at)) {
            (Ok(name), Ok(said)) => name@ == said,
            (Err(e), Err(said)) => e@ == said,
            _ => false,
        },
{
    let end: usize = match base.checked_add(used) {
        Some(end) => end,
        None => return Err(String::from_str("PDH 缓冲区地址溢出")),
    };
    if at < base || at >= end || at % 2 != 0 {
        return Err(String::from_str("PDH 实例名指针越界或未对齐"));
    }
    let first: usize = (at - base) / 2;
    let count: usize = (end - at) / 2;
    let ghost text = units(buffer@, first as int, count as nat);
    let mut name: Vec<u16> = Vec::new();
    let mut i: usize = 0;
    while i < count
        invariant
            i <= count,
            first + count <= 4 * buffer.len(),
            first + count <= usize::MAX,
            text == units(buffer@, first as int, count as nat),
            name@ == text.take(i as int),
            forall|j: int| 0 <= j < i ==> text[j] != 0,
            count == text.len(),
            !(end > usize::MAX || at < base || at >= end || at % 2 != 0),
            end == base + used,
            text == units(buffer@, (at - base) / 2, ((end - at) / 2) as nat),
        decreases count - i,
    {
        let u: u16 = unit(buffer, first + i);
        assert(u == text[i as int]);
        if u == 0 {
            proof {
                lemma_before_zero(text, i as int);
                assert(text.contains(0));
            }
            return Ok(utf16(name.as_slice()));
        }
        name.push(u);
        i = i + 1;
        assert(name@ =~= text.take(i as int));
    }
    assert(!text.contains(0));
    Err(String::from_str("PDH 实例名没有终止符"))
}

/// A name is read from the filled part of the buffer alone: what stands behind it does not matter.
pub proof fn names_stay_within_the_filled_part(
    buffer: Seq<u64>,
    other: Seq<u64>,
    base: usize,
    used: usize,
    at: usize,
)
    requires
        base % 8 == 0,
        forall|i: int|
            0 <= i && 2 * i + 2 <= used ==> #[trigger] unit_at(buffer, i) == unit_at(other, i),
    ensures
        name_said(other, base, used, at) == name_said(buffer, base, used, at),
{
    let end = base + used;
    let count = ((end - at) / 2) as nat;
    let from = (at - base) / 2;
    if base <= at < end && at % 2 == 0 {
        assert(2 * (from + count) <= used);
        assert(units(other, from, count) =~= units(buffer, from, count));
    }
}

/// What to do after the counter array was asked for its size.
pub enum SizeStep {
    /// There are no instances.
    Empty,
    /// Fill a buffer of this many 64-bit words.
    Fill(usize),
    Failed(String),
}

/// Takes the answer to the question for the size of the counter array.
pub fn after_size(code: i32, bytes: u32) -> (r: SizeStep)
    ensures
        if code == 0 && bytes == 0 {
            r is Empty
        } else if unsigned(code) != PDH_MORE_DATA || bytes == 0 {
            r matches SizeStep::Failed(e) && e@ == "PDH 实例缓冲区大小查询失败：0x"@ + hex(
                unsigned(code),
                8,
                true,
            )
        } else {
            r matches SizeStep::Fill(words) && 8 * words >= bytes && 8 * words < bytes + 8
        },
{
    let pattern: u32 = unsigned_of(code);
    if code == 0 && bytes == 0 {
        SizeStep::Empty
    } else if pattern != PDH_MORE_DATA || bytes == 0 {
        SizeStep::Failed(code_message("PDH 实例缓冲区大小查询失败：0x", pattern))
    } else {
        let words: u32 = bytes / 8 + (if bytes % 8 == 0 {
            0
        } else {
            1
        });
        SizeStep::Fill(words as usize)
    }
}

/// What to do after a buffer was filled.
pub enum FillStep {
    /// The array has grown: ask for its size again.
    Retry,
    /// Read the items.
    Read,
    Failed(String),
}

/// Takes the answer to filling a buffer of `words` words: the code, how many
/// bytes were filled, and how many items of `item_bytes` bytes there are.
/// `attempt` counts from zero.
pub fn after_fill(
    attempt: u32,
    code: i32,
    words: usize,
    filled: u32,
    count: u32,
    item_bytes: usize,
) -> (r: FillStep)
    requires
        attempt < ARRAY_ATTEMPTS,
        8 * words <= usize::MAX,
    ensures
        if unsigned(code) == PDH_MORE_DATA {
            if attempt + 1 < ARRAY_ATTEMPTS {
                r is Retry
            } else {
                r matches FillStep::Failed(e) && e@
                    == "GPU Engine 实例数持续变化，缓冲区三次重试仍不足"@
            }
        } else if code != 0 {
            r matches FillStep::Failed(e) && e@ == "PdhGetFormattedCounterArrayW: 0x"@ + hex(
                unsigned(code),
                8,
                true,
            )
        } else if count * item_bytes > usize::MAX {
            r matches FillStep::Failed(e) && e@ == "PDH 实例数溢出"@
        } else if filled > 8 * words || count * item_bytes > filled {
            r matches FillStep::Failed(e) && e@ == "PDH 实例数组超出输出缓冲区"@
        } else {
            r is Read
        },
{
    let pattern: u32 = unsigned_of(code);
    if pattern == PDH_MORE_DATA {
        if attempt + 1 < ARRAY_ATTEMPTS {
            return FillStep::Retry;
        }
        return FillStep::Failed(
            String::from_str("GPU Engine 实例数持续变化，缓冲区三次重试仍不足"),
        );
    }
    if code != 0 {
        return FillStep::Failed(code_message("PdhGetFormattedCounterArrayW: 0x", pattern));
    }
    let needed: usize = match (count as usize).checked_mul(item_bytes) {
        Some(needed) => needed,
        None => return FillStep::Failed(String::from_str("PDH 实例数溢出")),
    };
    if filled as usize > words * 8 || needed > filled as usize {
        return FillStep::Failed(String::from_str("PDH 实例数组超出输出缓冲区"));
    }
    FillStep::Read
}

/// One item of the counter array: its value, and the address of its name.
#[derive(Debug, Clone, Copy)]
pub struct RawItem {
    pub status: u32,
    pub value: Double,
    pub name_at: usize,
}

/// Whether an item holds a percentage.
pub open spec fn holds_percentage(item: RawItem) -> bool {
    usable_status(item.status) && item.value.is_finite() && whole(0).at_most(item.value)
        && item.value.at_most(whole(100))
}

/// The names and percentages of the items, or why the first name that cannot be read cannot.
pub open spec fn items_said(
    buffer: Seq<u64>,
    base: usize,
    used: usize,
    items: Seq<RawItem>,
) -> Result<Seq<(Seq<char>, Double)>, Seq<char>>
    decreases items.len(),
{
    if items.len() == 0 {
        Ok(seq![])
    } else {
        let item = items.last();
        match items_said(buffer, base, used, items.drop_last()) {
            Err(message) => Err(message),
            Ok(before) => if !holds_percentage(item) {
                Ok(before)
            } else {
                match name_said(buffer, base, used, item.name_at) {
                    Err(message) => Err(message),
                    Ok(name) => Ok(before.push((name, item.value))),
                }
            },
        }
    }
}

pub open spec fn value_texts(values: Seq<(String, Double)>) -> Seq<(Seq<char>, Double)> {
    values.map_values(|v: (String, Double)| (v.0@, v.1))
}

/// A failure stays the outcome, whatever items follow.
proof fn lemma_items_failed(
    buffer: Seq<u64>,
    base: usize,
    used: usize,
    items: Seq<RawItem>,
    n: int,
)
    requires
        0 <= n <= items.len(),
        items_said(buffer, base, used, items.take(n)) is Err,
    ensures
        items_said(buffer, base, used, items) == items_said(buffer, base, used, items.take(n)),
    decreases items.len() - n,
{
    if n < items.len() {
        assert(items.take(n + 1).drop_last() =~= items.take(n));
        lemma_items_failed(buffer, base, used, items, n + 1);
    } else {
        assert(items.take(n) =~= items);
    }
}

/// Reads the items of a filled buffer, leaving out those without a percentage.
pub fn read_items(buffer: &[u64], base: usize, used: usize, items: &[RawItem]) -> (r: Result<
    Vec<(String, Double)>,
    String,
>)
    requires
        base % 8 == 0,
        used <= 8 * buffer.len(),
    ensures
        match (r, items_said(buffer@, base, used, items@)) {
            (Ok(values), Ok(said)) => value_texts(values@) == said,
            (Err(e), Err(said)) => e@ == said,
            _ => false,
        },
{
    let mut values: Vec<(String, Double)> = Vec::new();
    let mut i: usize = 0;
    assert(items@.take(0) =~= seq![]);
    assert(value_texts(values@) =~= seq![]);
    while i < items.len()
        invariant
            base % 8 == 0,
            used <= 8 * buffer.len(),
            i <= items.len(),
            items_said(buffer@, base, used, items@.take(i as int)) == Ok::<
                Seq<(Seq<char>, Double)>,
                Seq<char>,
            >(value_texts(values@)),
        decreases items.len() - i,
    {
        let item = items[i];
        let ghost next = items@.take(i + 1);
        assert(next.drop_last() =~= items@.take(i as int));
        if (item.status == PDH_CSTATUS_VALID_DATA || item.status == PDH_CSTATUS_NEW_DATA)
            && item.value.finite() && Double::from_u64(0).no_more_than(item.value)
            && item.value.no_more_than(Double::from_u64(100)) {
            match name_from_buffer(buffer, base, used, item.name_at) {
                Ok(name) => {
                    let ghost before = values@;
                    values.push((name, item.value));
                    assert(value_texts(values@) =~= value_texts(before).push(
                        (name@, item.value),
                    ));
                },
                Err(e) => {
                    proof {
                        lemma_items_failed(buffer@, base, used, items@, i + 1);
                    }
                    return Err(e);
                },
            }
        }
        i = i + 1;
    }
    assert(items@.take(i as int) =~= items@);
    Ok(values)
}

/// What stands before the first underscore, or all if there is none.
pub open spec fn before_underscore(s: Seq<char>) -> Seq<char>
    decreases s.len(),
{
    if s.len() == 0 || s[0] == '_' {
        seq![]
    } else {
        seq![s[0]] + before_underscore(s.skip(1))
    }
}

/// The process and the engine type that an instance name tells.
pub open spec fn instance_said(name: Seq<char>) -> Option<(u32, Seq<char>)> {
    let mark = "_engtype_"@;
    if !stands_at("pid_"@, name, 0) {
        None
    } else {
        match (number_said(before_underscore(name.skip("pid_"@.len() as int))), first_at(
            mark,
            name,
            0,
        )) {
            (Some(pid), Some(at)) if at + mark.len() < name.len() => Some(
                (pid, name.skip(at + mark.len())),
            ),
            _ => None,
        }
    }
}

proof fn lemma_before_underscore(s: Seq<char>, n: int)
    requires
        0 <= n <= s.len(),
        forall|j: int| 0 <= j < n ==> s[j] != '_',
        n < s.len() ==> s[n] == '_',
    ensures
        before_underscore(s) == s.take(n),
    decreases n,
{
    if n > 0 {
        let t = s.skip(1);
        lemma_before_underscore(t, n - 1);
        assert(seq![s[0]] + t.take(n - 1) =~= s.take(n));
    } else {
        assert(s.take(0) =~= seq![]);
    }
}

/// Reads the process and the engine type in an instance name.
pub fn parse_instance(name: &str) -> (r: Option<(u32, String)>)
    ensures
        match (r, instance_said(name@)) {
            (Some((pid, engine)), Some(said)) => pid == said.0 && engine@ == said.1,
            (None, None) => true,
            _ => false,
        },
{
    let chars = chars_of(name);
    let prefix = chars_of("pid_");
    let mark = chars_of("_engtype_");
    if !occurs_at(prefix.as_slice(), chars.as_slice(), 0) {
        return None;
    }
    let start: usize = prefix.len();
    let mut end: usize = start;
    while end < chars.len() && chars[end] != '_'
        invariant
            start <= end <= chars.len(),
            forall|j: int| start <= j < end ==> chars@[j] != '_',
        decreases chars.len() - end,
    {
        end = end + 1;
    }
    let token = slice_subrange(chars.as_slice(), start, end);
    proof {
        let rest = chars@.skip(start as int);
        lemma_before_underscore(rest, end - start);
        assert(token@ =~= rest.take(end - start));
    }
    let pid: u32 = match number_of(token) {
        Some(pid) => pid,
        None => return None,
    };
    match find(mark.as_slice(), chars.as_slice()) {
        Some(at) => {
            proof {
                crate::text::first_is_first(mark@, chars@, 0);
            }
            let from: usize = at + mark.len();
            if from == chars.len() {
                return None;
            }
            let engine = slice_subrange(chars.as_slice(), from, chars.len());
            assert(engine@ =~= chars@.skip(from as int));
            Some((pid, text_of(engine)))
        },
        None => None,
    }
}

/// An engine reading as texts.
pub struct EngineText {
    pub adapter: Seq<char>,
    pub pid: u32,
    pub engine_type: Seq<char>,
    pub percent: Double,
}

impl View for EngineReading {
    type V = EngineText;

    open spec fn view(&self) -> EngineText {
        EngineText {
            adapter: self.adapter@,
            pid: self.pid,
            engine_type: self.engine_type@,
            percent: self.percent,
        }
    }
}

/// The first adapter from `from` on whose mark the lowercase name bears.
pub open spec fn adapter_of(adapters: Seq<AdapterText>, lower: Seq<char>, from: int) -> Option<
    AdapterText,
>
    decreases adapters.len() - from,
{
    if from < 0 || from >= adapters.len() {
        None
    } else if has(lower, adapters[from].marker) {
        Some(adapters[from])
    } else {
        adapter_of(adapters, lower, from + 1)
    }
}

/// The engine that an instance is of, if it is one of a known adapter.
pub open spec fn engine_of(adapters: Seq<AdapterText>, value: (Seq<char>, Double)) -> Option<
    EngineText,
> {
    match (adapter_of(adapters, ascii_lowercase(value.0), 0), instance_said(value.0)) {
        (Some(adapter), Some(instance)) => Some(
            EngineText {
                adapter: adapter.name,
                pid: instance.0,
                engine_type: instance.1,
                percent: value.1,
            },
        ),
        _ => None,
    }
}

/// Whether any instance is one of a known adapter.
pub open spec fn any_engine(adapters: Seq<AdapterText>, values: Seq<(Seq<char>, Double)>) -> bool {
    exists|i: int| 0 <= i < values.len() && engine_of(adapters, #[trigger] values[i]) is Some
}

/// The first of the busiest active engines.
pub open spec fn busiest_of(
    adapters: Seq<AdapterText>,
    values: Seq<(Seq<char>, Double)>,
) -> Option<EngineText>
    decreases values.len(),
{
    if values.len() == 0 {
        None
    } else {
        let before = busiest_of(adapters, values.drop_last());
        match engine_of(adapters, values.last()) {
            Some(engine) if whole(0).less(engine.percent) && (match before {
                Some(current) => current.percent.less(engine.percent),
                None => true,
            }) => Some(engine),
            _ => before,
        }
    }
}

/// Whether `r` is the outcome of looking for the busiest engine.
pub open spec fn is_busiest(
    r: Result<Option<EngineReading>, String>,
    adapters: Seq<AdapterText>,
    values: Seq<(Seq<char>, Double)>,
) -> bool {
    if any_engine(adapters, values) {
        match (r, busiest_of(adapters, values)) {
            (Ok(Some(engine)), Some(text)) => engine@ == text,
            (Ok(None), None) => true,
            _ => false,
        }
    } else if values.len() > 0 {
        r is Err && r->Err_0@ == "没有匹配 DXGI 物理适配器的 GPU Engine 实例"@
    } else {
        r matches Ok(None)
    }
}

fn find_adapter(adapters: &[Adapter], lower: &[char]) -> (r: Option<usize>)
    ensures
        match r {
            Some(i) => i < adapters.len() && adapter_of(adapter_texts(adapters@), lower@, 0)
                == Some(adapters@[i as int]@),
            None => adapter_of(adapter_texts(adapters@), lower@, 0) is None,
        },
{
    let ghost known = adapter_texts(adapters@);
    let mut i: usize = 0;
    while i < adapters.len()
        invariant
            i <= adapters.len(),
            known == adapter_texts(adapters@),
            adapter_of(known, lower@, 0) == adapter_of(known, lower@, i as int),
        decreases adapters.len() - i,
    {
        assert(known[i as int].marker == adapters@[i as int].marker@);
        if find(chars_of(adapters[i].marker.as_str()).as_slice(), lower).is_some() {
            return Some(i);
        }
        i = i + 1;
    }
    None
}

/// Finds the busiest active engine among the counter instances.
pub fn busiest(adapters: &[Adapter], values: &[(String, Double)]) -> (r: Result<
    Option<EngineReading>,
    String,
>)
    ensures
        is_busiest(r, adapter_texts(adapters@), value_texts(values@)),
{
    let ghost known = adapter_texts(adapters@);
    let ghost all = value_texts(values@);
    let mut matched: bool = false;
    let mut best: Option<EngineReading> = None;
    let mut i: usize = 0;
    assert(all.take(0) =~= seq![]);
    while i < values.len()
        invariant
            i <= values.len(),
            known == adapter_texts(adapters@),
            all == value_texts(values@),
            matched == exists|j: int|
                0 <= j < i && engine_of(known, #[trigger] all[j]) is Some,
            match (best, busiest_of(known, all.take(i as int))) {
                (Some(engine), Some(text)) => engine@ == text,
                (None, None) => true,
                _ => false,
            },
        decreases values.len() - i,
    {
        let ghost next = all.take(i + 1);
        assert(next.drop_last() =~= all.take(i as int));
        assert(next.last() == all[i as int]);
        let name = chars_of(values[i].0.as_str());
        let percent = values[i].1;
        assert(all[i as int] == (name@, percent));
        let lower = to_ascii_lowercase(name.as_slice());
        if let Some(a) = find_adapter(adapters, lower.as_slice()) {
            if let Some((pid, engine_type)) = parse_instance(values[i].0.as_str()) {
                assert(engine_of(known, all[i as int]) is Some);
                matched = true;
                let busier: bool = match &best {
                    Some(current) => current.percent.less_than(percent),
                    None => true,
                };
                if Double::from_u64(0).less_than(percent) && busier {
                    best = Some(
                        EngineReading {
                            adapter: adapters[a].name.clone(),
                            pid,
                            engine_type,
                            percent,
                        },
                    );
                }
            }
        }
        i = i + 1;
    }
    assert(all.take(i as int) =~= all);
    if matched {
        Ok(best)
    } else if values.len() > 0 {
        Err(String::from_str("没有匹配 DXGI 物理适配器的 GPU Engine 实例"))
    } else {
        Ok(None)
    }
}

/// The busiest engine is one of the instances, it is active, and none of the
/// known engines is busier.
pub proof fn busiest_is_a_maximum(
    adapters: Seq<AdapterText>,
    values: Seq<(Seq<char>, Double)>,
    i: int,
)
    requires
        0 <= i < values.len(),
        engine_of(adapters, values[i]) is Some,
        whole(0).less(values[i].1),
    ensures
        busiest_of(adapters, values) matches Some(best) && !best.percent.less(values[i].1)
            && whole(0).less(best.percent) && exists|j: int|
            0 <= j < values.len() && engine_of(adapters, #[trigger] values[j]) == Some(best),
    decreases values.len(),
{
    let before = values.drop_last();
    let last = values.len() - 1;
    lemma_busiest_is_known(adapters, before);
    lemma_busiest_is_known(adapters, values);
    if i < last {
        assert(before[i] == values[i]);
        busiest_is_a_maximum(adapters, before, i);
    }
}

/// The busiest engine is active and one of the instances.
proof fn lemma_busiest_is_known(adapters: Seq<AdapterText>, values: Seq<(Seq<char>, Double)>)
    ensures
        busiest_of(adapters, values) matches Some(best) ==> whole(0).less(best.percent) && exists|
            j: int,
        |
            0 <= j < values.len() && engine_of(adapters, #[trigger] values[j]) == Some(best),
    decreases values.len(),
{
    if values.len() > 0 {
        let before = values.drop_last();
        lemma_busiest_is_known(adapters, before);
        if let Some(best) = busiest_of(adapters, values) {
            if busiest_of(adapters, before) == Some(best) {
                let j = choose|j: int|
                    0 <= j < before.len() && engine_of(adapters, #[trigger] before[j]) == Some(best);
                assert(values[j] == before[j]);
            } else {
                assert(engine_of(adapters, values[values.len() - 1]) == Some(best));
            }
        }
    }
}

/// Where the busiest engine stands among the instances.
proof fn lemma_busiest_at(
    adapters: Seq<AdapterText>,
    values: Seq<(Seq<char>, Double)>,
    best: EngineText,
) -> (i: int)
    requires
        busiest_of(adapters, values) == Some(best),
    ensures
        0 <= i < values.len(),
        engine_of(adapters, values[i]) == Some(best),
        whole(0).less(best.percent),
        forall|j: int|
            0 <= j < i && engine_of(adapters, #[trigger] values[j]) is Some && whole(0).less(
                values[j].1,
            ) ==> values[j].1.less(best.percent),
        forall|j: int|
            0 <= j < values.len() && engine_of(adapters, #[trigger] values[j]) is Some && whole(
                0,
            ).less(values[j].1) ==> values[j].1.at_most(best.percent),
    decreases values.len(),
{
    let before = values.drop_last();
    let last = values.len() - 1;
    lemma_busiest_is_known(adapters, before);
    match busiest_of(adapters, before) {
        Some(current) => {
            let k = lemma_busiest_at(adapters, before, current);
            assert forall|j: int| 0 <= j < last implies #[trigger] before[j] == values[j] by {}
            assert forall|j: int|
                0 <= j < last && engine_of(adapters, #[trigger] values[j]) is Some && whole(0).less(
                    values[j].1,
                ) implies values[j].1.at_most(current.percent) by {
                assert(before[j] == values[j]);
            }
            assert forall|j: int|
                0 <= j < k && engine_of(adapters, #[trigger] values[j]) is Some && whole(0).less(
                    values[j].1,
                ) implies values[j].1.less(current.percent) by {
                assert(before[j] == values[j]);
            }
            if best == current {
                assert(values[k] == before[k]);
                k
            } else {
                last
            }
        },
        None => {
            assert forall|j: int|
                0 <= j < last && engine_of(adapters, #[trigger] values[j]) is Some implies !whole(
                0,
            ).less(values[j].1) by {
                if whole(0).less(values[j].1) {
                    assert(before[j] == values[j]);
                    busiest_is_a_maximum(adapters, before, j);
                }
            }
            last
        },
    }
}

/// The first adapter whose mark stands in a lowercase name.
proof fn lemma_adapter_of(adapters: Seq<AdapterText>, lower: Seq<char>, from: int) -> (k: int)
    requires
        0 <= from,
    ensures
        match adapter_of(adapters, lower, from) {
            Some(adapter) => from <= k < adapters.len() && adapters[k] == adapter && has(
                lower,
                adapter.marker,
            ) && forall|a: int| from <= a < k ==> !(has(lower, #[trigger] adapters[a].marker)),
            None => forall|a: int|
                from <= a < adapters.len() ==> !(has(lower, #[trigger] adapters[a].marker)),
        },
    decreases adapters.len() - from,
{
    if from < adapters.len() && !(has(lower, adapters[from].marker)) {
        lemma_adapter_of(adapters, lower, from + 1)
    } else {
        from
    }
}

/// When there is a busiest engine, it is that of an instance: the percentage
/// stands beside the instance's name, the process and the engine type are in
/// the name, and the adapter is the first one whose mark is found in the
/// lowercase name. No active instance of a known adapter is busier, and none
/// before it is as busy.
pub proof fn the_busiest_engine_belongs_to_its_adapter(
    adapters: Seq<AdapterText>,
    values: Seq<(Seq<char>, Double)>,
    r: Result<Option<EngineReading>, String>,
    engine: EngineReading,
)
    requires
        is_busiest(r, adapters, values),
        r == Ok::<Option<EngineReading>, String>(Some(engine)),
    ensures
        exists|i: int, k: int, p: int|
            {
                &&& 0 <= i < values.len()
                &&& 0 <= k < adapters.len()
                &&& values[i].1 == engine.percent
                &&& instance_said(values[i].0) == Some((engine.pid, engine.engine_type@))
                &&& adapters[k].name == engine.adapter@
                &&& 0 <= p <= values[i].0.len()
                &&& (#[trigger] adapters[k]).marker.is_prefix_of(
                    #[trigger] ascii_lowercase(values[i].0).skip(p),
                )
                &&& forall|a: int, q: int|
                    0 <= a < k && 0 <= q <= values[i].0.len()
                        ==> !(#[trigger] adapters[a]).marker.is_prefix_of(
                        #[trigger] ascii_lowercase(values[i].0).skip(q),
                    )
            },
        whole(0).less(engine.percent),
        forall|j: int, a: int, q: int|
            {
                &&& 0 <= j < values.len() && 0 <= a < adapters.len()
                &&& 0 <= q <= values[j].0.len()
                &&& (#[trigger] adapters[a]).marker.is_prefix_of(
                    #[trigger] ascii_lowercase(values[j].0).skip(q),
                )
                &&& instance_said(values[j].0) is Some
                &&& whole(0).less(values[j].1)
            } ==> values[j].1.at_most(engine.percent),
{
    let best = engine@;
    assert(busiest_of(adapters, values) == Some(best));
    let i = lemma_busiest_at(adapters, values, best);
    let lower = ascii_lowercase(values[i].0);
    let k = lemma_adapter_of(adapters, lower, 0);
    crate::text::having_is_being_a_prefix_somewhere(lower, adapters[k].marker);
    let p = choose|p: int|
        0 <= p <= lower.len() && adapters[k].marker.is_prefix_of(#[trigger] lower.skip(p));
    assert forall|a: int, q: int|
        0 <= a < k && 0 <= q <= values[i].0.len() implies !(
    #[trigger] adapters[a]).marker.is_prefix_of(
        #[trigger] ascii_lowercase(values[i].0).skip(q),
    ) by {
        assert(!(has(lower, adapters[a].marker)));
        crate::text::having_is_being_a_prefix_somewhere(lower, adapters[a].marker);
    }
    assert(adapters[k].marker.is_prefix_of(ascii_lowercase(values[i].0).skip(p)));
    assert forall|j: int, a: int, q: int|
        {
            &&& 0 <= j < values.len() && 0 <= a < adapters.len()
            &&& 0 <= q <= values[j].0.len()
            &&& (#[trigger] adapters[a]).marker.is_prefix_of(
                #[trigger] ascii_lowercase(values[j].0).skip(q),
            )
            &&& instance_said(values[j].0) is Some
            &&& whole(0).less(values[j].1)
        } implies values[j].1.at_most(engine.percent) by {
        lemma_known(adapters, values[j], a, q);
    }
}

/// An instance whose lowercase name bears an adapter's mark is one of a known adapter.
proof fn lemma_known(adapters: Seq<AdapterText>, value: (Seq<char>, Double), a: int, q: int)
    requires
        0 <= a < adapters.len(),
        0 <= q <= value.0.len(),
        adapters[a].marker.is_prefix_of(ascii_lowercase(value.0).skip(q)),
        instance_said(value.0) is Some,
    ensures
        engine_of(adapters, value) is Some,
{
    let lower = ascii_lowercase(value.0);
    let k = lemma_adapter_of(adapters, lower, 0);
    crate::text::having_is_being_a_prefix_somewhere(lower, adapters[a].marker);
    assert(has(lower, adapters[a].marker));
}

/// Looking for the busiest engine fails if there are instances, and none of
/// them names a process and an engine type and bears the mark of an adapter;
/// it finds nothing if there are no instances, or those that do are not active.
pub proof fn a_busiest_engine_needs_an_active_instance(
    adapters: Seq<AdapterText>,
    values: Seq<(Seq<char>, Double)>,
    r: Result<Option<EngineReading>, String>,
)
    requires
        is_busiest(r, adapters, values),
    ensures
        r is Err <==> values.len() > 0 && forall|j: int, a: int, q: int|
            0 <= j < values.len() && 0 <= a < adapters.len() && 0 <= q <= values[j].0.len()
                && instance_said(values[j].0) is Some ==> !(
            #[trigger] adapters[a]).marker.is_prefix_of(
                #[trigger] ascii_lowercase(values[j].0).skip(q),
            ),
        r matches Ok(None) ==> forall|j: int, a: int, q: int|
            0 <= j < values.len() && 0 <= a < adapters.len() && 0 <= q <= values[j].0.len()
                && instance_said(values[j].0) is Some && whole(0).less(values[j].1) ==> !(
            #[trigger] adapters[a]).marker.is_prefix_of(
                #[trigger] ascii_lowercase(values[j].0).skip(q),
            ),
{
    if any_engine(adapters, values) {
        let j = choose|j: int|
            0 <= j < values.len() && engine_of(adapters, #[trigger] values[j]) is Some;
        let lower = ascii_lowercase(values[j].0);
        let k = lemma_adapter_of(adapters, lower, 0);
        crate::text::having_is_being_a_prefix_somewhere(lower, adapters[k].marker);
        let p = choose|p: int|
            0 <= p <= lower.len() && adapters[k].marker.is_prefix_of(#[trigger] lower.skip(p));
        assert(adapters[k].marker.is_prefix_of(ascii_lowercase(values[j].0).skip(p)));
        if let Ok(None) = r {
            assert forall|j: int, a: int, q: int|
                0 <= j < values.len() && 0 <= a < adapters.len() && 0 <= q <= values[j].0.len()
                    && instance_said(values[j].0) is Some && whole(0).less(values[j].1) implies !(
            #[trigger] adapters[a]).marker.is_prefix_of(
                #[trigger] ascii_lowercase(values[j].0).skip(q),
            ) by {
                if adapters[a].marker.is_prefix_of(ascii_lowercase(values[j].0).skip(q)) {
                    lemma_known(adapters, values[j], a, q);
                    busiest_is_a_maximum(adapters, values, j);
                }
            }
        }
    } else {
        assert forall|j: int, a: int, q: int|
            0 <= j < values.len() && 0 <= a < adapters.len() && 0 <= q <= values[j].0.len()
                && instance_said(values[j].0) is Some implies !(
        #[trigger] adapters[a]).marker.is_prefix_of(
            #[trigger] ascii_lowercase(values[j].0).skip(q),
        ) by {
            if adapters[a].marker.is_prefix_of(ascii_lowercase(values[j].0).skip(q)) {
                lemma_known(adapters, values[j], a, q);
            }
        }
    }
}

/// What stands before the first underscore is free of it, and ends at one or
/// at the end of the text.
proof fn lemma_underscore(s: Seq<char>) -> (n: int)
    ensures
        0 <= n <= s.len(),
        before_underscore(s) == s.take(n),
        forall|j: int| 0 <= j < n ==> s[j] != '_',
        n < s.len() ==> s[n] == '_',
    decreases s.len(),
{
    if s.len() == 0 || s[0] == '_' {
        assert(s.take(0) =~= seq![]);
        0
    } else {
        let n = lemma_underscore(s.skip(1));
        assert forall|j: int| 0 <= j < n + 1 implies s[j] != '_' by {
            if j > 0 {
                assert(s.skip(1)[j - 1] == s[j]);
            }
        }
        lemma_before_underscore(s, n + 1);
        n + 1
    }
}

/// An instance name that is read starts with `pid_` and decimal digits up to
/// the next underscore or the end, which are the process, and holds
/// `_engtype_`; what follows the first one is the engine type, and it is not empty.
pub proof fn instance_names_tell_process_and_engine(
    name: Seq<char>,
    pid: u32,
    engine_type: Seq<char>,
)
    requires
        instance_said(name) == Some((pid, engine_type)),
    ensures
        "pid_"@.is_prefix_of(name),
        exists|n: int|
            4 < n <= name.len() && number_said(#[trigger] name.subrange(4, n)) == Some(pid)
                && !name.subrange(4, n).contains('_') && (n < name.len() ==> name[n] == '_'),
        engine_type.len() > 0,
        exists|p: int|
            0 <= p && p + 9 < name.len() && "_engtype_"@.is_prefix_of(#[trigger] name.skip(p))
                && engine_type == name.skip(p + 9) && forall|q: int|
                0 <= q < p ==> !"_engtype_"@.is_prefix_of(#[trigger] name.skip(q)),
{
    let mark = "_engtype_"@;
    reveal_strlit("pid_");
    reveal_strlit("_engtype_");
    crate::text::standing_is_being_a_prefix("pid_"@, name, 0);
    assert(name.skip(0) =~= name);
    let rest = name.skip(4);
    let n = lemma_underscore(rest);
    let token = name.subrange(4, 4 + n);
    assert(token =~= rest.take(n));
    assert(!token.contains('_')) by {
        if token.contains('_') {
            let j = choose|j: int| 0 <= j < token.len() && token[j] == '_';
            assert(rest[j] == '_');
        }
    }
    if n < rest.len() {
        assert(name[4 + n] == rest[n]);
    }
    assert(number_said(token) == Some(pid));
    crate::text::first_is_first(mark, name, 0);
    let p = first_at(mark, name, 0)->0;
    crate::text::standing_is_being_a_prefix(mark, name, p);
    assert forall|q: int| 0 <= q < p implies !mark.is_prefix_of(#[trigger] name.skip(q)) by {
        crate::text::standing_is_being_a_prefix(mark, name, q);
    }
    assert(mark.is_prefix_of(name.skip(p)));
}

/// A name of `pid_`, a number, an underscore, any text without `_engtype_` in
/// it, `_engtype_` and an engine type is read.
pub proof fn instance_names_are_read(name: Seq<char>, n: int, p: int)
    requires
        "pid_"@.is_prefix_of(name),
        4 < n <= p,
        name[n] == '_',
        !name.subrange(4, n).contains('_'),
        number_said(name.subrange(4, n)) is Some,
        p + 9 < name.len(),
        "_engtype_"@.is_prefix_of(name.skip(p)),
    ensures
        instance_said(name) is Some,
{
    let mark = "_engtype_"@;
    reveal_strlit("pid_");
    reveal_strlit("_engtype_");
    crate::text::standing_is_being_a_prefix("pid_"@, name, 0);
    assert(name.skip(0) =~= name);
    let rest = name.skip(4);
    let token = name.subrange(4, n);
    assert forall|j: int| 0 <= j < n - 4 implies rest[j] != '_' by {
        assert(token[j] == rest[j]);
    }
    lemma_before_underscore(rest, n - 4);
    assert(token =~= rest.take(n - 4));
    crate::text::standing_is_being_a_prefix(mark, name, p);
    crate::text::first_is_first(mark, name, 0);
}

/// The disk and GPU queries: whether each could be opened, and when one that
/// fails is opened again.
#[derive(Debug)]
pub struct Sampler {
    baseline: Baseline,
    disk: Result<(), String>,
    gpu: Result<(), String>,
    disk_retry_at: Moment,
    gpu_retry_at: Moment,
}

/// A round's results, and which queries have to be opened again.
pub struct Report {
    pub snapshot: Snapshot,
    pub reopen_disk: bool,
    pub reopen_gpu: bool,
}

/// Whether a query that failed is opened again now.
pub open spec fn retry_due(failed: bool, retry_at: Moment, now: Moment) -> bool {
    failed && now.nanos >= retry_at.nanos
}

/// When a query is next opened again.
pub open spec fn next_retry(failed: bool, retry_at: Moment, now: Moment) -> Moment {
    if retry_due(failed, retry_at, now) {
        Moment { nanos: (now.nanos + RETRY_INTERVAL) as u64 }
    } else {
        retry_at
    }
}

impl Sampler {
    pub closed spec fn base(&self) -> Baseline {
        self.baseline
    }

    /// Why the disk query is not open, if it is not.
    pub closed spec fn disk_error(&self) -> Option<String> {
        match self.disk {
            Ok(()) => None,
            Err(e) => Some(e),
        }
    }

    /// Why the GPU query is not open, if it is not.
    pub closed spec fn gpu_error(&self) -> Option<String> {
        match self.gpu {
            Ok(()) => None,
            Err(e) => Some(e),
        }
    }

    pub closed spec fn disk_retry(&self) -> Moment {
        self.disk_retry_at
    }

    pub closed spec fn gpu_retry(&self) -> Moment {
        self.gpu_retry_at
    }

    /// A sampler whose queries were opened, or failed to open, and first collected, at `now`.
    pub fn new(now: Moment, disk: Result<(), String>, gpu: Result<(), String>) -> (r: Sampler)
        requires
            now.nanos <= u64::MAX - RETRY_INTERVAL,
        ensures
            r.base() == (Baseline { started: now, last_poll: now }),
            r.disk_error() == disk.err(),
            r.gpu_error() == gpu.err(),
            r.disk_retry().nanos == now.nanos + RETRY_INTERVAL,
            r.gpu_retry().nanos == now.nanos + RETRY_INTERVAL,
    {
        let retry_at = Moment { nanos: now.nanos + RETRY_INTERVAL };
        Sampler {
            baseline: Baseline::new(now),
            disk,
            gpu,
            disk_retry_at: retry_at,
            gpu_retry_at: retry_at,
        }
    }

    /// What can be done with the queries now.
    pub fn poll(&mut self, now: Moment) -> (r: Readiness)
        ensures
            r == readiness(old(self).base(), now),
            final(self).base() == polled(old(self).base(), now),
            final(self).disk_error() == old(self).disk_error(),
            final(self).gpu_error() == old(self).gpu_error(),
            final(self).disk_retry() == old(self).disk_retry(),
            final(self).gpu_retry() == old(self).gpu_retry(),
    {
        self.baseline.check(now)
    }

    pub fn disk_is_open(&self) -> (r: bool)
        ensures
            r == (self.disk_error() is None),
    {
        self.disk.is_ok()
    }

    pub fn gpu_is_open(&self) -> (r: bool)
        ensures
            r == (self.gpu_error() is None),
    {
        self.gpu.is_ok()
    }

    /// Takes what the open queries gave at `now`. A query that is not open
    /// fails with the reason for that.
    pub fn report(
        &mut self,
        now: Moment,
        disk: Option<Result<DiskRates, String>>,
        gpu: Option<Result<Option<EngineReading>, String>>,
    ) -> (r: Report)
        requires
            now.nanos <= u64::MAX - RETRY_INTERVAL,
            old(self).disk_error() is None ==> disk is Some,
            old(self).gpu_error() is None ==> gpu is Some,
        ensures
            match old(self).disk_error() {
                Some(e) => r.snapshot.disk == Err::<DiskRates, String>(e),
                None => r.snapshot.disk == disk->0,
            },
            match old(self).gpu_error() {
                Some(e) => r.snapshot.gpu == Err::<Option<EngineReading>, String>(e),
                None => r.snapshot.gpu == gpu->0,
            },
            r.reopen_disk == retry_due(r.snapshot.disk is Err, old(self).disk_retry(), now),
            r.reopen_gpu == retry_due(r.snapshot.gpu is Err, old(self).gpu_retry(), now),
            final(self).disk_retry() == next_retry(
                r.snapshot.disk is Err,
                old(self).disk_retry(),
                now,
            ),
            final(self).gpu_retry() == next_retry(
                r.snapshot.gpu is Err,
                old(self).gpu_retry(),
                now,
            ),
            final(self).base() == old(self).base(),
            final(self).disk_error() == old(self).disk_error(),
            final(self).gpu_error() == old(self).gpu_error(),
    {
        let disk = match &self.disk {
            Err(e) => Err(e.clone()),
            Ok(()) => disk.unwrap(),
        };
        let gpu = match &self.gpu {
            Err(e) => Err(e.clone()),
            Ok(()) => gpu.unwrap(),
        };
        let reopen_disk: bool = disk.is_err() && now.nanos >= self.disk_retry_at.nanos;
        let reopen_gpu: bool = gpu.is_err() && now.nanos >= self.gpu_retry_at.nanos;
        let retry_at = Moment { nanos: now.nanos + RETRY_INTERVAL };
        if reopen_disk {
            self.disk_retry_at = retry_at;
        }
        if reopen_gpu {
            self.gpu_retry_at = retry_at;
        }
        Report { snapshot: Snapshot { disk, gpu }, reopen_disk, reopen_gpu }
    }

    /// Takes the outcome of opening the disk query again.
    pub fn disk_reopened(&mut self, disk: Result<(), String>)
        ensures
            final(self).disk_error() == disk.err(),
            final(self).base() == old(self).base(),
            final(self).gpu_error() == old(self).gpu_error(),
            final(self).disk_retry() == old(self).disk_retry(),
            final(self).gpu_retry() == old(self).gpu_retry(),
    {
        self.disk = disk;
    }

    /// Takes the outcome of opening the GPU query again.
    pub fn gpu_reopened(&mut self, gpu: Result<(), String>)
        ensures
            final(self).gpu_error() == gpu.err(),
            final(self).base() == old(self).base(),
            final(self).disk_error() == old(self).disk_error(),
            final(self).disk_retry() == old(self).disk_retry(),
            final(self).gpu_retry() == old(self).gpu_retry(),
    {
        self.gpu = gpu;
    }
}

/// A query that was opened again is not opened again before the interval has passed.
pub proof fn retries_keep_their_distance(
    retry_at: Moment,
    now: Moment,
    later: Moment,
    fails_then: bool,
    fails_later: bool,
)
    requires
        now.nanos <= u64::MAX - RETRY_INTERVAL,
        retry_due(fails_then, retry_at, now),
        now.nanos <= later.nanos < now.nanos + RETRY_INTERVAL,
    ensures
        !retry_due(fails_later, next_retry(fails_then, retry_at, now), later),
{
}

/// A poll more than two and a half seconds after the last one collects a new
/// baseline, one within half a second of the baseline reads nothing, and any
/// other reads.
pub proof fn polls_go_by_their_times(b: Baseline, now: Moment)
    ensures
        readiness(b, now) == Readiness::Rebase <==> now.nanos > b.last_poll.nanos + 2_500_000_000,
        readiness(b, now) == Readiness::Warming <==> now.nanos <= b.last_poll.nanos
            + 2_500_000_000 && now.nanos < b.started.nanos + 500_000_000,
        readiness(b, now) == Readiness::Ready <==> b.started.nanos + 500_000_000 <= now.nanos
            <= b.last_poll.nanos + 2_500_000_000,
        readiness(b, now) == Readiness::Rebase ==> polled(b, now).started == now && polled(
            b,
            now,
        ).last_poll == now,
        readiness(b, now) == Readiness::Warming ==> polled(b, now) == b,
        readiness(b, now) == Readiness::Ready ==> polled(b, now).started == b.started && polled(
            b,
            now,
        ).last_poll == now,
{
}

/// A value can be used if it is a number that is not negative, and a percentage
/// if it is at most a hundred, both with a status of zero or one.
pub proof fn values_are_used_by_their_size(value: Double, status: u32, name_at: usize)
    requires
        value.is_finite(),
    ensures
        usable_value(value) <==> value.value() >= 0,
        usable_status(status) <==> status == 0 || status == 1,
        holds_percentage(RawItem { status, value, name_at }) <==> (status == 0 || status == 1) && 0
            <= value.value() <= 100 * pow2(1074),
{
    double::lemma_whole(0);
    double::lemma_whole(100);
    double::lemma_exact(0);
    double::lemma_exact(100);
    assert(0 * pow2(1074) == 0);
    double::order_of_places(whole(0), value);
    double::order_of_places(value, whole(100));
}

/// What is no number is never used.
pub proof fn only_numbers_are_used(value: Double, status: u32, name_at: usize)
    requires
        !value.is_finite(),
    ensures
        !usable_value(value),
        !holds_percentage(RawItem { status, value, name_at }),
{
}

/// The estimated frequency is the base frequency times the performance in
/// percent: a hundred times it is their product, but for less than the `2^-51`th
/// part. Numbers are counted in units of `2^-1074`.
pub proof fn frequencies_are_estimated_from_performance(base: Double, performance: Double)
    requires
        base.is_finite(),
        performance.is_finite(),
        !base.negative(),
        !performance.negative(),
        base.value() * performance.value() >= pow2(1138),
        times(base, performance).is_finite(),
    ensures
        estimate(base, performance).is_finite(),
        pow2(51) * abs(
            estimate(base, performance).value() * 100 * pow2(1074) - base.value()
                * performance.value(),
        ) <= base.value() * performance.value(),
{
    let l = double::LEAD as nat;
    let t = double::TOP as nat;
    let u = pow2(1074);
    let e = (2 * l) as int;
    let b = base.value();
    let p = performance.value();
    let bp = b * p;
    let made = times(base, performance);
    let m = estimate(base, performance);
    let tt = made.value();
    let mm = crate::rounding::steps(m.magnitude(), l);
    let hundred = 100 * u;
    double::lemma_whole(100);
    double::lemma_exact(100);
    lemma_pow2_pos(1074);
    lemma_pow2_adds(1074, 64);
    vstd::arithmetic::power2::lemma2_to64();
    vstd::arithmetic::power2::lemma2_to64_rest();
    assert(bp >= 0x1_0000_0000_0000_0000 * u) by (nonlinear_arith)
        requires bp >= pow2(1138), pow2(1138) == u * pow2(64), pow2(64) == 0x1_0000_0000_0000_0000,
    ;
    crate::magnitude::rounding_is_close(bp as nat, u, l, t);
    let c = tt * u - bp;
    double::lemma_abs(e, c, bp);
    // The product is large enough for the quotient to keep its precision.
    assert(2 * (tt * u) >= bp) by (nonlinear_arith)
        requires -bp <= e * c, c == tt * u - bp, e >= 2, bp >= 0,
    ;
    assert(tt >= 100 * l) by (nonlinear_arith)
        requires
            2 * (tt * u) >= bp,
            bp >= 0x1_0000_0000_0000_0000 * u,
            l == 0x10_0000_0000_0000,
            u > 0,
    ;
    assert(tt * u >= l * hundred) by (nonlinear_arith)
        requires tt >= 100 * l, hundred == 100 * u, u > 0,
    ;
    assert((tt as nat * u) * 1 <= tt as nat * hundred) by (nonlinear_arith)
        requires hundred == 100 * u, tt >= 0, u > 0,
    ;
    crate::magnitude::rounding_keeps_order(tt as nat * u, hundred, tt as nat, 1, l, t);
    crate::magnitude::rounding_keeps_numbers(made.magnitude(), l, t);
    crate::magnitude::rounding_is_close(tt as nat * u, hundred, l, t);
    let d = mm * 100 - tt;
    assert(mm * hundred - tt * u == d * u) by (nonlinear_arith)
        requires d == mm * 100 - tt, hundred == 100 * u,
    ;
    double::lemma_abs(e, d * u, tt * u);
    assert(m.value() == mm);
    let off = mm * 100 * u - bp;
    assert(off == d * u + c) by (nonlinear_arith)
        requires off == mm * 100 * u - bp, d == mm * 100 - tt, c == tt * u - bp,
    ;
    assert(e * off == e * (d * u) + e * c) by (nonlinear_arith)
        requires off == d * u + c,
    ;
    assert(tt * u <= 2 * bp) by (nonlinear_arith)
        requires e * c <= bp, c == tt * u - bp, e >= 1, bp >= 0,
    ;
    assert(e == 4 * pow2(51));
    assert((4 * pow2(51)) * off == 4 * (pow2(51) * off)) by (nonlinear_arith);
    assert(pow2(51) * (-off) == -(pow2(51) * off)) by (nonlinear_arith);
}

/// There is an estimate only from a base frequency and a performance above zero.
pub proof fn estimates_need_values_above_zero(
    r: Result<Option<Double>, String>,
    base: Double,
    performance: Double,
)
    requires
        is_frequency(r, FrequencyPoll::Collected(Ok((base, performance)))),
        base.is_finite(),
        performance.is_finite(),
    ensures
        (r matches Ok(None)) <==> base.value() <= 0 || performance.value() <= 0,
        r matches Ok(Some(mhz)) ==> mhz == estimate(base, performance) && mhz.is_finite(),
{
    double::lemma_whole(0);
    double::lemma_exact(0);
    assert(0 * pow2(1074) == 0);
    double::order_of_places(base, whole(0));
    double::order_of_places(performance, whole(0));
}

/// An adapter counts unless the second of its flags marks it as made of software.
pub proof fn software_adapters_are_left_out(d: AdapterDescription)
    ensures
        adapter_said(d) is None <==> d.flags & 2 == 2,
        adapter_said(d) matches Some(adapter) ==> adapter.name == decode_utf16(
            before_zero(d.description@),
        ) && adapter.marker == "_luid_0x"@ + hex(d.luid_high as u32 as nat, 8, false) + "_0x"@ + hex(
            d.luid_low as nat,
            8,
            false,
        ) + "_"@,
{
    let f = d.flags;
    assert(((f / 2) % 2 == 1) == (f & 2 == 2)) by (bit_vector);
    crate::text::codes_keep_their_bits(d.luid_high);
}

/// The units of a buffer stand in its words from the lowest bits on.
pub proof fn units_stand_in_words_from_the_lowest_bits(buffer: Seq<u64>, w: int)
    ensures
        unit_at(buffer, 4 * w) == buffer[w] & 0xffff,
        unit_at(buffer, 4 * w + 1) == (buffer[w] >> 16) & 0xffff,
        unit_at(buffer, 4 * w + 2) == (buffer[w] >> 32) & 0xffff,
        unit_at(buffer, 4 * w + 3) == (buffer[w] >> 48) & 0xffff,
{
    let x = buffer[w];
    assert(x % 0x1_0000 == x & 0xffff) by (bit_vector);
    assert((x / 0x1_0000) % 0x1_0000 == (x >> 16) & 0xffff) by (bit_vector);
    assert((x / 0x1_0000_0000) % 0x1_0000 == (x >> 32) & 0xffff) by (bit_vector);
    assert(x / 0x1_0000_0000_0000 == (x >> 48) & 0xffff) by (bit_vector);
    assert((4 * w) / 4 == w && (4 * w + 1) / 4 == w && (4 * w + 2) / 4 == w && (4 * w + 3) / 4
        == w);
}

/// A name is read from an even address within the filled part, up to the first
/// zero there, of which there must be one.
pub proof fn names_end_at_a_zero(
    buffer: Seq<u64>,
    base: usize,
    used: usize,
    at: usize,
    name: Seq<char>,
) -> (n: nat)
    requires
        name_said(buffer, base, used, at) == Ok::<Seq<char>, Seq<char>>(name),
    ensures
        base <= at < base + used,
        at % 2 == 0,
        at + 2 * n + 2 <= base + used,
        name == decode_utf16(units(buffer, (at - base) / 2, n)),
        unit_at(buffer, (at - base) / 2 + n) == 0,
        forall|i: int|
            0 <= i < n ==> #[trigger] units(buffer, (at - base) / 2, n)[i] != 0,
{
    let end = base + used;
    let text = units(buffer, (at - base) / 2, ((end - at) / 2) as nat);
    let n = crate::text::text_ends_before_its_first_zero(text);
    assert(n < text.len()) by {
        let j = choose|j: int| 0 <= j < text.len() && text[j] == 0;
        if n >= text.len() {
            assert(text[j] != 0);
        }
    }
    assert(units(buffer, (at - base) / 2, n as nat) =~= text.take(n));
    assert forall|i: int| 0 <= i < n implies #[trigger] units(buffer, (at - base) / 2, n as nat)[i]
        != 0 by {
        assert(text[i] != 0);
    }
    assert(text[n] == unit_at(buffer, (at - base) / 2 + n));
    n as nat
}

/// The items that are read are those with a percentage, in their order, each with
/// the name at its address and with its value.
pub proof fn read_items_keep_their_names_and_values(
    buffer: Seq<u64>,
    base: usize,
    used: usize,
    items: Seq<RawItem>,
    list: Seq<(Seq<char>, Double)>,
) -> (at: Seq<int>)
    requires
        items_said(buffer, base, used, items) == Ok::<Seq<(Seq<char>, Double)>, Seq<char>>(list),
    ensures
        at.len() == list.len(),
        forall|k: int|
            0 <= k < at.len() ==> 0 <= #[trigger] at[k] < items.len() && list[k].1
                == items[at[k]].value && holds_percentage(items[at[k]]) && name_said(
                buffer,
                base,
                used,
                items[at[k]].name_at,
            ) == Ok::<Seq<char>, Seq<char>>(list[k].0),
        forall|k: int, m: int| 0 <= k < m < at.len() ==> #[trigger] at[k] < #[trigger] at[m],
        forall|i: int|
            0 <= i < items.len() && holds_percentage(#[trigger] items[i]) ==> at.contains(i),
    decreases items.len(),
{
    if items.len() == 0 {
        seq![]
    } else {
        let before = items.drop_last();
        let n = items.len() - 1;
        let less = items_said(buffer, base, used, before)->Ok_0;
        let prior = read_items_keep_their_names_and_values(buffer, base, used, before, less);
        let at = if holds_percentage(items.last()) {
            prior.push(n)
        } else {
            prior
        };
        assert forall|k: int| 0 <= k < at.len() implies 0 <= #[trigger] at[k] < items.len()
            && list[k].1 == items[at[k]].value && holds_percentage(items[at[k]]) && name_said(
            buffer,
            base,
            used,
            items[at[k]].name_at,
        ) == Ok::<Seq<char>, Seq<char>>(list[k].0) by {
            if k < prior.len() {
                assert(at[k] == prior[k]);
                assert(before[prior[k]] == items[prior[k]]);
                assert(list[k] == less[k]);
            }
        }
        assert forall|i: int|
            0 <= i < items.len() && holds_percentage(#[trigger] items[i]) implies at.contains(i) by {
            if i < n {
                assert(before[i] == items[i]);
                assert(prior.contains(i));
                let k = choose|k: int| 0 <= k < prior.len() && prior[k] == i;
                assert(at[k] == i);
            } else {
                assert(at[at.len() - 1] == i);
            }
        }
        at
    }
}

/// A query that failed is opened again once its time has come, and its time comes
/// again half a minute later; one that did not fail is left as it is.
pub proof fn failed_queries_are_retried_in_half_a_minute(failed: bool, retry_at: Moment, now: Moment)
    requires
        now.nanos <= u64::MAX - 30_000_000_000,
    ensures
        retry_due(failed, retry_at, now) <==> failed && retry_at.nanos <= now.nanos,
        retry_due(failed, retry_at, now) ==> next_retry(failed, retry_at, now).nanos == now.nanos
            + 30_000_000_000,
        !retry_due(failed, retry_at, now) ==> next_retry(failed, retry_at, now) == retry_at,
{
}

/// The enumeration goes on after every adapter up to the 32nd, keeps those that
/// are not made of software in their order, and ends well only with one of them.
pub proof fn adapters_are_gathered_in_order(
    step: AdapterStep,
    index: u32,
    before: Seq<AdapterText>,
    answer: AdapterQuery,
)
    requires
        is_adapter_step(step, index, before, answer),
        index < 32,
    ensures
        answer matches AdapterQuery::Described(d) ==> index < 31 ==> (
        step matches AdapterStep::Query(next) && next.index == index + 1 && adapter_texts(
            next.adapters@,
        ) == (if d.flags & 2 == 2 {
            before
        } else {
            before.push(adapter_said(d)->0)
        })),
        answer matches AdapterQuery::Described(d) ==> index == 31 ==> (
        step matches AdapterStep::Finished(r) && (r matches Ok(list) ==> list.len() > 0
            && adapter_texts(list@) == (if d.flags & 2 == 2 {
            before
        } else {
            before.push(adapter_said(d)->0)
        }))),
        answer matches AdapterQuery::EnumerationFailed(code, _) ==> (
        step matches AdapterStep::Finished(r) && (r is Ok <==> code == 0x887a_0002 && before.len()
            > 0) && (r matches Ok(list) ==> adapter_texts(list@) == before)),
        answer is DescriptionFailed ==> (step matches AdapterStep::Finished(r) && r is Err),
{
    if let AdapterQuery::Described(d) = answer {
        software_adapters_are_left_out(d);
        if let AdapterStep::Finished(Ok(list)) = step {
            assert(adapter_texts(list@).len() == list@.len());
        }
    }
}

} // verus!
