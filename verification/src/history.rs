//! The recent readings: curve points, the latest values, and the labels of slow readings.
use crate::battery::{basic_text, detail_text};
use crate::clock::{elapsed, Moment, SECOND};
use crate::cpu::CpuUsage;
use crate::double::{self, over, whole, Double};
use crate::error::Error;
use crate::format::{ghz_text, gib_pair_text, percent_text, rate_text};
use crate::magnitude::{lemma_steps_monotone, rounding_keeps_numbers, rounding_keeps_order};
use crate::memory::MemorySnapshot;
use crate::network::NetworkUsage;
use crate::nvme::{health_text, wear_text};
use crate::pdh;
use crate::rounding::steps;
use crate::sampling::{
    is_run, sample_at, slow_readings_of_a_run_are_spaced, CollectorState, Round, Sample,
    MAX_SAMPLE_GAP,
};
use crate::single::{self, narrowed, Single};
use crate::sources::Sources;
use crate::text::{decimal, decimal_text, same};
use std::collections::VecDeque;
use vstd::arithmetic::power2::{lemma_pow2_pos, pow2};
use vstd::math::abs;
use vstd::prelude::*;
use vstd::std_specs::cmp::{PartialEqSpec, PartialEqSpecImpl};

verus! {

/// How far back the curves reach.
pub const HISTORY_SPAN: u64 = 60 * SECOND;

/// The most points that are kept, however fast they come.
pub const MAX_POINTS: usize = 256;

pub const PENDING_LABEL: &'static str = "等待采样";

pub const STALE_LABEL: &'static str = "数据已过期";

/// A label, unless what it says is stale: old values are not shown.
pub fn unless_stale(label: &str, stale: bool) -> (r: &str)
    ensures
        r@ == if stale {
            STALE_LABEL@
        } else {
            label@
        },
{
    if stale {
        STALE_LABEL
    } else {
        label
    }
}

/// A latest reading.
#[derive(Debug)]
pub enum Metric<T> {
    Pending,
    Value(T),
    Failed(String),
}

impl<T: Clone> Clone for Metric<T> {
    fn clone(&self) -> (r: Metric<T>)
        ensures
            match (*self, r) {
                (Metric::Pending, Metric::Pending) => true,
                (Metric::Value(value), Metric::Value(copy)) => cloned(value, copy),
                (Metric::Failed(e), Metric::Failed(copy)) => copy@ == e@,
                _ => false,
            },
    {
        match self {
            Metric::Pending => Metric::Pending,
            Metric::Value(value) => Metric::Value(value.clone()),
            Metric::Failed(e) => Metric::Failed(e.clone()),
        }
    }
}

impl<T: PartialEq> PartialEq for Metric<T> {
    fn eq(&self, other: &Metric<T>) -> (r: bool) {
        match (self, other) {
            (Metric::Pending, Metric::Pending) => true,
            (Metric::Value(a), Metric::Value(b)) => *a == *b,
            (Metric::Failed(a), Metric::Failed(b)) => same(a.as_str(), b.as_str()),
            _ => false,
        }
    }
}

/// Readings are equal if their values, or the texts of their failures, are.
impl<T: PartialEq> PartialEqSpecImpl for Metric<T> {
    open spec fn obeys_eq_spec() -> bool {
        <T as PartialEqSpec>::obeys_eq_spec()
    }

    open spec fn eq_spec(&self, other: &Metric<T>) -> bool {
        match (*self, *other) {
            (Metric::Pending, Metric::Pending) => true,
            (Metric::Value(a), Metric::Value(b)) => a.eq_spec(&b),
            (Metric::Failed(a), Metric::Failed(b)) => a@ == b@,
            _ => false,
        }
    }
}

/// A latest reading, with its failure as text.
pub enum MetricState<T> {
    Pending,
    Value(T),
    Failed(Seq<char>),
}

impl<T> View for Metric<T> {
    type V = MetricState<T>;

    open spec fn view(&self) -> MetricState<T> {
        match *self {
            Metric::Pending => MetricState::Pending,
            Metric::Value(value) => MetricState::Value(value),
            Metric::Failed(e) => MetricState::Failed(e@),
        }
    }
}

/// What tells that a reading failed.
pub open spec fn failure_text(e: Seq<char>) -> Seq<char> {
    "读取失败："@ + e
}

pub(crate) fn failure_label(e: &str) -> (r: String)
    ensures
        r@ == failure_text(e@),
{
    let mut r = String::from_str("读取失败：");
    r.append(e);
    r
}

impl<T> Metric<T> {
    pub fn value(&self) -> (r: Option<&T>)
        ensures
            match *self {
                Metric::Value(value) => r == Some(&value),
                _ => r is None,
            },
    {
        match self {
            Metric::Value(value) => Some(value),
            _ => None,
        }
    }

    /// What to show, with values as `format` shows them.
    pub fn label(&self, format: impl FnOnce(&T) -> String) -> (r: String)
        requires
            *self matches Metric::Value(value) ==> call_requires(format, (&value,)),
        ensures
            match *self {
                Metric::Pending => r@ == PENDING_LABEL@,
                Metric::Value(value) => call_ensures(format, (&value,), r),
                Metric::Failed(e) => r@ == failure_text(e@),
            },
    {
        match self {
            Metric::Pending => String::from_str(PENDING_LABEL),
            Metric::Value(value) => format(value),
            Metric::Failed(e) => failure_label(e.as_str()),
        }
    }
}

#[derive(Clone, Copy, Debug)]
pub struct MemoryUse {
    /// In `0..=1`.
    pub ratio: Double,
    pub used_bytes: u64,
    pub total_bytes: u64,
}

impl PartialEq for MemoryUse {
    fn eq(&self, other: &MemoryUse) -> (r: bool) {
        self.ratio == other.ratio && self.used_bytes == other.used_bytes && self.total_bytes
            == other.total_bytes
    }
}

/// Memory uses are equal if their ratios are equal as numbers, and their sizes are equal.
impl PartialEqSpecImpl for MemoryUse {
    open spec fn obeys_eq_spec() -> bool {
        true
    }

    open spec fn eq_spec(&self, other: &MemoryUse) -> bool {
        self.ratio.equals(other.ratio) && self.used_bytes == other.used_bytes && self.total_bytes
            == other.total_bytes
    }
}

/// One point of the curves.
#[derive(Clone, Copy, Debug)]
pub struct Reading {
    pub at: Moment,
    pub cpu: Option<Double>,
    pub ram: Option<Double>,
    pub network_at: Moment,
    /// In bytes per second; the chart brings it to scale.
    pub download: Option<Double>,
    pub upload: Option<Double>,
}

#[derive(Debug)]
pub struct History {
    pub points: VecDeque<Reading>,
    /// The usage of all processors, in `0..=1`.
    pub cpu: Metric<Double>,
    pub cpu_mhz: Metric<Double>,
    pub memory: Metric<MemoryUse>,
    pub network_name: String,
    pub network_status: String,
    pub battery_at: Option<Moment>,
    pub battery_label: String,
    pub battery_detail: String,
    pub nvme_at: Option<Moment>,
    pub nvme_name: String,
    pub nvme_label: String,
    pub nvme_detail: String,
    pub pdh_at: Option<Moment>,
    pub disk_label: String,
    pub gpu_label: String,
}

/// A history, with its strings as texts.
pub struct HistoryState {
    pub points: Seq<Reading>,
    pub cpu: MetricState<Double>,
    pub cpu_mhz: MetricState<Double>,
    pub memory: MetricState<MemoryUse>,
    pub network_name: Seq<char>,
    pub network_status: Seq<char>,
    pub battery_at: Option<Moment>,
    pub battery_label: Seq<char>,
    pub battery_detail: Seq<char>,
    pub nvme_at: Option<Moment>,
    pub nvme_name: Seq<char>,
    pub nvme_label: Seq<char>,
    pub nvme_detail: Seq<char>,
    pub pdh_at: Option<Moment>,
    pub disk_label: Seq<char>,
    pub gpu_label: Seq<char>,
}

impl View for History {
    type V = HistoryState;

    open spec fn view(&self) -> HistoryState {
        HistoryState {
            points: self.points@,
            cpu: self.cpu@,
            cpu_mhz: self.cpu_mhz@,
            memory: self.memory@,
            network_name: self.network_name@,
            network_status: self.network_status@,
            battery_at: self.battery_at,
            battery_label: self.battery_label@,
            battery_detail: self.battery_detail@,
            nvme_at: self.nvme_at,
            nvme_name: self.nvme_name@,
            nvme_label: self.nvme_label@,
            nvme_detail: self.nvme_detail@,
            pdh_at: self.pdh_at,
            disk_label: self.disk_label@,
            gpu_label: self.gpu_label@,
        }
    }
}

/// A history without samples.
pub open spec fn blank() -> HistoryState {
    HistoryState {
        points: seq![],
        cpu: MetricState::Pending,
        cpu_mhz: MetricState::Pending,
        memory: MetricState::Pending,
        network_name: "未选择 WLAN"@,
        network_status: PENDING_LABEL@,
        battery_at: None,
        battery_label: "等待电池采样"@,
        battery_detail: seq![],
        nvme_at: None,
        nvme_name: "未选择 NVMe"@,
        nvme_label: "可用 --list-disks 查看设备"@,
        nvme_detail: seq![],
        pdh_at: None,
        disk_label: "等待基线"@,
        gpu_label: "等待基线"@,
    }
}

impl Default for History {
    fn default() -> (r: History)
        ensures
            r@ == blank(),
    {
        History {
            points: VecDeque::new(),
            cpu: Metric::Pending,
            cpu_mhz: Metric::Pending,
            memory: Metric::Pending,
            network_name: String::from_str("未选择 WLAN"),
            network_status: String::from_str(PENDING_LABEL),
            battery_at: None,
            battery_label: String::from_str("等待电池采样"),
            battery_detail: String::new(),
            nvme_at: None,
            nvme_name: String::from_str("未选择 NVMe"),
            nvme_label: String::from_str("可用 --list-disks 查看设备"),
            nvme_detail: String::new(),
            pdh_at: None,
            disk_label: String::from_str("等待基线"),
            gpu_label: String::from_str("等待基线"),
        }
    }
}

/// Whether a number is a ratio in `0..=1`.
pub open spec fn is_ratio(d: Double) -> bool {
    d.is_finite() && whole(0).at_most(d) && d.at_most(whole(1))
}

/// The usage that a sample tells.
pub open spec fn cpu_reading(cpu: Result<CpuUsage, Error>) -> MetricState<Double> {
    match cpu {
        Ok(CpuUsage::Busy(ratio)) => if is_ratio(ratio) {
            MetricState::Value(ratio)
        } else {
            MetricState::Failed("无效读数"@)
        },
        Ok(CpuUsage::Pending) => MetricState::Pending,
        Err(e) => MetricState::Failed(e.message@),
    }
}

/// The frequency that a sample tells.
pub open spec fn frequency_reading(mhz: Result<Option<Double>, String>) -> MetricState<Double> {
    match mhz {
        Ok(Some(mhz)) => if mhz.is_finite() && whole(0).less(mhz) {
            MetricState::Value(mhz)
        } else {
            MetricState::Failed("无效频率"@)
        },
        Ok(None) => MetricState::Pending,
        Err(e) => MetricState::Failed(e@),
    }
}

/// Whether a memory reading makes sense.
pub open spec fn is_capacity(m: MemorySnapshot) -> bool {
    0 < m.total_bytes && m.available_bytes <= m.total_bytes
}

/// The share of the memory that is in use.
pub open spec fn memory_ratio(m: MemorySnapshot) -> Double {
    over(whole(m.used() as nat), whole(m.total_bytes as nat))
}

/// The memory use that a sample tells.
pub open spec fn memory_reading(memory: Result<MemorySnapshot, Error>) -> MetricState<MemoryUse> {
    match memory {
        Ok(m) => if is_capacity(m) {
            MetricState::Value(
                MemoryUse {
                    ratio: memory_ratio(m),
                    used_bytes: m.used(),
                    total_bytes: m.total_bytes,
                },
            )
        } else {
            MetricState::Failed("无效容量"@)
        },
        Err(e) => MetricState::Failed(e.message@),
    }
}

/// The usage in a sample, if it is a ratio.
pub(crate) fn valid_ratio(ratio: Double) -> (r: bool)
    ensures
        r == is_ratio(ratio),
{
    ratio.finite() && Double::from_u64(0).no_more_than(ratio) && ratio.no_more_than(
        Double::from_u64(1),
    )
}

fn cpu_metric(sample: &Sample) -> (r: Metric<Double>)
    ensures
        r@ == cpu_reading(sample.cpu),
{
    match &sample.cpu {
        Ok(CpuUsage::Busy(ratio)) => {
            if valid_ratio(*ratio) {
                Metric::Value(*ratio)
            } else {
                Metric::Failed(String::from_str("无效读数"))
            }
        },
        Ok(CpuUsage::Pending) => Metric::Pending,
        Err(e) => Metric::Failed(e.message.clone()),
    }
}

fn frequency_metric(sample: &Sample) -> (r: Metric<Double>)
    ensures
        r@ == frequency_reading(sample.cpu_mhz),
{
    match &sample.cpu_mhz {
        Ok(Some(mhz)) => {
            if mhz.finite() && Double::from_u64(0).less_than(*mhz) {
                Metric::Value(*mhz)
            } else {
                Metric::Failed(String::from_str("无效频率"))
            }
        },
        Ok(None) => Metric::Pending,
        Err(e) => Metric::Failed(e.clone()),
    }
}

fn memory_metric(sample: &Sample) -> (r: Metric<MemoryUse>)
    ensures
        r@ == memory_reading(sample.memory),
{
    match &sample.memory {
        Ok(m) => {
            if m.total_bytes > 0 && m.available_bytes <= m.total_bytes {
                let used_bytes: u64 = m.used_bytes();
                Metric::Value(
                    MemoryUse {
                        ratio: Double::from_u64(used_bytes).divided_by(
                            Double::from_u64(m.total_bytes),
                        ),
                        used_bytes,
                        total_bytes: m.total_bytes,
                    },
                )
            } else {
                Metric::Failed(String::from_str("无效容量"))
            }
        },
        Err(e) => Metric::Failed(e.message.clone()),
    }
}

/// What to say of the network, where there are no rates to show.
pub open spec fn network_text(network: Result<NetworkUsage, Error>) -> Seq<char> {
    match network {
        Ok(NetworkUsage::Transfer { .. }) => seq![],
        Ok(NetworkUsage::NotSelected) => "未选择接口"@,
        Ok(NetworkUsage::Pending) => "等待下一次采样"@,
        Ok(NetworkUsage::Disconnected) => "接口未连接"@,
        Ok(NetworkUsage::Unavailable) => "接口不在场"@,
        Err(e) => failure_text(e.message@),
    }
}

fn network_label(network: &Result<NetworkUsage, Error>) -> (r: String)
    ensures
        r@ == network_text(*network),
{
    match network {
        Ok(NetworkUsage::Transfer { .. }) => String::new(),
        Ok(NetworkUsage::NotSelected) => String::from_str("未选择接口"),
        Ok(NetworkUsage::Pending) => String::from_str("等待下一次采样"),
        Ok(NetworkUsage::Disconnected) => String::from_str("接口未连接"),
        Ok(NetworkUsage::Unavailable) => String::from_str("接口不在场"),
        Err(e) => failure_label(e.message.as_str()),
    }
}

pub open spec fn download_of(network: Result<NetworkUsage, Error>) -> Option<Double> {
    match network {
        Ok(NetworkUsage::Transfer { download_bytes_per_sec, .. }) => Some(download_bytes_per_sec),
        _ => None,
    }
}

pub open spec fn upload_of(network: Result<NetworkUsage, Error>) -> Option<Double> {
    match network {
        Ok(NetworkUsage::Transfer { upload_bytes_per_sec, .. }) => Some(upload_bytes_per_sec),
        _ => None,
    }
}

pub open spec fn disk_text(disk: Result<pdh::DiskRates, String>) -> Seq<char> {
    match disk {
        Ok(rates) => "读 "@ + rate_text(rates.read_bps) + "  ·  写 "@ + rate_text(rates.write_bps),
        Err(e) => failure_text(e@),
    }
}

fn disk_rates_label(disk: &Result<pdh::DiskRates, String>) -> (r: String)
    ensures
        r@ == disk_text(*disk),
{
    match disk {
        Ok(rates) => {
            let mut r = String::from_str("读 ");
            r.append(crate::format::rate(rates.read_bps).as_str());
            r.append("  ·  写 ");
            r.append(crate::format::rate(rates.write_bps).as_str());
            r
        },
        Err(e) => failure_label(e.as_str()),
    }
}

pub open spec fn gpu_text(gpu: Result<Option<pdh::EngineReading>, String>) -> Seq<char> {
    match gpu {
        Ok(Some(engine)) => engine.adapter@ + "  ·  "@ + engine.engine_type@ + " / PID "@ + decimal(
            engine.pid as nat,
        ) + "  "@ + double::fixed(engine.percent, 10, false) + "%"@,
        Ok(None) => "没有活动引擎实例"@,
        Err(e) => failure_text(e@),
    }
}

fn engine_label(gpu: &Result<Option<pdh::EngineReading>, String>) -> (r: String)
    ensures
        r@ == gpu_text(*gpu),
{
    match gpu {
        Ok(Some(engine)) => {
            let mut r = engine.adapter.clone();
            r.append("  ·  ");
            r.append(engine.engine_type.as_str());
            r.append(" / PID ");
            r.append(decimal_text(engine.pid as u64).as_str());
            r.append("  ");
            r.append(engine.percent.to_fixed(10, false).as_str());
            r.append("%");
            r
        },
        Ok(None) => String::from_str("没有活动引擎实例"),
        Err(e) => failure_label(e.as_str()),
    }
}

fn usage_label(ratio: &Double) -> (r: String)
    ensures
        r@ == percent_text(*ratio),
{
    crate::format::percent(*ratio)
}

pub open spec fn memory_text(m: MemoryUse) -> Seq<char> {
    percent_text(m.ratio) + "  ·  "@ + gib_pair_text(m.used_bytes as nat, m.total_bytes as nat)
}

fn memory_label(m: &MemoryUse) -> (r: String)
    ensures
        r@ == memory_text(*m),
{
    let mut r = crate::format::percent(m.ratio);
    r.append("  ·  ");
    r.append(crate::format::gib_pair(m.used_bytes, m.total_bytes).as_str());
    r
}

/// What is left of some points at `now`: the oldest ones go while they are too
/// old or there are too many.
pub open spec fn pruned(points: Seq<Reading>, now: Moment) -> Seq<Reading>
    decreases points.len(),
{
    if points.len() > 0 && (elapsed(now, points[0].at) > HISTORY_SPAN || points.len()
        > MAX_POINTS) {
        pruned(points.skip(1), now)
    } else {
        points
    }
}

/// Whether a sample comes too late to be shown.
pub open spec fn is_late(points: Seq<Reading>, taken_at: Moment) -> bool {
    points.len() > 0 && points.last().at.nanos >= taken_at.nanos
}

/// The point that a sample adds.
pub open spec fn point_of(s: Sample) -> Reading {
    Reading {
        at: s.taken_at,
        cpu: match cpu_reading(s.cpu) {
            MetricState::Value(ratio) => Some(ratio),
            _ => None,
        },
        ram: match memory_reading(s.memory) {
            MetricState::Value(m) => Some(m.ratio),
            _ => None,
        },
        network_at: s.network_at,
        download: download_of(s.network),
        upload: upload_of(s.network),
    }
}

/// Whether a slow reading is newer than the one that is shown.
pub open spec fn is_newer(at: Moment, shown: Option<Moment>) -> bool {
    match shown {
        Some(previous) => at.nanos > previous.nanos,
        None => true,
    }
}

pub open spec fn with_battery(h: HistoryState, s: Sample) -> HistoryState {
    match s.battery {
        Some((at, battery)) if is_newer(at, h.battery_at) => HistoryState {
            battery_at: Some(at),
            battery_label: basic_text(battery.power),
            battery_detail: detail_text(*battery),
            ..h
        },
        _ => h,
    }
}

pub open spec fn with_nvme(h: HistoryState, s: Sample) -> HistoryState {
    match s.nvme {
        Some((at, reading)) if is_newer(at, h.nvme_at) => match *reading {
            Ok(health) => HistoryState {
                nvme_at: Some(at),
                nvme_label: health_text(health),
                nvme_detail: wear_text(health),
                ..h
            },
            Err(e) => HistoryState {
                nvme_at: Some(at),
                nvme_label: failure_text(e@),
                nvme_detail: seq![],
                ..h
            },
        },
        _ => h,
    }
}

pub open spec fn with_counters(h: HistoryState, s: Sample) -> HistoryState {
    match s.pdh {
        Some((at, snapshot)) => HistoryState {
            pdh_at: Some(at),
            disk_label: disk_text(snapshot.disk),
            gpu_label: gpu_text(snapshot.gpu),
            ..h
        },
        None => h,
    }
}

/// The history after a sample.
pub open spec fn pushed(h: HistoryState, s: Sample) -> HistoryState {
    if is_late(h.points, s.taken_at) {
        h
    } else {
        let fast = HistoryState {
            points: pruned(h.points.push(point_of(s)), s.taken_at),
            cpu: cpu_reading(s.cpu),
            cpu_mhz: frequency_reading(s.cpu_mhz),
            memory: memory_reading(s.memory),
            network_status: network_text(s.network),
            ..h
        };
        with_counters(with_nvme(with_battery(fast, s), s), s)
    }
}

pub open spec fn frequency_text(mhz: MetricState<Double>) -> Seq<char> {
    match mhz {
        MetricState::Value(mhz) => "估算频率 "@ + ghz_text(mhz),
        MetricState::Pending => "频率等待基线"@,
        MetricState::Failed(e) => "频率读取失败："@ + e,
    }
}

pub open spec fn usage_text(cpu: MetricState<Double>) -> Seq<char> {
    match cpu {
        MetricState::Pending => PENDING_LABEL@,
        MetricState::Value(ratio) => percent_text(ratio),
        MetricState::Failed(e) => failure_text(e),
    }
}

pub open spec fn cpu_text(h: HistoryState) -> Seq<char> {
    usage_text(h.cpu) + "  ·  "@ + frequency_text(h.cpu_mhz)
}

pub open spec fn ram_text(h: HistoryState) -> Seq<char> {
    match h.memory {
        MetricState::Pending => PENDING_LABEL@,
        MetricState::Value(m) => memory_text(m),
        MetricState::Failed(e) => failure_text(e),
    }
}

/// The time by which a point is placed.
pub open spec fn time_of(p: Reading, network: bool) -> Moment {
    if network {
        p.network_at
    } else {
        p.at
    }
}

/// Whether a point is recent enough to be shown.
pub open spec fn is_shown(p: Reading, network: bool, now: Moment) -> bool {
    elapsed(now, time_of(p, network)) <= HISTORY_SPAN
}

/// The time of the last point that is shown.
pub open spec fn last_shown(points: Seq<Reading>, network: bool, now: Moment) -> Option<Moment>
    decreases points.len(),
{
    if points.len() == 0 {
        None
    } else if is_shown(points.last(), network, now) {
        Some(time_of(points.last(), network))
    } else {
        last_shown(points.drop_last(), network, now)
    }
}

/// A time span in seconds, in single precision.
pub open spec fn short_seconds(nanos: u64) -> Single {
    single::plus(
        single::whole((nanos / SECOND) as nat),
        single::over(
            single::whole((nanos % SECOND) as nat),
            single::whole(SECOND as nat),
        ),
    )
}

/// Where something of the given age stands between the left and the right edge.
pub open spec fn position(age: u64) -> Single {
    single::minus(
        single::whole(1),
        single::over(short_seconds(age), short_seconds(HISTORY_SPAN)),
    )
}

/// A value as a curve point; a missing value is a gap.
pub open spec fn placed(value: Option<Double>, age: u64) -> Option<(Single, Single)> {
    match value {
        Some(value) => Some((position(age), narrowed(value))),
        None => None,
    }
}

/// Whether the gap between two neighbours breaks the curve.
pub open spec fn is_broken(previous: Option<Moment>, at: Moment) -> bool {
    previous matches Some(moment) && elapsed(at, moment) > MAX_SAMPLE_GAP
}

/// The curve through the given values of some points.
pub open spec fn curve(
    points: Seq<Reading>,
    values: Seq<Option<Double>>,
    network: bool,
    now: Moment,
) -> Seq<Option<(Single, Single)>>
    decreases points.len(),
{
    if points.len() == 0 {
        seq![]
    } else {
        let before = curve(points.drop_last(), values.drop_last(), network, now);
        let p = points.last();
        if is_shown(p, network, now) {
            let at = time_of(p, network);
            let opened = if is_broken(last_shown(points.drop_last(), network, now), at) {
                before.push(None)
            } else {
                before
            };
            opened.push(placed(values.last(), elapsed(now, at)))
        } else {
            before
        }
    }
}

/// Whether `values` are what `metric` tells of the points that are shown.
pub open spec fn are_values<F: Fn(&Reading) -> Option<Double>>(
    metric: F,
    points: Seq<Reading>,
    values: Seq<Option<Double>>,
    network: bool,
    now: Moment,
) -> bool {
    values.len() == points.len() && forall|i: int|
        0 <= i < points.len() && is_shown(points[i], network, now) ==> call_ensures(
            metric,
            (&points[i],),
            #[trigger] values[i],
        )
}

/// Whether `metric` can be asked of all points.
pub open spec fn is_metric<F: Fn(&Reading) -> Option<Double>>(
    metric: F,
    points: Seq<Reading>,
) -> bool {
    forall|i: int| 0 <= i < points.len() ==> call_requires(metric, (&#[trigger] points[i],))
}

/// Positions lie between the edges, a newer sample no further left, and the present at the right edge.
pub proof fn positions_follow_time(age: u64, older: u64)
    requires
        age <= older <= HISTORY_SPAN,
    ensures
        position(older).bits <= position(age).bits <= single::ONE,
        position(0).bits == single::ONE,
        short_seconds(age).bits <= short_seconds(older).bits <= short_seconds(HISTORY_SPAN).bits
            < single::INFINITE,
        short_seconds(HISTORY_SPAN).bits > 0,
        single::over(short_seconds(older), short_seconds(HISTORY_SPAN)).bits <= single::ONE,
{
    lemma_short_seconds_ordered(age, older);
    lemma_short_seconds_ordered(older, HISTORY_SPAN);
    lemma_short_seconds_ordered(0, HISTORY_SPAN);
    lemma_fraction(HISTORY_SPAN);
    let span = short_seconds(HISTORY_SPAN);
    single::lemma_whole(60);
    single::lemma_whole(0);
    rounding_keeps_numbers(
        single::whole(60).magnitude(),
        single::LEAD as nat,
        single::TOP as nat,
    );
    assert(span == single::whole(60));
    single::lemma_over_ordered(short_seconds(age), short_seconds(older), span);
    single::lemma_part(short_seconds(age), span);
    single::lemma_part(short_seconds(older), span);
    single::lemma_rest_ordered(
        single::over(short_seconds(age), span),
        single::over(short_seconds(older), span),
    );
    lemma_fraction(0);
    rounding_keeps_numbers(0, single::LEAD as nat, single::TOP as nat);
    assert(short_seconds(0) == single::whole(0));
    lemma_nothing_over(span);
    single::lemma_whole(1);
}

/// Nothing divided is nothing.
proof fn lemma_nothing_over(b: Single)
    requires
        0 < b.bits < single::INFINITE,
    ensures
        single::over(single::whole(0), b) == single::whole(0),
{
    let l = single::LEAD as nat;
    let t = single::TOP as nat;
    let unit = pow2(single::LEAST as nat);
    single::lemma_whole(0);
    lemma_steps_monotone(0, b.magnitude(), l);
    assert(steps(0, l) == 0);
    assert(0 * unit == 0);
    rounding_keeps_numbers(0, l, t);
    crate::magnitude::lemma_nearest_ratio(0, steps(b.magnitude(), l), 0, 1, l, t);
}

/// The fraction of a second in a time span is at most one second, and none in whole seconds.
proof fn lemma_fraction(nanos: u64)
    ensures
        single::over(
            single::whole((nanos % SECOND) as nat),
            single::whole(SECOND as nat),
        ).bits <= single::ONE,
        nanos % SECOND == 0 ==> single::over(
            single::whole((nanos % SECOND) as nat),
            single::whole(SECOND as nat),
        ) == single::whole(0),
        single::whole(0).bits == 0,
{
    single::lemma_whole(0);
    single::lemma_whole(SECOND as nat);
    single::lemma_whole_ordered((nanos % SECOND) as nat, SECOND as nat);
    single::lemma_part(single::whole((nanos % SECOND) as nat), single::whole(SECOND as nat));
    lemma_nothing_over(single::whole(SECOND as nat));
}

/// A longer time span is no fewer seconds.
proof fn lemma_short_seconds_ordered(a: u64, b: u64)
    requires
        a <= b <= HISTORY_SPAN,
    ensures
        short_seconds(a).bits <= short_seconds(b).bits <= single::whole(60).bits,
{
    let l = single::LEAD as nat;
    let t = single::TOP as nat;
    let unit = pow2(single::LEAST as nat);
    let second = single::whole(SECOND as nat);
    let m = (a / SECOND) as nat;
    let n = (b / SECOND) as nat;
    let x = single::over(single::whole((a % SECOND) as nat), second);
    let y = single::over(single::whole((b % SECOND) as nat), second);
    lemma_fraction(a);
    lemma_fraction(b);
    single::lemma_whole(SECOND as nat);
    single::lemma_whole(1);
    single::lemma_whole(m);
    single::lemma_whole(n);
    single::lemma_whole(60);
    single::lemma_exact(1);
    single::lemma_exact(m);
    single::lemma_exact(n);
    single::lemma_exact(60);
    lemma_steps_monotone(x.magnitude(), single::ONE as nat, l);
    lemma_steps_monotone(y.magnitude(), single::ONE as nat, l);
    assert(1 * unit == unit);
    assert(m * unit + unit <= 60 * unit || m == 60) by (nonlinear_arith)
        requires m <= 60, unit >= 0,
    ;
    assert(n * unit + unit <= 60 * unit || n == 60) by (nonlinear_arith)
        requires n <= 60, unit >= 0,
    ;
    assert(steps(0, l) == 0);
    let p = steps(single::whole(m).magnitude(), l) + steps(x.magnitude(), l);
    let q = steps(single::whole(n).magnitude(), l) + steps(y.magnitude(), l);
    if m == n {
        single::lemma_whole((a % SECOND) as nat);
        single::lemma_whole((b % SECOND) as nat);
        single::lemma_whole_ordered((a % SECOND) as nat, (b % SECOND) as nat);
        single::lemma_over_ordered(
            single::whole((a % SECOND) as nat),
            single::whole((b % SECOND) as nat),
            second,
        );
        lemma_steps_monotone(x.magnitude(), y.magnitude(), l);
    } else {
        assert(m * unit + unit <= n * unit) by (nonlinear_arith)
            requires m + 1 <= n, unit >= 0,
        ;
    }
    rounding_keeps_order(p, 1, q, 1, l, t);
    rounding_keeps_order(q, 1, steps(single::whole(60).magnitude(), l), 1, l, t);
    rounding_keeps_numbers(single::whole(60).magnitude(), l, t);
}

/// Seconds in single precision.
fn short_seconds_of(nanos: u64) -> (r: Single)
    requires
        nanos <= HISTORY_SPAN,
    ensures
        r == short_seconds(nanos),
{
    proof {
        single::lemma_whole((nanos / SECOND) as nat);
        single::lemma_whole((nanos % SECOND) as nat);
        single::lemma_whole(SECOND as nat);
        lemma_fraction(nanos);
    }
    let part = Single::from_u64(nanos % SECOND).divided_by(Single::from_u64(SECOND));
    Single::from_u64(nanos / SECOND).increase(part)
}

fn position_of(age: u64) -> (r: Single)
    requires
        age <= HISTORY_SPAN,
    ensures
        r == position(age),
{
    proof {
        positions_follow_time(age, age);
        single::lemma_whole(1);
    }
    let share = short_seconds_of(age).divided_by(short_seconds_of(HISTORY_SPAN));
    Single::from_u64(1).subtract(share)
}

fn prune_points(points: &mut VecDeque<Reading>, now: Moment)
    ensures
        final(points)@ == pruned(old(points)@, now),
{
    while points.len() > 0 && (now.since(points[0].at) > HISTORY_SPAN || points.len()
        > MAX_POINTS)
        invariant
            pruned(points@, now) == pruned(old(points)@, now),
        decreases points@.len(),
    {
        let ghost before = points@;
        let _ = points.pop_front();
        assert(points@ =~= before.skip(1));
    }
}

impl History {
    /// An empty history of the chosen devices.
    pub fn for_sources(sources: &Sources) -> (r: History)
        ensures
            r@ == (HistoryState {
                network_name: match sources.network_name {
                    Some(name) => name@,
                    None => blank().network_name,
                },
                nvme_name: match sources.disk {
                    Some(disk) => disk.name@,
                    None => blank().nvme_name,
                },
                ..blank()
            }),
    {
        let mut history = History::default();
        if let Some(name) = &sources.network_name {
            history.network_name = name.clone();
        }
        if let Some(disk) = &sources.disk {
            history.nvme_name = disk.name.clone();
        }
        history
    }

    pub fn last_sample_at(&self) -> (r: Option<Moment>)
        ensures
            r == if self.points@.len() > 0 {
                Some(self.points@.last().at)
            } else {
                None
            },
    {
        if self.points.len() > 0 {
            Some(self.points[self.points.len() - 1].at)
        } else {
            None
        }
    }

    pub fn cpu_label(&self) -> (r: String)
        ensures
            r@ == cpu_text(self@),
    {
        let mut r = self.cpu.label(usage_label);
        r.append("  ·  ");
        match &self.cpu_mhz {
            Metric::Value(mhz) => {
                r.append("估算频率 ");
                r.append(crate::format::ghz(*mhz).as_str());
                assert(r@ =~= cpu_text(self@));
            },
            Metric::Pending => {
                r.append("频率等待基线");
            },
            Metric::Failed(e) => {
                r.append("频率读取失败：");
                r.append(e.as_str());
                assert(r@ =~= cpu_text(self@));
            },
        }
        r
    }

    pub fn ram_label(&self) -> (r: String)
        ensures
            r@ == ram_text(self@),
    {
        self.memory.label(memory_label)
    }

    /// Takes a sample, unless it is no newer than the last one.
    pub fn push(&mut self, sample: Sample)
        ensures
            final(self)@ == pushed(old(self)@, sample),
    {
        let count: usize = self.points.len();
        if count > 0 && self.points[count - 1].at.nanos >= sample.taken_at.nanos {
            return;
        }
        self.cpu = cpu_metric(&sample);
        self.cpu_mhz = frequency_metric(&sample);
        self.memory = memory_metric(&sample);
        self.network_status = network_label(&sample.network);
        let (download, upload) = match &sample.network {
            Ok(
                NetworkUsage::Transfer { download_bytes_per_sec, upload_bytes_per_sec },
            ) => (Some(*download_bytes_per_sec), Some(*upload_bytes_per_sec)),
            _ => (None, None),
        };
        if let Some((at, battery)) = &sample.battery {
            let newer: bool = match self.battery_at {
                Some(previous) => at.nanos > previous.nanos,
                None => true,
            };
            if newer {
                self.battery_at = Some(*at);
                let (label, detail) = battery.labels();
                self.battery_label = label;
                self.battery_detail = detail;
            }
        }
        if let Some((at, reading)) = &sample.nvme {
            let newer: bool = match self.nvme_at {
                Some(previous) => at.nanos > previous.nanos,
                None => true,
            };
            if newer {
                self.nvme_at = Some(*at);
                match &**reading {
                    Ok(health) => {
                        let (label, detail) = health.labels();
                        self.nvme_label = label;
                        self.nvme_detail = detail;
                    },
                    Err(e) => {
                        self.nvme_label = failure_label(e.as_str());
                        self.nvme_detail = String::new();
                    },
                }
            }
        }
        if let Some((at, snapshot)) = &sample.pdh {
            self.pdh_at = Some(*at);
            self.disk_label = disk_rates_label(&snapshot.disk);
            self.gpu_label = engine_label(&snapshot.gpu);
        }
        let cpu = match &self.cpu {
            Metric::Value(ratio) => Some(*ratio),
            _ => None,
        };
        let ram = match &self.memory {
            Metric::Value(m) => Some(m.ratio),
            _ => None,
        };
        self.points.push_back(
            Reading {
                at: sample.taken_at,
                cpu,
                ram,
                network_at: sample.network_at,
                download,
                upload,
            },
        );
        prune_points(&mut self.points, sample.taken_at);
    }

    /// Drops the points that are too old.
    pub fn prune(&mut self, now: Moment)
        ensures
            final(self)@ == (HistoryState { points: pruned(old(self)@.points, now), ..old(self)@ }),
    {
        prune_points(&mut self.points, now);
    }

    /// The curve of a metric. The first coordinate is a position in `0..=1`,
    /// the second the value as it is; a gap stands for a missing value or for
    /// the end of a line.
    pub fn series<F: Fn(&Reading) -> Option<Double>>(&self, now: Moment, metric: F) -> (r: Vec<
        Option<(Single, Single)>,
    >)
        requires
            is_metric(metric, self@.points),
        ensures
            exists|values: Seq<Option<Double>>| #[trigger]
                are_values(metric, self@.points, values, false, now) && r@ == curve(
                    self@.points,
                    values,
                    false,
                    now,
                ),
            forall|i: int|
                0 <= i < self@.points.len() && now.nanos <= (#[trigger] self@.points[i]).at.nanos
                    + 60_000_000_000 ==> exists|k: int, v: Option<Double>|
                    {
                        &&& 0 <= k < r@.len()
                        &&& #[trigger] call_ensures(metric, (&self@.points[i],), v)
                        &&& (#[trigger] r@[k]) is Some <==> v is Some
                        &&& v is Some ==> (r@[k]->0).1 == narrowed(v->0)
                    },
    {
        self.series_at(now, metric, false)
    }

    /// The curve of a network metric, which goes by the time of the network reading.
    pub fn network_series<F: Fn(&Reading) -> Option<Double>>(&self, now: Moment, metric: F) -> (r:
        Vec<Option<(Single, Single)>>)
        requires
            is_metric(metric, self@.points),
        ensures
            exists|values: Seq<Option<Double>>| #[trigger]
                are_values(metric, self@.points, values, true, now) && r@ == curve(
                    self@.points,
                    values,
                    true,
                    now,
                ),
            forall|i: int|
                0 <= i < self@.points.len() && now.nanos <= (#[trigger] self@.points[i]).network_at.nanos
                    + 60_000_000_000 ==> exists|k: int, v: Option<Double>|
                    {
                        &&& 0 <= k < r@.len()
                        &&& #[trigger] call_ensures(metric, (&self@.points[i],), v)
                        &&& (#[trigger] r@[k]) is Some <==> v is Some
                        &&& v is Some ==> (r@[k]->0).1 == narrowed(v->0)
                    },
    {
        self.series_at(now, metric, true)
    }

    fn series_at<F: Fn(&Reading) -> Option<Double>>(
        &self,
        now: Moment,
        metric: F,
        network: bool,
    ) -> (r: Vec<Option<(Single, Single)>>)
        requires
            is_metric(metric, self@.points),
        ensures
            exists|values: Seq<Option<Double>>| #[trigger]
                are_values(metric, self@.points, values, network, now) && r@ == curve(
                    self@.points,
                    values,
                    network,
                    now,
                ),
            forall|i: int|
                0 <= i < self@.points.len() && now.nanos <= (if network {
                    (#[trigger] self@.points[i]).network_at.nanos
                } else {
                    self@.points[i].at.nanos
                }) + 60_000_000_000 ==> exists|k: int, v: Option<Double>|
                    {
                        &&& 0 <= k < r@.len()
                        &&& #[trigger] call_ensures(metric, (&self@.points[i],), v)
                        &&& (#[trigger] r@[k]) is Some <==> v is Some
                        &&& v is Some ==> (r@[k]->0).1 == narrowed(v->0)
                    },
    {
        let ghost points = self.points@;
        let ghost mut values: Seq<Option<Double>> = seq![];
        let mut result: Vec<Option<(Single, Single)>> = Vec::new();
        let mut previous: Option<Moment> = None;
        let mut i: usize = 0;
        while i < self.points.len()
            invariant
                i <= self.points@.len(),
                points == self.points@,
                is_metric(metric, points),
                are_values(metric, points.take(i as int), values, network, now),
                previous == last_shown(points.take(i as int), network, now),
                result@ == curve(points.take(i as int), values, network, now),
            decreases self.points@.len() - i,
        {
            let ghost done = points.take(i as int);
            let ghost next = points.take(i + 1);
            assert(next.drop_last() =~= done);
            let p = self.points[i];
            assert(p == points[i as int]);
            let at = if network {
                p.network_at
            } else {
                p.at
            };
            let age: u64 = now.since(at);
            let ghost mut value: Option<Double> = None;
            if age <= HISTORY_SPAN {
                let broken: bool = match previous {
                    Some(moment) => at.since(moment) > MAX_SAMPLE_GAP,
                    None => false,
                };
                if broken {
                    result.push(None);
                }
                let read = metric(&self.points[i]);
                proof {
                    value = read;
                }
                match read {
                    Some(v) => {
                        result.push(Some((position_of(age), Single::from_double(v))));
                    },
                    None => {
                        result.push(None);
                    },
                }
                previous = Some(at);
            }
            proof {
                let grown = values.push(value);
                assert(grown.drop_last() =~= values);
                assert forall|j: int|
                    0 <= j < next.len() && is_shown(next[j], network, now) implies call_ensures(
                    metric,
                    (&next[j],),
                    #[trigger] grown[j],
                ) by {
                    if j < i {
                        assert(done[j] == next[j]);
                        assert(grown[j] == values[j]);
                    }
                }
                values = grown;
            }
            i = i + 1;
        }
        assert(points.take(i as int) =~= points);
        assert(are_values(metric, self@.points, values, network, now));
        proof {
            let places = lemma_places(points, values, network, now);
            assert forall|i: int|
                0 <= i < self@.points.len() && now.nanos <= (if network {
                    (#[trigger] self@.points[i]).network_at.nanos
                } else {
                    self@.points[i].at.nanos
                }) + 60_000_000_000 implies exists|k: int, v: Option<Double>|
                {
                    &&& 0 <= k < result@.len()
                    &&& #[trigger] call_ensures(metric, (&self@.points[i],), v)
                    &&& (#[trigger] result@[k]) is Some <==> v is Some
                    &&& v is Some ==> (result@[k]->0).1 == narrowed(v->0)
                } by {
                assert(is_shown(points[i], network, now));
                assert(call_ensures(metric, (&self@.points[i],), values[i]));
                let k = places[i];
                assert(result@[k] == placed(
                    values[i],
                    elapsed(now, time_of(points[i], network)),
                ));
            }
        }
        result
    }
}

/// Whether the points stand in the order of their times and are no more than are kept.
pub open spec fn well_ordered(points: Seq<Reading>) -> bool {
    points.len() <= MAX_POINTS && forall|i: int, j: int|
        0 <= i < j < points.len() ==> (#[trigger] points[i]).at.nanos < (#[trigger] points[j]).at.nanos
}

/// What is left after dropping old points is the end of what was there.
proof fn lemma_pruned(points: Seq<Reading>, now: Moment)
    ensures
        pruned(points, now).len() <= points.len(),
        pruned(points, now) == points.skip(points.len() - pruned(points, now).len()),
        pruned(points, now).len() <= MAX_POINTS,
        pruned(points, now).len() > 0 ==> elapsed(now, pruned(points, now)[0].at) <= HISTORY_SPAN,
    decreases points.len(),
{
    if points.len() > 0 && (elapsed(now, points[0].at) > HISTORY_SPAN || points.len()
        > MAX_POINTS) {
        lemma_pruned(points.skip(1), now);
        let left = pruned(points, now);
        assert(points.skip(1).skip(points.len() - 1 - left.len()) =~= points.skip(
            points.len() - left.len(),
        ));
    } else {
        assert(points.skip(0) =~= points);
    }
}

/// However samples come, the points stay in order and bounded, and after a
/// sample is taken none is older than the span.
pub proof fn samples_keep_the_points_in_order(h: HistoryState, s: Sample)
    requires
        well_ordered(h.points),
    ensures
        well_ordered(pushed(h, s).points),
        !is_late(h.points, s.taken_at) ==> {
            &&& pushed(h, s).points.len() > 0
            &&& pushed(h, s).points.last() == point_of(s)
            &&& forall|i: int|
                0 <= i < pushed(h, s).points.len() ==> elapsed(
                    s.taken_at,
                    (#[trigger] pushed(h, s).points[i]).at,
                ) <= HISTORY_SPAN
        },
{
    if !is_late(h.points, s.taken_at) {
        let all = h.points.push(point_of(s));
        let left = pushed(h, s).points;
        lemma_pruned(all, s.taken_at);
        lemma_last_stays(all, s.taken_at);
        assert(forall|i: int, j: int|
            0 <= i < j < all.len() ==> (#[trigger] all[i]).at.nanos < (#[trigger] all[j]).at.nanos);
        assert(forall|i: int|
            0 <= i < left.len() ==> #[trigger] left[i] == all[i + all.len() - left.len()]);
        assert forall|i: int| 0 <= i < left.len() implies elapsed(
            s.taken_at,
            (#[trigger] left[i]).at,
        ) <= HISTORY_SPAN by {
            if i > 0 {
                assert(left[0].at.nanos < left[i].at.nanos);
            }
        }
    }
}

/// A point of the present time is not dropped.
proof fn lemma_last_stays(points: Seq<Reading>, now: Moment)
    requires
        points.len() > 0,
        points.last().at == now,
    ensures
        pruned(points, now).len() > 0,
        pruned(points, now).last() == points.last(),
    decreases points.len(),
{
    if elapsed(now, points[0].at) > HISTORY_SPAN || points.len() > MAX_POINTS {
        lemma_last_stays(points.skip(1), now);
    }
}

/// A sample that is no newer than the last one changes nothing.
pub proof fn late_samples_change_nothing(h: HistoryState, s: Sample)
    requires
        is_late(h.points, s.taken_at),
    ensures
        pushed(h, s) == h,
{
}

/// Dropping old points again at the same time drops nothing more, and what is
/// left is in order if it was.
pub proof fn pruning_again_changes_nothing(points: Seq<Reading>, now: Moment)
    ensures
        pruned(pruned(points, now), now) == pruned(points, now),
        well_ordered(points) ==> well_ordered(pruned(points, now)),
    decreases points.len(),
{
    lemma_pruned(points, now);
    if points.len() > 0 && (elapsed(now, points[0].at) > HISTORY_SPAN || points.len()
        > MAX_POINTS) {
        pruning_again_changes_nothing(points.skip(1), now);
    }
    let left = pruned(points, now);
    assert(forall|i: int|
        0 <= i < left.len() ==> #[trigger] left[i] == points[i + points.len() - left.len()]);
}

/// After a minute and more without samples, dropping old points leaves none.
pub proof fn old_points_expire(points: Seq<Reading>, now: Moment)
    requires
        forall|i: int|
            0 <= i < points.len() ==> elapsed(now, (#[trigger] points[i]).at) > HISTORY_SPAN,
    ensures
        pruned(points, now).len() == 0,
    decreases points.len(),
{
    if points.len() > 0 {
        assert forall|i: int| 0 <= i < points.skip(1).len() implies elapsed(
            now,
            (#[trigger] points.skip(1)[i]).at,
        ) > HISTORY_SPAN by {
            assert(points.skip(1)[i] == points[i + 1]);
        }
        old_points_expire(points.skip(1), now);
    }
}

/// Every reading stands for itself: what a sample says of one thing, a failure
/// to read it included, changes nothing of what is shown of another.
pub proof fn readings_stand_alone(h: HistoryState, s: Sample, other: Sample)
    requires
        other.taken_at == s.taken_at,
    ensures
        s.cpu == other.cpu ==> pushed(h, s).cpu == pushed(h, other).cpu,
        s.cpu_mhz == other.cpu_mhz ==> pushed(h, s).cpu_mhz == pushed(h, other).cpu_mhz,
        s.memory == other.memory ==> pushed(h, s).memory == pushed(h, other).memory,
        s.network == other.network ==> pushed(h, s).network_status == pushed(
            h,
            other,
        ).network_status,
        s.battery == other.battery ==> {
            &&& pushed(h, s).battery_at == pushed(h, other).battery_at
            &&& pushed(h, s).battery_label == pushed(h, other).battery_label
            &&& pushed(h, s).battery_detail == pushed(h, other).battery_detail
        },
        s.nvme == other.nvme ==> {
            &&& pushed(h, s).nvme_at == pushed(h, other).nvme_at
            &&& pushed(h, s).nvme_label == pushed(h, other).nvme_label
            &&& pushed(h, s).nvme_detail == pushed(h, other).nvme_detail
        },
        s.pdh == other.pdh ==> {
            &&& pushed(h, s).pdh_at == pushed(h, other).pdh_at
            &&& pushed(h, s).disk_label == pushed(h, other).disk_label
            &&& pushed(h, s).gpu_label == pushed(h, other).gpu_label
        },
{
}

/// The same of the curves: what a sample says of one thing leaves the curves of the others as they are.
pub proof fn curves_stand_alone(h: HistoryState, s: Sample, other: Sample, i: int)
    requires
        other.taken_at == s.taken_at,
        0 <= i < pushed(h, s).points.len(),
    ensures
        pushed(h, s).points.len() == pushed(h, other).points.len(),
        pushed(h, s).points[i].at == pushed(h, other).points[i].at,
        s.cpu == other.cpu ==> pushed(h, s).points[i].cpu == pushed(h, other).points[i].cpu,
        s.memory == other.memory ==> pushed(h, s).points[i].ram == pushed(h, other).points[i].ram,
        s.network_at == other.network_at ==> pushed(h, s).points[i].network_at == pushed(
            h,
            other,
        ).points[i].network_at,
        s.network == other.network ==> pushed(h, s).points[i].download == pushed(
            h,
            other,
        ).points[i].download && pushed(h, s).points[i].upload == pushed(h, other).points[i].upload,
{
    if !is_late(h.points, s.taken_at) {
        let a = h.points.push(point_of(s));
        let b = h.points.push(point_of(other));
        assert(pushed(h, s).points == pruned(a, s.taken_at));
        assert(pushed(h, other).points == pruned(b, s.taken_at));
        lemma_pruned_alike(a, b, s.taken_at);
        lemma_pruned(a, s.taken_at);
        lemma_pruned(b, s.taken_at);
    }
}

/// Whether a sample's slow reading takes the place of an earlier one: it is
/// newer, or the very same.
pub open spec fn takes_over<T>(earlier: Option<(Moment, T)>, later: Option<(Moment, T)>) -> bool {
    match (earlier, later) {
        (Some(a), Some(b)) => a == b || b.0.nanos > a.0.nanos,
        (Some(_), None) => false,
        (None, _) => true,
    }
}

/// Merging two samples in the mailbox loses no slow reading: without the first
/// one, the second one leads to the same times, labels and details.
pub proof fn merging_loses_no_slow_reading(h: HistoryState, first: Sample, second: Sample)
    requires
        !is_late(h.points, first.taken_at),
        !is_late(pushed(h, first).points, second.taken_at),
    ensures
        takes_over(first.battery, second.battery) ==> {
            &&& pushed(pushed(h, first), second).battery_at == pushed(h, second).battery_at
            &&& pushed(pushed(h, first), second).battery_label == pushed(h, second).battery_label
            &&& pushed(pushed(h, first), second).battery_detail == pushed(h, second).battery_detail
        },
        takes_over(first.nvme, second.nvme) ==> {
            &&& pushed(pushed(h, first), second).nvme_at == pushed(h, second).nvme_at
            &&& pushed(pushed(h, first), second).nvme_label == pushed(h, second).nvme_label
            &&& pushed(pushed(h, first), second).nvme_detail == pushed(h, second).nvme_detail
        },
{
    lemma_last_stays(h.points.push(point_of(first)), first.taken_at);
    assert(pushed(h, first).points.last().at == first.taken_at);
    assert(!is_late(h.points, second.taken_at));
}

/// Samples of a run can be merged: a later one takes over the slow readings of an earlier one.
pub proof fn later_samples_take_over(
    start: CollectorState,
    rounds: Seq<Round>,
    i: int,
    j: int,
)
    requires
        is_run(start, rounds),
        0 <= i <= j < rounds.len(),
    ensures
        takes_over(sample_at(start, rounds, i).battery, sample_at(start, rounds, j).battery),
        takes_over(sample_at(start, rounds, i).nvme, sample_at(start, rounds, j).nvme),
{
    slow_readings_of_a_run_are_spaced(start, rounds, i, j);
}

/// Points of the same times are dropped alike.
proof fn lemma_pruned_alike(a: Seq<Reading>, b: Seq<Reading>, now: Moment)
    requires
        a.len() == b.len(),
        forall|i: int| 0 <= i < a.len() ==> (#[trigger] a[i]).at == (#[trigger] b[i]).at,
    ensures
        pruned(a, now).len() == pruned(b, now).len(),
    decreases a.len(),
{
    if a.len() > 0 {
        assert(a[0].at == b[0].at);
        assert forall|i: int| 0 <= i < a.skip(1).len() implies (#[trigger] a.skip(1)[i]).at == (
        #[trigger] b.skip(1)[i]).at by {
            assert(a[i + 1].at == b[i + 1].at);
        }
        lemma_pruned_alike(a.skip(1), b.skip(1), now);
    }
}

/// A missing value is a gap of its own curve, and two neighbours that are too
/// far apart are not joined.
pub proof fn gaps_break_the_curve(
    points: Seq<Reading>,
    values: Seq<Option<Double>>,
    network: bool,
    now: Moment,
)
    requires
        points.len() > 0,
        values.len() == points.len(),
        is_shown(points.last(), network, now),
    ensures
        curve(points, values, network, now).len() > 0,
        values.last() is None <==> curve(points, values, network, now).last() is None,
        is_broken(
            last_shown(points.drop_last(), network, now),
            time_of(points.last(), network),
        ) ==> curve(points, values, network, now).len() > 1 && curve(
            points,
            values,
            network,
            now,
        )[curve(points, values, network, now).len() - 2] is None,
{
}

/// A span in seconds is the count of nanoseconds over a billion, but for rounding.
proof fn lemma_short_seconds_close(nanos: u64)
    requires
        nanos <= HISTORY_SPAN,
    ensures
        ({
            let span = steps(short_seconds(nanos).magnitude(), single::LEAD as nat);
            let u = pow2(149);
            &&& -(65 * (1_000_000_000 * u)) <= (2 * single::LEAD) * (span * 1_000_000_000 - nanos
                * u) <= 65 * (1_000_000_000 * u)
            &&& span <= 60 * u
        }),
        short_seconds(HISTORY_SPAN) == single::whole(60),
{
    let g: nat = 1_000_000_000;
    let u = pow2(149);
    let l = single::LEAD as nat;
    let e = (2 * l) as int;
    let s = (nanos / SECOND) as nat;
    let n = (nanos % SECOND) as nat;
    let x = single::over(single::whole(n), single::whole(g));
    let q = steps(x.magnitude(), l);
    let span = steps(short_seconds(nanos).magnitude(), l);
    lemma_short_seconds_ordered(nanos, HISTORY_SPAN);
    positions_follow_time(0, HISTORY_SPAN);
    lemma_fraction(HISTORY_SPAN);
    single::lemma_whole(0);
    single::lemma_whole(60);
    rounding_keeps_numbers(single::whole(60).magnitude(), l, single::TOP as nat);
    single::lemma_whole(s);
    single::lemma_exact(s);
    single::lemma_exact(60);
    single::lemma_share_close(n, g);
    lemma_fraction(nanos);
    lemma_pow2_pos(149);
    lemma_steps_monotone(short_seconds(nanos).magnitude(), single::whole(60).magnitude(), l);
    let p = s * u + q;
    crate::magnitude::rounding_is_close(p, 1, l, single::TOP as nat);
    let f = span - p;
    assert(-p <= e * f <= p) by {
        if p >= l {
            double::lemma_abs(e, f, p as int);
        } else {
            assert(f == 0);
            assert(e * 0 == 0);
        }
    }
    assert(s * u <= 60 * u) by (nonlinear_arith)
        requires s <= 60, u > 0,
    ;
    let d = q * g - n * u;
    let h = span * g - nanos * u;
    assert(h == f * g + d) by (nonlinear_arith)
        requires
            h == span * g - nanos * u,
            f == span - (s * u + q),
            d == q * g - n * u,
            nanos == s * g + n,
    ;
    assert(e * h == (e * f) * g + e * d) by (nonlinear_arith)
        requires h == f * g + d,
    ;
}

/// A point of the age `age` stands that much left of the right edge: of a minute
/// of width, the position times a minute is what `age` leaves of the minute, but
/// for less than its `2^-22`th part. Positions are counted in units of `2^-149`.
pub proof fn positions_are_what_age_leaves_of_a_minute(age: u64)
    requires
        age <= 60_000_000_000,
    ensures
        pow2(22) * abs(
            position(age).value() * 60_000_000_000 - (60_000_000_000 - age) * pow2(149),
        ) <= 60_000_000_000 * pow2(149),
        0 <= position(age).value() <= pow2(149),
{
    let g: nat = 1_000_000_000;
    let u = pow2(149);
    let l = single::LEAD as nat;
    let e = (2 * l) as int;
    let span = steps(short_seconds(age).magnitude(), l);
    let share = single::over(short_seconds(age), short_seconds(HISTORY_SPAN));
    let x = steps(share.magnitude(), l);
    let r = steps(position(age).magnitude(), l);
    lemma_short_seconds_close(age);
    positions_follow_time(age, age);
    single::lemma_whole(1);
    single::lemma_whole(60);
    single::lemma_exact(60);
    single::lemma_exact(1);
    single::lemma_whole_close(1);
    single::lemma_power(0);
    lemma_pow2_pos(149);
    vstd::arithmetic::power2::lemma2_to64();
    vstd::arithmetic::power2::lemma2_to64_rest();
    lemma_steps_monotone(share.magnitude(), single::ONE as nat, l);
    lemma_steps_monotone(position(age).magnitude(), single::ONE as nat, l);
    // The share of a minute.
    crate::magnitude::rounding_is_close(span * u, 60 * u, l, single::TOP as nat);
    let c = x * 60 - span;
    assert(x * (60 * u) - span * u == c * u) by (nonlinear_arith)
        requires c == x * 60 - span,
    ;
    assert(-(60 * u) <= e * c <= 60 * u) by {
        if span * u >= l * (60 * u) {
            double::lemma_abs(e, c * u, (span * u) as int);
            assert(-(span as int) <= e * c <= span) by (nonlinear_arith)
                requires -(span * u) <= e * (c * u) <= span * u, u > 0,
            ;
        } else {
            assert(2 * abs(c * u) <= 60 * u);
            assert(-30 <= c <= 30) by (nonlinear_arith)
                requires -(60 * u) <= 2 * (c * u) <= 60 * u, u > 0,
            ;
            assert(e == 0x100_0000);
            assert(u >= e);
            assert(-(30 * e) <= e * c <= 30 * e) by (nonlinear_arith)
                requires -30 <= c <= 30, e > 0,
            ;
        }
    }
    // What it leaves.
    let rest = (u - x) as nat;
    crate::magnitude::rounding_is_close(rest, 1, l, single::TOP as nat);
    let f = r - rest;
    assert(-u <= e * f <= u) by {
        if rest >= l {
            double::lemma_abs(e, f, rest as int);
        } else {
            assert(f == 0);
            assert(e * 0 == 0);
        }
    }
    let h = span * g - age * u;
    let d = r * (60 * g) - (60 * g - age) * u;
    assert(d == f * (60 * g) - c * g - h) by (nonlinear_arith)
        requires
            d == r * (60 * g) - (60 * g - age) * u,
            f == r - (u - x),
            c == x * 60 - span,
            h == span * g - age * u,
    ;
    assert(e * d == 60_000_000_000 * (e * f) - 1_000_000_000 * (e * c) - e * h) by (nonlinear_arith)
        requires d == f * 60_000_000_000 - c * 1_000_000_000 - h,
    ;
    assert(-(240 * (g * u)) <= e * d <= 240 * (g * u));
    assert(e * d == 4 * (pow2(22) * d)) by (nonlinear_arith)
        requires e == 4 * pow2(22),
    ;
    assert(pow2(22) * (-d) == -(pow2(22) * d)) by (nonlinear_arith);
    assert(position(age).value() == r);
}

/// Where the last point that is shown stands.
proof fn lemma_last_shown(points: Seq<Reading>, network: bool, now: Moment) -> (i: int)
    ensures
        match last_shown(points, network, now) {
            Some(moment) => {
                &&& 0 <= i < points.len()
                &&& is_shown(points[i], network, now)
                &&& time_of(points[i], network) == moment
                &&& forall|m: int|
                    i < m < points.len() ==> !is_shown(#[trigger] points[m], network, now)
            },
            None => forall|m: int|
                0 <= m < points.len() ==> !is_shown(#[trigger] points[m], network, now),
        },
    decreases points.len(),
{
    if points.len() == 0 || is_shown(points.last(), network, now) {
        points.len() - 1
    } else {
        let before = points.drop_last();
        let i = lemma_last_shown(before, network, now);
        assert forall|m: int|
            (last_shown(points, network, now) is None || i < m) && 0 <= m
                < points.len() implies !is_shown(#[trigger] points[m], network, now) by {
            if m < points.len() - 1 {
                assert(before[m] == points[m]);
            }
        }
        if last_shown(points, network, now) is Some {
            assert(before[i] == points[i]);
        }
        i
    }
}

/// Whether no point strictly between two positions is shown.
spec fn none_shown(points: Seq<Reading>, i: int, j: int, network: bool, now: Moment) -> bool {
    forall|m: int|
        i < m < j && 0 <= m < points.len() ==> !is_shown(#[trigger] points[m], network, now)
}

/// Whether the points stand in the curve at the given places.
spec fn stand_at(
    points: Seq<Reading>,
    values: Seq<Option<Double>>,
    network: bool,
    now: Moment,
    at: Seq<int>,
) -> bool {
    let c = curve(points, values, network, now);
    let n = points.len() as int;
    &&& at.len() == n
    &&& forall|i: int|
        0 <= i < n && is_shown(points[i], network, now) ==> 0 <= #[trigger] at[i] < c.len()
            && c[at[i]] == placed(values[i], elapsed(now, time_of(points[i], network)))
    &&& forall|i: int, j: int|
        0 <= i < j < n && is_shown(points[i], network, now) && is_shown(points[j], network, now)
            ==> #[trigger] at[i] < #[trigger] at[j]
    &&& forall|i: int, j: int|
        0 <= i < j < n && is_shown(points[i], network, now) && is_shown(points[j], network, now)
            && none_shown(points, i, j, network, now) ==> (#[trigger] at[j]) - (#[trigger] at[i])
            == (if is_broken(Some(time_of(points[i], network)), time_of(points[j], network)) {
            2int
        } else {
            1int
        })
    &&& forall|k: int|
        0 <= k < c.len() && (#[trigger] c[k]) is Some ==> exists|i: int|
            0 <= i < n && is_shown(points[i], network, now) && #[trigger] at[i] == k
    &&& forall|i: int|
        0 <= i < n && is_shown(points[i], network, now) && none_shown(points, i, n, network, now)
            ==> #[trigger] at[i] == c.len() - 1
    &&& forall|i: int|
        0 <= i < n && is_shown(points[i], network, now) && none_shown(points, -1, i, network, now)
            ==> #[trigger] at[i] == 0
    &&& none_shown(points, -1, n, network, now) ==> c.len() == 0
}

/// What is shown of some points is shown of them with one more behind.
proof fn lemma_none_shown(points: Seq<Reading>, i: int, j: int, network: bool, now: Moment)
    requires
        points.len() > 0,
        j < points.len(),
    ensures
        none_shown(points, i, j, network, now) == none_shown(
            points.drop_last(),
            i,
            j,
            network,
            now,
        ),
        !is_shown(points.last(), network, now) ==> none_shown(
            points,
            i,
            points.len() as int,
            network,
            now,
        ) == none_shown(points.drop_last(), i, points.len() - 1, network, now),
{
    let before = points.drop_last();
    assert forall|m: int| 0 <= m < before.len() implies #[trigger] before[m] == points[m] by {}
    if none_shown(points, i, j, network, now) {
        assert forall|m: int| i < m < j && 0 <= m < before.len() implies !is_shown(
            #[trigger] before[m],
            network,
            now,
        ) by {
            assert(points[m] == before[m]);
        }
    }
    if none_shown(before, i, j, network, now) {
        assert forall|m: int| i < m < j && 0 <= m < points.len() implies !is_shown(
            #[trigger] points[m],
            network,
            now,
        ) by {
            assert(points[m] == before[m]);
        }
    }
    if !is_shown(points.last(), network, now) {
        let n = points.len() as int;
        if none_shown(points, i, n, network, now) {
            assert forall|m: int| i < m < n - 1 && 0 <= m < before.len() implies !is_shown(
                #[trigger] before[m],
                network,
                now,
            ) by {
                assert(points[m] == before[m]);
            }
        }
        if none_shown(before, i, n - 1, network, now) {
            assert forall|m: int| i < m < n && 0 <= m < points.len() implies !is_shown(
                #[trigger] points[m],
                network,
                now,
            ) by {
                if m < n - 1 {
                    assert(points[m] == before[m]);
                }
            }
        }
    }
}

/// Where the points stand in the curve.
proof fn lemma_places(
    points: Seq<Reading>,
    values: Seq<Option<Double>>,
    network: bool,
    now: Moment,
) -> (at: Seq<int>)
    requires
        values.len() == points.len(),
    ensures
        stand_at(points, values, network, now, at),
    decreases points.len(),
{
    if points.len() == 0 {
        seq![]
    } else {
        let n = points.len() - 1;
        let before = points.drop_last();
        let prior = lemma_places(before, values.drop_last(), network, now);
        let c = curve(points, values, network, now);
        let at = prior.push(c.len() - 1);
        assert(forall|i: int| 0 <= i < n ==> #[trigger] points[i] == before[i]);
        assert(forall|i: int| 0 <= i < n ==> #[trigger] at[i] == prior[i]);
        if is_shown(points.last(), network, now) {
            lemma_place_shown(points, values, network, now, prior);
        } else {
            lemma_place_hidden(points, values, network, now, prior);
        }
        at
    }
}

/// A point that is not shown leaves the curve as it is.
proof fn lemma_place_hidden(
    points: Seq<Reading>,
    values: Seq<Option<Double>>,
    network: bool,
    now: Moment,
    prior: Seq<int>,
)
    requires
        points.len() > 0,
        values.len() == points.len(),
        stand_at(points.drop_last(), values.drop_last(), network, now, prior),
        !is_shown(points.last(), network, now),
    ensures
        stand_at(
            points,
            values,
            network,
            now,
            prior.push(curve(points, values, network, now).len() - 1),
        ),
{
    let n = points.len() - 1;
    let before = points.drop_last();
    let less = values.drop_last();
    let c = curve(points, values, network, now);
    let at = prior.push(c.len() - 1);
    assert(c == curve(before, less, network, now));
    assert(forall|i: int| 0 <= i < n ==> #[trigger] points[i] == before[i]);
    assert(forall|i: int| 0 <= i < n ==> #[trigger] values[i] == less[i]);
    assert(forall|i: int| 0 <= i < n ==> #[trigger] at[i] == prior[i]);
    assert forall|i: int, j: int|
        0 <= i < j < n + 1 && is_shown(points[i], network, now) && is_shown(points[j], network, now)
            && none_shown(points, i, j, network, now) implies (#[trigger] at[j]) - (
    #[trigger] at[i]) == (if is_broken(
        Some(time_of(points[i], network)),
        time_of(points[j], network),
    ) {
        2int
    } else {
        1int
    }) by {
        lemma_none_shown(points, i, j, network, now);
    }
    assert forall|k: int| 0 <= k < c.len() && (#[trigger] c[k]) is Some implies exists|i: int|
        0 <= i < n + 1 && is_shown(points[i], network, now) && #[trigger] at[i] == k by {
        let i = choose|i: int|
            0 <= i < n && is_shown(before[i], network, now) && #[trigger] prior[i] == k;
        assert(at[i] == k);
    }
    assert forall|i: int|
        0 <= i < n + 1 && is_shown(points[i], network, now) && none_shown(
            points,
            i,
            n + 1,
            network,
            now,
        ) implies #[trigger] at[i] == c.len() - 1 by {
        lemma_none_shown(points, i, i, network, now);
    }
    assert forall|i: int|
        0 <= i < n + 1 && is_shown(points[i], network, now) && none_shown(
            points,
            -1,
            i,
            network,
            now,
        ) implies #[trigger] at[i] == 0 by {
        lemma_none_shown(points, -1, i, network, now);
    }
    lemma_none_shown(points, -1, 0, network, now);
}

/// A point that is shown ends the curve.
proof fn lemma_place_shown(
    points: Seq<Reading>,
    values: Seq<Option<Double>>,
    network: bool,
    now: Moment,
    prior: Seq<int>,
)
    requires
        points.len() > 0,
        values.len() == points.len(),
        stand_at(points.drop_last(), values.drop_last(), network, now, prior),
        is_shown(points.last(), network, now),
    ensures
        stand_at(
            points,
            values,
            network,
            now,
            prior.push(curve(points, values, network, now).len() - 1),
        ),
{
    let n = points.len() - 1;
    let before = points.drop_last();
    let less = values.drop_last();
    let old_curve = curve(before, less, network, now);
    let c = curve(points, values, network, now);
    let at = prior.push(c.len() - 1);
    let l = lemma_last_shown(before, network, now);
    let last = last_shown(before, network, now);
    assert(forall|i: int| 0 <= i < n ==> #[trigger] points[i] == before[i]);
    assert(forall|i: int| 0 <= i < n ==> #[trigger] values[i] == less[i]);
    assert(forall|i: int| 0 <= i < n ==> #[trigger] at[i] == prior[i]);
    assert(forall|k: int| 0 <= k < old_curve.len() ==> #[trigger] c[k] == old_curve[k]);
    assert(is_shown(points[n], network, now));
    assert(c.last() == placed(values[n], elapsed(now, time_of(points[n], network))));
    // The neighbour before it.
    if last is Some {
        assert(none_shown(before, l, n, network, now));
        assert(prior[l] == old_curve.len() - 1);
    } else {
        assert(none_shown(before, -1, n, network, now));
        assert(old_curve.len() == 0);
    }
    assert forall|i: int, j: int|
        0 <= i < j < n + 1 && is_shown(points[i], network, now) && is_shown(points[j], network, now)
            && none_shown(points, i, j, network, now) implies (#[trigger] at[j]) - (
    #[trigger] at[i]) == (if is_broken(
        Some(time_of(points[i], network)),
        time_of(points[j], network),
    ) {
        2int
    } else {
        1int
    }) by {
        lemma_none_shown(points, i, j, network, now);
        if j == n {
            assert(is_shown(before[i], network, now));
            assert(last is Some);
            if i < l {
                assert(is_shown(points[l], network, now));
            }
            assert(i == l);
        }
    }
    assert forall|k: int| 0 <= k < c.len() && (#[trigger] c[k]) is Some implies exists|i: int|
        0 <= i < n + 1 && is_shown(points[i], network, now) && #[trigger] at[i] == k by {
        if k < old_curve.len() {
            assert(old_curve[k] is Some);
            let i = choose|i: int|
                0 <= i < n && is_shown(before[i], network, now) && #[trigger] prior[i] == k;
            assert(at[i] == k);
        } else {
            assert(k == c.len() - 1);
            assert(at[n] == k);
        }
    }
    assert forall|i: int|
        0 <= i < n + 1 && is_shown(points[i], network, now) && none_shown(
            points,
            i,
            n + 1,
            network,
            now,
        ) implies #[trigger] at[i] == c.len() - 1 by {
        if i < n {
            assert(!is_shown(points[n], network, now));
        }
    }
    assert forall|i: int|
        0 <= i < n + 1 && is_shown(points[i], network, now) && none_shown(
            points,
            -1,
            i,
            network,
            now,
        ) implies #[trigger] at[i] == 0 by {
        lemma_none_shown(points, -1, i, network, now);
        if i == n {
            if last is Some {
                assert(is_shown(points[l], network, now));
            }
        }
    }
}

/// A curve is made of the points that are at most a minute old, in their order:
/// each stands at a place of its own, a value as a point and a missing value as
/// a gap. Neighbours stand side by side, but for one more gap between those whose
/// times are more than two and a half seconds apart. Nothing else is in the
/// curve. The times of a network curve are those of the network readings.
pub proof fn curves_are_the_shown_points_in_order(
    points: Seq<Reading>,
    values: Seq<Option<Double>>,
    network: bool,
    now: Moment,
    times: Seq<u64>,
) -> (at: Seq<int>)
    requires
        values.len() == points.len(),
        times.len() == points.len(),
        forall|i: int|
            0 <= i < points.len() ==> #[trigger] times[i] == if network {
                points[i].network_at.nanos
            } else {
                points[i].at.nanos
            },
    ensures
        at.len() == points.len(),
        forall|i: int|
            0 <= i < points.len() && now.nanos <= times[i] + 60_000_000_000 ==> 0
                <= #[trigger] at[i] < curve(points, values, network, now).len() && (curve(
                points,
                values,
                network,
                now,
            )[at[i]] is Some <==> values[i] is Some),
        forall|i: int, j: int|
            0 <= i < j < points.len() && now.nanos <= times[i] + 60_000_000_000 && now.nanos
                <= times[j] + 60_000_000_000 ==> #[trigger] at[i] < #[trigger] at[j],
        forall|i: int, j: int|
            0 <= i < j < points.len() && now.nanos <= times[i] + 60_000_000_000 && now.nanos
                <= times[j] + 60_000_000_000 && (forall|m: int|
                i < m < j ==> now.nanos > #[trigger] times[m] + 60_000_000_000) ==> (
            #[trigger] at[j]) - (#[trigger] at[i]) == (if times[j] > times[i] + 2_500_000_000 {
                2int
            } else {
                1int
            }),
        forall|k: int|
            0 <= k < curve(points, values, network, now).len() && (#[trigger] curve(
                points,
                values,
                network,
                now,
            )[k]) is Some ==> exists|i: int|
                0 <= i < points.len() && now.nanos <= times[i] + 60_000_000_000 && #[trigger] at[i]
                    == k,
        forall|i: int|
            0 <= i < points.len() && now.nanos <= times[i] + 60_000_000_000 && (forall|m: int|
                i < m < points.len() ==> now.nanos > #[trigger] times[m] + 60_000_000_000)
                ==> #[trigger] at[i] == curve(points, values, network, now).len() - 1,
        forall|i: int|
            0 <= i < points.len() && now.nanos <= times[i] + 60_000_000_000 && (forall|m: int|
                0 <= m < i ==> now.nanos > #[trigger] times[m] + 60_000_000_000)
                ==> #[trigger] at[i] == 0,
        (forall|m: int|
            0 <= m < points.len() ==> now.nanos > #[trigger] times[m] + 60_000_000_000) ==> curve(
            points,
            values,
            network,
            now,
        ).len() == 0,
{
    let at = lemma_places(points, values, network, now);
    let c = curve(points, values, network, now);
    let n = points.len() as int;
    assert forall|i: int| 0 <= i < n implies is_shown(#[trigger] points[i], network, now) == (
    now.nanos <= times[i] + 60_000_000_000) by {}
    assert forall|i: int, j: int|
        0 <= i < j < points.len() && now.nanos <= times[i] + 60_000_000_000 && now.nanos <= times[j]
            + 60_000_000_000 && (forall|m: int|
            i < m < j ==> now.nanos > #[trigger] times[m] + 60_000_000_000) implies (
    #[trigger] at[j]) - (#[trigger] at[i]) == (if times[j] > times[i] + 2_500_000_000 {
        2int
    } else {
        1int
    }) by {
        lemma_none(points, i, j, network, now, times);
        assert(is_shown(points[i], network, now) && is_shown(points[j], network, now));
    }
    assert forall|i: int|
        0 <= i < points.len() && now.nanos <= times[i] + 60_000_000_000 && (forall|m: int|
            i < m < points.len() ==> now.nanos > #[trigger] times[m]
                + 60_000_000_000) implies #[trigger] at[i] == c.len() - 1 by {
        lemma_none(points, i, n, network, now, times);
        assert(is_shown(points[i], network, now));
    }
    assert forall|i: int|
        0 <= i < points.len() && now.nanos <= times[i] + 60_000_000_000 && (forall|m: int|
            0 <= m < i ==> now.nanos > #[trigger] times[m] + 60_000_000_000) implies #[trigger] at[i]
        == 0 by {
        lemma_none(points, -1, i, network, now, times);
        assert(is_shown(points[i], network, now));
    }
    if forall|m: int| 0 <= m < points.len() ==> now.nanos > #[trigger] times[m] + 60_000_000_000 {
        lemma_none(points, -1, n, network, now, times);
    }
    at
}

/// Points that are too old are not shown.
proof fn lemma_none(
    points: Seq<Reading>,
    i: int,
    j: int,
    network: bool,
    now: Moment,
    times: Seq<u64>,
)
    requires
        times.len() == points.len(),
        -1 <= i,
        j <= points.len(),
        forall|m: int|
            0 <= m < points.len() ==> #[trigger] times[m] == if network {
                points[m].network_at.nanos
            } else {
                points[m].at.nanos
            },
        forall|m: int| i < m < j ==> now.nanos > #[trigger] times[m] + 60_000_000_000,
    ensures
        none_shown(points, i, j, network, now),
{
    assert forall|m: int| i < m < j && 0 <= m < points.len() implies !is_shown(
        #[trigger] points[m],
        network,
        now,
    ) by {
        assert(now.nanos > times[m] + 60_000_000_000);
    }
}

/// Every value of a point that is at most a minute old is drawn: the curve holds
/// a point whose first coordinate is what the age leaves of a minute, but for
/// less than its `2^-22`th part, and whose second one is the nearest number of
/// single precision, so that a value which is one stays as it is.
pub proof fn every_shown_value_is_drawn(
    points: Seq<Reading>,
    values: Seq<Option<Double>>,
    network: bool,
    now: Moment,
    i: int,
    value: Double,
    z: Single,
) -> (k: int)
    requires
        values.len() == points.len(),
        0 <= i < points.len(),
        now.nanos <= (if network {
            points[i].network_at.nanos
        } else {
            points[i].at.nanos
        }) + 60_000_000_000,
        values[i] == Some(value),
        value.is_finite(),
        z.is_finite(),
    ensures
        0 <= k < curve(points, values, network, now).len(),
        curve(points, values, network, now)[k] is Some,
        ({
            let at = if network {
                points[i].network_at.nanos
            } else {
                points[i].at.nanos
            };
            let left = if now.nanos <= at {
                60_000_000_000
            } else {
                60_000_000_000 - (now.nanos - at)
            };
            let x = (curve(points, values, network, now)[k]->0).0;
            pow2(22) * abs(x.value() * 60_000_000_000 - left * pow2(149)) <= 60_000_000_000 * pow2(
                149,
            )
        }),
        ({
            let y = (curve(points, values, network, now)[k]->0).1;
            &&& y.negative() == value.negative()
            &&& y.is_finite() ==> abs(y.value() * pow2(925) - value.value()) <= abs(
                z.value() * pow2(925) - value.value(),
            )
            &&& !y.is_finite() ==> !y.is_nan() && abs(value.value()) > abs(z.value() * pow2(925))
            &&& value.value() == z.value() * pow2(925) ==> y.is_finite() && y.value() == z.value()
        }),
{
    let at = lemma_places(points, values, network, now);
    assert(is_shown(points[i], network, now));
    single::narrowing_is_to_nearest(value, z);
    single::narrowing_keeps_order_and_numbers(value, value, z);
    positions_are_what_age_leaves_of_a_minute(elapsed(now, time_of(points[i], network)));
    at[i]
}

/// A larger value is never drawn lower than a smaller one, wherever they stand
/// in a curve, and the later of two points is drawn behind the earlier one.
pub proof fn larger_values_are_never_drawn_lower(
    points: Seq<Reading>,
    values: Seq<Option<Double>>,
    network: bool,
    now: Moment,
    i: int,
    j: int,
    low: Double,
    high: Double,
) -> (places: (int, int))
    requires
        values.len() == points.len(),
        0 <= i < points.len(),
        0 <= j < points.len(),
        now.nanos <= (if network {
            points[i].network_at.nanos
        } else {
            points[i].at.nanos
        }) + 60_000_000_000,
        now.nanos <= (if network {
            points[j].network_at.nanos
        } else {
            points[j].at.nanos
        }) + 60_000_000_000,
        values[i] == Some(low),
        values[j] == Some(high),
        low.is_finite(),
        high.is_finite(),
        low.value() <= high.value(),
    ensures
        0 <= places.0 < curve(points, values, network, now).len(),
        0 <= places.1 < curve(points, values, network, now).len(),
        curve(points, values, network, now)[places.0] is Some,
        curve(points, values, network, now)[places.1] is Some,
        (curve(points, values, network, now)[places.0]->0).1.at_most(
            (curve(points, values, network, now)[places.1]->0).1,
        ),
        i < j <==> places.0 < places.1,
{
    let at = lemma_places(points, values, network, now);
    assert(is_shown(points[i], network, now));
    assert(is_shown(points[j], network, now));
    assert(at[i] >= 0 && at[j] >= 0);
    single::lemma_whole(0);
    single::narrowing_keeps_order_and_numbers(low, high, single::whole(0));
    (at[i], at[j])
}

/// A usage is shown if it is a number from zero to one, and fails otherwise.
pub proof fn usages_are_ratios(ratio: Double)
    ensures
        cpu_reading(Ok(CpuUsage::Busy(ratio))) == MetricState::Value(ratio) <==> ratio.is_finite()
            && 0 <= ratio.value() <= pow2(1074),
        cpu_reading(Ok(CpuUsage::Busy(ratio))) is Value || cpu_reading(
            Ok(CpuUsage::Busy(ratio)),
        ) is Failed,
        cpu_reading(Ok(CpuUsage::Pending)) is Pending,
{
    double::lemma_whole(0);
    double::lemma_whole(1);
    double::lemma_exact(0);
    double::lemma_exact(1);
    assert(0 * pow2(1074) == 0 && 1 * pow2(1074) == pow2(1074));
    if ratio.is_finite() {
        double::order_of_places(whole(0), ratio);
        double::order_of_places(ratio, whole(1));
    }
}

/// A frequency is shown if it is a number above zero, and fails otherwise.
pub proof fn frequencies_are_above_zero(mhz: Double)
    ensures
        frequency_reading(Ok(Some(mhz))) == MetricState::Value(mhz) <==> mhz.is_finite()
            && mhz.value() > 0,
        frequency_reading(Ok(Some(mhz))) is Value || frequency_reading(Ok(Some(mhz))) is Failed,
        frequency_reading(Ok(None)) is Pending,
{
    double::lemma_whole(0);
    double::lemma_exact(0);
    assert(0 * pow2(1074) == 0);
    if mhz.is_finite() {
        double::order_of_places(whole(0), mhz);
    }
}

/// A memory reading is shown if there is memory and no more is available than
/// there is: the rest is in use, and the ratio is its share, but for less than
/// the `2^-50`th part of the total. Ratios are counted in units of `2^-1074`.
pub proof fn memory_in_use_is_what_is_not_available(m: MemorySnapshot, shown: MemoryUse)
    ensures
        memory_reading(Ok(m)) is Value <==> 0 < m.total_bytes && m.available_bytes
            <= m.total_bytes,
        memory_reading(Ok(m)) is Value || memory_reading(Ok(m)) is Failed,
        memory_reading(Ok(m)) == MetricState::Value(shown) ==> {
            &&& shown.used_bytes + m.available_bytes == m.total_bytes
            &&& shown.total_bytes == m.total_bytes
            &&& 0 <= shown.ratio.value() <= pow2(1074)
            &&& pow2(50) * abs(
                shown.ratio.value() * m.total_bytes - (m.total_bytes - m.available_bytes) * pow2(
                    1074,
                ),
            ) <= m.total_bytes * pow2(1074)
        },
{
    if 0 < m.total_bytes && m.available_bytes <= m.total_bytes {
        let used = (m.total_bytes - m.available_bytes) as nat;
        double::ratios_are_quotients(used, m.total_bytes as nat);
        double::ratios_stay_within_one(used, m.total_bytes as nat);
        double::lemma_power(0);
        lemma_steps_monotone(
            memory_ratio(m).magnitude(),
            double::ONE as nat,
            double::LEAD as nat,
        );
    }
}

/// Dropping points takes them from the front, while the first one is more than a
/// minute old or more than 256 are left, and no further.
pub proof fn pruning_takes_old_points_from_the_front(points: Seq<Reading>, now: Moment) -> (k: int)
    ensures
        0 <= k <= points.len(),
        pruned(points, now) == points.skip(k),
        forall|i: int|
            0 <= i < k ==> now.nanos > (#[trigger] points[i]).at.nanos + 60_000_000_000
                || points.len() - i > 256,
        k < points.len() ==> now.nanos <= points[k].at.nanos + 60_000_000_000 && points.len() - k
            <= 256,
    decreases points.len(),
{
    if points.len() > 0 && (elapsed(now, points[0].at) > HISTORY_SPAN || points.len()
        > MAX_POINTS) {
        let rest = points.skip(1);
        let k = pruning_takes_old_points_from_the_front(rest, now);
        assert(rest.skip(k) =~= points.skip(k + 1));
        assert forall|i: int| 0 <= i < k + 1 implies now.nanos > (#[trigger] points[i]).at.nanos
            + 60_000_000_000 || points.len() - i > 256 by {
            if i > 0 {
                assert(rest[i - 1] == points[i]);
            }
        }
        k + 1
    } else {
        assert(points.skip(0) =~= points);
        0
    }
}

/// A sample that is newer than the last one adds its point, and takes the place
/// of what was shown of the CPU, the memory and the network; its slow readings do
/// so only if they are newer than those shown, and the counters if it has any.
pub proof fn samples_take_over_what_they_bring(h: HistoryState, s: Sample)
    requires
        h.points.len() > 0 ==> h.points.last().at.nanos < s.taken_at.nanos,
    ensures
        pushed(h, s).points == pruned(h.points.push(point_of(s)), s.taken_at),
        point_of(s).at == s.taken_at && point_of(s).network_at == s.network_at,
        pushed(h, s).cpu == cpu_reading(s.cpu),
        pushed(h, s).cpu_mhz == frequency_reading(s.cpu_mhz),
        pushed(h, s).memory == memory_reading(s.memory),
        pushed(h, s).network_status == network_text(s.network),
        pushed(h, s).network_name == h.network_name,
        pushed(h, s).nvme_name == h.nvme_name,
        s.battery matches Some((at, battery)) ==> (h.battery_at is None || h.battery_at->0.nanos
            < at.nanos) ==> pushed(h, s).battery_at == Some(at) && pushed(h, s).battery_label
            == basic_text(battery.power) && pushed(h, s).battery_detail == detail_text(*battery),
        (s.battery is None || (h.battery_at is Some && (s.battery->0).0.nanos
            <= h.battery_at->0.nanos)) ==> pushed(h, s).battery_at == h.battery_at && pushed(
            h,
            s,
        ).battery_label == h.battery_label && pushed(h, s).battery_detail == h.battery_detail,
        s.nvme matches Some((at, reading)) ==> (h.nvme_at is None || h.nvme_at->0.nanos < at.nanos)
            ==> pushed(h, s).nvme_at == Some(at) && (*reading matches Ok(health) ==> pushed(
            h,
            s,
        ).nvme_label == health_text(health) && pushed(h, s).nvme_detail == wear_text(health)),
        (s.nvme is None || (h.nvme_at is Some && (s.nvme->0).0.nanos <= h.nvme_at->0.nanos))
            ==> pushed(h, s).nvme_at == h.nvme_at && pushed(h, s).nvme_label == h.nvme_label
            && pushed(h, s).nvme_detail == h.nvme_detail,
        s.pdh matches Some((at, snapshot)) ==> pushed(h, s).pdh_at == Some(at) && pushed(
            h,
            s,
        ).disk_label == disk_text(snapshot.disk) && pushed(h, s).gpu_label == gpu_text(
            snapshot.gpu,
        ),
        s.pdh is None ==> pushed(h, s).pdh_at == h.pdh_at && pushed(h, s).disk_label
            == h.disk_label && pushed(h, s).gpu_label == h.gpu_label,
{
}

/// A point holds what its sample told: the usage and the memory's ratio where
/// they are shown, and the rates where there are any, each in its own place.
pub proof fn points_hold_what_samples_told(s: Sample, rate: Double)
    ensures
        point_of(s).cpu == (match cpu_reading(s.cpu) {
            MetricState::Value(ratio) => Some(ratio),
            _ => None,
        }),
        point_of(s).ram is Some <==> memory_reading(s.memory) is Value,
        memory_reading(s.memory) matches MetricState::Value(m) ==> point_of(s).ram == Some(m.ratio),
        point_of(s).download == Some(rate) <==> (s.network matches Ok(
            NetworkUsage::Transfer { download_bytes_per_sec, .. },
        ) && download_bytes_per_sec == rate),
        point_of(s).upload == Some(rate) <==> (s.network matches Ok(
            NetworkUsage::Transfer { upload_bytes_per_sec, .. },
        ) && upload_bytes_per_sec == rate),
{
}

/// Each word for the state of the network is shown in just one state, and none
/// beside rates.
pub proof fn network_words_tell_the_state(usage: NetworkUsage)
    ensures
        network_text(Ok(usage)) == "未选择接口"@ <==> usage is NotSelected,
        network_text(Ok(usage)) == "等待下一次采样"@ <==> usage is Pending,
        network_text(Ok(usage)) == "接口未连接"@ <==> usage is Disconnected,
        network_text(Ok(usage)) == "接口不在场"@ <==> usage is Unavailable,
        network_text(Ok(usage)).len() == 0 <==> usage is Transfer,
{
    reveal_strlit("未选择接口");
    reveal_strlit("等待下一次采样");
    reveal_strlit("接口未连接");
    reveal_strlit("接口不在场");
    assert("未选择接口"@.len() == 5 && "等待下一次采样"@.len() == 7 && "接口未连接"@.len() == 5
        && "接口不在场"@.len() == 5);
    assert("未选择接口"@[0] == '未' && "接口未连接"@[0] == '接' && "接口不在场"@[0] == '接');
    assert("接口未连接"@[2] == '未' && "接口不在场"@[2] == '不');
}

/// The rates of the disks are shown, the reading before the writing.
pub proof fn disk_rates_show_reading_before_writing(rates: pdh::DiskRates)
    ensures
        ("读 "@ + rate_text(rates.read_bps)).is_prefix_of(disk_text(Ok(rates))),
        ("写 "@ + rate_text(rates.write_bps)).is_suffix_of(disk_text(Ok(rates))),
{
    reveal_strlit("  ·  写 ");
    reveal_strlit("写 ");
    let t = disk_text(Ok(rates));
    let a = "读 "@ + rate_text(rates.read_bps);
    let b = "写 "@ + rate_text(rates.write_bps);
    assert(t.subrange(0, a.len() as int) =~= a);
    assert(t.subrange(t.len() - b.len(), t.len() as int) =~= b);
}

/// The busiest engine is shown with its adapter first and its percentage last,
/// and between them its type and its process.
pub proof fn engines_are_shown_with_their_adapter(engine: pdh::EngineReading)
    ensures
        (engine.adapter@ + "  ·  "@ + engine.engine_type@ + " / PID "@).is_prefix_of(
            gpu_text(Ok(Some(engine))),
        ),
        (" / PID "@ + decimal(engine.pid as nat) + "  "@ + double::fixed(engine.percent, 10, false)
            + "%"@).is_suffix_of(gpu_text(Ok(Some(engine)))),
{
    let t = gpu_text(Ok(Some(engine)));
    let a = engine.adapter@ + "  ·  "@ + engine.engine_type@ + " / PID "@;
    let b = " / PID "@ + decimal(engine.pid as nat) + "  "@ + double::fixed(
        engine.percent,
        10,
        false,
    ) + "%"@;
    assert(t.subrange(0, a.len() as int) =~= a);
    assert(t.subrange(t.len() - b.len(), t.len() as int) =~= b);
}

/// What failed is told with its reason.
pub proof fn failures_are_told_with_their_reason(e: Seq<char>)
    ensures
        e.is_suffix_of(failure_text(e)),
        usage_text(MetricState::Failed(e)) == failure_text(e),
        e.is_suffix_of(frequency_text(MetricState::Failed(e))),
{
    let t = failure_text(e);
    assert(t.subrange(t.len() - e.len(), t.len() as int) =~= e);
    let f = frequency_text(MetricState::Failed(e));
    assert(f.subrange(f.len() - e.len(), f.len() as int) =~= e);
}

/// The line of the CPU shows its usage before its frequency, and that of the
/// memory its ratio before its sizes.
pub proof fn labels_show_each_value_in_its_place(
    h: HistoryState,
    ratio: Double,
    mhz: Double,
    m: MemoryUse,
)
    requires
        h.cpu == MetricState::Value(ratio),
        h.cpu_mhz == MetricState::Value(mhz),
        h.memory == MetricState::Value(m),
    ensures
        percent_text(ratio).is_prefix_of(cpu_text(h)),
        ghz_text(mhz).is_suffix_of(cpu_text(h)),
        percent_text(m.ratio).is_prefix_of(ram_text(h)),
        gib_pair_text(m.used_bytes as nat, m.total_bytes as nat).is_suffix_of(ram_text(h)),
{
    let c = cpu_text(h);
    let a = percent_text(ratio);
    let b = ghz_text(mhz);
    assert(c.subrange(0, a.len() as int) =~= a);
    assert(c.subrange(c.len() - b.len(), c.len() as int) =~= b);
    let r = ram_text(h);
    let x = percent_text(m.ratio);
    let y = gib_pair_text(m.used_bytes as nat, m.total_bytes as nat);
    assert(r.subrange(0, x.len() as int) =~= x);
    assert(r.subrange(r.len() - y.len(), r.len() as int) =~= y);
}

} // verus!
