//! What the card page shows, and how it takes samples.
use crate::battery;
use crate::chart::fresh_text;
use crate::clock::{elapsed, Moment};
use crate::config::text_of_option;
use crate::cpu::CpuUsage;
use crate::double::{fixed, times, whole, Double};
use crate::error::Error;
use crate::format::{ghz_text, gib_text, percent_text, rate_text};
use crate::history::{
    failure_label, failure_text, is_capacity, is_ratio, memory_ratio, pushed, unless_stale,
    valid_ratio, History, HistoryState, STALE_LABEL,
};
use crate::memory::MemorySnapshot;
use crate::network::{seconds, seconds_of};
use crate::nvme;
use crate::sampling::{is_stale, outdated, Sample, MAX_SAMPLE_GAP};
use crate::sources::Sources;
use crate::text::{all_digits, digits_value};
use vstd::arithmetic::power2::pow2;
use vstd::math::abs;
use vstd::prelude::*;

verus! {

/// How often waiting for a sample is interrupted to look whether it was cancelled.
pub const CANCEL_CHECK: u64 = 100_000_000;

/// After how many looks the page is drawn again, sample or not.
pub const CHECKS: u32 = 10;

/// A value of the page.
#[derive(Debug)]
pub enum Metric {
    Pending,
    Value(String),
    Failed(String),
}

/// A value of the page as text.
pub enum MetricText {
    Pending,
    Value(Seq<char>),
    Failed(Seq<char>),
}

impl View for Metric {
    type V = MetricText;

    open spec fn view(&self) -> MetricText {
        match *self {
            Metric::Pending => MetricText::Pending,
            Metric::Value(value) => MetricText::Value(value@),
            Metric::Failed(e) => MetricText::Failed(e@),
        }
    }
}

pub open spec fn metric_text(m: MetricText, stale: bool) -> Seq<char> {
    if stale {
        STALE_LABEL@
    } else {
        match m {
            MetricText::Pending => "预热中"@,
            MetricText::Value(value) => value,
            MetricText::Failed(e) => failure_text(e),
        }
    }
}

impl Metric {
    pub fn label(&self, stale: bool) -> (r: String)
        ensures
            r@ == metric_text(self@, stale),
    {
        if stale {
            return String::from_str(STALE_LABEL);
        }
        match self {
            Metric::Pending => String::from_str("预热中"),
            Metric::Value(value) => value.clone(),
            Metric::Failed(e) => failure_label(e.as_str()),
        }
    }
}

/// The values that come from one sample alone.
#[derive(Debug)]
pub struct Gauges {
    pub cpu: Metric,
    pub frequency: Metric,
    pub memory: Metric,
    pub cpu_percent: Option<Double>,
    pub memory_percent: Option<Double>,
    pub memory_detail: String,
}

/// The gauges as texts.
pub struct GaugesText {
    pub cpu: MetricText,
    pub frequency: MetricText,
    pub memory: MetricText,
    pub cpu_percent: Option<Double>,
    pub memory_percent: Option<Double>,
    pub memory_detail: Seq<char>,
}

impl View for Gauges {
    type V = GaugesText;

    open spec fn view(&self) -> GaugesText {
        GaugesText {
            cpu: self.cpu@,
            frequency: self.frequency@,
            memory: self.memory@,
            cpu_percent: self.cpu_percent,
            memory_percent: self.memory_percent,
            memory_detail: self.memory_detail@,
        }
    }
}

pub open spec fn cpu_gauge(cpu: Result<CpuUsage, Error>) -> (MetricText, Option<Double>) {
    match cpu {
        Ok(CpuUsage::Busy(ratio)) => if is_ratio(ratio) {
            (MetricText::Value(percent_text(ratio)), Some(times(ratio, whole(100))))
        } else {
            (MetricText::Failed("无效利用率"@), None)
        },
        Ok(CpuUsage::Pending) => (MetricText::Pending, None),
        Err(e) => (MetricText::Failed(e.message@), None),
    }
}

pub open spec fn frequency_gauge(mhz: Result<Option<Double>, String>) -> MetricText {
    match mhz {
        Ok(Some(mhz)) => if mhz.is_finite() && whole(0).less(mhz) {
            MetricText::Value(ghz_text(mhz))
        } else {
            MetricText::Failed("无效频率"@)
        },
        Ok(None) => MetricText::Pending,
        Err(e) => MetricText::Failed(e@),
    }
}

pub open spec fn memory_gauge(memory: Result<MemorySnapshot, Error>) -> (
    MetricText,
    Option<Double>,
    Seq<char>,
) {
    match memory {
        Ok(m) => if is_capacity(m) {
            (
                MetricText::Value(percent_text(memory_ratio(m))),
                Some(times(memory_ratio(m), whole(100))),
                "已用 "@ + gib_text(m.used() as nat) + " / "@ + gib_text(m.total_bytes as nat)
                    + " GiB（Windows 可见）"@,
            )
        } else {
            (MetricText::Failed("容量无效"@), None, seq![])
        },
        Err(e) => (MetricText::Failed(e.message@), None, seq![]),
    }
}

pub open spec fn gauges_of(s: Sample) -> GaugesText {
    GaugesText {
        cpu: cpu_gauge(s.cpu).0,
        frequency: frequency_gauge(s.cpu_mhz),
        memory: memory_gauge(s.memory).0,
        cpu_percent: cpu_gauge(s.cpu).1,
        memory_percent: memory_gauge(s.memory).1,
        memory_detail: memory_gauge(s.memory).2,
    }
}

impl Gauges {
    pub fn from_sample(sample: &Sample) -> (r: Gauges)
        ensures
            r@ == gauges_of(*sample),
    {
        let (cpu, cpu_percent) = match &sample.cpu {
            Ok(CpuUsage::Busy(ratio)) => {
                if valid_ratio(*ratio) {
                    (
                        Metric::Value(crate::format::percent(*ratio)),
                        Some(ratio.multiplied_by(Double::from_u64(100))),
                    )
                } else {
                    (Metric::Failed(String::from_str("无效利用率")), None)
                }
            },
            Ok(CpuUsage::Pending) => (Metric::Pending, None),
            Err(e) => (Metric::Failed(e.message.clone()), None),
        };
        let frequency = match &sample.cpu_mhz {
            Ok(Some(mhz)) => {
                if mhz.finite() && Double::from_u64(0).less_than(*mhz) {
                    Metric::Value(crate::format::ghz(*mhz))
                } else {
                    Metric::Failed(String::from_str("无效频率"))
                }
            },
            Ok(None) => Metric::Pending,
            Err(e) => Metric::Failed(e.clone()),
        };
        let (memory, memory_percent, memory_detail) = match &sample.memory {
            Ok(m) => {
                if m.total_bytes > 0 && m.available_bytes <= m.total_bytes {
                    let ratio = Double::from_u64(m.used_bytes()).divided_by(
                        Double::from_u64(m.total_bytes),
                    );
                    let mut detail = String::from_str("已用 ");
                    detail.append(crate::format::gib(m.used_bytes()).as_str());
                    detail.append(" / ");
                    detail.append(crate::format::gib(m.total_bytes).as_str());
                    detail.append(" GiB（Windows 可见）");
                    (
                        Metric::Value(crate::format::percent(ratio)),
                        Some(ratio.multiplied_by(Double::from_u64(100))),
                        detail,
                    )
                } else {
                    (Metric::Failed(String::from_str("容量无效")), None, String::new())
                }
            },
            Err(e) => (Metric::Failed(e.message.clone()), None, String::new()),
        };
        Gauges { cpu, frequency, memory, cpu_percent, memory_percent, memory_detail }
    }
}

/// A label, or what tells that it is stale.
pub fn fresh(label: &str, stale: bool) -> (r: String)
    ensures
        r@ == fresh_text(label@, stale),
{
    String::from_str(unless_stale(label, stale))
}

/// What the page is told.
#[derive(Debug)]
pub enum Message {
    Sample(Sample),
    Tick,
    SamplerStopped,
    DeliveryRejected,
}

/// What a look at the sampling thread showed.
#[derive(Debug)]
pub enum Signal {
    Cancelled,
    /// There was a signal, and this was in the mailbox.
    Arrived(Option<Sample>),
    TimedOut,
    Disconnected,
}

/// Whether waiting ends after a look, and with which message; `check` counts
/// the looks from zero.
pub fn after_check(check: u32, signal: Signal) -> (r: Option<Message>)
    requires
        check < CHECKS,
    ensures
        match signal {
            Signal::Cancelled | Signal::Disconnected => r matches Some(Message::SamplerStopped),
            Signal::Arrived(Some(sample)) => r == Some(Message::Sample(sample)),
            Signal::Arrived(None) | Signal::TimedOut => if check + 1 < CHECKS {
                r is None
            } else {
                r matches Some(Message::Tick)
            },
        },
        r matches Some(Message::Tick) ==> check == 9,
        r is None ==> check < 9,
{
    match signal {
        Signal::Cancelled | Signal::Disconnected => Some(Message::SamplerStopped),
        Signal::Arrived(Some(sample)) => Some(Message::Sample(sample)),
        Signal::Arrived(None) | Signal::TimedOut => {
            if check + 1 < CHECKS {
                None
            } else {
                Some(Message::Tick)
            }
        },
    }
}

/// What the page asks for after a message.
#[derive(Clone, Copy, Debug, PartialEq, Eq, Structural)]
pub enum Next {
    /// Wait for the next sample.
    Schedule,
    /// Nothing more comes.
    Idle,
    /// Let go of the sampling thread.
    Stop,
}

/// The state of the page.
#[derive(Debug)]
pub struct Page {
    pub history: History,
    pub gauges: Option<Gauges>,
    pub last_sample_at: Option<Moment>,
    pub error: Option<String>,
    /// Whether samples are waited for.
    pub running: bool,
}

/// The state of the page, with its strings as texts.
pub struct PageState {
    pub history: HistoryState,
    pub gauges: Option<GaugesText>,
    pub last_sample_at: Option<Moment>,
    pub error: Option<Seq<char>>,
    pub running: bool,
}

impl View for Page {
    type V = PageState;

    open spec fn view(&self) -> PageState {
        PageState {
            history: self.history@,
            gauges: match self.gauges {
                Some(gauges) => Some(gauges@),
                None => None,
            },
            last_sample_at: self.last_sample_at,
            error: text_of_option(self.error),
            running: self.running,
        }
    }
}

/// The page after a message.
pub open spec fn updated(page: PageState, message: Message) -> PageState {
    match message {
        Message::Sample(s) => PageState {
            history: pushed(page.history, s),
            gauges: Some(gauges_of(s)),
            last_sample_at: Some(s.taken_at),
            ..page
        },
        Message::Tick => page,
        Message::SamplerStopped => PageState {
            running: false,
            error: Some("采样线程已停止"@),
            ..page
        },
        Message::DeliveryRejected => PageState {
            running: false,
            error: Some("后台样本投递失败"@),
            ..page
        },
    }
}

/// What the page asks for after a message.
pub open spec fn next_of(page: PageState, message: Message) -> Next {
    match message {
        Message::Sample(_) | Message::Tick => if page.running {
            Next::Schedule
        } else {
            Next::Idle
        },
        Message::SamplerStopped | Message::DeliveryRejected => Next::Stop,
    }
}

/// The texts and values of the page.
#[derive(Debug)]
pub struct Cards {
    pub status: String,
    pub cpu: String,
    pub cpu_percent: Option<Double>,
    pub memory: String,
    pub memory_percent: Option<Double>,
    pub memory_detail: String,
    pub frequency: String,
    pub network: String,
    pub network_detail: String,
    pub disk: String,
    pub gpu: String,
    pub nvme: String,
    pub nvme_detail: String,
    pub battery: String,
    pub battery_detail: String,
}

/// The page's texts and values.
pub struct CardsText {
    pub status: Seq<char>,
    pub cpu: Seq<char>,
    pub cpu_percent: Option<Double>,
    pub memory: Seq<char>,
    pub memory_percent: Option<Double>,
    pub memory_detail: Seq<char>,
    pub frequency: Seq<char>,
    pub network: Seq<char>,
    pub network_detail: Seq<char>,
    pub disk: Seq<char>,
    pub gpu: Seq<char>,
    pub nvme: Seq<char>,
    pub nvme_detail: Seq<char>,
    pub battery: Seq<char>,
    pub battery_detail: Seq<char>,
}

impl View for Cards {
    type V = CardsText;

    open spec fn view(&self) -> CardsText {
        CardsText {
            status: self.status@,
            cpu: self.cpu@,
            cpu_percent: self.cpu_percent,
            memory: self.memory@,
            memory_percent: self.memory_percent,
            memory_detail: self.memory_detail@,
            frequency: self.frequency@,
            network: self.network@,
            network_detail: self.network_detail@,
            disk: self.disk@,
            gpu: self.gpu@,
            nvme: self.nvme@,
            nvme_detail: self.nvme_detail@,
            battery: self.battery@,
            battery_detail: self.battery_detail@,
        }
    }
}

/// Whether a reading is not to be shown: it is too old, or no more will come.
pub open spec fn withheld(page: PageState, at: Option<Moment>, now: Moment, limit: u64) -> bool {
    page.error is Some || outdated(at, now, limit)
}

pub open spec fn status_text(page: PageState, now: Moment) -> Seq<char> {
    match (page.error, page.last_sample_at) {
        (Some(e), _) => e,
        (None, Some(at)) => (if outdated(Some(at), now, MAX_SAMPLE_GAP) {
            "数据已过期：上次采样在 "@
        } else {
            "自动刷新中 · 上次采样在 "@
        }) + fixed(seconds(elapsed(now, at)), 10, false) + " 秒前"@,
        (None, None) => "预热中 · 等待首份样本"@,
    }
}

/// When the network of the last point was read.
pub open spec fn network_read_at(h: HistoryState) -> Option<Moment> {
    if h.points.len() > 0 {
        Some(h.points.last().network_at)
    } else {
        None
    }
}

pub open spec fn traffic_text(page: PageState, now: Moment) -> Seq<char> {
    let h = page.history;
    if withheld(page, network_read_at(h), now, MAX_SAMPLE_GAP) {
        STALE_LABEL@
    } else if h.points.len() > 0 {
        match (h.points.last().download, h.points.last().upload) {
            (Some(down), Some(up)) => "↓ "@ + rate_text(down) + "    ↑ "@ + rate_text(up),
            _ => h.network_status,
        }
    } else {
        "等待采样"@
    }
}

pub open spec fn cards_of(page: PageState, now: Moment) -> CardsText {
    let h = page.history;
    let stale = withheld(page, page.last_sample_at, now, MAX_SAMPLE_GAP);
    let battery_stale = withheld(page, h.battery_at, now, battery::STALE_AFTER);
    let nvme_stale = withheld(page, h.nvme_at, now, nvme::STALE_AFTER);
    let counters_stale = withheld(page, h.pdh_at, now, MAX_SAMPLE_GAP);
    CardsText {
        status: status_text(page, now),
        cpu: match page.gauges {
            Some(g) => metric_text(g.cpu, stale),
            None => "预热中"@,
        },
        cpu_percent: match page.gauges {
            Some(g) if !stale => g.cpu_percent,
            _ => None,
        },
        memory: match page.gauges {
            Some(g) => metric_text(g.memory, stale),
            None => "预热中"@,
        },
        memory_percent: match page.gauges {
            Some(g) if !stale => g.memory_percent,
            _ => None,
        },
        memory_detail: if stale {
            "等待最新内存快照"@
        } else {
            match page.gauges {
                Some(g) => g.memory_detail,
                None => "Windows 可见物理内存"@,
            }
        },
        frequency: match page.gauges {
            Some(g) => metric_text(g.frequency, stale),
            None => "预热中"@,
        },
        network: traffic_text(page, now),
        network_detail: "选中接口："@ + h.network_name + " · 字节每秒"@,
        disk: fresh_text(h.disk_label, counters_stale),
        gpu: fresh_text(h.gpu_label, counters_stale),
        nvme: fresh_text(h.nvme_label, nvme_stale),
        nvme_detail: h.nvme_name + if nvme_stale {
            " · 等待新快照"@
        } else {
            " · "@ + h.nvme_detail
        },
        battery: fresh_text(h.battery_label, battery_stale),
        battery_detail: if battery_stale {
            "等待新快照"@
        } else {
            h.battery_detail
        },
    }
}

impl Page {
    /// The page of a sampling thread that was started, or of one that was not.
    pub fn new(sources: &Sources, started: Result<(), String>) -> (r: Page)
        ensures
            r.gauges is None,
            r.last_sample_at is None,
            r.running == (started is Ok),
            match started {
                Ok(()) => r.error is None && r.history@ == (HistoryState {
                    network_name: match sources.network_name {
                        Some(name) => name@,
                        None => crate::history::blank().network_name,
                    },
                    nvme_name: match sources.disk {
                        Some(disk) => disk.name@,
                        None => crate::history::blank().nvme_name,
                    },
                    ..crate::history::blank()
                }),
                Err(e) => r.history@ == crate::history::blank() && text_of_option(r.error) == Some(
                    "采样线程启动失败："@ + e@,
                ),
            },
    {
        match started {
            Ok(()) => Page {
                history: History::for_sources(sources),
                gauges: None,
                last_sample_at: None,
                error: None,
                running: true,
            },
            Err(e) => {
                let mut error = String::from_str("采样线程启动失败：");
                error.append(e.as_str());
                Page {
                    history: History::default(),
                    gauges: None,
                    last_sample_at: None,
                    error: Some(error),
                    running: false,
                }
            },
        }
    }

    pub fn update(&mut self, message: Message) -> (r: Next)
        ensures
            final(self)@ == updated(old(self)@, message),
            r == next_of(old(self)@, message),
    {
        match message {
            Message::Sample(sample) => {
                let gauges = Gauges::from_sample(&sample);
                self.last_sample_at = Some(sample.taken_at);
                self.history.push(sample);
                self.gauges = Some(gauges);
                if self.running {
                    Next::Schedule
                } else {
                    Next::Idle
                }
            },
            Message::Tick => {
                if self.running {
                    Next::Schedule
                } else {
                    Next::Idle
                }
            },
            Message::SamplerStopped => {
                self.running = false;
                self.error = Some(String::from_str("采样线程已停止"));
                Next::Stop
            },
            Message::DeliveryRejected => {
                self.running = false;
                self.error = Some(String::from_str("后台样本投递失败"));
                Next::Stop
            },
        }
    }

    fn withholds(&self, at: Option<Moment>, now: Moment, limit: u64) -> (r: bool)
        ensures
            r == withheld(self@, at, now, limit),
    {
        self.error.is_some() || is_stale(at, now, limit)
    }

    fn status(&self, now: Moment) -> (r: String)
        ensures
            r@ == status_text(self@, now),
    {
        match &self.error {
            Some(e) => e.clone(),
            None => match self.last_sample_at {
                Some(at) => {
                    let mut r = if is_stale(Some(at), now, MAX_SAMPLE_GAP) {
                        String::from_str("数据已过期：上次采样在 ")
                    } else {
                        String::from_str("自动刷新中 · 上次采样在 ")
                    };
                    r.append(seconds_of(now.since(at)).to_fixed(10, false).as_str());
                    r.append(" 秒前");
                    r
                },
                None => String::from_str("预热中 · 等待首份样本"),
            },
        }
    }

    fn traffic(&self, now: Moment) -> (r: String)
        ensures
            r@ == traffic_text(self@, now),
    {
        let count: usize = self.history.points.len();
        let read_at = if count > 0 {
            Some(self.history.points[count - 1].network_at)
        } else {
            None
        };
        if self.withholds(read_at, now, MAX_SAMPLE_GAP) {
            return String::from_str(STALE_LABEL);
        }
        if count == 0 {
            return String::from_str("等待采样");
        }
        if let Some(down) = self.history.points[count - 1].download {
            if let Some(up) = self.history.points[count - 1].upload {
                let mut r = String::from_str("↓ ");
                r.append(crate::format::rate(down).as_str());
                r.append("    ↑ ");
                r.append(crate::format::rate(up).as_str());
                return r;
            }
        }
        self.history.network_status.clone()
    }

    /// What the page shows at `now`.
    pub fn view_at(&self, now: Moment) -> (r: Cards)
        ensures
            r@ == cards_of(self@, now),
    {
        let stale: bool = self.withholds(self.last_sample_at, now, MAX_SAMPLE_GAP);
        let battery_stale: bool = self.withholds(
            self.history.battery_at,
            now,
            battery::STALE_AFTER,
        );
        let nvme_stale: bool = self.withholds(self.history.nvme_at, now, nvme::STALE_AFTER);
        let counters_stale: bool = self.withholds(self.history.pdh_at, now, MAX_SAMPLE_GAP);
        let (cpu, memory, frequency) = match &self.gauges {
            Some(g) => (g.cpu.label(stale), g.memory.label(stale), g.frequency.label(stale)),
            None => (
                String::from_str("预热中"),
                String::from_str("预热中"),
                String::from_str("预热中"),
            ),
        };
        let (cpu_percent, memory_percent) = match &self.gauges {
            Some(g) => {
                if stale {
                    (None, None)
                } else {
                    (g.cpu_percent, g.memory_percent)
                }
            },
            None => (None, None),
        };
        let memory_detail = if stale {
            String::from_str("等待最新内存快照")
        } else {
            match &self.gauges {
                Some(g) => g.memory_detail.clone(),
                None => String::from_str("Windows 可见物理内存"),
            }
        };
        let mut network_detail = String::from_str("选中接口：");
        network_detail.append(self.history.network_name.as_str());
        network_detail.append(" · 字节每秒");
        let mut nvme_detail = self.history.nvme_name.clone();
        if nvme_stale {
            nvme_detail.append(" · 等待新快照");
        } else {
            nvme_detail.append(" · ");
            nvme_detail.append(self.history.nvme_detail.as_str());
            assert(nvme_detail@ =~= cards_of(self@, now).nvme_detail);
        }
        let battery_detail = if battery_stale {
            String::from_str("等待新快照")
        } else {
            self.history.battery_detail.clone()
        };
        Cards {
            status: self.status(now),
            cpu,
            cpu_percent,
            memory,
            memory_percent,
            memory_detail,
            frequency,
            network: self.traffic(now),
            network_detail,
            disk: fresh(self.history.disk_label.as_str(), counters_stale),
            gpu: fresh(self.history.gpu_label.as_str(), counters_stale),
            nvme: fresh(self.history.nvme_label.as_str(), nvme_stale),
            nvme_detail,
            battery: fresh(self.history.battery_label.as_str(), battery_stale),
            battery_detail,
        }
    }
}

/// Once the sampling has stopped, the page asks for no more samples, and shows
/// no value that was sampled.
pub proof fn a_stopped_page_shows_no_values(
    page: PageState,
    message: Message,
    later: Message,
    now: Moment,
)
    requires
        message is SamplerStopped || message is DeliveryRejected,
    ensures
        next_of(updated(page, message), later) != Next::Schedule,
        !updated(updated(page, message), later).running,
        ({
            let cards = cards_of(updated(page, message), now);
            &&& cards.cpu_percent is None
            &&& cards.memory_percent is None
            &&& cards.network == STALE_LABEL@
            &&& cards.disk == STALE_LABEL@
            &&& cards.gpu == STALE_LABEL@
            &&& cards.nvme == STALE_LABEL@
            &&& cards.battery == STALE_LABEL@
            &&& page.gauges is Some ==> cards.cpu == STALE_LABEL@ && cards.memory == STALE_LABEL@
                && cards.frequency == STALE_LABEL@
        }),
{
}

/// A value that is withheld does not show: two pages that differ in such values alone look the same.
pub proof fn withheld_values_are_not_shown(page: PageState, other: PageState, now: Moment)
    requires
        other.error == page.error,
        other.last_sample_at == page.last_sample_at,
        other.gauges is Some <==> page.gauges is Some,
        other.history.battery_at == page.history.battery_at,
        other.history.nvme_at == page.history.nvme_at,
        other.history.pdh_at == page.history.pdh_at,
        other.history.network_name == page.history.network_name,
        other.history.nvme_name == page.history.nvme_name,
        network_read_at(other.history) == network_read_at(page.history),
        !withheld(page, page.last_sample_at, now, MAX_SAMPLE_GAP) ==> other.gauges == page.gauges,
        !withheld(page, network_read_at(page.history), now, MAX_SAMPLE_GAP)
            ==> other.history.points == page.history.points && other.history.network_status
            == page.history.network_status,
        !withheld(page, page.history.battery_at, now, battery::STALE_AFTER)
            ==> other.history.battery_label == page.history.battery_label
            && other.history.battery_detail == page.history.battery_detail,
        !withheld(page, page.history.nvme_at, now, nvme::STALE_AFTER) ==> other.history.nvme_label
            == page.history.nvme_label && other.history.nvme_detail == page.history.nvme_detail,
        !withheld(page, page.history.pdh_at, now, MAX_SAMPLE_GAP) ==> other.history.disk_label
            == page.history.disk_label && other.history.gpu_label == page.history.gpu_label,
    ensures
        cards_of(other, now) == cards_of(page, now),
{
}

/// A usage has a gauge if it is a number from zero to one: its text is the usage
/// in percent, and its value is the nearest number to a hundred times it. Numbers
/// are counted in units of `2^-1074`.
pub proof fn usage_gauges_show_percent(ratio: Double, z: Double)
    requires
        z.is_finite(),
    ensures
        cpu_gauge(Ok(CpuUsage::Busy(ratio))).1 is Some <==> ratio.is_finite() && 0 <= ratio.value()
            <= pow2(1074),
        cpu_gauge(Ok(CpuUsage::Busy(ratio))).1 matches Some(percent) ==> percent.is_finite() && abs(
            percent.value() - 100 * ratio.value(),
        ) <= abs(z.value() - 100 * ratio.value()) && cpu_gauge(Ok(CpuUsage::Busy(ratio))).0
            == MetricText::Value(percent_text(ratio)),
{
    crate::history::usages_are_ratios(ratio);
    if is_ratio(ratio) {
        lemma_percent(ratio, z);
    }
}

/// A hundred times a ratio is finite, and no number is nearer to it than the computed one.
proof fn lemma_percent(ratio: Double, z: Double)
    requires
        ratio.is_finite(),
        0 <= ratio.value() <= pow2(1074),
        z.is_finite(),
    ensures
        times(ratio, whole(100)).is_finite(),
        abs(times(ratio, whole(100)).value() - 100 * ratio.value()) <= abs(
            z.value() - 100 * ratio.value(),
        ),
{
    let u = pow2(1074);
    let made = times(ratio, whole(100));
    crate::double::lemma_whole(100);
    crate::double::lemma_exact(100);
    vstd::arithmetic::power2::lemma_pow2_pos(1074);
    let r = ratio.value();
    assert(r * (100 * u) == (100 * r) * u) by (nonlinear_arith);
    crate::double::products_are_nearest(ratio, whole(100), whole(100));
    if !made.is_finite() {
        assert((100 * r) * u <= (100 * u) * u) by (nonlinear_arith)
            requires r <= u, u > 0,
        ;
        assert((100 * r) * u >= 0) by (nonlinear_arith)
            requires r >= 0, u > 0,
        ;
    }
    crate::double::products_are_nearest(ratio, whole(100), z);
    let a = made.value() - 100 * r;
    let b = z.value() - 100 * r;
    assert(made.value() * u - (100 * r) * u == a * u) by (nonlinear_arith)
        requires a == made.value() - 100 * r,
    ;
    assert(z.value() * u - (100 * r) * u == b * u) by (nonlinear_arith)
        requires b == z.value() - 100 * r,
    ;
    crate::chart::lemma_abs_times(a, u as int);
    crate::chart::lemma_abs_times(b, u as int);
    assert(abs(a) <= abs(b)) by (nonlinear_arith)
        requires abs(a) * u <= abs(b) * u, u > 0,
    ;
}

/// Memory has a gauge if there is memory and no more is available than there is:
/// its value is the nearest number to a hundred times the ratio in use, and its
/// detail shows what is in use before what there is.
pub proof fn memory_gauges_show_percent(m: MemorySnapshot, z: Double)
    requires
        z.is_finite(),
    ensures
        memory_gauge(Ok(m)).1 is Some <==> 0 < m.total_bytes && m.available_bytes <= m.total_bytes,
        memory_gauge(Ok(m)).1 matches Some(percent) ==> {
            &&& percent.is_finite()
            &&& abs(percent.value() - 100 * memory_ratio(m).value()) <= abs(
                z.value() - 100 * memory_ratio(m).value(),
            )
            &&& memory_gauge(Ok(m)).0 == MetricText::Value(percent_text(memory_ratio(m)))
            &&& memory_gauge(Ok(m)).2 == "已用 "@ + gib_text(
                (m.total_bytes - m.available_bytes) as nat,
            ) + " / "@ + gib_text(m.total_bytes as nat) + " GiB（Windows 可见）"@
        },
{
    if is_capacity(m) {
        let shown = crate::history::MemoryUse {
            ratio: memory_ratio(m),
            used_bytes: m.used(),
            total_bytes: m.total_bytes,
        };
        crate::history::memory_in_use_is_what_is_not_available(m, shown);
        crate::double::ratios_stay_within_one(m.used() as nat, m.total_bytes as nat);
        lemma_percent(memory_ratio(m), z);
    }
}

/// A frequency has a value if it is a number above zero, which is shown in GHz.
pub proof fn frequency_gauges_show_gigahertz(mhz: Double)
    ensures
        frequency_gauge(Ok(Some(mhz))) is Value <==> mhz.is_finite() && mhz.value() > 0,
        frequency_gauge(Ok(Some(mhz))) matches MetricText::Value(text) ==> text == ghz_text(mhz),
        frequency_gauge(Ok(None)) is Pending,
{
    crate::history::frequencies_are_above_zero(mhz);
}

/// A sample is taken into the page whole: the history takes it, the gauges are
/// its own, and its time is that of the last sample.
pub proof fn pages_take_samples(page: PageState, s: Sample)
    ensures
        updated(page, Message::Sample(s)).history == pushed(page.history, s),
        updated(page, Message::Sample(s)).last_sample_at == Some(s.taken_at),
        updated(page, Message::Sample(s)).gauges matches Some(g) && g.cpu_percent == cpu_gauge(
            s.cpu,
        ).1 && g.cpu == cpu_gauge(s.cpu).0 && g.memory_percent == memory_gauge(s.memory).1
            && g.memory == memory_gauge(s.memory).0 && g.memory_detail == memory_gauge(s.memory).2
            && g.frequency == frequency_gauge(s.cpu_mhz),
        updated(page, Message::Sample(s)).error == page.error,
        updated(page, Message::Sample(s)).running == page.running,
        updated(page, Message::Tick) == page,
{
}

/// The page asks for more as long as it runs, and for none once it was stopped.
pub proof fn running_pages_ask_for_more(page: PageState, message: Message)
    ensures
        next_of(page, message) == Next::Schedule <==> page.running && (message is Sample
            || message is Tick),
        next_of(page, message) == Next::Idle <==> !page.running && (message is Sample
            || message is Tick),
        updated(page, message).running <==> page.running && (message is Sample || message is Tick),
{
}

/// The status tells the failure if there is one, and otherwise the age of the last
/// sample in tenths of a second, rounded to nearest but for less than seven
/// microseconds, and whether it is too old: more than two and a half seconds.
pub proof fn the_status_tells_the_age(page: PageState, at: Moment, now: Moment) -> (digits: (
    Seq<char>,
    Seq<char>,
))
    requires
        page.error is None,
        page.last_sample_at == Some(at),
        at.nanos <= now.nanos,
    ensures
        now.nanos > at.nanos + 2_500_000_000 ==> status_text(page, now)
            == "数据已过期：上次采样在 "@ + (digits.0 + seq!['.'] + digits.1) + " 秒前"@,
        now.nanos <= at.nanos + 2_500_000_000 ==> status_text(page, now)
            == "自动刷新中 · 上次采样在 "@ + (digits.0 + seq!['.'] + digits.1) + " 秒前"@,
        all_digits(digits.0),
        all_digits(digits.1),
        digits.1.len() == 1,
        2 * abs(
            digits_value(digits.0 + digits.1) * 100_000_000 - (now.nanos - at.nanos),
        ) <= 100_012_288,
{
    crate::network::spans_are_shown_in_tenths_of_seconds(elapsed(now, at))
}

/// A failure is all that the status tells.
pub proof fn the_status_tells_a_failure(page: PageState, now: Moment)
    ensures
        page.error matches Some(e) ==> status_text(page, now) == e,
{
}

/// A page without a failure shows each fresh reading in its place: values of the
/// last sample, of the network and of the counters up to two and a half seconds,
/// of the disk's health up to 75, and of the battery up to seven.
pub proof fn cards_show_fresh_readings(page: PageState, now: Moment, g: GaugesText, at: Moment)
    requires
        page.error is None,
        page.gauges == Some(g),
        page.last_sample_at == Some(at),
    ensures
        now.nanos <= at.nanos + 2_500_000_000 ==> {
            let cards = cards_of(page, now);
            &&& cards.cpu_percent == g.cpu_percent
            &&& cards.memory_percent == g.memory_percent
            &&& cards.memory_detail == g.memory_detail
            &&& g.cpu matches MetricText::Value(text) ==> cards.cpu == text
            &&& g.memory matches MetricText::Value(text) ==> cards.memory == text
            &&& g.frequency matches MetricText::Value(text) ==> cards.frequency == text
        },
        now.nanos > at.nanos + 2_500_000_000 ==> {
            let cards = cards_of(page, now);
            &&& cards.cpu_percent is None && cards.memory_percent is None
            &&& cards.cpu == STALE_LABEL@ && cards.memory == STALE_LABEL@ && cards.frequency
                == STALE_LABEL@
        },
        page.history.pdh_at matches Some(read) ==> {
            let cards = cards_of(page, now);
            &&& cards.disk == (if now.nanos > read.nanos + 2_500_000_000 {
                STALE_LABEL@
            } else {
                page.history.disk_label
            })
            &&& cards.gpu == (if now.nanos > read.nanos + 2_500_000_000 {
                STALE_LABEL@
            } else {
                page.history.gpu_label
            })
        },
        page.history.nvme_at matches Some(read) ==> {
            let cards = cards_of(page, now);
            &&& cards.nvme == (if now.nanos > read.nanos + 75_000_000_000 {
                STALE_LABEL@
            } else {
                page.history.nvme_label
            })
            &&& now.nanos <= read.nanos + 75_000_000_000 ==> cards.nvme_detail
                == page.history.nvme_name + " · "@ + page.history.nvme_detail
        },
        page.history.battery_at matches Some(read) ==> {
            let cards = cards_of(page, now);
            &&& cards.battery == (if now.nanos > read.nanos + 7_000_000_000 {
                STALE_LABEL@
            } else {
                page.history.battery_label
            })
            &&& now.nanos <= read.nanos + 7_000_000_000 ==> cards.battery_detail
                == page.history.battery_detail
        },
{
    if let Some(read) = page.history.nvme_at {
        if now.nanos <= read.nanos + 75_000_000_000 {
            assert(cards_of(page, now).nvme_detail =~= page.history.nvme_name + " · "@
                + page.history.nvme_detail);
        }
    }
}

/// The rates are shown while the network reading is fresh, the download before
/// the upload.
pub proof fn cards_show_download_before_upload(
    page: PageState,
    now: Moment,
    down: Double,
    up: Double,
)
    requires
        page.error is None,
        page.history.points.len() > 0,
        page.history.points.last().download == Some(down),
        page.history.points.last().upload == Some(up),
    ensures
        now.nanos <= page.history.points.last().network_at.nanos + 2_500_000_000 ==> (
        "↓ "@ + rate_text(down)).is_prefix_of(traffic_text(page, now)) && (
        "↑ "@ + rate_text(up)).is_suffix_of(traffic_text(page, now)),
        now.nanos > page.history.points.last().network_at.nanos + 2_500_000_000 ==> traffic_text(
            page,
            now,
        ) == STALE_LABEL@,
{
    reveal_strlit("    ↑ ");
    reveal_strlit("↑ ");
    if now.nanos <= page.history.points.last().network_at.nanos + 2_500_000_000 {
        let t = traffic_text(page, now);
        let a = "↓ "@ + rate_text(down);
        let b = "↑ "@ + rate_text(up);
        assert(t.subrange(0, a.len() as int) =~= a);
        assert(t.subrange(t.len() - b.len(), t.len() as int) =~= b);
    }
}

} // verus!
