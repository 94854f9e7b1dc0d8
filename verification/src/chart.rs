//! What the chart window shows: which layout, which texts, and the scale of the curves.
use crate::battery;
use crate::clock::{elapsed, Moment, SECOND};
use crate::double::{self, Double};
use crate::format::rate_text;
use crate::history::{
    cpu_text, ram_text, unless_stale, History, HistoryState, HISTORY_SPAN, PENDING_LABEL,
    STALE_LABEL,
};
use crate::magnitude::{lemma_steps_monotone, rounding_keeps_order};
use crate::nvme;
use crate::rounding::steps;
use crate::sampling::{is_stale, outdated, INTERVAL, MAX_SAMPLE_GAP};
use crate::single::{self, minus, over, times, whole, widened, Single};
use crate::text::{decimal, decimal_text, texts};
use vstd::arithmetic::power2::{lemma_pow2_adds, lemma_pow2_pos, pow2};
use vstd::math::abs;
use vstd::prelude::*;

verus! {

/// What became of a frame; a lost device has to be made anew.
#[derive(Clone, Copy, Debug, PartialEq, Eq, Structural)]
pub enum Frame {
    Presented,
    DeviceLost,
}

pub const PANEL_TOP: u64 = 306;

pub const FOOTER_SPACE: u64 = 28;

pub const MIN_PLOT_HEIGHT: u64 = 60;

pub const NETWORK_PLOT_INSET: u64 = 84;

/// The height that the layout needs at full size.
pub const MIN_HEIGHT: u64 = PANEL_TOP + FOOTER_SPACE + 3 * (NETWORK_PLOT_INSET + MIN_PLOT_HEIGHT);

/// Below this width or height, only a summary is shown.
pub const COMPACT_BELOW: u64 = 500;

/// Into how many parts the marks divide the time axis.
pub const TIME_AXIS_STEPS: u64 = 4;

/// The number 0.01: fonts are kept while the scale has changed by no more.
pub const FONT_TOLERANCE: u32 = 0x3c23_d70a;

pub open spec fn scale_of(width: Single, height: Single) -> Option<Single> {
    if whole(COMPACT_BELOW as nat).at_most(width) && whole(COMPACT_BELOW as nat).at_most(height)
        && height.less(whole(MIN_HEIGHT as nat)) {
        Some(over(height, whole(MIN_HEIGHT as nat)))
    } else {
        None
    }
}

/// The scale of a layout that is shrunk to a medium height; nothing for full
/// size and for the summary.
pub fn layout_scale(width: Single, height: Single) -> (r: Option<Single>)
    ensures
        r == scale_of(width, height),
        r matches Some(scale) ==> scale.bits <= single::ONE,
{
    let least = Single::from_u64(COMPACT_BELOW);
    let full = Single::from_u64(MIN_HEIGHT);
    proof {
        single::lemma_whole(COMPACT_BELOW as nat);
        single::lemma_whole(MIN_HEIGHT as nat);
    }
    if least.no_more_than(width) && least.no_more_than(height) && height.less_than(full) {
        proof {
            single::lemma_part(height, full);
        }
        Some(height.divided_by(full))
    } else {
        None
    }
}

/// How the window is drawn.
#[derive(Clone, Copy, Debug, PartialEq)]
pub enum Layout {
    /// The texts alone.
    Compact,
    /// Everything, shrunk by a factor.
    Scaled(Single),
    Full,
}

/// The layout for a window of the given size.
pub fn layout(width: Single, height: Single) -> (r: Layout)
    ensures
        r == if width.less(whole(COMPACT_BELOW as nat)) || height.less(
            whole(COMPACT_BELOW as nat),
        ) {
            Layout::Compact
        } else {
            match scale_of(width, height) {
                Some(scale) => Layout::Scaled(scale),
                None => Layout::Full,
            }
        },
        width.is_finite() && height.is_finite() ==> {
            &&& r is Compact <==> width.value() < 500 * pow2(149) || height.value() < 500 * pow2(149)
            &&& r is Scaled <==> width.value() >= 500 * pow2(149) && 500 * pow2(149)
                <= height.value() < 766 * pow2(149)
            &&& r is Full <==> width.value() >= 500 * pow2(149) && height.value() >= 766 * pow2(149)
        },
{
    proof {
        if width.is_finite() && height.is_finite() {
            lemma_thresholds(width);
            lemma_thresholds(height);
        }
    }
    let least = Single::from_u64(COMPACT_BELOW);
    if width.less_than(least) || height.less_than(least) {
        return Layout::Compact;
    }
    match layout_scale(width, height) {
        Some(scale) => Layout::Scaled(scale),
        None => Layout::Full,
    }
}

/// A number of pixels in units of a 96th of an inch.
pub open spec fn dip(pixels: u32, dpi: u32) -> Single {
    over(times(whole(pixels as nat), whole(96)), whole(dpi as nat))
}

/// 32-bit numbers times 96 are finite.
proof fn lemma_dip(pixels: u32)
    ensures
        times(whole(pixels as nat), whole(96)).bits < single::INFINITE,
{
    let l = single::LEAD as nat;
    let t = single::TOP as nat;
    let unit = pow2(single::LEAST as nat);
    vstd::arithmetic::power2::lemma2_to64();
    single::lemma_whole(pixels as nat);
    single::lemma_whole(96);
    single::lemma_power(0);
    single::lemma_power(32);
    single::lemma_power(7);
    single::lemma_power(39);
    let big = pow2((single::LEAST + 32) as nat);
    let small = pow2((single::LEAST + 7) as nat);
    lemma_pow2_adds(single::LEAST as nat, 32);
    lemma_pow2_adds(single::LEAST as nat, 7);
    assert(pixels as nat * unit <= big) by (nonlinear_arith)
        requires pixels <= 0x1_0000_0000, big == unit * 0x1_0000_0000, unit >= 0,
    ;
    assert(96 * unit <= small) by (nonlinear_arith)
        requires small == unit * 128, unit >= 0,
    ;
    rounding_keeps_order(pixels as nat * unit, 1, big, 1, l, t);
    rounding_keeps_order(96 * unit, 1, small, 1, l, t);
    let a = whole(pixels as nat).magnitude();
    let b = whole(96).magnitude();
    lemma_steps_monotone(a, (single::ONE + 32 * single::LEAD) as nat, l);
    lemma_steps_monotone(b, (single::ONE + 7 * single::LEAD) as nat, l);
    let most = pow2((single::LEAST + 39) as nat);
    lemma_pow2_pos(single::LEAST as nat);
    lemma_pow2_adds((single::LEAST + 32) as nat, (single::LEAST + 7) as nat);
    lemma_pow2_adds((single::LEAST + 39) as nat, single::LEAST as nat);
    assert(steps(a, l) * steps(b, l) * 1 <= most * unit) by (nonlinear_arith)
        requires
            steps(a, l) <= big,
            steps(b, l) <= small,
            big * small == most * unit,
    ;
    rounding_keeps_order(steps(a, l) * steps(b, l), unit, most, 1, l, t);
}

pub fn to_dip(pixels: u32, dpi: u32) -> (r: Single)
    requires
        dpi > 0,
    ensures
        r == dip(pixels, dpi),
{
    proof {
        lemma_dip(pixels);
        single::lemma_whole(pixels as nat);
        single::lemma_whole(96);
        single::lemma_whole(dpi as nat);
    }
    Single::from_u64(pixels as u64).multiplied_by(Single::from_u64(96)).divided_by(
        Single::from_u64(dpi as u64),
    )
}

/// What to do about the fonts of a shrunk layout.
#[derive(Clone, Copy, Debug, PartialEq)]
pub enum FontStep {
    Keep,
    /// The layout is not shrunk: none are needed.
    Discard,
    /// Make fonts for this scale.
    Make(Single),
}

/// What to do about the fonts that were made for the scale `cached`.
pub fn font_step(cached: Option<Single>, scale: Option<Single>) -> (r: FontStep)
    requires
        cached matches Some(old_scale) ==> old_scale.bits < single::INFINITE,
        scale matches Some(new_scale) ==> new_scale.bits < single::INFINITE,
    ensures
        r == match (scale, cached) {
            (None, _) => FontStep::Discard,
            (Some(new_scale), None) => FontStep::Make(new_scale),
            (Some(new_scale), Some(old_scale)) => if minus(old_scale, new_scale).magnitude()
                > FONT_TOLERANCE {
                FontStep::Make(new_scale)
            } else {
                FontStep::Keep
            },
        },
        r is Discard <==> scale is None,
        r matches FontStep::Make(made) ==> scale == Some(made),
        scale is Some && cached is None ==> r is Make,
        scale is Some && cached is Some && 1000 * abs(scale->0.value() - cached->0.value()) >= 11
            * pow2(149) ==> r is Make,
        scale is Some && cached is Some && 1000 * abs(scale->0.value() - cached->0.value()) <= 9
            * pow2(149) ==> r is Keep,
{
    proof {
        if let (Some(new_scale), Some(old_scale)) = (scale, cached) {
            lemma_tolerance(old_scale, new_scale);
        }
    }
    match (scale, cached) {
        (None, _) => FontStep::Discard,
        (Some(new_scale), None) => FontStep::Make(new_scale),
        (Some(new_scale), Some(old_scale)) => {
            let change = old_scale.subtract(new_scale);
            let distance: u32 = if change.bits >= single::SIGN {
                change.bits - single::SIGN
            } else {
                change.bits
            };
            if distance > FONT_TOLERANCE {
                FontStep::Make(new_scale)
            } else {
                FontStep::Keep
            }
        },
    }
}

pub open spec fn fresh_text(label: Seq<char>, stale: bool) -> Seq<char> {
    if stale {
        STALE_LABEL@
    } else {
        label
    }
}

/// Whether the last network reading is too old.
pub open spec fn network_outdated(h: HistoryState, now: Moment) -> bool {
    h.points.len() > 0 && outdated(Some(h.points.last().network_at), now, MAX_SAMPLE_GAP)
}

/// When the last sample was taken.
pub open spec fn sampled_at(h: HistoryState) -> Option<Moment> {
    if h.points.len() > 0 {
        Some(h.points.last().at)
    } else {
        None
    }
}

pub open spec fn traffic_text(h: HistoryState) -> Seq<char> {
    if h.points.len() > 0 {
        match (h.points.last().download, h.points.last().upload) {
            (Some(down), Some(up)) => "↓ "@ + rate_text(down) + "  ↑ "@ + rate_text(up),
            _ => h.network_status,
        }
    } else {
        h.network_status
    }
}

fn traffic_label(history: &History) -> (r: String)
    ensures
        r@ == traffic_text(history@),
{
    let count: usize = history.points.len();
    if count > 0 {
        if let Some(down) = history.points[count - 1].download {
            if let Some(up) = history.points[count - 1].upload {
                let mut r = String::from_str("↓ ");
                r.append(crate::format::rate(down).as_str());
                r.append("  ↑ ");
                r.append(crate::format::rate(up).as_str());
                return r;
            }
        }
    }
    history.network_status.clone()
}

fn network_is_stale(history: &History, now: Moment) -> (r: bool)
    ensures
        r == network_outdated(history@, now),
{
    let count: usize = history.points.len();
    count > 0 && is_stale(Some(history.points[count - 1].network_at), now, MAX_SAMPLE_GAP)
}

/// The lines of the summary.
pub open spec fn compact_text(h: HistoryState, now: Moment) -> Seq<Seq<char>> {
    let sample = outdated(sampled_at(h), now, MAX_SAMPLE_GAP);
    let counters = outdated(h.pdh_at, now, MAX_SAMPLE_GAP);
    seq![
        "CPU  "@ + fresh_text(cpu_text(h), sample),
        "内存  "@ + fresh_text(ram_text(h), sample),
        "WLAN  "@ + fresh_text(traffic_text(h), network_outdated(h, now)),
        "磁盘  "@ + fresh_text(h.disk_label, counters),
        "GPU  "@ + fresh_text(h.gpu_label, counters),
        "NVMe  "@ + fresh_text(h.nvme_label, outdated(h.nvme_at, now, nvme::STALE_AFTER)),
        "电池  "@ + fresh_text(h.battery_label, outdated(h.battery_at, now, battery::STALE_AFTER)),
    ]
}

fn line(name: &str, label: &str, stale: bool) -> (r: String)
    ensures
        r@ == name@ + fresh_text(label@, stale),
{
    let mut r = String::from_str(name);
    r.append(unless_stale(label, stale));
    r
}

/// The summary that a small window shows.
pub fn compact_lines(history: &History, now: Moment) -> (r: Vec<String>)
    ensures
        texts(r@) == compact_text(history@, now),
{
    let sample: bool = is_stale(history.last_sample_at(), now, MAX_SAMPLE_GAP);
    let counters: bool = is_stale(history.pdh_at, now, MAX_SAMPLE_GAP);
    let mut lines: Vec<String> = Vec::new();
    lines.push(line("CPU  ", history.cpu_label().as_str(), sample));
    lines.push(line("内存  ", history.ram_label().as_str(), sample));
    lines.push(line("WLAN  ", traffic_label(history).as_str(), network_is_stale(history, now)));
    lines.push(line("磁盘  ", history.disk_label.as_str(), counters));
    lines.push(line("GPU  ", history.gpu_label.as_str(), counters));
    lines.push(
        line(
            "NVMe  ",
            history.nvme_label.as_str(),
            is_stale(history.nvme_at, now, nvme::STALE_AFTER),
        ),
    );
    lines.push(
        line(
            "电池  ",
            history.battery_label.as_str(),
            is_stale(history.battery_at, now, battery::STALE_AFTER),
        ),
    );
    assert(texts(lines@) =~= compact_text(history@, now));
    lines
}

/// The changing texts of the full view.
#[derive(Debug)]
pub struct FullView {
    pub battery: String,
    pub battery_detail: String,
    pub nvme: String,
    /// Left out while the reading is stale.
    pub nvme_detail: Option<String>,
    pub disk: String,
    pub gpu: String,
    pub cpu: String,
    pub ram: String,
    pub network: String,
    pub download: String,
    pub upload: String,
}

/// The full view as texts.
pub struct FullText {
    pub battery: Seq<char>,
    pub battery_detail: Seq<char>,
    pub nvme: Seq<char>,
    pub nvme_detail: Option<Seq<char>>,
    pub disk: Seq<char>,
    pub gpu: Seq<char>,
    pub cpu: Seq<char>,
    pub ram: Seq<char>,
    pub network: Seq<char>,
    pub download: Seq<char>,
    pub upload: Seq<char>,
}

impl View for FullView {
    type V = FullText;

    open spec fn view(&self) -> FullText {
        FullText {
            battery: self.battery@,
            battery_detail: self.battery_detail@,
            nvme: self.nvme@,
            nvme_detail: crate::config::text_of_option(self.nvme_detail),
            disk: self.disk@,
            gpu: self.gpu@,
            cpu: self.cpu@,
            ram: self.ram@,
            network: self.network@,
            download: self.download@,
            upload: self.upload@,
        }
    }
}

/// How long ago a reading was made.
pub open spec fn age_text(at: Option<Moment>, now: Moment) -> Seq<char> {
    match at {
        Some(moment) => "  ·  "@ + decimal((elapsed(now, moment) / SECOND) as nat) + " 秒前"@,
        None => seq![],
    }
}

/// The heading of the panel of a curve.
pub open spec fn panel_text(
    name: Seq<char>,
    label: Seq<char>,
    h: HistoryState,
    now: Moment,
) -> Seq<char> {
    name + "   "@ + if h.points.len() == 0 {
        PENDING_LABEL@
    } else if outdated(sampled_at(h), now, MAX_SAMPLE_GAP) {
        "数据已过期，等待新样本"@
    } else {
        label
    }
}

/// A direction of the network traffic, without a value where there is none.
pub open spec fn direction_text(name: Seq<char>, rate: Option<Double>) -> Seq<char> {
    name + "  "@ + match rate {
        Some(rate) => rate_text(rate),
        None => "—"@,
    }
}

/// The last point, if the network reading in it is not too old.
pub open spec fn current_rates(h: HistoryState, now: Moment) -> (Option<Double>, Option<Double>) {
    if h.points.len() > 0 && !network_outdated(h, now) {
        (h.points.last().download, h.points.last().upload)
    } else {
        (None, None)
    }
}

pub open spec fn full_text(h: HistoryState, now: Moment) -> FullText {
    let battery_stale = outdated(h.battery_at, now, battery::STALE_AFTER);
    let nvme_stale = outdated(h.nvme_at, now, nvme::STALE_AFTER);
    let counters_stale = outdated(h.pdh_at, now, MAX_SAMPLE_GAP);
    FullText {
        battery: "电池  "@ + if battery_stale {
            "电池数据已过期，等待新样本"@
        } else {
            h.battery_label
        },
        battery_detail: if battery_stale {
            seq![]
        } else {
            h.battery_detail
        },
        nvme: "NVMe / "@ + h.nvme_name + "  "@ + if nvme_stale {
            "数据已过期，等待新样本"@
        } else {
            h.nvme_label
        },
        nvme_detail: if nvme_stale {
            None
        } else {
            Some(h.nvme_detail + age_text(h.nvme_at, now))
        },
        disk: "物理磁盘 / _Total  "@ + fresh_text(h.disk_label, counters_stale),
        gpu: "GPU / 最忙单引擎实例  "@ + fresh_text(h.gpu_label, counters_stale),
        cpu: panel_text("CPU"@, cpu_text(h), h, now),
        ram: panel_text("RAM"@, ram_text(h), h, now),
        network: "网络 / "@ + h.network_name + "  "@ + fresh_text(
            h.network_status,
            network_outdated(h, now),
        ),
        download: direction_text("下载"@, current_rates(h, now).0),
        upload: direction_text("上传"@, current_rates(h, now).1),
    }
}

fn panel(name: &str, label: &str, history: &History, now: Moment) -> (r: String)
    ensures
        r@ == panel_text(name@, label@, history@, now),
{
    let mut r = String::from_str(name);
    r.append("   ");
    if history.points.len() == 0 {
        r.append(PENDING_LABEL);
    } else if is_stale(history.last_sample_at(), now, MAX_SAMPLE_GAP) {
        r.append("数据已过期，等待新样本");
    } else {
        r.append(label);
    }
    r
}

fn direction(name: &str, rate: Option<Double>) -> (r: String)
    ensures
        r@ == direction_text(name@, rate),
{
    let mut r = String::from_str(name);
    r.append("  ");
    match rate {
        Some(rate) => r.append(crate::format::rate(rate).as_str()),
        None => r.append("—"),
    }
    r
}

fn nvme_details(history: &History, now: Moment) -> (r: String)
    ensures
        r@ == history.nvme_detail@ + age_text(history.nvme_at, now),
{
    let mut r = history.nvme_detail.clone();
    match history.nvme_at {
        Some(moment) => {
            r.append("  ·  ");
            r.append(decimal_text(now.since(moment) / SECOND).as_str());
            r.append(" 秒前");
        },
        None => {},
    }
    assert(r@ =~= history.nvme_detail@ + age_text(history.nvme_at, now));
    r
}

/// The changing texts of the full view.
pub fn full_view(history: &History, now: Moment) -> (r: FullView)
    ensures
        r@ == full_text(history@, now),
{
    let battery_stale: bool = is_stale(history.battery_at, now, battery::STALE_AFTER);
    let nvme_stale: bool = is_stale(history.nvme_at, now, nvme::STALE_AFTER);
    let counters_stale: bool = is_stale(history.pdh_at, now, MAX_SAMPLE_GAP);
    let network_stale: bool = network_is_stale(history, now);
    let mut battery = String::from_str("电池  ");
    let battery_detail = if battery_stale {
        battery.append("电池数据已过期，等待新样本");
        String::new()
    } else {
        battery.append(history.battery_label.as_str());
        history.battery_detail.clone()
    };
    let mut nvme = String::from_str("NVMe / ");
    nvme.append(history.nvme_name.as_str());
    nvme.append("  ");
    let nvme_detail = if nvme_stale {
        nvme.append("数据已过期，等待新样本");
        None
    } else {
        nvme.append(history.nvme_label.as_str());
        Some(nvme_details(history, now))
    };
    let mut network = String::from_str("网络 / ");
    network.append(history.network_name.as_str());
    network.append("  ");
    network.append(unless_stale(history.network_status.as_str(), network_stale));
    let count: usize = history.points.len();
    let (download, upload) = if count > 0 && !network_stale {
        (history.points[count - 1].download, history.points[count - 1].upload)
    } else {
        (None, None)
    };
    FullView {
        battery,
        battery_detail,
        nvme,
        nvme_detail,
        disk: line("物理磁盘 / _Total  ", history.disk_label.as_str(), counters_stale),
        gpu: line("GPU / 最忙单引擎实例  ", history.gpu_label.as_str(), counters_stale),
        cpu: panel("CPU", history.cpu_label().as_str(), history, now),
        ram: panel("RAM", history.ram_label().as_str(), history, now),
        network,
        download: direction("下载", download),
        upload: direction("上传", upload),
    }
}

pub open spec fn subtitle_text() -> Seq<char> {
    "曲线：最近 "@ + decimal((HISTORY_SPAN / SECOND) as nat) + " 秒 / 每 "@ + decimal(
        (INTERVAL / SECOND) as nat,
    ) + " 秒采样  ·  电池 "@ + decimal((battery::INTERVAL / SECOND) as nat) + " 秒  ·  NVMe "@
        + decimal((nvme::INTERVAL / SECOND) as nat) + " 秒  ·  磁盘/GPU 约 "@ + decimal(
        (INTERVAL / SECOND) as nat,
    ) + " 秒"@
}

/// How often each kind of reading is made.
pub fn subtitle() -> (r: String)
    ensures
        r@ == subtitle_text(),
        r@ == "曲线：最近 "@ + decimal(60) + " 秒 / 每 "@ + decimal(1) + " 秒采样  ·  电池 "@ + decimal(
            3,
        ) + " 秒  ·  NVMe "@ + decimal(30) + " 秒  ·  磁盘/GPU 约 "@ + decimal(1) + " 秒"@,
{
    let mut r = String::from_str("曲线：最近 ");
    r.append(decimal_text(HISTORY_SPAN / SECOND).as_str());
    r.append(" 秒 / 每 ");
    r.append(decimal_text(INTERVAL / SECOND).as_str());
    r.append(" 秒采样  ·  电池 ");
    r.append(decimal_text(battery::INTERVAL / SECOND).as_str());
    r.append(" 秒  ·  NVMe ");
    r.append(decimal_text(nvme::INTERVAL / SECOND).as_str());
    r.append(" 秒  ·  磁盘/GPU 约 ");
    r.append(decimal_text(INTERVAL / SECOND).as_str());
    r.append(" 秒");
    r
}

/// The mark of the time axis `step` steps before the present.
pub fn time_label(step: u64) -> (r: String)
    requires
        step <= TIME_AXIS_STEPS,
    ensures
        r@ == if step == 0 {
            "现在"@
        } else {
            "-"@ + decimal((HISTORY_SPAN / SECOND * step / TIME_AXIS_STEPS as int) as nat) + "s"@
        },
        step > 0 ==> r@ == "-"@ + decimal((15 * step) as nat) + "s"@,
{
    if step == 0 {
        return String::from_str("现在");
    }
    let mut r = String::from_str("-");
    r.append(decimal_text(HISTORY_SPAN / SECOND * step / TIME_AXIS_STEPS).as_str());
    r.append("s");
    r
}

/// The largest value in a curve, or `least` if none is larger.
pub open spec fn peak(series: Seq<Option<(Single, Single)>>, least: Single) -> Single
    decreases series.len(),
{
    if series.len() == 0 {
        least
    } else {
        let before = peak(series.drop_last(), least);
        match series.last() {
            Some((_, value)) if before.less(value) => value,
            _ => before,
        }
    }
}

/// The least power of two that is no less than a number from one on; infinity
/// if no finite one is.
pub open spec fn power_above(s: Single) -> Single {
    Single { bits: ((s.bits + (single::LEAD - 1)) / (single::LEAD as int) * single::LEAD) as u32 }
}

/// The upper end of the rate axis: a power of two that covers both curves, and
/// at least one KiB/s.
pub open spec fn ceiling(
    download: Seq<Option<(Single, Single)>>,
    upload: Seq<Option<(Single, Single)>>,
) -> Single {
    power_above(peak(upload, peak(download, whole(1024))))
}

fn find_peak(series: &[Option<(Single, Single)>], least: Single) -> (r: Single)
    requires
        single::ONE <= least.bits <= single::INFINITE,
    ensures
        r == peak(series@, least),
        single::ONE <= r.bits <= single::INFINITE,
{
    let mut highest = least;
    let mut i: usize = 0;
    assert(series@.take(0) =~= seq![]);
    while i < series.len()
        invariant
            i <= series.len(),
            highest == peak(series@.take(i as int), least),
            single::ONE <= highest.bits <= single::INFINITE,
        decreases series.len() - i,
    {
        assert(series@.take(i + 1).drop_last() =~= series@.take(i as int));
        if let Some((_, value)) = series[i] {
            if highest.less_than(value) {
                highest = value;
            }
        }
        i = i + 1;
    }
    assert(series@.take(i as int) =~= series@);
    highest
}

/// The upper end of the axis that both directions share.
pub fn rate_ceiling(
    download: &[Option<(Single, Single)>],
    upload: &[Option<(Single, Single)>],
) -> (r: Single)
    ensures
        r == ceiling(download@, upload@),
{
    proof {
        single::lemma_whole(1024);
    }
    let highest = find_peak(upload, find_peak(download, Single::from_u64(1024)));
    let field: u32 = (highest.bits + 0x7f_ffff) / 0x80_0000;
    Single { bits: field * 0x80_0000 }
}

/// The marks of the rate axis: its foot, its middle, and its upper end.
pub fn rate_axis(maximum: Single) -> (r: (String, String, String))
    ensures
        r.0@ == rate_text(double::whole(0)),
        r.1@ == rate_text(double::over(widened(maximum), double::whole(2))),
        r.2@ == rate_text(widened(maximum)),
        r.0@ == rate_text((Double { bits: 0 })),
        maximum.is_finite() ==> exists|half: Double, full: Double|
            r.1@ == #[trigger] rate_text(half) && r.2@ == #[trigger] rate_text(full) && full.value()
                == maximum.value() * pow2(925) && 2 * half.value() == maximum.value() * pow2(925),
{
    proof {
        double::lemma_whole(0);
        if maximum.is_finite() {
            single::widening_keeps_numbers(maximum);
            single::lemma_half(maximum);
            let half = double::over(widened(maximum), double::whole(2));
            let full = widened(maximum);
            assert(rate_text(half) == rate_text(half) && rate_text(full) == rate_text(full));
        }
    }
    let top = maximum.to_double();
    (
        crate::format::rate(Double::from_u64(0)),
        crate::format::rate(top.divided_by(Double::from_u64(2))),
        crate::format::rate(top),
    )
}

/// Whether a curve point lies no higher than `top`.
pub open spec fn is_covered(point: Option<(Single, Single)>, top: Single) -> bool {
    match point {
        Some((_, value)) => value.is_nan() || value.at_most(top),
        None => true,
    }
}

/// No value of a curve is above its peak.
proof fn lemma_peak(series: Seq<Option<(Single, Single)>>, least: Single, i: int)
    requires
        single::ONE <= least.bits <= single::INFINITE,
    ensures
        least.at_most(peak(series, least)),
        single::ONE <= peak(series, least).bits <= single::INFINITE,
        0 <= i < series.len() ==> is_covered(series[i], peak(series, least)),
    decreases series.len(),
{
    if series.len() > 0 {
        lemma_peak(series.drop_last(), least, i);
        if i < series.len() - 1 && i >= 0 {
            assert(series.drop_last()[i] == series[i]);
        }
    }
}

/// The rate axis covers every value of both directions, starts from one KiB/s,
/// and ends at a power of two, unless no finite one is enough.
pub proof fn the_rate_axis_covers_both_directions(
    download: Seq<Option<(Single, Single)>>,
    upload: Seq<Option<(Single, Single)>>,
    i: int,
)
    ensures
        0 <= i < download.len() ==> is_covered(download[i], ceiling(download, upload)),
        0 <= i < upload.len() ==> is_covered(upload[i], ceiling(download, upload)),
        whole(1024).at_most(ceiling(download, upload)),
        ceiling(download, upload).bits < single::INFINITE ==> exists|e: nat|
            steps(ceiling(download, upload).magnitude(), single::LEAD as nat) == #[trigger] pow2(e),
        ceiling(download, upload).bits <= single::INFINITE,
{
    single::lemma_whole(1024);
    let floor = whole(1024);
    lemma_peak(download, floor, i);
    let first = peak(download, floor);
    lemma_peak(upload, first, i);
    let highest = peak(upload, first);
    let top = ceiling(download, upload);
    let l = single::LEAD as nat;
    let field = (highest.bits + 0x7f_ffff) / 0x80_0000;
    assert(top.bits == field * 0x80_0000);
    if top.bits < single::INFINITE {
        vstd::arithmetic::power2::lemma2_to64();
        vstd::arithmetic::div_mod::lemma_fundamental_div_mod_converse(
            top.bits as int,
            l as int,
            field,
            0,
        );
        let k = (field - 1) as nat;
        lemma_pow2_adds(23, k);
        assert(steps(top.magnitude(), l) == pow2((23 + k) as nat));
    }
}

/// No lower power of two covers both directions: one that is no less than one
/// KiB/s and than every value is no less than the end of the axis.
pub proof fn the_rate_axis_is_no_longer_than_needed(
    download: Seq<Option<(Single, Single)>>,
    upload: Seq<Option<(Single, Single)>>,
    other: Single,
)
    requires
        other.bits <= single::INFINITE,
        other.bits % 0x80_0000 == 0,
        whole(1024).at_most(other),
        forall|i: int| 0 <= i < download.len() ==> is_covered(#[trigger] download[i], other),
        forall|i: int| 0 <= i < upload.len() ==> is_covered(#[trigger] upload[i], other),
    ensures
        ceiling(download, upload).at_most(other),
{
    single::lemma_whole(1024);
    lemma_peak_is_least(download, whole(1024), other);
    lemma_peak(download, whole(1024), 0);
    lemma_peak_is_least(upload, peak(download, whole(1024)), other);
    lemma_peak(upload, peak(download, whole(1024)), 0);
    let highest = peak(upload, peak(download, whole(1024)));
    assert((highest.bits + 0x7f_ffff) / 0x80_0000 <= other.bits / 0x80_0000);
}

/// A number that no value exceeds is no less than the peak.
proof fn lemma_peak_is_least(
    series: Seq<Option<(Single, Single)>>,
    least: Single,
    other: Single,
)
    requires
        least.at_most(other),
        forall|i: int| 0 <= i < series.len() ==> is_covered(#[trigger] series[i], other),
    ensures
        peak(series, least).at_most(other),
    decreases series.len(),
{
    if series.len() > 0 {
        let before = series.drop_last();
        assert forall|i: int| 0 <= i < before.len() implies is_covered(
            #[trigger] before[i],
            other,
        ) by {
            assert(before[i] == series[i]);
        }
        lemma_peak_is_least(before, least, other);
        assert(series[series.len() - 1] == series.last());
    }
}

/// A stale value is not shown: two histories that differ in stale values alone look the same.
pub proof fn stale_values_are_not_shown(h: HistoryState, other: HistoryState, now: Moment)
    requires
        other.points.len() == h.points.len(),
        h.points.len() > 0 ==> other.points.last().at == h.points.last().at
            && other.points.last().network_at == h.points.last().network_at,
        other.battery_at == h.battery_at,
        other.nvme_at == h.nvme_at,
        other.pdh_at == h.pdh_at,
        other.network_name == h.network_name,
        other.nvme_name == h.nvme_name,
        !outdated(sampled_at(h), now, MAX_SAMPLE_GAP) ==> other.cpu == h.cpu && other.cpu_mhz
            == h.cpu_mhz && other.memory == h.memory,
        !network_outdated(h, now) ==> other.network_status == h.network_status && (h.points.len()
            > 0 ==> other.points.last() == h.points.last()),
        !outdated(h.battery_at, now, battery::STALE_AFTER) ==> other.battery_label
            == h.battery_label && other.battery_detail == h.battery_detail,
        !outdated(h.nvme_at, now, nvme::STALE_AFTER) ==> other.nvme_label == h.nvme_label
            && other.nvme_detail == h.nvme_detail,
        !outdated(h.pdh_at, now, MAX_SAMPLE_GAP) ==> other.disk_label == h.disk_label
            && other.gpu_label == h.gpu_label,
    ensures
        compact_text(other, now) == compact_text(h, now),
        full_text(other, now) == full_text(h, now),
{
}

/// Where a finite size stands to the limits of the layouts.
proof fn lemma_thresholds(s: Single)
    requires
        s.is_finite(),
    ensures
        whole(500).at_most(s) <==> 500 * pow2(149) <= s.value(),
        s.less(whole(500)) <==> s.value() < 500 * pow2(149),
        s.less(whole(766)) <==> s.value() < 766 * pow2(149),
{
    single::lemma_whole(500);
    single::lemma_whole(766);
    single::lemma_exact(500);
    single::lemma_exact(766);
    single::order_of_places(whole(500), s);
    single::order_of_places(s, whole(500));
    single::order_of_places(s, whole(766));
}

/// How the distance of two scales stands to a hundredth.
proof fn lemma_tolerance(a: Single, b: Single)
    requires
        a.bits < single::INFINITE,
        b.bits < single::INFINITE,
    ensures
        1000 * abs(a.value() - b.value()) >= 11 * pow2(149) ==> minus(a, b).magnitude()
            > FONT_TOLERANCE,
        1000 * abs(a.value() - b.value()) <= 9 * pow2(149) ==> minus(a, b).magnitude()
            <= FONT_TOLERANCE,
{
    let l = single::LEAD as nat;
    let u = pow2(149);
    let v = pow2(119);
    let d = minus(a, b);
    let m = steps(d.magnitude(), l);
    let f = steps(FONT_TOLERANCE as nat, l);
    lemma_pow2_adds(30, 119);
    lemma_pow2_pos(119);
    vstd::arithmetic::power2::lemma2_to64();
    assert(f == 0xa3_d70a * v);
    assert(u == 0x4000_0000 * v);
    let (x, y) = if b.bits <= a.bits {
        (a.magnitude(), b.magnitude())
    } else {
        (b.magnitude(), a.magnitude())
    };
    lemma_steps_monotone(y, x, l);
    let p = (steps(x, l) - steps(y, l)) as nat;
    assert(p == abs(a.value() - b.value()));
    single::differences_are_nearest(a, b, a);
    crate::magnitude::rounding_is_close(p, 1, l, single::TOP as nat);
    assert(-p <= 0x100_0000 * (m - p) <= p) by {
        if p >= l {
            double::lemma_abs(0x100_0000, m - p, p as int);
        } else {
            assert(m == p);
        }
    }
    if d.magnitude() <= FONT_TOLERANCE {
        lemma_steps_monotone(d.magnitude(), FONT_TOLERANCE as nat, l);
    } else {
        lemma_steps_monotone(FONT_TOLERANCE as nat, d.magnitude(), l);
    }
}

/// A layout is shrunk if the window is at least 500 wide and 500 high, and lower
/// than 766: the scale is the nearest number to the height over 766. Sizes and
/// scales are counted in units of `2^-149`.
pub proof fn medium_heights_are_scaled(width: Single, height: Single, z: Single)
    requires
        width.is_finite(),
        height.is_finite(),
        z.bits < single::INFINITE,
    ensures
        scale_of(width, height) is Some <==> 500 * pow2(149) <= width.value() && 500 * pow2(149)
            <= height.value() < 766 * pow2(149),
        scale_of(width, height) matches Some(scale) ==> scale.bits <= single::ONE && abs(
            766 * scale.value() - height.value(),
        ) <= abs(766 * z.value() - height.value()),
{
    lemma_thresholds(width);
    lemma_thresholds(height);
    if let Some(scale) = scale_of(width, height) {
        let u = pow2(149);
        lemma_pow2_pos(149);
        single::lemma_whole(500);
        single::lemma_whole(766);
        single::lemma_exact(766);
        single::order_of_places(height, whole(766));
        assert(height.bits < single::INFINITE);
        single::lemma_part(height, whole(766));
        single::quotients_are_nearest(height, whole(766), z);
        let a = 766 * scale.value() - height.value();
        let b = 766 * z.value() - height.value();
        assert(scale.value() * (766 * u) - height.value() * u == a * u) by (nonlinear_arith)
            requires a == 766 * scale.value() - height.value(),
        ;
        assert(z.value() * (766 * u) - height.value() * u == b * u) by (nonlinear_arith)
            requires b == 766 * z.value() - height.value(),
        ;
        lemma_abs_times(a, u as int);
        lemma_abs_times(b, u as int);
        assert(abs(a) <= abs(b)) by (nonlinear_arith)
            requires abs(a) * u <= abs(b) * u, u > 0,
        ;
    }
}

/// A positive factor comes out of a magnitude.
pub proof fn lemma_abs_times(a: int, u: int)
    requires
        u > 0,
    ensures
        abs(a * u) == abs(a) * u,
{
    assert(a < 0 ==> a * u < 0) by (nonlinear_arith)
        requires u > 0,
    ;
    assert(a >= 0 ==> a * u >= 0) by (nonlinear_arith)
        requires u > 0,
    ;
    assert((-a) * u == -(a * u)) by (nonlinear_arith);
}

/// What a length in units of a 96th of an inch is off.
proof fn lemma_dip_error(e: int, u: int, p: int, dpi: int, w: int, t: int, d: int, x: int)
    requires
        e >= 64,
        u > 0,
        p >= 0,
        dpi > 0,
        w >= 0,
        t >= 0,
        d > 0,
        x >= 0,
        -(p * u) <= e * (w - p * u) <= p * u,
        -(96 * w) <= e * (t - 96 * w) <= 96 * w,
        -(dpi * u) <= e * (d - dpi * u) <= dpi * u,
        -(t * u) <= e * (x * d - t * u) <= t * u,
    ensures
        -(32 * (96 * (p * u))) <= e * (x * dpi - 96 * (p * u)) <= 32 * (96 * (p * u)),
{
    let pu = p * u;
    let du = dpi * u;
    let tu = t * u;
    assert(pu >= 0 && du > 0) by (nonlinear_arith)
        requires pu == p * u, du == dpi * u, p >= 0, dpi > 0, u > 0,
    ;
    assert(w <= 2 * pu) by (nonlinear_arith)
        requires e * (w - pu) <= pu, e >= 1, pu >= 0,
    ;
    assert(t <= 192 * w) by (nonlinear_arith)
        requires e * (t - 96 * w) <= 96 * w, e >= 1, w >= 0,
    ;
    assert(du <= 2 * d) by (nonlinear_arith)
        requires e * (d - du) >= -du, e >= 64, du > 0,
    ;
    assert(tu >= 0 && tu <= 384 * (pu * u)) by (nonlinear_arith)
        requires tu == t * u, 0 <= t <= 384 * pu, u > 0,
    ;
    let xd = x * d;
    assert(xd <= 2 * tu) by (nonlinear_arith)
        requires e * (xd - tu) <= tu, e >= 1, tu >= 0,
    ;
    let xdu = x * du;
    assert(0 <= xdu <= 2 * xd) by (nonlinear_arith)
        requires xdu == x * du, 0 <= du <= 2 * d, xd == x * d, x >= 0,
    ;
    let c1 = d - du;
    let c2 = xd - tu;
    let c3 = t - 96 * w;
    let c4 = w - pu;
    let g = x * dpi - 96 * pu;
    assert(g * u == c2 - x * c1 + c3 * u + 96 * (c4 * u)) by {
        assert(x * c1 == xd - xdu) by (nonlinear_arith)
            requires c1 == d - du, xd == x * d, xdu == x * du,
        ;
        assert(c3 * u == tu - 96 * (w * u)) by (nonlinear_arith)
            requires c3 == t - 96 * w, tu == t * u,
        ;
        assert(c4 * u == w * u - pu * u) by (nonlinear_arith)
            requires c4 == w - pu,
        ;
        assert(g * u == xdu - 96 * (pu * u)) by (nonlinear_arith)
            requires g == x * dpi - 96 * pu, xdu == x * du, du == dpi * u,
        ;
    }
    assert((e * g) * u == e * (g * u)) by (nonlinear_arith);
    assert(e * (c2 - x * c1 + c3 * u + 96 * (c4 * u)) == e * c2 - x * (e * c1) + (e * c3) * u + 96
        * ((e * c4) * u)) by (nonlinear_arith);
    assert(-xdu <= x * (e * c1) <= xdu) by (nonlinear_arith)
        requires -du <= e * c1 <= du, x >= 0, xdu == x * du,
    ;
    assert(-(192 * (pu * u)) <= (e * c3) * u <= 192 * (pu * u)) by (nonlinear_arith)
        requires -(96 * w) <= e * c3 <= 96 * w, 0 <= w <= 2 * pu, u > 0,
    ;
    assert(-(pu * u) <= (e * c4) * u <= pu * u) by (nonlinear_arith)
        requires -pu <= e * c4 <= pu, u > 0,
    ;
    assert(-(32 * (96 * pu)) <= e * g <= 32 * (96 * pu)) by (nonlinear_arith)
        requires -(3072 * (pu * u)) <= (e * g) * u <= 3072 * (pu * u), u > 0,
    ;
}

/// A length in units of a 96th of an inch, times the DPI, is 96 times the pixels,
/// but for less than the `2^-19`th part. Lengths are counted in units of `2^-149`.
pub proof fn lengths_are_pixels_over_dpi(pixels: u32, dpi: u32)
    requires
        dpi > 0,
    ensures
        pow2(19) * abs(dip(pixels, dpi).value() * dpi - 96 * (pixels * pow2(149))) <= 96 * (pixels
            * pow2(149)),
{
    let l = single::LEAD as nat;
    let t = single::TOP as nat;
    let u = pow2(149);
    let e = (2 * l) as int;
    let p = pixels as nat;
    let w = steps(whole(p).magnitude(), l);
    let d = steps(whole(dpi as nat).magnitude(), l);
    let product = times(whole(p), whole(96));
    let m = steps(product.magnitude(), l);
    let x = steps(dip(pixels, dpi).magnitude(), l);
    lemma_dip(pixels);
    single::lemma_whole(p);
    single::lemma_whole(96);
    single::lemma_whole(dpi as nat);
    single::lemma_exact(96);
    single::lemma_whole_close(p);
    single::lemma_whole_close(dpi as nat);
    lemma_pow2_pos(149);
    vstd::arithmetic::power2::lemma2_to64();
    vstd::arithmetic::power2::lemma2_to64_rest();
    lemma_steps_monotone(0, whole(dpi as nat).magnitude(), l);
    double::lemma_abs(e, w - p * u, (p * u) as int);
    double::lemma_abs(e, d - dpi * u, (dpi * u) as int);
    // The product.
    crate::magnitude::rounding_is_close(w * (96 * u), u, l, t);
    let c = m - 96 * w;
    assert(w * (96 * u) == (96 * w) * u) by (nonlinear_arith);
    assert(m * u - (96 * w) * u == c * u) by (nonlinear_arith)
        requires c == m - 96 * w,
    ;
    assert(-(96 * w) <= e * c <= 96 * w) by {
        if w * (96 * u) >= l * u {
            double::lemma_abs(e, c * u, ((96 * w) * u) as int);
            assert(-(96 * w) <= e * c <= 96 * w) by (nonlinear_arith)
                requires -((96 * w) * u) <= e * (c * u) <= (96 * w) * u, u > 0,
            ;
        } else {
            assert(c == 0) by (nonlinear_arith)
                requires -u <= 2 * (c * u) <= u, u > 0,
            ;
            assert(e * 0 == 0);
        }
    }
    // The quotient, which is finite: it is at most the product.
    assert(dpi as nat * u >= u) by (nonlinear_arith)
        requires dpi >= 1, u > 0,
    ;
    assert((m * u) * 1 <= m * d) by (nonlinear_arith)
        requires d >= u, m >= 0,
    ;
    rounding_keeps_order(m * u, d, m, 1, l, t);
    crate::magnitude::rounding_keeps_numbers(product.magnitude(), l, t);
    if p > 0 {
        assert(m >= 48 * u) by (nonlinear_arith)
            requires -(96 * w) <= e * (m - 96 * w), e >= 2, w >= u, u > 0,
        ;
        assert(m * u >= l * d) by (nonlinear_arith)
            requires
                m >= 48 * u,
                d <= 2 * (dpi * u),
                dpi <= 0x1_0000_0000,
                u >= 0x1_0000 * l * pow2(64),
                pow2(64) >= 0x1_0000_0000,
                l > 0,
                u > 0,
        ;
        crate::magnitude::rounding_is_close(m * u, d, l, t);
        double::lemma_abs(e, x * d - m * u, (m * u) as int);
    } else {
        assert(0 * u == 0);
        assert(w == 0);
        assert(m == 0);
        crate::magnitude::rounding_is_close(0, d, l, t);
        assert(x * d == 0) by (nonlinear_arith)
            requires 2 * (x * d) <= d, d > 0, x >= 0,
        ;
        assert(e * 0 == 0);
    }
    lemma_dip_error(
        e,
        u as int,
        p as int,
        dpi as int,
        w as int,
        m as int,
        d as int,
        x as int,
    );
    let g = x * dpi - 96 * (p * u);
    assert(e == 32 * pow2(19));
    assert((32 * pow2(19)) * g == 32 * (pow2(19) * g)) by (nonlinear_arith);
    assert(pow2(19) * (-g) == -(pow2(19) * g)) by (nonlinear_arith);
    assert(dip(pixels, dpi).value() == x);
}

/// The lines of the summary, each with what its name says, and with the word for
/// stale values in its place once the reading is too old: after two and a half
/// seconds, for the disk's health after 75, and for the battery after seven.
pub proof fn summary_lines_show_fresh_readings(h: HistoryState, now: Moment, sampled: bool)
    requires
        sampled <==> h.points.len() > 0,
    ensures
        compact_text(h, now).len() == 7,
        sampled ==> now.nanos <= h.points.last().at.nanos + 2_500_000_000 ==> compact_text(h, now)[0]
            == "CPU  "@ + cpu_text(h) && compact_text(h, now)[1] == "内存  "@ + ram_text(h),
        sampled ==> now.nanos > h.points.last().at.nanos + 2_500_000_000 ==> compact_text(h, now)[0]
            == "CPU  "@ + STALE_LABEL@ && compact_text(h, now)[1] == "内存  "@ + STALE_LABEL@,
        sampled ==> now.nanos <= h.points.last().network_at.nanos + 2_500_000_000 ==> compact_text(
            h,
            now,
        )[2] == "WLAN  "@ + traffic_text(h),
        sampled ==> now.nanos > h.points.last().network_at.nanos + 2_500_000_000 ==> compact_text(
            h,
            now,
        )[2] == "WLAN  "@ + STALE_LABEL@,
        h.pdh_at matches Some(at) ==> compact_text(h, now)[3] == "磁盘  "@ + (if now.nanos > at.nanos
            + 2_500_000_000 {
            STALE_LABEL@
        } else {
            h.disk_label
        }) && compact_text(h, now)[4] == "GPU  "@ + (if now.nanos > at.nanos + 2_500_000_000 {
            STALE_LABEL@
        } else {
            h.gpu_label
        }),
        h.nvme_at matches Some(at) ==> compact_text(h, now)[5] == "NVMe  "@ + (if now.nanos
            > at.nanos + 75_000_000_000 {
            STALE_LABEL@
        } else {
            h.nvme_label
        }),
        h.battery_at matches Some(at) ==> compact_text(h, now)[6] == "电池  "@ + (if now.nanos
            > at.nanos + 7_000_000_000 {
            STALE_LABEL@
        } else {
            h.battery_label
        }),
{
}

/// Current rates are shown the download before the upload.
pub proof fn traffic_shows_download_before_upload(h: HistoryState, down: Double, up: Double)
    requires
        h.points.len() > 0,
        h.points.last().download == Some(down),
        h.points.last().upload == Some(up),
    ensures
        ("↓ "@ + rate_text(down)).is_prefix_of(traffic_text(h)),
        ("↑ "@ + rate_text(up)).is_suffix_of(traffic_text(h)),
{
    reveal_strlit("  ↑ ");
    reveal_strlit("↑ ");
    let t = traffic_text(h);
    let a = "↓ "@ + rate_text(down);
    let b = "↑ "@ + rate_text(up);
    assert(t.subrange(0, a.len() as int) =~= a);
    assert(t.subrange(t.len() - b.len(), t.len() as int) =~= b);
}

/// The full view shows each reading in its place while it is fresh.
pub proof fn the_full_view_shows_fresh_readings(h: HistoryState, now: Moment)
    ensures
        h.battery_at matches Some(at) ==> now.nanos <= at.nanos + 7_000_000_000 ==> full_text(
            h,
            now,
        ).battery == "电池  "@ + h.battery_label && full_text(h, now).battery_detail
            == h.battery_detail,
        h.battery_at matches Some(at) ==> now.nanos > at.nanos + 7_000_000_000 ==> full_text(
            h,
            now,
        ).battery_detail.len() == 0,
        h.nvme_at matches Some(at) ==> now.nanos <= at.nanos + 75_000_000_000 ==> full_text(
            h,
            now,
        ).nvme == "NVMe / "@ + h.nvme_name + "  "@ + h.nvme_label && (full_text(
            h,
            now,
        ).nvme_detail matches Some(detail) && h.nvme_detail.is_prefix_of(detail)),
        h.nvme_at matches Some(at) ==> now.nanos > at.nanos + 75_000_000_000 ==> full_text(
            h,
            now,
        ).nvme_detail is None,
        h.pdh_at matches Some(at) ==> now.nanos <= at.nanos + 2_500_000_000 ==> full_text(
            h,
            now,
        ).disk == "物理磁盘 / _Total  "@ + h.disk_label && full_text(h, now).gpu
            == "GPU / 最忙单引擎实例  "@ + h.gpu_label,
        h.points.len() > 0 && now.nanos <= h.points.last().at.nanos + 2_500_000_000 ==> full_text(
            h,
            now,
        ).cpu == "CPU"@ + "   "@ + cpu_text(h) && full_text(h, now).ram == "RAM"@ + "   "@
            + ram_text(h),
        h.points.len() > 0 && now.nanos <= h.points.last().network_at.nanos + 2_500_000_000 ==> (
        h.points.last().download matches Some(rate) ==> full_text(h, now).download == "下载"@ + "  "@
            + rate_text(rate)) && (h.points.last().upload matches Some(rate) ==> full_text(
            h,
            now,
        ).upload == "上传"@ + "  "@ + rate_text(rate)),
        h.points.len() > 0 && now.nanos > h.points.last().network_at.nanos + 2_500_000_000
            ==> full_text(h, now).download == "下载"@ + "  "@ + "—"@ && full_text(h, now).upload
            == "上传"@ + "  "@ + "—"@,
{
    if let Some(detail) = full_text(h, now).nvme_detail {
        assert(detail.subrange(0, h.nvme_detail.len() as int) =~= h.nvme_detail);
    }
}

/// An age is shown in whole seconds.
pub proof fn ages_are_shown_in_whole_seconds(at: Moment, now: Moment) -> (seconds: nat)
    requires
        at.nanos <= now.nanos,
    ensures
        age_text(Some(at), now) == "  ·  "@ + decimal(seconds) + " 秒前"@,
        seconds * 1_000_000_000 <= now.nanos - at.nanos < (seconds + 1) * 1_000_000_000,
{
    (elapsed(now, at) / SECOND) as nat
}

} // verus!
