//! Battery snapshots. The system reports power itself; nothing is measured from capacities.
use crate::clock::SECOND;
use crate::double::{fixed, over, signed, whole, Double};
use crate::text::{
    all_digits, decimal, decimal_text, digits_value, hex, hex_text, two_digit_text, two_digits,
    unsigned, unsigned_of,
};
use vstd::math::abs;
use vstd::prelude::*;

verus! {

/// Nanoseconds between two readings.
pub const INTERVAL: u64 = 3 * SECOND;

/// Nanoseconds after which a reading is stale.
pub const STALE_AFTER: u64 = 7 * SECOND;

#[derive(Debug)]
pub struct PowerStatus {
    pub ac_online: Option<bool>,
    pub present: Option<bool>,
    pub charging: Option<bool>,
    pub percent: Option<u8>,
    pub saver: Option<bool>,
    pub remaining_seconds: Option<u32>,
}

#[derive(Debug)]
pub struct BatteryFlow {
    pub present: bool,
    pub charging: bool,
    pub discharging: bool,
    /// Positive while charging, negative while discharging; none where nothing
    /// is reported or what is reported is not known.
    pub milliwatts: Option<i32>,
}

/// The two system calls fail independently: without power there is still a level.
#[derive(Debug)]
pub struct BatterySnapshot {
    pub power: Result<PowerStatus, String>,
    pub flow: Result<BatteryFlow, String>,
}

/// The power status as the system fills it in.
#[derive(Clone, Copy, Debug)]
pub struct SystemPowerStatus {
    pub ac_line_status: u8,
    pub battery_flag: u8,
    pub battery_life_percent: u8,
    pub system_status_flag: u8,
    pub battery_life_time: u32,
}

/// The battery state as the system fills it in.
#[derive(Clone, Copy, Debug)]
pub struct SystemBatteryState {
    pub battery_present: bool,
    pub charging: bool,
    pub discharging: bool,
    /// A signed number of milliwatts in an unsigned field.
    pub rate: u32,
}

pub open spec fn flag_of(value: u8) -> Option<bool> {
    if value == 0 {
        Some(false)
    } else if value == 1 {
        Some(true)
    } else {
        None
    }
}

/// A flag of the system: off, on, or not known.
pub fn flag(value: u8) -> (r: Option<bool>)
    ensures
        r == flag_of(value),
{
    if value == 0 {
        Some(false)
    } else if value == 1 {
        Some(true)
    } else {
        None
    }
}

/// Whether there is a battery. A flag byte of 255 says nothing; otherwise its
/// highest bit says that there is none.
pub open spec fn present_of(battery_flag: u8) -> Option<bool> {
    if battery_flag == 255 {
        None
    } else {
        Some(battery_flag < 128)
    }
}

/// What a power status says.
pub open spec fn power_said(raw: SystemPowerStatus) -> PowerStatus {
    let present = present_of(raw.battery_flag);
    PowerStatus {
        ac_online: flag_of(raw.ac_line_status),
        present,
        charging: if present == Some(true) {
            Some((raw.battery_flag / 8) % 2 == 1)
        } else {
            None
        },
        percent: if present != Some(false) && raw.battery_life_percent <= 100 {
            Some(raw.battery_life_percent)
        } else {
            None
        },
        saver: flag_of(raw.system_status_flag),
        // Time is counted down only on battery power.
        remaining_seconds: if present != Some(false) && raw.ac_line_status == 0
            && raw.battery_life_time != u32::MAX {
            Some(raw.battery_life_time)
        } else {
            None
        },
    }
}

/// Reads the power status. What is not known stays unknown.
pub fn decode_power(raw: SystemPowerStatus) -> (r: PowerStatus)
    ensures
        r == power_said(raw),
{
    let known: bool = raw.battery_flag != 255;
    let absent: bool = known && raw.battery_flag >= 128;
    PowerStatus {
        ac_online: flag(raw.ac_line_status),
        present: if known {
            Some(raw.battery_flag < 128)
        } else {
            None
        },
        charging: if known && raw.battery_flag < 128 {
            Some((raw.battery_flag / 8) % 2 == 1)
        } else {
            None
        },
        percent: if !absent && raw.battery_life_percent <= 100 {
            Some(raw.battery_life_percent)
        } else {
            None
        },
        saver: flag(raw.system_status_flag),
        remaining_seconds: if !absent && raw.ac_line_status == 0 && raw.battery_life_time
            != u32::MAX {
            Some(raw.battery_life_time)
        } else {
            None
        },
    }
}

/// The signed number whose bit pattern is `rate`.
pub open spec fn signed_rate(rate: u32) -> int {
    if rate < 0x8000_0000 {
        rate as int
    } else {
        rate - 0x1_0000_0000
    }
}

/// Whether the sign of the power fits the direction of flow, and is not that of an unknown rate.
pub open spec fn rate_is_known(raw: SystemBatteryState) -> bool {
    &&& raw.battery_present
    &&& signed_rate(raw.rate) != i32::MIN
    &&& ((raw.charging && !raw.discharging && signed_rate(raw.rate) > 0) || (raw.discharging
        && !raw.charging && signed_rate(raw.rate) < 0))
}

/// What a battery state says: power only in the direction of flow.
pub open spec fn flow_said(raw: SystemBatteryState) -> BatteryFlow {
    BatteryFlow {
        present: raw.battery_present,
        charging: raw.charging,
        discharging: raw.discharging,
        milliwatts: if rate_is_known(raw) {
            Some(signed_rate(raw.rate) as i32)
        } else {
            None
        },
    }
}

/// Reads the battery state.
pub fn decode_flow(raw: SystemBatteryState) -> (r: BatteryFlow)
    ensures
        r == flow_said(raw),
{
    let rate: i64 = if raw.rate < 0x8000_0000 {
        raw.rate as i64
    } else {
        raw.rate as i64 - 0x1_0000_0000
    };
    let direction_matches: bool = (raw.charging && !raw.discharging && rate > 0) || (
    raw.discharging && !raw.charging && rate < 0);
    BatteryFlow {
        present: raw.battery_present,
        charging: raw.charging,
        discharging: raw.discharging,
        milliwatts: if raw.battery_present && rate != -0x8000_0000 && direction_matches {
            Some(rate as i32)
        } else {
            None
        },
    }
}

/// The snapshot that two independent system calls give: the power status or
/// why it failed, and the battery state with the status code of its call.
pub fn snapshot_of(
    power: Result<SystemPowerStatus, String>,
    flow_status: i32,
    flow: SystemBatteryState,
) -> (r: BatterySnapshot)
    ensures
        match power {
            Ok(raw) => r.power == Ok::<PowerStatus, String>(power_said(raw)),
            Err(e) => r.power is Err && r.power->Err_0@ == e@,
        },
        if flow_status == 0 {
            r.flow == Ok::<BatteryFlow, String>(flow_said(flow))
        } else {
            r.flow is Err && r.flow->Err_0@ == "NTSTATUS 0x"@ + hex(unsigned(flow_status), 8, true)
        },
{
    let power = match power {
        Ok(raw) => Ok(decode_power(raw)),
        Err(e) => Err(e),
    };
    let flow = if flow_status == 0 {
        Ok(decode_flow(flow))
    } else {
        let mut message = String::from_str("NTSTATUS 0x");
        message.append(hex_text(unsigned_of(flow_status) as u64, 8, true).as_str());
        Err(message)
    };
    BatterySnapshot { power, flow }
}

pub open spec fn source_text(ac_online: Option<bool>) -> Seq<char> {
    match ac_online {
        Some(true) => "外接电源"@,
        Some(false) => "电池供电"@,
        None => "供电未知"@,
    }
}

pub open spec fn level_text(p: PowerStatus) -> Seq<char> {
    if p.present == Some(false) {
        "无系统电池"@
    } else {
        match p.percent {
            Some(v) => decimal(v as nat) + "%"@,
            None => "电量未知"@,
        }
    }
}

pub open spec fn charging_text(charging: Option<bool>) -> Seq<char> {
    match charging {
        Some(true) => "充电中"@,
        Some(false) => "未充电"@,
        None => "充电状态未知"@,
    }
}

pub open spec fn saver_text(saver: Option<bool>) -> Seq<char> {
    match saver {
        Some(true) => "省电开启"@,
        Some(false) => "省电关闭"@,
        None => "省电状态未知"@,
    }
}

/// The first line: level, source, charging and saver.
pub open spec fn basic_text(power: Result<PowerStatus, String>) -> Seq<char> {
    match power {
        Err(e) => "电源状态读取失败："@ + e@,
        Ok(p) => level_text(p) + "  ·  "@ + source_text(p.ac_online) + "  ·  "@ + charging_text(
            p.charging,
        ) + "  ·  "@ + saver_text(p.saver),
    }
}

/// The whole number `v` as a double-precision number.
pub open spec fn whole_signed(v: int) -> Double {
    if v < 0 {
        signed(true, whole((-v) as nat).magnitude())
    } else {
        whole(v as nat)
    }
}

pub open spec fn state_text(charging: bool, discharging: bool) -> Seq<char> {
    if charging && discharging {
        "状态不一致"@
    } else if charging {
        "充电"@
    } else if discharging {
        "放电"@
    } else {
        "未充放电"@
    }
}

pub open spec fn flow_text(flow: Result<BatteryFlow, String>) -> Seq<char> {
    match flow {
        Err(e) => "功率读取失败："@ + e@,
        Ok(f) => if !f.present {
            "无系统电池"@
        } else {
            match f.milliwatts {
                Some(v) => state_text(f.charging, f.discharging) + " "@ + fixed(
                    over(whole_signed(v as int), whole(1000)),
                    100,
                    true,
                ) + " W"@,
                None => state_text(f.charging, f.discharging) + " · 功率未报告"@,
            }
        },
    }
}

pub open spec fn remaining_text(power: Result<PowerStatus, String>) -> Seq<char> {
    match power {
        Ok(p) if p.remaining_seconds is Some => {
            let s = p.remaining_seconds->0;
            "预计续航 "@ + decimal((s / 3600) as nat) + "h "@ + two_digits((s % 3600 / 60) as nat)
                + "m"@
        },
        _ => "剩余续航 —"@,
    }
}

/// The second line: flow and remaining time.
pub open spec fn detail_text(b: BatterySnapshot) -> Seq<char> {
    "电池侧："@ + flow_text(b.flow) + "  ·  "@ + remaining_text(b.power)
}

fn basic_label(power: &Result<PowerStatus, String>) -> (r: String)
    ensures
        r@ == basic_text(*power),
{
    match power {
        Err(e) => {
            let mut r = String::from_str("电源状态读取失败：");
            r.append(e.as_str());
            r
        },
        Ok(p) => {
            let absent: bool = match p.present {
                Some(present) => !present,
                None => false,
            };
            let mut r = if absent {
                String::from_str("无系统电池")
            } else {
                match p.percent {
                    Some(v) => {
                        let mut level = decimal_text(v as u64);
                        level.append("%");
                        level
                    },
                    None => String::from_str("电量未知"),
                }
            };
            r.append("  ·  ");
            r.append(
                match p.ac_online {
                    Some(true) => "外接电源",
                    Some(false) => "电池供电",
                    None => "供电未知",
                },
            );
            r.append("  ·  ");
            r.append(
                match p.charging {
                    Some(true) => "充电中",
                    Some(false) => "未充电",
                    None => "充电状态未知",
                },
            );
            r.append("  ·  ");
            r.append(
                match p.saver {
                    Some(true) => "省电开启",
                    Some(false) => "省电关闭",
                    None => "省电状态未知",
                },
            );
            r
        },
    }
}

fn watts(milliwatts: i32) -> (r: Double)
    ensures
        r == over(whole_signed(milliwatts as int), whole(1000)),
{
    let size: u64 = if milliwatts < 0 {
        (-(milliwatts as i64)) as u64
    } else {
        milliwatts as u64
    };
    proof {
        crate::double::lemma_whole(size as nat);
    }
    let unsigned_number = Double::from_u64(size);
    let number = if milliwatts < 0 {
        Double { bits: crate::double::SIGN + unsigned_number.bits }
    } else {
        unsigned_number
    };
    number.divided_by(Double::from_u64(1000))
}

fn flow_label(flow: &Result<BatteryFlow, String>) -> (r: String)
    ensures
        r@ == flow_text(*flow),
{
    match flow {
        Err(e) => {
            let mut r = String::from_str("功率读取失败：");
            r.append(e.as_str());
            r
        },
        Ok(f) => {
            if !f.present {
                return String::from_str("无系统电池");
            }
            let mut r = String::from_str(
                if f.charging && f.discharging {
                    "状态不一致"
                } else if f.charging {
                    "充电"
                } else if f.discharging {
                    "放电"
                } else {
                    "未充放电"
                },
            );
            match f.milliwatts {
                Some(v) => {
                    r.append(" ");
                    r.append(watts(v).to_fixed(100, true).as_str());
                    r.append(" W");
                },
                None => {
                    r.append(" · 功率未报告");
                },
            }
            r
        },
    }
}

fn remaining_label(power: &Result<PowerStatus, String>) -> (r: String)
    ensures
        r@ == remaining_text(*power),
{
    if let Ok(p) = power {
        if let Some(s) = p.remaining_seconds {
            let mut r = String::from_str("预计续航 ");
            r.append(decimal_text((s / 3600) as u64).as_str());
            r.append("h ");
            r.append(two_digit_text((s % 3600 / 60) as u64).as_str());
            r.append("m");
            return r;
        }
    }
    String::from_str("剩余续航 —")
}

impl BatterySnapshot {
    /// The two lines that both front ends show. On external power without
    /// charging, without a battery, and unknown are told apart.
    pub fn labels(&self) -> (r: (String, String))
        ensures
            r.0@ == basic_text(self.power),
            r.1@ == detail_text(*self),
    {
        let mut detail = String::from_str("电池侧：");
        detail.append(flow_label(&self.flow).as_str());
        detail.append("  ·  ");
        detail.append(remaining_label(&self.power).as_str());
        (basic_label(&self.power), detail)
    }
}

/// Reported power is positive while the battery charges and negative while it
/// discharges, and never both or neither.
pub proof fn power_sign_tells_the_direction(raw: SystemBatteryState)
    requires
        rate_is_known(raw),
    ensures
        signed_rate(raw.rate) > 0 <==> raw.charging,
        signed_rate(raw.rate) < 0 <==> raw.discharging,
        raw.charging != raw.discharging,
        -0x8000_0000 < signed_rate(raw.rate) < 0x8000_0000,
{
}

/// What a power status says, bit by bit: a flag byte of 255 says nothing of the
/// battery, otherwise its highest bit says that there is none, and the bit of
/// weight eight that the one there is charges.
pub proof fn power_is_told_by_its_bits(raw: SystemPowerStatus)
    ensures
        power_said(raw).present is None <==> raw.battery_flag == 255,
        power_said(raw).present == Some(true) <==> raw.battery_flag != 255 && raw.battery_flag
            & 128 == 0,
        power_said(raw).charging == Some(true) <==> raw.battery_flag != 255 && raw.battery_flag
            & 128 == 0 && raw.battery_flag & 8 == 8,
        power_said(raw).charging == Some(false) <==> raw.battery_flag != 255 && raw.battery_flag
            & 128 == 0 && raw.battery_flag & 8 == 0,
        power_said(raw).ac_online == Some(true) <==> raw.ac_line_status == 1,
        power_said(raw).ac_online == Some(false) <==> raw.ac_line_status == 0,
        power_said(raw).saver == Some(true) <==> raw.system_status_flag == 1,
        power_said(raw).saver == Some(false) <==> raw.system_status_flag == 0,
{
    let f = raw.battery_flag;
    assert((f < 128) == (f & 128 == 0)) by (bit_vector);
    assert(((f / 8) % 2 == 1) == (f & 8 == 8)) by (bit_vector);
    assert(f & 8 == 8 || f & 8 == 0) by (bit_vector);
}

/// A level is told as it is reported, up to 100 percent, unless there is no
/// battery; and a remaining time as it is reported, only without external
/// power, unless it is not known or there is no battery.
pub proof fn level_and_time_are_told_as_reported(raw: SystemPowerStatus, percent: u8, seconds: u32)
    ensures
        power_said(raw).percent == Some(percent) <==> percent == raw.battery_life_percent
            && percent <= 100 && (raw.battery_flag == 255 || raw.battery_flag & 128 == 0),
        power_said(raw).remaining_seconds == Some(seconds) <==> seconds == raw.battery_life_time
            && seconds != 0xffff_ffff && raw.ac_line_status == 0 && (raw.battery_flag == 255
            || raw.battery_flag & 128 == 0),
{
    let f = raw.battery_flag;
    assert((f < 128) == (f & 128 == 0)) by (bit_vector);
}

/// Power is told with the bit pattern that is reported, and only with the sign
/// that the direction of flow gives it; the least number stands for an unknown one.
pub proof fn power_is_told_as_reported(raw: SystemBatteryState, milliwatts: i32)
    ensures
        flow_said(raw).milliwatts == Some(milliwatts) <==> milliwatts as u32 == raw.rate
            && milliwatts != -0x8000_0000 && raw.battery_present && ((milliwatts > 0
            && raw.charging && !raw.discharging) || (milliwatts < 0 && raw.discharging
            && !raw.charging)),
        flow_said(raw).present == raw.battery_present,
        flow_said(raw).charging == raw.charging,
        flow_said(raw).discharging == raw.discharging,
{
    assert(milliwatts < 0 ==> milliwatts as u32 == milliwatts + 0x1_0000_0000) by (bit_vector);
    assert(milliwatts >= 0 ==> milliwatts as u32 == milliwatts) by (bit_vector);
}

/// A power in milliwatts is shown in hundredths of a watt, rounded to nearest,
/// with its sign.
pub proof fn watts_are_shown_to_hundredths(milliwatts: i32) -> (digits: (Seq<char>, Seq<char>))
    ensures
        fixed(over(whole_signed(milliwatts as int), whole(1000)), 100, true) == (if milliwatts < 0 {
            seq!['-']
        } else {
            seq!['+']
        }) + digits.0 + seq!['.'] + digits.1,
        all_digits(digits.0),
        all_digits(digits.1),
        digits.1.len() == 2,
        abs(10 * digits_value(digits.0 + digits.1) - abs(milliwatts as int)) <= 5,
{
    let size = abs(milliwatts as int);
    let x = whole_signed(milliwatts as int);
    let u = vstd::arithmetic::power2::pow2(1074);
    crate::double::lemma_whole(size);
    crate::double::lemma_exact(size);
    vstd::arithmetic::power2::lemma_pow2_pos(1074);
    vstd::arithmetic::power2::lemma2_to64_rest();
    assert(abs(x.value()) == size * u);
    assert(x.negative() == (milliwatts < 0));
    let digits = crate::double::shown_quotients_are_nearest(x, 1000, 100, true);
    let n = digits_value(digits.0 + digits.1);
    let e: int = 0x20_0000_0000_0000;
    let d = 1000 * n - 100 * size;
    let a = n * (1000 * u) - 100 * (size * u);
    assert(a == d * u) by (nonlinear_arith)
        requires a == n * (1000 * u) - 100 * (size * u), d == 1000 * n - 100 * size,
    ;
    crate::double::lemma_abs(e, a, e * abs(a));
    let bound = e * 1001 + 200 * size;
    assert(e * (1001 * u) + 2 * (100 * (size * u)) == bound * u) by (nonlinear_arith)
        requires bound == e * 1001 + 200 * size,
    ;
    assert(2 * (e * (d * u)) == (2 * (e * d)) * u) by (nonlinear_arith);
    assert(-bound <= 2 * (e * d) <= bound) by (nonlinear_arith)
        requires -(bound * u) <= (2 * (e * d)) * u <= bound * u, u > 0,
    ;
    digits
}

/// A remaining time is shown in whole hours and minutes, of which the minutes
/// are fewer than 60 and have two digits.
pub proof fn remaining_time_is_shown_in_hours_and_minutes(p: PowerStatus, seconds: u32) -> (shown: (
    nat,
    nat,
))
    requires
        p.remaining_seconds == Some(seconds),
    ensures
        remaining_text(Ok(p)) == "预计续航 "@ + decimal(shown.0) + "h "@ + two_digits(shown.1) + "m"@,
        shown.1 < 60,
        60 * (60 * shown.0 + shown.1) <= seconds < 60 * (60 * shown.0 + shown.1 + 1),
{
    ((seconds / 3600) as nat, (seconds % 3600 / 60) as nat)
}

/// Each word for the source of power, for charging and for the saver is shown
/// in just one state.
pub proof fn words_tell_the_state(flag: Option<bool>)
    ensures
        source_text(flag) == "外接电源"@ <==> flag == Some(true),
        source_text(flag) == "电池供电"@ <==> flag == Some(false),
        source_text(flag) == "供电未知"@ <==> flag is None,
        charging_text(flag) == "充电中"@ <==> flag == Some(true),
        charging_text(flag) == "未充电"@ <==> flag == Some(false),
        charging_text(flag) == "充电状态未知"@ <==> flag is None,
        saver_text(flag) == "省电开启"@ <==> flag == Some(true),
        saver_text(flag) == "省电关闭"@ <==> flag == Some(false),
        saver_text(flag) == "省电状态未知"@ <==> flag is None,
{
    reveal_strlit("外接电源");
    reveal_strlit("电池供电");
    reveal_strlit("供电未知");
    reveal_strlit("充电中");
    reveal_strlit("未充电");
    reveal_strlit("充电状态未知");
    reveal_strlit("省电开启");
    reveal_strlit("省电关闭");
    reveal_strlit("省电状态未知");
    assert("外接电源"@[0] == '外' && "电池供电"@[0] == '电' && "供电未知"@[0] == '供');
    assert("充电中"@[0] == '充' && "未充电"@[0] == '未');
    assert("充电中"@.len() == 3 && "充电状态未知"@.len() == 6);
    assert("省电开启"@.len() == 4 && "省电状态未知"@.len() == 6);
    assert("省电开启"@[2] == '开' && "省电关闭"@[2] == '关');
}

/// Each word for the flow is shown in just one state.
pub proof fn flow_words_tell_the_direction(charging: bool, discharging: bool)
    ensures
        state_text(charging, discharging) == "充电"@ <==> charging && !discharging,
        state_text(charging, discharging) == "放电"@ <==> discharging && !charging,
        state_text(charging, discharging) == "未充放电"@ <==> !charging && !discharging,
        state_text(charging, discharging) == "状态不一致"@ <==> charging && discharging,
{
    reveal_strlit("充电");
    reveal_strlit("放电");
    reveal_strlit("未充放电");
    reveal_strlit("状态不一致");
    assert("充电"@[0] == '充' && "放电"@[0] == '放');
    assert("充电"@.len() == 2 && "未充放电"@.len() == 4 && "状态不一致"@.len() == 5);
    assert("放电"@.len() == 2);
}

/// A level is shown as reported, unless there is no battery or it is not known.
pub proof fn levels_are_shown(p: PowerStatus, percent: u8)
    ensures
        level_text(p) == "无系统电池"@ <==> p.present == Some(false),
        level_text(p) == "电量未知"@ <==> p.present != Some(false) && p.percent is None,
        level_text(p) == decimal(percent as nat) + "%"@ <==> p.present != Some(false) && p.percent
            == Some(percent),
{
    reveal_strlit("无系统电池");
    reveal_strlit("电量未知");
    reveal_strlit("%");
    let shown = decimal(percent as nat) + "%"@;
    assert(shown.last() == '%');
    assert("无系统电池"@.last() == '池' && "电量未知"@.last() == '知');
    if let Some(v) = p.percent {
        let other = decimal(v as nat) + "%"@;
        assert(other.last() == '%');
        if other == shown {
            assert(other.drop_last() =~= decimal(v as nat));
            assert(shown.drop_last() =~= decimal(percent as nat));
            crate::text::numerals_tell_numbers_apart(v as nat, percent as nat);
        }
    }
}

/// The first line shows the level, the source, the charging and the saver, in
/// this order, and the second one the flow before the remaining time.
pub proof fn battery_lines_show_each_part_in_its_place(p: PowerStatus, b: BatterySnapshot)
    ensures
        (level_text(p) + "  ·  "@ + source_text(p.ac_online) + "  ·  "@).is_prefix_of(
            basic_text(Ok(p)),
        ),
        ("  ·  "@ + charging_text(p.charging) + "  ·  "@ + saver_text(p.saver)).is_suffix_of(
            basic_text(Ok(p)),
        ),
        ("电池侧："@ + flow_text(b.flow)).is_prefix_of(detail_text(b)),
        remaining_text(b.power).is_suffix_of(detail_text(b)),
{
    let t = basic_text(Ok(p));
    let x = level_text(p) + "  ·  "@ + source_text(p.ac_online) + "  ·  "@;
    let y = "  ·  "@ + charging_text(p.charging) + "  ·  "@ + saver_text(p.saver);
    assert(t.subrange(0, x.len() as int) =~= x);
    assert(t.subrange(t.len() - y.len(), t.len() as int) =~= y);
    let d = detail_text(b);
    let f = "电池侧："@ + flow_text(b.flow);
    let r = remaining_text(b.power);
    assert(d.subrange(0, f.len() as int) =~= f);
    assert(d.subrange(d.len() - r.len(), d.len() as int) =~= r);
}

/// A flow shows its direction and its power in watts, or that none is reported,
/// where there is a battery.
pub proof fn flows_show_direction_and_power(f: BatteryFlow)
    ensures
        !f.present ==> flow_text(Ok(f)) == "无系统电池"@,
        f.present && f.milliwatts is None ==> flow_text(Ok(f)) == state_text(
            f.charging,
            f.discharging,
        ) + " · 功率未报告"@,
        f.present ==> (f.milliwatts matches Some(v) ==> flow_text(Ok(f)) == state_text(
            f.charging,
            f.discharging,
        ) + " "@ + fixed(over(whole_signed(v as int), whole(1000)), 100, true) + " W"@),
{
}

} // verus!
