//! Network interfaces: choosing one, and measuring its throughput.
use crate::clock::{elapsed, Moment, SECOND};
use crate::cpu::usable_gap;
use crate::double::{self, over, plus, whole, Double};
use crate::error::{Error, ErrorKind};
use crate::sampling::MAX_SAMPLE_GAP;
use crate::text::{
    all_digits, bool_str, bool_text, before_zero, decimal, decimal_text, decode_utf16, digits_value,
    hex, hex_text, lowercase, lowercased, quote, quoted, same, texts, utf16,
};
use crate::magnitude::lemma_steps_monotone;
use crate::rounding::steps;
use vstd::arithmetic::power2::{lemma_pow2_adds, lemma_pow2_pos, pow2};
use vstd::math::abs;
use vstd::prelude::*;
use vstd::std_specs::cmp::PartialEqSpecImpl;

verus! {

pub const STATUS_UP: i32 = 1;

pub const STATUS_DOWN: i32 = 2;

pub const STATUS_TESTING: i32 = 3;

pub const STATUS_UNKNOWN: i32 = 4;

pub const STATUS_DORMANT: i32 = 5;

pub const STATUS_NOT_PRESENT: i32 = 6;

pub const STATUS_LOWER_LAYER_DOWN: i32 = 7;

/// The interface type of wireless networks.
pub const TYPE_WIFI: u32 = 71;

#[derive(Debug)]
pub struct InterfaceSnapshot {
    /// Identifies the interface from sample to sample; the index can change.
    pub luid: u64,
    pub index: u32,
    pub name: String,
    pub description: String,
    pub is_hardware: bool,
    pub is_wifi: bool,
    pub oper_status: i32,
    pub received_bytes: u64,
    pub sent_bytes: u64,
}

/// One row of the system's interface table.
pub struct InterfaceRow {
    pub luid: u64,
    pub index: u32,
    /// Zero-terminated UTF-16.
    pub alias: Vec<u16>,
    /// Zero-terminated UTF-16.
    pub description: Vec<u16>,
    /// Eight flags, of which the lowest marks hardware.
    pub flags: u8,
    pub interface_type: u32,
    pub oper_status: i32,
    pub received_bytes: u64,
    pub sent_bytes: u64,
}

/// What a row of the interface table says.
pub fn snapshot_of(row: &InterfaceRow) -> (r: InterfaceSnapshot)
    ensures
        r.luid == row.luid,
        r.index == row.index,
        r.name@ == decode_utf16(before_zero(row.alias@)),
        r.description@ == decode_utf16(before_zero(row.description@)),
        r.is_hardware == (row.flags % 2 == 1),
        r.is_wifi == (row.interface_type == TYPE_WIFI),
        r.is_hardware <==> row.flags & 1 == 1,
        r.is_wifi <==> row.interface_type == 71,
        r.oper_status == row.oper_status,
        r.received_bytes == row.received_bytes,
        r.sent_bytes == row.sent_bytes,
{
    proof {
        let flags = row.flags;
        assert((flags % 2 == 1) == (flags & 1 == 1)) by (bit_vector);
    }
    InterfaceSnapshot {
        luid: row.luid,
        index: row.index,
        name: utf16(row.alias.as_slice()),
        description: utf16(row.description.as_slice()),
        is_hardware: row.flags % 2 == 1,
        is_wifi: row.interface_type == TYPE_WIFI,
        oper_status: row.oper_status,
        received_bytes: row.received_bytes,
        sent_bytes: row.sent_bytes,
    }
}

pub open spec fn status_text(state: i32) -> Seq<char> {
    if state == STATUS_UP {
        "Up（可传输）"@
    } else if state == STATUS_DOWN {
        "Down（不可传输）"@
    } else if state == STATUS_TESTING {
        "Testing（测试中）"@
    } else if state == STATUS_UNKNOWN {
        "Unknown（未知）"@
    } else if state == STATUS_DORMANT {
        "Dormant（等待连接）"@
    } else if state == STATUS_NOT_PRESENT {
        "NotPresent（设备不在场）"@
    } else if state == STATUS_LOWER_LAYER_DOWN {
        "LowerLayerDown（下层断开）"@
    } else {
        "未知状态"@
    }
}

pub fn status_label(state: i32) -> (r: &'static str)
    ensures
        r@ == status_text(state),
{
    if state == STATUS_UP {
        "Up（可传输）"
    } else if state == STATUS_DOWN {
        "Down（不可传输）"
    } else if state == STATUS_TESTING {
        "Testing（测试中）"
    } else if state == STATUS_UNKNOWN {
        "Unknown（未知）"
    } else if state == STATUS_DORMANT {
        "Dormant（等待连接）"
    } else if state == STATUS_NOT_PRESENT {
        "NotPresent（设备不在场）"
    } else if state == STATUS_LOWER_LAYER_DOWN {
        "LowerLayerDown（下层断开）"
    } else {
        "未知状态"
    }
}

/// Only physical wireless interfaces can be chosen.
pub open spec fn candidate(i: InterfaceSnapshot) -> bool {
    i.is_hardware && i.is_wifi
}

/// The only candidate is the one at `at`.
pub open spec fn sole_candidate(interfaces: Seq<InterfaceSnapshot>, at: int) -> bool {
    &&& 0 <= at < interfaces.len()
    &&& candidate(interfaces[at])
    &&& forall|j: int| 0 <= j < interfaces.len() && candidate(interfaces[j]) ==> j == at
}

/// The first candidate of which `names` says `wanted` is the one at `at`.
pub open spec fn first_named(
    interfaces: Seq<InterfaceSnapshot>,
    names: Seq<Seq<char>>,
    wanted: Seq<char>,
    at: int,
) -> bool {
    &&& 0 <= at < interfaces.len()
    &&& candidate(interfaces[at]) && names[at] == wanted
    &&& forall|j: int|
        0 <= j < at ==> !(candidate(#[trigger] interfaces[j]) && names[j] == wanted)
}

/// The lowercase names of the interfaces.
pub open spec fn folded_names(interfaces: Seq<InterfaceSnapshot>) -> Seq<Seq<char>> {
    interfaces.map_values(|i: InterfaceSnapshot| lowercased(i.name@))
}

/// The only candidate, if there is just one.
pub fn find_sole(interfaces: &[InterfaceSnapshot]) -> (r: Option<usize>)
    ensures
        match r {
            Some(at) => sole_candidate(interfaces@, at as int),
            None => forall|at: int| !sole_candidate(interfaces@, at),
        },
{
    let mut found: Option<usize> = None;
    let mut i: usize = 0;
    while i < interfaces.len()
        invariant
            i <= interfaces.len(),
            match found {
                Some(at) => at < i && candidate(interfaces@[at as int]) && forall|j: int|
                    0 <= j < i && candidate(interfaces@[j]) ==> j == at,
                None => forall|j: int| 0 <= j < i ==> !candidate(#[trigger] interfaces@[j]),
            },
        decreases interfaces.len() - i,
    {
        if interfaces[i].is_hardware && interfaces[i].is_wifi {
            match found {
                Some(at) => {
                    assert forall|k: int| !sole_candidate(interfaces@, k) by {
                        if sole_candidate(interfaces@, k) {
                            assert(candidate(interfaces@[at as int]));
                            assert(candidate(interfaces@[i as int]));
                        }
                    }
                    return None;
                },
                None => {
                    found = Some(i);
                },
            }
        }
        i = i + 1;
    }
    found
}

/// The first candidate whose entry in `names` is `wanted`.
pub fn find_named(interfaces: &[InterfaceSnapshot], names: &[String], wanted: &str) -> (r: Option<
    usize,
>)
    requires
        names.len() == interfaces.len(),
    ensures
        match r {
            Some(at) => first_named(
                interfaces@,
                texts(names@),
                wanted@,
                at as int,
            ),
            None => forall|at: int|
                !first_named(interfaces@, texts(names@), wanted@, at),
        },
{
    let ghost said = texts(names@);
    let mut i: usize = 0;
    while i < interfaces.len()
        invariant
            i <= interfaces.len(),
            names.len() == interfaces.len(),
            said == texts(names@),
            forall|j: int|
                0 <= j < i ==> !(candidate(#[trigger] interfaces@[j]) && said[j] == wanted@),
        decreases interfaces.len() - i,
    {
        if interfaces[i].is_hardware && interfaces[i].is_wifi && same(names[i].as_str(), wanted) {
            return Some(i);
        }
        i = i + 1;
    }
    None
}

/// Chooses an interface: the first physical wireless one of the requested
/// name, letter case aside, or else the only physical wireless one.
pub fn select_interface<'a>(
    interfaces: &'a [InterfaceSnapshot],
    requested_name: Option<&str>,
) -> (r: Result<Option<&'a InterfaceSnapshot>, Error>)
    ensures
        match requested_name {
            Some(name) => match r {
                Ok(Some(chosen)) => exists|at: int|
                    first_named(
                        interfaces@,
                        folded_names(interfaces@),
                        lowercased(name@),
                        at,
                    ) && *chosen == interfaces@[at],
                Ok(None) => false,
                Err(e) => e.says(
                    ErrorKind::NotFound,
                    "未找到名为 "@ + quoted(name@) + " 的物理 WLAN 接口"@,
                ) && forall|at: int|
                    !first_named(
                        interfaces@,
                        folded_names(interfaces@),
                        lowercased(name@),
                        at,
                    ),
            },
            None => match r {
                Ok(Some(chosen)) => exists|at: int|
                    sole_candidate(interfaces@, at) && *chosen == interfaces@[at],
                Ok(None) => forall|at: int| !sole_candidate(interfaces@, at),
                Err(_) => false,
            },
        },
{
    match requested_name {
        Some(name) => {
            let wanted = lowercase(name);
            let mut names: Vec<String> = Vec::new();
            let mut i: usize = 0;
            while i < interfaces.len()
                invariant
                    i <= interfaces.len(),
                    names.len() == i,
                    forall|j: int| 0 <= j < i ==> names@[j]@ == lowercased(interfaces@[j].name@),
                decreases interfaces.len() - i,
            {
                names.push(lowercase(interfaces[i].name.as_str()));
                i = i + 1;
            }
            assert(texts(names@) =~= folded_names(interfaces@));
            match find_named(interfaces, names.as_slice(), wanted.as_str()) {
                Some(at) => Ok(Some(&interfaces[at])),
                None => {
                    let mut message = String::from_str("未找到名为 ");
                    message.append(quote(name).as_str());
                    message.append(" 的物理 WLAN 接口");
                    Err(Error::new(ErrorKind::NotFound, message))
                },
            }
        },
        None => match find_sole(interfaces) {
            Some(at) => Ok(Some(&interfaces[at])),
            None => Ok(None),
        },
    }
}

/// What the list of interfaces says of one of them.
pub open spec fn entry_text(i: InterfaceSnapshot) -> Seq<char> {
    i.name@ + " — "@ + i.description@ + "\n  LUID=0x"@ + hex(i.luid as nat, 16, false) + "  index="@
        + decimal(i.index as nat) + "  "@ + status_text(i.oper_status) + "  硬件="@ + bool_text(
        i.is_hardware,
    ) + "  WLAN="@ + bool_text(i.is_wifi) + "\n  接收="@ + decimal(i.received_bytes as nat)
        + " B  发送="@ + decimal(i.sent_bytes as nat) + " B\n"@
}

fn entry(i: &InterfaceSnapshot) -> (r: String)
    ensures
        r@ == entry_text(*i),
{
    let mut r = String::from_str(i.name.as_str());
    r.append(" — ");
    r.append(i.description.as_str());
    r.append("\n  LUID=0x");
    r.append(hex_text(i.luid, 16, false).as_str());
    r.append("  index=");
    r.append(decimal_text(i.index as u64).as_str());
    r.append("  ");
    r.append(status_label(i.oper_status));
    r.append("  硬件=");
    r.append(bool_str(i.is_hardware));
    r.append("  WLAN=");
    r.append(bool_str(i.is_wifi));
    r.append("\n  接收=");
    r.append(decimal_text(i.received_bytes).as_str());
    r.append(" B  发送=");
    r.append(decimal_text(i.sent_bytes).as_str());
    r.append(" B\n");
    r
}

/// The entries of the interfaces, one after the other.
pub open spec fn entries_text(interfaces: Seq<InterfaceSnapshot>) -> Seq<char>
    decreases interfaces.len(),
{
    if interfaces.len() == 0 {
        seq![]
    } else {
        entries_text(interfaces.drop_last()) + entry_text(interfaces.last())
    }
}

/// What the list of interfaces says at its end.
pub open spec fn choice_text(interfaces: Seq<InterfaceSnapshot>) -> Seq<char> {
    if exists|at: int| sole_candidate(interfaces, at) {
        let chosen = interfaces[choose|at: int| sole_candidate(interfaces, at)];
        "\n本次选择："@ + chosen.name@ + "（"@ + chosen.description@ + "），LUID=0x"@ + hex(
            chosen.luid as nat,
            16,
            false,
        ) + "\n"@
    } else {
        "\n没有唯一的物理 WLAN 接口；可用 --interface 名称 明确选择。\n"@
    }
}

/// The list of interfaces and the choice that is made without a name.
pub fn interface_report(interfaces: &[InterfaceSnapshot]) -> (r: String)
    ensures
        r@ == "网络接口快照：累计字节，不是实时速度\n\n"@ + entries_text(interfaces@) + choice_text(
            interfaces@,
        ),
{
    let mut r = String::from_str("网络接口快照：累计字节，不是实时速度\n\n");
    let ghost head = r@;
    let mut i: usize = 0;
    assert(interfaces@.take(0) =~= seq![]);
    assert(r@ =~= head + entries_text(interfaces@.take(0)));
    while i < interfaces.len()
        invariant
            i <= interfaces.len(),
            r@ == head + entries_text(interfaces@.take(i as int)),
        decreases interfaces.len() - i,
    {
        let ghost next = interfaces@.take(i + 1);
        assert(next.drop_last() =~= interfaces@.take(i as int));
        r.append(entry(&interfaces[i]).as_str());
        assert(r@ =~= head + entries_text(next));
        i = i + 1;
    }
    assert(interfaces@.take(i as int) =~= interfaces@);
    match find_sole(interfaces) {
        Some(at) => {
            r.append("\n本次选择：");
            r.append(interfaces[at].name.as_str());
            r.append("（");
            r.append(interfaces[at].description.as_str());
            r.append("），LUID=0x");
            r.append(hex_text(interfaces[at].luid, 16, false).as_str());
            r.append("\n");
            proof {
                let k = choose|k: int| sole_candidate(interfaces@, k);
                assert(sole_candidate(interfaces@, at as int));
                assert(k == at);
                assert(r@ =~= head + entries_text(interfaces@) + choice_text(interfaces@));
            }
        },
        None => {
            r.append("\n没有唯一的物理 WLAN 接口；可用 --interface 名称 明确选择。\n");
        },
    }
    r
}

#[derive(Debug, Clone, Copy)]
pub enum NetworkUsage {
    NotSelected,
    Pending,
    Disconnected,
    Unavailable,
    Transfer { download_bytes_per_sec: Double, upload_bytes_per_sec: Double },
}

impl PartialEq for NetworkUsage {
    fn eq(&self, other: &NetworkUsage) -> (r: bool) {
        match (self, other) {
            (NetworkUsage::NotSelected, NetworkUsage::NotSelected) => true,
            (NetworkUsage::Pending, NetworkUsage::Pending) => true,
            (NetworkUsage::Disconnected, NetworkUsage::Disconnected) => true,
            (NetworkUsage::Unavailable, NetworkUsage::Unavailable) => true,
            (
                NetworkUsage::Transfer { download_bytes_per_sec: a, upload_bytes_per_sec: b },
                NetworkUsage::Transfer { download_bytes_per_sec: c, upload_bytes_per_sec: d },
            ) => *a == *c && *b == *d,
            _ => false,
        }
    }
}

/// Usages are equal if their rates are equal as numbers.
impl PartialEqSpecImpl for NetworkUsage {
    open spec fn obeys_eq_spec() -> bool {
        true
    }

    open spec fn eq_spec(&self, other: &NetworkUsage) -> bool {
        match (*self, *other) {
            (NetworkUsage::NotSelected, NetworkUsage::NotSelected) => true,
            (NetworkUsage::Pending, NetworkUsage::Pending) => true,
            (NetworkUsage::Disconnected, NetworkUsage::Disconnected) => true,
            (NetworkUsage::Unavailable, NetworkUsage::Unavailable) => true,
            (
                NetworkUsage::Transfer { download_bytes_per_sec: a, upload_bytes_per_sec: b },
                NetworkUsage::Transfer { download_bytes_per_sec: c, upload_bytes_per_sec: d },
            ) => a.equals(c) && b.equals(d),
            _ => false,
        }
    }
}

/// The cumulative counters of one reading.
#[derive(Debug, Clone, Copy, PartialEq, Eq, Structural)]
pub struct Counters {
    pub at: Moment,
    pub received: u64,
    pub sent: u64,
}

/// Measures one chosen interface.
#[derive(Debug)]
pub struct NetworkSampler {
    last: Option<Counters>,
}

/// A time span in seconds.
pub open spec fn seconds(nanos: u64) -> Double {
    plus(
        whole((nanos / SECOND) as nat),
        over(whole((nanos % SECOND) as nat), whole(SECOND as nat)),
    )
}

pub fn seconds_of(nanos: u64) -> (r: Double)
    ensures
        r == seconds(nanos),
{
    proof {
        double::lemma_whole((nanos / SECOND) as nat);
        double::ratios_stay_within_one((nanos % SECOND) as nat, SECOND as nat);
    }
    let part = Double::from_u64(nanos % SECOND).divided_by(Double::from_u64(SECOND));
    Double::from_u64(nanos / SECOND).increase(part)
}

/// The counters of an interface that is up.
pub open spec fn counters(interface: InterfaceSnapshot, at: Moment) -> Counters {
    Counters { at, received: interface.received_bytes, sent: interface.sent_bytes }
}

/// The usage that a reading gives after the last one.
pub open spec fn usage(
    last: Option<Counters>,
    interface: Option<&InterfaceSnapshot>,
    at: Moment,
) -> NetworkUsage {
    match interface {
        None => NetworkUsage::Unavailable,
        Some(now) => if now.oper_status != STATUS_UP {
            NetworkUsage::Disconnected
        } else {
            match last {
                Some(before) if usable_gap(at, before.at) && before.received <= now.received_bytes
                    && before.sent <= now.sent_bytes => {
                    let span = seconds(elapsed(at, before.at));
                    NetworkUsage::Transfer {
                        download_bytes_per_sec: over(
                            whole((now.received_bytes - before.received) as nat),
                            span,
                        ),
                        upload_bytes_per_sec: over(
                            whole((now.sent_bytes - before.sent) as nat),
                            span,
                        ),
                    }
                },
                _ => NetworkUsage::Pending,
            }
        },
    }
}

/// The baseline that a reading leaves: an interface that is not up leaves none.
pub open spec fn next_baseline(interface: Option<&InterfaceSnapshot>, at: Moment) -> Option<
    Counters,
> {
    match interface {
        Some(now) if now.oper_status == STATUS_UP => Some(counters(*now, at)),
        _ => None,
    }
}

impl NetworkSampler {
    /// The last counters, from which the next ones are measured.
    pub closed spec fn baseline(&self) -> Option<Counters> {
        self.last
    }

    /// Forgets the last counters.
    pub fn reset(&mut self)
        ensures
            final(self).baseline() is None,
    {
        self.last = None;
    }

    /// Measures against the last counters.
    pub fn update(&mut self, interface: Option<&InterfaceSnapshot>, at: Moment) -> (r: NetworkUsage)
        ensures
            r == usage(old(self).baseline(), interface, at),
            final(self).baseline() == next_baseline(interface, at),
    {
        match interface {
            None => {
                self.reset();
                NetworkUsage::Unavailable
            },
            Some(now) => {
                if now.oper_status != STATUS_UP {
                    self.reset();
                    return NetworkUsage::Disconnected;
                }
                let last = self.last;
                self.last = Some(
                    Counters { at, received: now.received_bytes, sent: now.sent_bytes },
                );
                match last {
                    None => NetworkUsage::Pending,
                    Some(before) => {
                        let gap: u64 = at.since(before.at);
                        if gap == 0 || gap > MAX_SAMPLE_GAP {
                            return NetworkUsage::Pending;
                        }
                        if now.received_bytes < before.received || now.sent_bytes < before.sent {
                            return NetworkUsage::Pending;
                        }
                        let span = seconds_of(gap);
                        let received: u64 = now.received_bytes - before.received;
                        let sent: u64 = now.sent_bytes - before.sent;
                        NetworkUsage::Transfer {
                            download_bytes_per_sec: Double::from_u64(received).divided_by(span),
                            upload_bytes_per_sec: Double::from_u64(sent).divided_by(span),
                        }
                    },
                }
            },
        }
    }
}

impl Default for NetworkSampler {
    fn default() -> (r: NetworkSampler)
        ensures
            r.baseline() is None,
    {
        NetworkSampler { last: None }
    }
}

/// A time span of at least a nanosecond is at least `2^-30` seconds.
proof fn lemma_span(nanos: u64)
    requires
        nanos > 0,
    ensures
        seconds(nanos).bits <= double::INFINITE,
        steps(seconds(nanos).magnitude(), double::LEAD as nat) >= pow2(1044),
{
    let l = double::LEAD as nat;
    let t = double::TOP as nat;
    let a = whole((nanos / SECOND) as nat).magnitude();
    let rest = (nanos % SECOND) as nat;
    let part = over(whole(rest), whole(SECOND as nat));
    let b = part.magnitude();
    double::lemma_whole((nanos / SECOND) as nat);
    double::lemma_whole(rest);
    double::lemma_whole(SECOND as nat);
    double::ratios_stay_within_one(rest, SECOND as nat);
    double::lemma_power(0);
    double::lemma_power(-30);
    double::lemma_power(30);
    let tiny = (double::ONE - 30 * double::LEAD) as nat;
    lemma_pow2_pos(1044);
    if nanos >= SECOND {
        lemma_steps_monotone(double::ONE as nat, a, l);
        vstd::arithmetic::power2::lemma_pow2_strictly_increases(1044, 1074);
    } else {
        let x = whole(rest).magnitude();
        let y = whole(SECOND as nat).magnitude();
        lemma_steps_monotone(double::ONE as nat, x, l);
        // 10^9 is less than 2^30.
        double::lemma_whole_ordered(SECOND as nat, 0x4000_0000);
        lemma_pow2_adds(1074, 30);
        vstd::arithmetic::power2::lemma2_to64();
        assert(0x4000_0000 * pow2(1074) == pow2(1104)) by (nonlinear_arith)
            requires pow2(1104) == pow2(1074) * pow2(30), pow2(30) == 0x4000_0000,
        ;
        lemma_steps_monotone(y, (double::ONE + 30 * double::LEAD) as nat, l);
        lemma_pow2_adds(1044, 1104);
        lemma_pow2_adds(1074, 1074);
        assert(pow2(1044) * steps(y, l) <= steps(x, l) * pow2(1074)) by (nonlinear_arith)
            requires
                steps(y, l) <= pow2(1104),
                pow2(1074) <= steps(x, l),
                pow2(1044) * pow2(1104) == pow2(1074) * pow2(1074),
                pow2(1074) >= 0,
                pow2(1044) >= 0,
        ;
        lemma_steps_monotone(0, y, l);
        crate::magnitude::rounding_keeps_order(
            pow2(1044),
            1,
            steps(x, l) * pow2(1074),
            steps(y, l),
            l,
            t,
        );
        lemma_steps_monotone(tiny, b, l);
    }
    crate::magnitude::rounding_keeps_order(
        pow2(1044),
        1,
        steps(a, l) + steps(b, l),
        1,
        l,
        t,
    );
    lemma_steps_monotone(tiny, seconds(nanos).magnitude(), l);
}

/// Throughput is a finite number that is not negative.
pub proof fn throughput_is_finite(
    last: Option<Counters>,
    interface: Option<&InterfaceSnapshot>,
    at: Moment,
)
    ensures
        usage(last, interface, at) matches NetworkUsage::Transfer {
            download_bytes_per_sec,
            upload_bytes_per_sec,
        } ==> download_bytes_per_sec.bits < double::INFINITE && upload_bytes_per_sec.bits
            < double::INFINITE,
{
    if let NetworkUsage::Transfer { .. } = usage(last, interface, at) {
        let before = last->0;
        let now = interface->0;
        let gap = elapsed(at, before.at);
        lemma_rate((now.received_bytes - before.received) as nat, gap);
        lemma_rate((now.sent_bytes - before.sent) as nat, gap);
    }
}

proof fn lemma_rate(bytes: nat, nanos: u64)
    requires
        bytes <= u64::MAX,
        0 < nanos <= MAX_SAMPLE_GAP,
    ensures
        over(whole(bytes), seconds(nanos)).bits < double::INFINITE,
{
    let l = double::LEAD as nat;
    let t = double::TOP as nat;
    lemma_span(nanos);
    lemma_finite_span(nanos);
    double::lemma_whole(bytes);
    double::lemma_power(94);
    double::lemma_power(64);
    let x = whole(bytes).magnitude();
    let y = seconds(nanos).magnitude();
    let unit = pow2(1074);
    lemma_pow2_pos(1074);
    lemma_pow2_adds(1074, 64);
    vstd::arithmetic::power2::lemma2_to64_rest();
    assert(bytes * unit <= pow2(1138)) by (nonlinear_arith)
        requires bytes <= pow2(64), pow2(1138) == unit * pow2(64), unit > 0,
    ;
    crate::magnitude::rounding_keeps_order(bytes * unit, 1, pow2(1138), 1, l, t);
    lemma_steps_monotone(x, (double::ONE + 64 * double::LEAD) as nat, l);
    lemma_pow2_adds(1138, 1074);
    lemma_pow2_adds(1168, 1044);
    lemma_pow2_pos(1168);
    lemma_pow2_pos(1044);
    assert(steps(x, l) * unit * 1 <= pow2(1168) * steps(y, l)) by (nonlinear_arith)
        requires
            steps(x, l) <= pow2(1138),
            pow2(1044) <= steps(y, l),
            pow2(1138) * unit == pow2(1168) * pow2(1044),
            pow2(1168) > 0,
            unit > 0,
    ;
    crate::magnitude::rounding_keeps_order(steps(x, l) * unit, steps(y, l), pow2(1168), 1, l, t);
}

/// A usable span is a finite number of seconds.
proof fn lemma_finite_span(nanos: u64)
    requires
        nanos <= MAX_SAMPLE_GAP,
    ensures
        seconds(nanos).bits < double::INFINITE,
{
    let l = double::LEAD as nat;
    let t = double::TOP as nat;
    let a = whole((nanos / SECOND) as nat).magnitude();
    let rest = (nanos % SECOND) as nat;
    let b = over(whole(rest), whole(SECOND as nat)).magnitude();
    double::lemma_whole_ordered((nanos / SECOND) as nat, 2);
    double::ratios_stay_within_one(rest, SECOND as nat);
    double::lemma_power(0);
    double::lemma_power(1);
    double::lemma_power(2);
    vstd::arithmetic::power2::lemma_pow2_unfold(1075);
    vstd::arithmetic::power2::lemma_pow2_unfold(1076);
    lemma_steps_monotone(a, (double::ONE + double::LEAD) as nat, l);
    lemma_steps_monotone(b, double::ONE as nat, l);
    crate::magnitude::rounding_keeps_order(
        steps(a, l) + steps(b, l),
        1,
        pow2(1076),
        1,
        l,
        t,
    );
}

/// The nearest number to a count of nanoseconds, in seconds, below one second.
proof fn lemma_part_close(rest: nat)
    requires
        rest < 1_000_000_000,
    ensures
        ({
            let q = steps(over(whole(rest), whole(1_000_000_000)).magnitude(), double::LEAD as nat);
            let u = pow2(1074);
            &&& -(rest * u) <= (2 * double::LEAD) * (q * 1_000_000_000 - rest * u) <= rest * u
            &&& q * 1_000_000_000 <= 2 * (rest * u)
        }),
{
    let g: nat = 1_000_000_000;
    let u = pow2(1074);
    let l = double::LEAD as nat;
    let e = (2 * l) as int;
    let x = over(whole(rest), whole(g));
    let q = steps(x.magnitude(), l);
    double::lemma_whole(rest);
    double::lemma_whole(g);
    double::lemma_exact(rest);
    double::lemma_exact(g);
    double::lemma_whole_close(g);
    double::ratios_stay_within_one(rest, g);
    vstd::arithmetic::power2::lemma2_to64_rest();
    let d = q * g - rest * u;
    if rest > 0 {
        assert((rest * u) * u >= l * (g * u)) by (nonlinear_arith)
            requires
                rest >= 1,
                u >= pow2(200),
                pow2(200) >= 0x100_0000 * l * pow2(64),
                pow2(64) >= g,
                u > 0,
                l > 0,
                g > 0,
        ;
        assert(g * u > 0) by (nonlinear_arith)
            requires g > 0, u > 0,
        ;
        crate::magnitude::rounding_is_close((rest * u) * u, g * u, l, double::TOP as nat);
        assert(q * (g * u) - (rest * u) * u == d * u) by (nonlinear_arith)
            requires d == q * g - rest * u,
        ;
        double::lemma_abs(e, d * u, ((rest * u) * u) as int);
        let ru = (rest * u) as int;
        assert(-ru <= e * d <= ru) by (nonlinear_arith)
            requires -(ru * u) <= e * (d * u) <= ru * u, u > 0,
        ;
        assert(d <= ru) by (nonlinear_arith)
            requires e * d <= ru, e >= 1, ru >= 0,
        ;
    } else {
        double::quotients_at_the_ends(g);
        assert(steps(0, l) == 0);
        assert(0 * u == 0 && e * 0 == 0);
    }
}

/// Every span is a finite number of seconds.
proof fn lemma_any_span_is_finite(nanos: u64)
    ensures
        seconds(nanos).bits < double::INFINITE,
{
    let l = double::LEAD as nat;
    let u = pow2(1074);
    let s = (nanos / SECOND) as nat;
    let rest = (nanos % SECOND) as nat;
    let b = over(whole(rest), whole(SECOND as nat)).magnitude();
    double::lemma_whole(s);
    double::lemma_exact(s);
    double::ratios_stay_within_one(rest, SECOND as nat);
    double::lemma_power(0);
    double::lemma_power(64);
    lemma_pow2_pos(1074);
    lemma_pow2_adds(1074, 64);
    vstd::arithmetic::power2::lemma2_to64_rest();
    lemma_steps_monotone(b, double::ONE as nat, l);
    assert(s * u + u <= pow2(1138)) by (nonlinear_arith)
        requires s + 1 <= pow2(64), pow2(1138) == u * pow2(64), u > 0,
    ;
    crate::magnitude::rounding_keeps_order(
        s * u + steps(b, l),
        1,
        pow2(1138),
        1,
        l,
        double::TOP as nat,
    );
}

/// A span in seconds is the count of nanoseconds over a billion, but for rounding.
proof fn lemma_seconds_close(nanos: u64)
    ensures
        seconds(nanos).bits < double::INFINITE,
        ({
            let span = steps(seconds(nanos).magnitude(), double::LEAD as nat);
            let u = pow2(1074);
            -(3 * (nanos * u)) <= (2 * double::LEAD) * (span * 1_000_000_000 - nanos * u) <= 3 * (
            nanos * u)
        }),
        nanos <= 2_500_000_000 ==> steps(seconds(nanos).magnitude(), double::LEAD as nat) <= 8
            * pow2(1074),
{
    let g: nat = 1_000_000_000;
    let u = pow2(1074);
    let l = double::LEAD as nat;
    let e = (2 * l) as int;
    let s = (nanos / SECOND) as nat;
    let n = (nanos % SECOND) as nat;
    let q = steps(over(whole(n), whole(g)).magnitude(), l);
    let span = steps(seconds(nanos).magnitude(), l);
    double::lemma_whole(s);
    double::lemma_exact(s);
    double::ratios_stay_within_one(n, g);
    lemma_part_close(n);
    lemma_any_span_is_finite(nanos);
    lemma_pow2_pos(1074);
    double::lemma_power(0);
    lemma_steps_monotone(over(whole(n), whole(g)).magnitude(), double::ONE as nat, l);
    let p = s * u + q;
    crate::magnitude::rounding_is_close(p, 1, l, double::TOP as nat);
    let f = span - p;
    assert(-p <= e * f <= p) by {
        if p >= l {
            double::lemma_abs(e, f, p as int);
        } else {
            assert(f == 0);
            assert(e * 0 == 0);
        }
    }
    if nanos <= 2_500_000_000 {
        assert(s * u <= 2 * u) by (nonlinear_arith)
            requires s <= 2, u > 0,
        ;
    }
    assert(f <= p) by (nonlinear_arith)
        requires e * f <= p, e >= 1, p >= 0,
    ;
    let d = q * g - n * u;
    let h = span * g - nanos * u;
    assert(h == f * g + d) by (nonlinear_arith)
        requires
            h == span * g - nanos * u,
            f == span - (s * u + q),
            d == q * g - n * u,
            nanos == s * g + n,
    ;
    assert(e * h == (e * f) * g + e * d) by (nonlinear_arith)
        requires h == f * g + d,
    ;
    assert(nanos * u == (s * u) * g + n * u) by (nonlinear_arith)
        requires nanos == s * g + n,
    ;
    assert(s * u >= 0) by (nonlinear_arith);
    assert(n * u >= 0) by (nonlinear_arith);
}

/// What a rate is off by: its own rounding, and that of both sides.
proof fn lemma_rate_error(
    e: int,
    u: int,
    g: int,
    nanos: int,
    bytes: int,
    w: int,
    span: int,
    rate: int,
)
    requires
        e >= 64,
        u > 0,
        g > 0,
        nanos > 0,
        bytes >= 0,
        span > 0,
        rate >= 0,
        w >= 0,
        -(bytes * u) <= e * (w - bytes * u) <= bytes * u,
        -(3 * (nanos * u)) <= e * (span * g - nanos * u) <= 3 * (nanos * u),
        -(w * u) <= e * (rate * span - w * u) <= w * u,
    ensures
        -(27 * ((bytes * g) * u)) <= e * (rate * nanos - (bytes * g) * u) <= 27 * ((bytes * g) * u),
{
    let bu = bytes * u;
    let nu = nanos * u;
    let wu = w * u;
    let cb = w - bu;
    let cs = span * g - nu;
    let cr = rate * span - wu;
    assert(bu >= 0) by (nonlinear_arith)
        requires bu == bytes * u, bytes >= 0, u > 0,
    ;
    assert(nu > 0) by (nonlinear_arith)
        requires nu == nanos * u, nanos > 0, u > 0,
    ;
    assert(w <= 2 * bu) by (nonlinear_arith)
        requires e * (w - bu) <= bu, e >= 1, bu >= 0,
    ;
    assert(wu >= 0 && wu <= 2 * (bu * u)) by (nonlinear_arith)
        requires wu == w * u, 0 <= w <= 2 * bu, u > 0,
    ;
    assert(rate * span <= 2 * wu) by (nonlinear_arith)
        requires e * (rate * span - wu) <= wu, e >= 1, wu >= 0,
    ;
    assert(nu <= 2 * (span * g)) by (nonlinear_arith)
        requires -(3 * nu) <= e * (span * g - nu), e >= 64, nu > 0,
    ;
    let rn = rate * nu;
    assert(rn <= 2 * ((rate * span) * g)) by (nonlinear_arith)
        requires rn == rate * nu, nu <= 2 * (span * g), rate >= 0,
    ;
    let big = (bu * u) * g;
    assert(big >= 0) by (nonlinear_arith)
        requires big == (bu * u) * g, bu >= 0, u > 0, g > 0,
    ;
    assert((rate * span) * g <= 4 * big) by (nonlinear_arith)
        requires rate * span <= 2 * wu, wu <= 2 * (bu * u), big == (bu * u) * g, g > 0,
    ;
    // rate * nanos * u, the rounding taken apart.
    let d = rate * nanos - (bytes * g) * u;
    assert(d * u == g * (cb * u) + g * cr - rate * cs) by {
        assert(rate * cs == (rate * span) * g - rate * nu) by (nonlinear_arith)
            requires cs == span * g - nu,
        ;
        assert(g * cr == (rate * span) * g - g * wu) by (nonlinear_arith)
            requires cr == rate * span - wu,
        ;
        assert(g * (cb * u) == g * wu - big) by (nonlinear_arith)
            requires cb == w - bu, wu == w * u, big == (bu * u) * g,
        ;
        assert(d * u == rate * nu - big) by (nonlinear_arith)
            requires
                d == rate * nanos - (bytes * g) * u,
                nu == nanos * u,
                big == (bu * u) * g,
                bu == bytes * u,
        ;
    }
    assert((e * d) * u == e * (d * u)) by (nonlinear_arith);
    assert(e * (g * (cb * u) + g * cr - rate * cs) == e * (g * (cb * u)) + e * (g * cr) - e * (rate
        * cs)) by (nonlinear_arith);
    assert(e * (g * (cb * u)) == ((e * cb) * u) * g) by (nonlinear_arith);
    assert(e * (g * cr) == (e * cr) * g) by (nonlinear_arith);
    assert(e * (rate * cs) == rate * (e * cs)) by (nonlinear_arith);
    assert(-big <= ((e * cb) * u) * g <= big) by (nonlinear_arith)
        requires -bu <= e * cb <= bu, u > 0, g > 0, big == (bu * u) * g,
    ;
    assert(-(2 * big) <= (e * cr) * g <= 2 * big) by (nonlinear_arith)
        requires -wu <= e * cr <= wu, 0 <= wu <= 2 * (bu * u), g > 0, big == (bu * u) * g,
    ;
    assert(-(3 * rn) <= rate * (e * cs) <= 3 * rn) by (nonlinear_arith)
        requires -(3 * nu) <= e * cs <= 3 * nu, rate >= 0, rn == rate * nu,
    ;
    let b2 = (bytes * g) * u;
    assert(big == b2 * u) by (nonlinear_arith)
        requires big == (bu * u) * g, bu == bytes * u, b2 == (bytes * g) * u,
    ;
    assert(-(27 * b2) <= e * d <= 27 * b2) by (nonlinear_arith)
        requires -(27 * (b2 * u)) <= (e * d) * u <= 27 * (b2 * u), u > 0,
    ;
}

/// Bytes over a span, as a rate for each second.
proof fn lemma_rate_close(bytes: nat, nanos: u64)
    requires
        bytes <= u64::MAX,
        0 < nanos <= 2_500_000_000,
    ensures
        over(whole(bytes), seconds(nanos)).bits < double::INFINITE,
        pow2(48) * abs(
            over(whole(bytes), seconds(nanos)).value() * nanos - bytes * 1_000_000_000 * pow2(1074),
        ) <= bytes * 1_000_000_000 * pow2(1074),
{
    let g: nat = 1_000_000_000;
    let u = pow2(1074);
    let l = double::LEAD as nat;
    let e = (2 * l) as int;
    let x = over(whole(bytes), seconds(nanos));
    let w = steps(whole(bytes).magnitude(), l);
    let span = steps(seconds(nanos).magnitude(), l);
    let rate = steps(x.magnitude(), l);
    lemma_rate(bytes, nanos);
    lemma_span(nanos);
    lemma_finite_span(nanos);
    lemma_seconds_close(nanos);
    lemma_pow2_pos(1044);
    lemma_pow2_pos(1074);
    double::lemma_whole(bytes);
    double::lemma_whole_close(bytes);
    vstd::arithmetic::power2::lemma2_to64_rest();
    if bytes > 0 {
        assert(w * u >= l * span) by (nonlinear_arith)
            requires
                w >= u,
                span <= 8 * u,
                u >= pow2(200),
                pow2(200) >= 0x100_0000 * l * pow2(64),
                pow2(64) >= 8,
                l > 0,
                u > 0,
        ;
        crate::magnitude::rounding_is_close(w * u, span, l, double::TOP as nat);
    } else {
        assert(0 * u == 0);
        crate::magnitude::rounding_is_close(0, span, l, double::TOP as nat);
        assert(rate * span == 0) by (nonlinear_arith)
            requires 2 * (rate * span) <= span, span > 0, rate >= 0,
        ;
        assert(e * 0 == 0);
    }
    double::lemma_abs(e, w - bytes * u, (bytes * u) as int);
    double::lemma_abs(e, rate * span - w * u, (w * u) as int);
    lemma_rate_error(
        e,
        u as int,
        g as int,
        nanos as int,
        bytes as int,
        w as int,
        span as int,
        rate as int,
    );
    let b = (bytes * g * u) as int;
    let d = rate * nanos - b;
    assert(e == 32 * pow2(48));
    assert((32 * pow2(48)) * d == 32 * (pow2(48) * d)) by (nonlinear_arith);
    assert(pow2(48) * (-d) == -(pow2(48) * d)) by (nonlinear_arith);
    assert(b >= 0) by (nonlinear_arith)
        requires b == bytes * g * u,
    ;
    assert(x.value() == rate);
}

/// There is a throughput if the interface is up, as it was at the last reading,
/// the clock went on by at most two and a half seconds, and no counter went back.
pub proof fn throughput_needs_a_usable_interval(
    last: Option<Counters>,
    interface: Option<&InterfaceSnapshot>,
    at: Moment,
)
    ensures
        usage(last, interface, at) is Unavailable <==> interface is None,
        usage(last, interface, at) is Disconnected <==> interface is Some
            && interface->0.oper_status != 1,
        usage(last, interface, at) is Transfer <==> interface is Some && last is Some
            && interface->0.oper_status == 1 && last->0.at.nanos < at.nanos <= last->0.at.nanos
            + 2_500_000_000 && last->0.received <= interface->0.received_bytes && last->0.sent
            <= interface->0.sent_bytes,
        usage(last, interface, at) !is NotSelected,
{
}

/// A throughput is what a counter went on by, for each second between the
/// readings: the rate times the nanoseconds is the bytes times a billion, but
/// for less than its `2^-48`th part. Rates are counted in units of `2^-1074`.
pub proof fn throughput_is_bytes_for_each_second(
    before: Counters,
    now: &InterfaceSnapshot,
    at: Moment,
    download: Double,
    upload: Double,
)
    requires
        usage(Some(before), Some(now), at) == (NetworkUsage::Transfer {
            download_bytes_per_sec: download,
            upload_bytes_per_sec: upload,
        }),
    ensures
        ({
            let nanos = at.nanos - before.at.nanos;
            let received = now.received_bytes - before.received;
            let sent = now.sent_bytes - before.sent;
            &&& pow2(48) * abs(
                download.value() * nanos - received * 1_000_000_000 * pow2(1074),
            ) <= received * 1_000_000_000 * pow2(1074)
            &&& pow2(48) * abs(upload.value() * nanos - sent * 1_000_000_000 * pow2(1074)) <= sent
                * 1_000_000_000 * pow2(1074)
        }),
        download.value() >= 0,
        upload.value() >= 0,
        now.received_bytes == before.received ==> download.value() == 0,
        now.sent_bytes == before.sent ==> upload.value() == 0,
{
    let nanos = elapsed(at, before.at);
    let received = (now.received_bytes - before.received) as nat;
    let sent = (now.sent_bytes - before.sent) as nat;
    lemma_rate_close(received, nanos);
    lemma_rate_close(sent, nanos);
    vstd::arithmetic::power2::lemma2_to64_rest();
    lemma_nothing(download.value(), nanos as int, received as int);
    lemma_nothing(upload.value(), nanos as int, sent as int);
}

/// No bytes leave no rate.
proof fn lemma_nothing(rate: int, nanos: int, bytes: int)
    requires
        rate >= 0,
        nanos > 0,
        pow2(48) > 0,
        pow2(48) * abs(rate * nanos - bytes * 1_000_000_000 * pow2(1074)) <= bytes * 1_000_000_000
            * pow2(1074),
    ensures
        bytes == 0 ==> rate == 0,
{
    if bytes == 0 {
        let p = rate * nanos;
        assert(0 * pow2(1074) == 0);
        assert(p >= 0) by (nonlinear_arith)
            requires p == rate * nanos, rate >= 0, nanos > 0,
        ;
        assert(p == 0) by (nonlinear_arith)
            requires pow2(48) * p <= 0, p >= 0, pow2(48) > 0,
        ;
        assert(rate == 0) by (nonlinear_arith)
            requires rate * nanos == 0, nanos > 0,
        ;
    }
}

/// The download is a matter of the received bytes and the time alone, and the
/// upload of the sent bytes and the time alone.
pub proof fn directions_stand_alone(
    before: Counters,
    now: &InterfaceSnapshot,
    at: Moment,
    other_before: Counters,
    other: &InterfaceSnapshot,
    other_at: Moment,
)
    requires
        usage(Some(before), Some(now), at) is Transfer,
        usage(Some(other_before), Some(other), other_at) is Transfer,
        at.nanos - before.at.nanos == other_at.nanos - other_before.at.nanos,
    ensures
        now.received_bytes - before.received == other.received_bytes - other_before.received ==> usage(
            Some(before),
            Some(now),
            at,
        )->download_bytes_per_sec == usage(
            Some(other_before),
            Some(other),
            other_at,
        )->download_bytes_per_sec,
        now.sent_bytes - before.sent == other.sent_bytes - other_before.sent ==> usage(
            Some(before),
            Some(now),
            at,
        )->upload_bytes_per_sec == usage(
            Some(other_before),
            Some(other),
            other_at,
        )->upload_bytes_per_sec,
        now.received_bytes - before.received == other.sent_bytes - other_before.sent ==> usage(
            Some(before),
            Some(now),
            at,
        )->download_bytes_per_sec == usage(
            Some(other_before),
            Some(other),
            other_at,
        )->upload_bytes_per_sec,
{
}

/// Without a name, an interface is chosen if it is physical and wireless and no
/// other one is; with a name, it is the first physical wireless one whose
/// lowercase name is the wanted one.
pub proof fn only_physical_wireless_interfaces_are_chosen(
    interfaces: Seq<InterfaceSnapshot>,
    names: Seq<Seq<char>>,
    wanted: Seq<char>,
    at: int,
)
    ensures
        sole_candidate(interfaces, at) <==> 0 <= at < interfaces.len()
            && interfaces[at].is_hardware && interfaces[at].is_wifi && forall|j: int|
            0 <= j < interfaces.len() && j != at ==> !((#[trigger] interfaces[j]).is_hardware
                && interfaces[j].is_wifi),
        first_named(interfaces, names, wanted, at) <==> 0 <= at < interfaces.len()
            && interfaces[at].is_hardware && interfaces[at].is_wifi && names[at] == wanted
            && forall|j: int|
            0 <= j < at && (#[trigger] interfaces[j]).is_hardware && interfaces[j].is_wifi
                ==> names[j] != wanted,
{
}

/// The lowercase names are those of the interfaces, one for one.
pub proof fn names_are_lowered_one_for_one(interfaces: Seq<InterfaceSnapshot>, i: int)
    requires
        0 <= i < interfaces.len(),
    ensures
        folded_names(interfaces).len() == interfaces.len(),
        folded_names(interfaces)[i] == lowercased(interfaces[i].name@),
{
}

/// The list ends with the interface that is chosen without a name, if there is
/// just one physical wireless one, and says so otherwise.
pub proof fn the_list_ends_with_the_choice(interfaces: Seq<InterfaceSnapshot>, at: int)
    ensures
        0 <= at < interfaces.len() && interfaces[at].is_hardware && interfaces[at].is_wifi && (
        forall|j: int|
            0 <= j < interfaces.len() && j != at ==> !((#[trigger] interfaces[j]).is_hardware
                && interfaces[j].is_wifi)) ==> choice_text(interfaces) == "\n本次选择："@
            + interfaces[at].name@ + "（"@ + interfaces[at].description@ + "），LUID=0x"@ + hex(
            interfaces[at].luid as nat,
            16,
            false,
        ) + "\n"@,
        (forall|j: int|
            0 <= j < interfaces.len() ==> !((#[trigger] interfaces[j]).is_hardware
                && interfaces[j].is_wifi)) ==> choice_text(interfaces)
            == "\n没有唯一的物理 WLAN 接口；可用 --interface 名称 明确选择。\n"@,
{
    if sole_candidate(interfaces, at) {
        let k = choose|k: int| sole_candidate(interfaces, k);
        assert(k == at);
    }
}

/// The entry of an interface starts with its name and its description, and ends
/// with the received and the sent bytes, in this order.
pub proof fn entries_show_each_part_in_its_place(i: InterfaceSnapshot)
    ensures
        (i.name@ + " — "@ + i.description@ + "\n"@).is_prefix_of(entry_text(i)),
        ("\n  接收="@ + decimal(i.received_bytes as nat) + " B  发送="@ + decimal(
            i.sent_bytes as nat,
        ) + " B\n"@).is_suffix_of(entry_text(i)),
{
    reveal_strlit("\n");
    reveal_strlit("\n  LUID=0x");
    let t = entry_text(i);
    let a = i.name@ + " — "@ + i.description@ + "\n"@;
    assert(t.subrange(0, a.len() as int) =~= a);
    let b = "\n  接收="@ + decimal(i.received_bytes as nat) + " B  发送="@ + decimal(
        i.sent_bytes as nat,
    ) + " B\n"@;
    assert(t.subrange(t.len() - b.len(), t.len() as int) =~= b);
}

/// The entries are those of the interfaces, in their order.
pub proof fn entries_follow_one_another(a: Seq<InterfaceSnapshot>, b: Seq<InterfaceSnapshot>)
    ensures
        entries_text(a + b) == entries_text(a) + entries_text(b),
        a.len() == 1 ==> entries_text(a) == entry_text(a[0]),
    decreases b.len(),
{
    if a.len() == 1 {
        assert(a.drop_last() =~= seq![]);
        assert(entries_text(a.drop_last()) =~= seq![]);
        assert(entries_text(a) =~= entry_text(a[0]));
    }
    if b.len() == 0 {
        assert(a + b =~= a);
        assert(entries_text(a) + entries_text(b) =~= entries_text(a));
    } else {
        entries_follow_one_another(a, b.drop_last());
        assert((a + b).drop_last() =~= a + b.drop_last());
        assert(entries_text(a + b) =~= entries_text(a) + entries_text(b));
    }
}

/// A time span is shown in tenths of a second, rounded to nearest but for less
/// than seven microseconds.
pub proof fn spans_are_shown_in_tenths_of_seconds(nanos: u64) -> (digits: (Seq<char>, Seq<char>))
    ensures
        double::fixed(seconds(nanos), 10, false) == digits.0 + seq!['.'] + digits.1,
        all_digits(digits.0),
        all_digits(digits.1),
        digits.1.len() == 1,
        2 * abs(digits_value(digits.0 + digits.1) * 100_000_000 - nanos) <= 100_012_288,
{
    let u = pow2(1074);
    let g: int = 1_000_000_000;
    let e: int = 0x20_0000_0000_0000;
    let span = steps(seconds(nanos).magnitude(), double::LEAD as nat);
    lemma_seconds_close(nanos);
    lemma_pow2_pos(1074);
    let digits = double::decimals_are_nearest(seconds(nanos), 10, false);
    assert(double::fixed(seconds(nanos), 10, false) =~= digits.0 + seq!['.'] + digits.1);
    let n = digits_value(digits.0 + digits.1);
    assert(abs(seconds(nanos).value()) * 10 == 10 * span);
    let a = n * u - 10 * span;
    let b = span * g - nanos * u;
    let d = n * g - 10 * nanos;
    assert(d * u == g * a + 10 * b) by (nonlinear_arith)
        requires
            d == n * g - 10 * nanos,
            a == n * u - 10 * span,
            b == span * g - nanos * u,
    ;
    assert(2 * (e * (d * u)) == g * (2 * (e * a)) + 20 * (e * b)) by (nonlinear_arith)
        requires d * u == g * a + 10 * b,
    ;
    assert(-(e * u) <= 2 * (e * a) <= e * u) by (nonlinear_arith)
        requires -u <= 2 * a <= u, e > 0,
    ;
    let bound = e * g + 60 * nanos;
    assert(g * (e * u) + 60 * (nanos * u) == bound * u) by (nonlinear_arith)
        requires bound == e * g + 60 * nanos,
    ;
    assert(2 * (e * (d * u)) == (2 * (e * d)) * u) by (nonlinear_arith);
    assert(-bound <= 2 * (e * d) <= bound) by (nonlinear_arith)
        requires -(bound * u) <= (2 * (e * d)) * u <= bound * u, u > 0,
    ;
    digits
}

/// Each word for the state of an interface is shown for just one number.
pub proof fn status_words_tell_the_state(state: i32)
    ensures
        status_text(state) == "Up（可传输）"@ <==> state == 1,
        status_text(state) == "Down（不可传输）"@ <==> state == 2,
        status_text(state) == "Testing（测试中）"@ <==> state == 3,
        status_text(state) == "Unknown（未知）"@ <==> state == 4,
        status_text(state) == "Dormant（等待连接）"@ <==> state == 5,
        status_text(state) == "NotPresent（设备不在场）"@ <==> state == 6,
        status_text(state) == "LowerLayerDown（下层断开）"@ <==> state == 7,
        status_text(state) == "未知状态"@ <==> state < 1 || state > 7,
{
    reveal_strlit("Up（可传输）");
    reveal_strlit("Down（不可传输）");
    reveal_strlit("Testing（测试中）");
    reveal_strlit("Unknown（未知）");
    reveal_strlit("Dormant（等待连接）");
    reveal_strlit("NotPresent（设备不在场）");
    reveal_strlit("LowerLayerDown（下层断开）");
    reveal_strlit("未知状态");
    assert("Up（可传输）"@[0] == 'U' && "Up（可传输）"@[1] == 'p');
    assert("Down（不可传输）"@[0] == 'D' && "Down（不可传输）"@[2] == 'w');
    assert("Testing（测试中）"@[0] == 'T');
    assert("Unknown（未知）"@[0] == 'U' && "Unknown（未知）"@[1] == 'n');
    assert("Dormant（等待连接）"@[0] == 'D' && "Dormant（等待连接）"@[2] == 'r');
    assert("NotPresent（设备不在场）"@[0] == 'N');
    assert("LowerLayerDown（下层断开）"@[0] == 'L');
    assert("未知状态"@[0] == '未');
}

} // verus!
