//! NVMe disks: finding one, and reading its health.
//!
//! Descriptors are read byte by byte. All their integers are little-endian.
use crate::clock::SECOND;
use crate::double::{fixed, minus, whole, Double};
use crate::error::{Error, ErrorKind};
use crate::text::{
    all_digits, ascii_lowercase, chars_of, decimal, decimal_text, hex, hex_text, is_white,
    occurs_at, stands_at, text_of, to_ascii_lowercase, trim_both, trimmed, utf8_lossy, utf8_text,
};
use vstd::arithmetic::power2::{lemma_pow2_adds, lemma_pow2_pos, pow2};
use vstd::math::abs;
use vstd::prelude::*;
use vstd::slice::slice_subrange;

verus! {

/// Nanoseconds between two readings.
pub const INTERVAL: u64 = 30 * SECOND;

/// Nanoseconds after which a reading is stale.
pub const STALE_AFTER: u64 = 75 * SECOND;

/// The size of the health log.
pub const SMART_LOG_BYTES: u32 = 512;

/// The size of the buffer for the health query and its reply.
pub const BUFFER_BYTES: u32 = 1024;

/// The size of the buffer for a device descriptor.
pub const DEVICE_BUFFER_BYTES: u32 = 4096;

/// The log page that holds the health log.
pub const SMART_LOG_PAGE: u32 = 2;

/// Drives are looked for under the numbers below this one.
pub const MAX_DRIVE_INDEX: u32 = 64;

/// The size of the protocol part of a request or a reply.
pub const PROTOCOL_BYTES: u32 = 40;

/// The size of a protocol reply's descriptor: a version, a size and the protocol part.
pub const PROTOCOL_DESCRIPTOR_BYTES: u32 = 48;

/// Where the protocol part stands in the descriptor.
pub const PROTOCOL_START: u32 = 8;

/// The size of the fixed part of a device descriptor.
pub const DEVICE_FIXED_BYTES: u32 = 36;

pub const VENDOR_OFFSET_AT: usize = 12;

pub const PRODUCT_OFFSET_AT: usize = 16;

pub const BUS_TYPE_AT: usize = 28;

pub const BUS_TYPE_NVME: u32 = 17;

pub const PROTOCOL_TYPE_NVME: u32 = 3;

pub const DATA_TYPE_LOG_PAGE: u32 = 2;

pub const PROPERTY_PROTOCOL_SPECIFIC: u32 = 50;

pub const QUERY_STANDARD: u32 = 0;

/// The number 273.15.
pub const ZERO_CELSIUS: u64 = 0x4071_1266_6666_6666;

pub const ERROR_FILE_NOT_FOUND: i32 = 2;

pub const ERROR_PATH_NOT_FOUND: i32 = 3;

#[derive(Debug, PartialEq, Eq)]
pub struct DiskDevice {
    pub path: String,
    pub name: String,
}

impl Clone for DiskDevice {
    fn clone(&self) -> (r: DiskDevice)
        ensures
            r == *self,
    {
        DiskDevice { path: self.path.clone(), name: self.name.clone() }
    }
}

#[derive(Debug, Clone, Copy)]
pub struct SmartHealth {
    pub critical_warning: u8,
    pub temperature_c: Double,
    pub available_spare_percent: u8,
    pub spare_threshold_percent: u8,
    pub percentage_used: u8,
}

pub open spec fn health_text(h: SmartHealth) -> Seq<char> {
    "温度 "@ + fixed(h.temperature_c, 10, false) + "°C  ·  备用空间 "@ + decimal(
        h.available_spare_percent as nat,
    ) + "%"@
}

pub open spec fn wear_text(h: SmartHealth) -> Seq<char> {
    "已用寿命估计 "@ + decimal(h.percentage_used as nat) + "%  ·  备用阈值 "@ + decimal(
        h.spare_threshold_percent as nat,
    ) + "%  ·  警告 0x"@ + hex(h.critical_warning as nat, 2, true)
}

impl SmartHealth {
    pub fn labels(&self) -> (r: (String, String))
        ensures
            r.0@ == health_text(*self),
            r.1@ == wear_text(*self),
    {
        let mut health = String::from_str("温度 ");
        health.append(self.temperature_c.to_fixed(10, false).as_str());
        health.append("°C  ·  备用空间 ");
        health.append(decimal_text(self.available_spare_percent as u64).as_str());
        health.append("%");
        let mut wear = String::from_str("已用寿命估计 ");
        wear.append(decimal_text(self.percentage_used as u64).as_str());
        wear.append("%  ·  备用阈值 ");
        wear.append(decimal_text(self.spare_threshold_percent as u64).as_str());
        wear.append("%  ·  警告 0x");
        wear.append(hex_text(self.critical_warning as u64, 2, true).as_str());
        (health, wear)
    }
}

/// A failure that the content of a reply gives.
fn invalid(message: &str) -> (r: Error)
    ensures
        r.says(ErrorKind::InvalidData, message@),
{
    Error::new(ErrorKind::InvalidData, String::from_str(message))
}

/// The four bytes from `at` on as a number.
pub open spec fn le32(bytes: Seq<u8>, at: int) -> u32 {
    (bytes[at] + 0x100 * bytes[at + 1] + 0x1_0000 * bytes[at + 2] + 0x100_0000 * bytes[at
        + 3]) as u32
}

/// The four bytes from `at` on as a number.
pub fn read_u32(bytes: &[u8], at: usize) -> (r: Result<u32, Error>)
    requires
        at <= usize::MAX - 4,
    ensures
        match r {
            Ok(n) => at + 4 <= bytes@.len() && n == le32(bytes@, at as int),
            Err(e) => at + 4 > bytes@.len() && e.says(ErrorKind::InvalidData, "设备描述符被截断"@),
        },
{
    if at + 4 > bytes.len() {
        return Err(invalid("设备描述符被截断"));
    }
    Ok(
        bytes[at] as u32 + 0x100 * (bytes[at + 1] as u32) + 0x1_0000 * (bytes[at + 2] as u32)
            + 0x100_0000 * (bytes[at + 3] as u32),
    )
}

/// The position of the first zero, or the length if there is none.
pub open spec fn zero_at(bytes: Seq<u8>) -> int
    decreases bytes.len(),
{
    if bytes.len() == 0 || bytes[0] == 0 {
        0
    } else {
        1 + zero_at(bytes.skip(1))
    }
}

/// The zero-terminated text at the offset `at`; the offset zero stands for no text.
pub open spec fn string_said(bytes: Seq<u8>, at: u32) -> Result<Seq<char>, Seq<char>> {
    if at == 0 {
        Ok(seq![])
    } else if at > bytes.len() {
        Err("设备字符串偏移超出描述符"@)
    } else {
        let rest = bytes.skip(at as int);
        let end = zero_at(rest);
        if end == rest.len() {
            Err("设备字符串缺少终止符"@)
        } else {
            Ok(trim_both(utf8_lossy(rest.take(end))))
        }
    }
}

proof fn lemma_zero_at(bytes: Seq<u8>, n: int)
    requires
        0 <= n <= bytes.len(),
        forall|j: int| 0 <= j < n ==> bytes[j] != 0,
        n < bytes.len() ==> bytes[n] == 0,
    ensures
        zero_at(bytes) == n,
    decreases n,
{
    if n > 0 {
        lemma_zero_at(bytes.skip(1), n - 1);
    }
}

/// Reads the zero-terminated text at an offset.
pub fn descriptor_string(bytes: &[u8], at: u32) -> (r: Result<String, Error>)
    ensures
        match (r, string_said(bytes@, at)) {
            (Ok(s), Ok(said)) => s@ == said,
            (Err(e), Err(said)) => e.says(ErrorKind::InvalidData, said),
            _ => false,
        },
{
    if at == 0 {
        let r = String::new();
        assert(r@ =~= seq![]);
        return Ok(r);
    }
    let start: usize = at as usize;
    if start > bytes.len() {
        return Err(invalid("设备字符串偏移超出描述符"));
    }
    let rest = slice_subrange(bytes, start, bytes.len());
    assert(rest@ =~= bytes@.skip(at as int));
    let mut end: usize = 0;
    while end < rest.len() && rest[end] != 0
        invariant
            end <= rest.len(),
            forall|j: int| 0 <= j < end ==> rest@[j] != 0,
        decreases rest.len() - end,
    {
        end = end + 1;
    }
    proof {
        lemma_zero_at(rest@, end as int);
    }
    if end == rest.len() {
        return Err(invalid("设备字符串缺少终止符"));
    }
    let text = utf8_text(slice_subrange(rest, 0, end));
    assert(rest@.subrange(0, end as int) =~= rest@.take(end as int));
    Ok(text_of(trimmed(chars_of(text.as_str()).as_slice()).as_slice()))
}

/// The name that a vendor and a product make.
pub open spec fn device_name_text(vendor: Seq<char>, product: Seq<char>) -> Seq<char> {
    let name = trim_both(vendor + " "@ + product);
    if name.len() == 0 {
        "未命名 NVMe"@
    } else {
        name
    }
}

/// The name that a vendor and a product make.
pub fn device_name(vendor: &str, product: &str) -> (r: String)
    ensures
        r@ == device_name_text(vendor@, product@),
{
    let mut joined = String::from_str(vendor);
    joined.append(" ");
    joined.append(product);
    let name = trimmed(chars_of(joined.as_str()).as_slice());
    if name.len() == 0 {
        String::from_str("未命名 NVMe")
    } else {
        text_of(name.as_slice())
    }
}

/// The name of the NVMe device that a descriptor is of, nothing for another
/// bus, or what is wrong with the descriptor.
pub open spec fn device_said(bytes: Seq<u8>) -> Result<Option<Seq<char>>, Seq<char>> {
    if bytes.len() < DEVICE_FIXED_BYTES {
        Err("设备描述符短于固定字段"@)
    } else {
        let version = le32(bytes, 0);
        let size = le32(bytes, 4);
        if version < DEVICE_FIXED_BYTES || size < DEVICE_FIXED_BYTES || size > bytes.len() {
            Err("设备描述符版本或大小无效"@)
        } else if le32(bytes, BUS_TYPE_AT as int) != BUS_TYPE_NVME {
            Ok(None)
        } else {
            let own = bytes.take(size as int);
            match string_said(own, le32(bytes, VENDOR_OFFSET_AT as int)) {
                Err(message) => Err(message),
                Ok(vendor) => match string_said(own, le32(bytes, PRODUCT_OFFSET_AT as int)) {
                    Err(message) => Err(message),
                    Ok(product) => Ok(Some(device_name_text(vendor, product))),
                },
            }
        }
    }
}

/// Whether a reading of a device descriptor is what it says.
pub open spec fn is_device_reading(
    r: Result<Option<String>, Error>,
    said: Result<Option<Seq<char>>, Seq<char>>,
) -> bool {
    match (r, said) {
        (Ok(Some(name)), Ok(Some(text))) => name@ == text,
        (Ok(None), Ok(None)) => true,
        (Err(e), Err(message)) => e.says(ErrorKind::InvalidData, message),
        _ => false,
    }
}

/// Reads a device descriptor.
pub fn parse_device(bytes: &[u8]) -> (r: Result<Option<String>, Error>)
    ensures
        is_device_reading(r, device_said(bytes@)),
{
    if bytes.len() < DEVICE_FIXED_BYTES as usize {
        return Err(invalid("设备描述符短于固定字段"));
    }
    let version: u32 = match read_u32(bytes, 0) {
        Ok(n) => n,
        Err(e) => return Err(e),
    };
    let size: u32 = match read_u32(bytes, 4) {
        Ok(n) => n,
        Err(e) => return Err(e),
    };
    if version < DEVICE_FIXED_BYTES || size < DEVICE_FIXED_BYTES || size as usize > bytes.len() {
        return Err(invalid("设备描述符版本或大小无效"));
    }
    let bus: u32 = match read_u32(bytes, BUS_TYPE_AT) {
        Ok(n) => n,
        Err(e) => return Err(e),
    };
    if bus != BUS_TYPE_NVME {
        return Ok(None);
    }
    let vendor: u32 = match read_u32(bytes, VENDOR_OFFSET_AT) {
        Ok(n) => n,
        Err(e) => return Err(e),
    };
    let product: u32 = match read_u32(bytes, PRODUCT_OFFSET_AT) {
        Ok(n) => n,
        Err(e) => return Err(e),
    };
    let own = slice_subrange(bytes, 0, size as usize);
    assert(own@ =~= bytes@.take(size as int));
    let vendor = match descriptor_string(own, vendor) {
        Ok(s) => s,
        Err(e) => return Err(e),
    };
    let product = match descriptor_string(own, product) {
        Ok(s) => s,
        Err(e) => return Err(e),
    };
    Ok(Some(device_name(vendor.as_str(), product.as_str())))
}

/// Reads the reply to a device query, of which the system says how many bytes it filled.
pub fn read_device_reply(buffer: &[u8], returned: u32) -> (r: Result<Option<String>, Error>)
    requires
        buffer.len() == DEVICE_BUFFER_BYTES,
    ensures
        returned > DEVICE_BUFFER_BYTES ==> r is Err && r->Err_0.says(
            ErrorKind::InvalidData,
            "设备返回的字节数超过输出缓冲区"@,
        ),
        returned <= DEVICE_BUFFER_BYTES ==> is_device_reading(
            r,
            device_said(buffer@.take(returned as int)),
        ),
{
    if returned > DEVICE_BUFFER_BYTES {
        return Err(invalid("设备返回的字节数超过输出缓冲区"));
    }
    let bytes = slice_subrange(buffer, 0, returned as usize);
    assert(bytes@ =~= buffer@.take(returned as int));
    parse_device(bytes)
}

/// What came of opening one drive and asking for its descriptor.
pub enum Probe {
    OpenFailed(Error),
    QueryFailed(Error),
    /// The name of an NVMe device, or nothing for a device on another bus.
    Described(Option<String>),
}

pub open spec fn drive_path_text(index: nat) -> Seq<char> {
    "\\\\.\\PhysicalDrive"@ + decimal(index)
}

/// The path of the drive with a number.
pub fn drive_path(index: u64) -> (r: String)
    ensures
        r@ == drive_path_text(index as nat),
{
    let mut r = String::from_str("\\\\.\\PhysicalDrive");
    r.append(decimal_text(index).as_str());
    r
}

pub open spec fn is_missing(e: Error) -> bool {
    e.os_code == Some(ERROR_FILE_NOT_FOUND) || e.os_code == Some(ERROR_PATH_NOT_FOUND)
}

/// Whether a failure only says that no drive has the number; gaps in the numbers are normal.
pub fn is_missing_drive(error: &Error) -> (r: bool)
    ensures
        r == is_missing(*error),
{
    match error.os_code {
        Some(code) => code == ERROR_FILE_NOT_FOUND || code == ERROR_PATH_NOT_FOUND,
        None => false,
    }
}

/// Disks that were found stand, whatever failed elsewhere; only a scan that
/// found none reports its first failure.
pub fn scan_result(disks: Vec<DiskDevice>, first_error: Option<Error>) -> (r: Result<
    Vec<DiskDevice>,
    Error,
>)
    ensures
        r == (match first_error {
            Some(e) if disks@.len() == 0 => Err::<Vec<DiskDevice>, Error>(e),
            _ => Ok::<Vec<DiskDevice>, Error>(disks),
        }),
{
    match first_error {
        Some(e) => if disks.len() == 0 {
            Err(e)
        } else {
            Ok(disks)
        },
        None => Ok(disks),
    }
}

/// A disk as texts.
pub struct DiskText {
    pub path: Seq<char>,
    pub name: Seq<char>,
}

impl View for DiskDevice {
    type V = DiskText;

    open spec fn view(&self) -> DiskText {
        DiskText { path: self.path@, name: self.name@ }
    }
}

/// The NVMe disks among the drives, whose numbers are their positions.
pub open spec fn found(probes: Seq<Probe>) -> Seq<DiskText>
    decreases probes.len(),
{
    if probes.len() == 0 {
        seq![]
    } else {
        let before = found(probes.drop_last());
        match probes.last() {
            Probe::Described(Some(name)) => before.push(
                DiskText { path: drive_path_text((probes.len() - 1) as nat), name: name@ },
            ),
            _ => before,
        }
    }
}

/// The failure of a probe, unless it only says that there is no such drive.
pub open spec fn failure(probe: Probe) -> Option<Error> {
    match probe {
        Probe::OpenFailed(e) if !is_missing(e) => Some(e),
        Probe::QueryFailed(e) if !is_missing(e) => Some(e),
        _ => None,
    }
}

pub open spec fn first_failure(probes: Seq<Probe>) -> Option<Error>
    decreases probes.len(),
{
    if probes.len() == 0 {
        None
    } else {
        let before = first_failure(probes.drop_last());
        if before is Some {
            before
        } else {
            failure(probes.last())
        }
    }
}

pub open spec fn disk_texts(disks: Seq<DiskDevice>) -> Seq<DiskText> {
    disks.map_values(|d: DiskDevice| d@)
}

/// Lists the NVMe disks among the drives, which were probed in the order of their numbers.
pub fn list_disks(probes: &[Probe]) -> (r: Result<Vec<DiskDevice>, Error>)
    ensures
        match r {
            Ok(disks) => disk_texts(disks@) == found(probes@) && (found(probes@).len() > 0
                || first_failure(probes@) is None),
            Err(e) => found(probes@).len() == 0 && first_failure(probes@) == Some(e),
        },
{
    let mut disks: Vec<DiskDevice> = Vec::new();
    let mut first_error: Option<Error> = None;
    let mut i: usize = 0;
    assert(probes@.take(0) =~= seq![]);
    assert(disk_texts(disks@) =~= seq![]);
    while i < probes.len()
        invariant
            i <= probes.len(),
            disk_texts(disks@) == found(probes@.take(i as int)),
            first_error == first_failure(probes@.take(i as int)),
        decreases probes.len() - i,
    {
        let ghost next = probes@.take(i + 1);
        assert(next.drop_last() =~= probes@.take(i as int));
        let ghost before = disks@;
        match &probes[i] {
            Probe::Described(Some(name)) => {
                disks.push(DiskDevice { path: drive_path(i as u64), name: name.clone() });
                assert(disk_texts(disks@) =~= disk_texts(before).push(disks@.last()@));
            },
            Probe::Described(None) => {},
            Probe::OpenFailed(e) => {
                if first_error.is_none() && !is_missing_drive(e) {
                    first_error = Some(e.clone());
                }
            },
            Probe::QueryFailed(e) => {
                if first_error.is_none() && !is_missing_drive(e) {
                    first_error = Some(e.clone());
                }
            },
        }
        i = i + 1;
    }
    assert(probes@.take(i as int) =~= probes@);
    assert(found(probes@).len() == disks@.len());
    scan_result(disks, first_error)
}

/// Whether a text is the path of a physical drive: the prefix, letter case aside, and a number.
pub open spec fn is_drive_path(path: Seq<char>) -> bool {
    let prefix = "\\\\.\\physicaldrive"@;
    &&& stands_at(prefix, ascii_lowercase(path), 0)
    &&& path.len() > prefix.len()
    &&& forall|i: int| prefix.len() <= i < path.len() ==> '0' <= #[trigger] path[i] <= '9'
}

pub open spec fn drive_path_advice() -> Seq<char> {
    "磁盘路径格式应为 \\\\.\\PhysicalDriveN，例如 \\\\.\\PhysicalDrive0"@
}

/// Refuses what is not the path of a physical drive.
pub fn validate_drive_path(path: &str) -> (r: Result<(), Error>)
    ensures
        match r {
            Ok(()) => is_drive_path(path@),
            Err(e) => !is_drive_path(path@) && e.says(ErrorKind::InvalidInput, drive_path_advice()),
        },
{
    let chars = chars_of(path);
    let lower = to_ascii_lowercase(chars.as_slice());
    let prefix = chars_of("\\\\.\\physicaldrive");
    let mut valid: bool = occurs_at(prefix.as_slice(), lower.as_slice(), 0) && chars.len()
        > prefix.len();
    let mut i: usize = prefix.len();
    while valid && i < chars.len()
        invariant
            prefix.len() <= i,
            valid ==> i <= chars.len() && forall|j: int|
                prefix.len() <= j < i ==> '0' <= #[trigger] chars@[j] <= '9',
            !valid ==> !(stands_at(prefix@, lower@, 0) && chars.len() > prefix.len() && forall|
                j: int,
            |
                prefix.len() <= j < chars.len() ==> '0' <= #[trigger] chars@[j] <= '9'),
            valid ==> stands_at(prefix@, lower@, 0) && chars.len() > prefix.len(),
        decreases chars.len() - i,
    {
        if !('0' <= chars[i] && chars[i] <= '9') {
            valid = false;
        }
        i = i + 1;
    }
    if valid {
        Ok(())
    } else {
        Err(
            Error::new(
                ErrorKind::InvalidInput,
                String::from_str(
                    "磁盘路径格式应为 \\\\.\\PhysicalDriveN，例如 \\\\.\\PhysicalDrive0",
                ),
            ),
        )
    }
}

/// The paths of the drives that have to be probed for a choice.
pub fn drives_to_probe(requested_path: Option<&str>) -> (r: Result<Vec<String>, Error>)
    ensures
        match requested_path {
            Some(path) => match r {
                Ok(paths) => is_drive_path(path@) && paths.len() == 1 && paths@[0]@ == path@,
                Err(e) => !is_drive_path(path@) && e.says(
                    ErrorKind::InvalidInput,
                    drive_path_advice(),
                ),
            },
            None => r is Ok && r->Ok_0.len() == MAX_DRIVE_INDEX && forall|i: int|
                0 <= i < MAX_DRIVE_INDEX ==> (#[trigger] r->Ok_0@[i])@ == drive_path_text(i as nat),
        },
{
    let mut paths: Vec<String> = Vec::new();
    match requested_path {
        Some(path) => match validate_drive_path(path) {
            Ok(()) => {
                paths.push(path.to_owned());
                Ok(paths)
            },
            Err(e) => Err(e),
        },
        None => {
            let mut i: u32 = 0;
            while i < MAX_DRIVE_INDEX
                invariant
                    i <= MAX_DRIVE_INDEX,
                    paths.len() == i,
                    forall|j: int|
                        0 <= j < i ==> (#[trigger] paths@[j])@ == drive_path_text(j as nat),
                decreases MAX_DRIVE_INDEX - i,
            {
                paths.push(drive_path(i as u64));
                i = i + 1;
            }
            Ok(paths)
        },
    }
}

/// Whether `r` is the outcome of asking for the drive at `path`, which was probed.
pub open spec fn is_named_choice(
    r: Result<Option<DiskDevice>, Error>,
    path: Seq<char>,
    probe: Probe,
) -> bool {
    match probe {
        Probe::OpenFailed(e) => r is Err && (if e.kind == ErrorKind::NotFound {
            r->Err_0.says(
                ErrorKind::NotFound,
                "找不到磁盘 "@ + path + "；可用 --list-disks 查看可用设备"@,
            )
        } else {
            r->Err_0.says(e.kind, "打开磁盘 "@ + path + " 失败："@ + e.message@)
        }),
        Probe::QueryFailed(e) => r is Err && r->Err_0.says(
            e.kind,
            "读取磁盘 "@ + path + " 的设备信息失败："@ + e.message@,
        ),
        Probe::Described(None) => r is Err && r->Err_0.says(
            ErrorKind::InvalidInput,
            "磁盘 "@ + path + " 需为 NVMe 设备；可用 --list-disks 查看可用设备"@,
        ),
        Probe::Described(Some(name)) => r matches Ok(Some(disk)) && disk@ == (DiskText {
            path,
            name: name@,
        }),
    }
}

/// Whether `r` is the outcome of looking for the only NVMe disk among the probed drives.
pub open spec fn is_sole_choice(r: Result<Option<DiskDevice>, Error>, probes: Seq<Probe>) -> bool {
    let disks = found(probes);
    match first_failure(probes) {
        Some(e) if disks.len() == 0 => r is Err && r->Err_0.says(
            e.kind,
            "扫描 NVMe 磁盘失败："@ + e.message@,
        ),
        _ => match r {
            Ok(Some(disk)) => disks.len() == 1 && disk@ == disks[0],
            Ok(None) => disks.len() != 1,
            Err(_) => false,
        },
    }
}

/// A message around a path and what follows it.
fn path_message(before: &str, path: &str, after: &str, cause: &str) -> (r: String)
    ensures
        r@ == before@ + path@ + after@ + cause@,
{
    let mut r = String::from_str(before);
    r.append(path);
    r.append(after);
    r.append(cause);
    r
}

fn select_named(path: &str, probe: &Probe) -> (r: Result<Option<DiskDevice>, Error>)
    ensures
        is_named_choice(r, path@, *probe),
{
    proof {
        reveal_strlit("");
        assert(""@ =~= seq![]);
    }
    match probe {
        Probe::OpenFailed(e) => {
            if e.kind == ErrorKind::NotFound {
                let message = path_message(
                    "找不到磁盘 ",
                    path,
                    "；可用 --list-disks 查看可用设备",
                    "",
                );
                assert(message@ =~= "找不到磁盘 "@ + path@
                    + "；可用 --list-disks 查看可用设备"@);
                Err(Error::new(ErrorKind::NotFound, message))
            } else {
                let message = path_message("打开磁盘 ", path, " 失败：", e.message.as_str());
                Err(Error::new(e.kind, message))
            }
        },
        Probe::QueryFailed(e) => {
            let message = path_message(
                "读取磁盘 ",
                path,
                " 的设备信息失败：",
                e.message.as_str(),
            );
            Err(Error::new(e.kind, message))
        },
        Probe::Described(None) => {
            let message = path_message(
                "磁盘 ",
                path,
                " 需为 NVMe 设备；可用 --list-disks 查看可用设备",
                "",
            );
            assert(message@ =~= "磁盘 "@ + path@
                + " 需为 NVMe 设备；可用 --list-disks 查看可用设备"@);
            Err(Error::new(ErrorKind::InvalidInput, message))
        },
        Probe::Described(Some(name)) => Ok(
            Some(DiskDevice { path: path.to_owned(), name: name.clone() }),
        ),
    }
}

/// Chooses a disk: the one at the requested path, or else the only NVMe disk.
/// `probes` are the outcomes for the drives that `drives_to_probe` names.
pub fn select_disk(requested_path: Option<&str>, probes: &[Probe]) -> (r: Result<
    Option<DiskDevice>,
    Error,
>)
    requires
        requested_path matches Some(path) ==> is_drive_path(path@) ==> probes.len() > 0,
    ensures
        match requested_path {
            Some(path) => if is_drive_path(path@) {
                is_named_choice(r, path@, probes@[0])
            } else {
                r is Err && r->Err_0.says(ErrorKind::InvalidInput, drive_path_advice())
            },
            None => is_sole_choice(r, probes@),
        },
{
    match requested_path {
        Some(path) => match validate_drive_path(path) {
            Ok(()) => select_named(path, &probes[0]),
            Err(e) => Err(e),
        },
        None => match list_disks(probes) {
            Ok(disks) => {
                assert(disk_texts(disks@).len() == disks@.len());
                if disks.len() == 1 {
                    let disk = disks[0].clone();
                    assert(disk@ == disk_texts(disks@)[0]);
                    Ok(Some(disk))
                } else {
                    Ok(None)
                }
            },
            Err(e) => {
                let mut message = String::from_str("扫描 NVMe 磁盘失败：");
                message.append(e.message.as_str());
                Err(Error::new(e.kind, message))
            },
        },
    }
}

/// The two bytes from `at` on as a number.
pub open spec fn le16(bytes: Seq<u8>, at: int) -> nat {
    (bytes[at] + 0x100 * bytes[at + 1]) as nat
}

/// The health that a log tells, whose temperature is in kelvins.
pub open spec fn log_said(log: Seq<u8>) -> SmartHealth {
    SmartHealth {
        critical_warning: log[0],
        temperature_c: minus(whole(le16(log, 1)), Double { bits: ZERO_CELSIUS }),
        available_spare_percent: log[3],
        spare_threshold_percent: log[4],
        percentage_used: log[5],
    }
}

/// The health that a reply tells, or what is wrong with the reply.
pub open spec fn smart_said(bytes: Seq<u8>) -> Result<SmartHealth, Seq<char>> {
    let offset = le32(bytes, 24);
    let length = le32(bytes, 28);
    let start = PROTOCOL_START + offset;
    let end = start + length;
    if bytes.len() < PROTOCOL_DESCRIPTOR_BYTES {
        Err("响应短于协议描述符"@)
    } else if le32(bytes, 0) != PROTOCOL_DESCRIPTOR_BYTES || le32(bytes, 4)
        != PROTOCOL_DESCRIPTOR_BYTES {
        Err("协议描述符版本或大小不符"@)
    } else if le32(bytes, 8) != PROTOCOL_TYPE_NVME || le32(bytes, 12) != DATA_TYPE_LOG_PAGE {
        Err("响应不是 NVMe 日志页"@)
    } else if offset < PROTOCOL_BYTES {
        Err("协议数据与描述符重叠"@)
    } else if start > usize::MAX {
        Err("协议数据偏移溢出"@)
    } else if end > usize::MAX {
        Err("协议数据长度溢出"@)
    } else if length < SMART_LOG_BYTES || end > bytes.len() {
        Err("SMART 日志缺失或被截断"@)
    } else if le16(bytes, start + 1) == 0 {
        Err("SMART 未报告综合温度"@)
    } else {
        Ok(log_said(bytes.subrange(start, start + SMART_LOG_BYTES)))
    }
}

/// Whether a reading of a health reply is what it says.
pub open spec fn is_smart_reading(
    r: Result<SmartHealth, Error>,
    said: Result<SmartHealth, Seq<char>>,
) -> bool {
    match (r, said) {
        (Ok(health), Ok(told)) => health == told,
        (Err(e), Err(message)) => e.says(ErrorKind::InvalidData, message),
        _ => false,
    }
}

/// Reads a field of a descriptor that is long enough for it.
fn field(bytes: &[u8], at: usize) -> (r: u32)
    requires
        at + 4 <= bytes@.len(),
    ensures
        r == le32(bytes@, at as int),
{
    bytes[at] as u32 + 0x100 * (bytes[at + 1] as u32) + 0x1_0000 * (bytes[at + 2] as u32)
        + 0x100_0000 * (bytes[at + 3] as u32)
}

/// Reads a health reply.
pub fn parse_smart(bytes: &[u8]) -> (r: Result<SmartHealth, Error>)
    ensures
        is_smart_reading(r, smart_said(bytes@)),
        r matches Ok(health) ==> ({
            let s = 8 + bytes@[24] + 0x100 * bytes@[25] + 0x1_0000 * bytes@[26] + 0x100_0000
                * bytes@[27];
            &&& 48 <= s && s + 512 <= bytes@.len()
            &&& health.critical_warning == bytes@[s]
            &&& health.available_spare_percent == bytes@[s + 3]
            &&& health.spare_threshold_percent == bytes@[s + 4]
            &&& health.percentage_used == bytes@[s + 5]
        }),
{
    if bytes.len() < PROTOCOL_DESCRIPTOR_BYTES as usize {
        return Err(invalid("响应短于协议描述符"));
    }
    if field(bytes, 0) != PROTOCOL_DESCRIPTOR_BYTES || field(bytes, 4)
        != PROTOCOL_DESCRIPTOR_BYTES {
        return Err(invalid("协议描述符版本或大小不符"));
    }
    if field(bytes, 8) != PROTOCOL_TYPE_NVME || field(bytes, 12) != DATA_TYPE_LOG_PAGE {
        return Err(invalid("响应不是 NVMe 日志页"));
    }
    let offset: usize = field(bytes, 24) as usize;
    let length: usize = field(bytes, 28) as usize;
    if offset < PROTOCOL_BYTES as usize {
        return Err(invalid("协议数据与描述符重叠"));
    }
    let start: usize = match offset.checked_add(PROTOCOL_START as usize) {
        Some(start) => start,
        None => return Err(invalid("协议数据偏移溢出")),
    };
    let end: usize = match start.checked_add(length) {
        Some(end) => end,
        None => return Err(invalid("协议数据长度溢出")),
    };
    if length < SMART_LOG_BYTES as usize || end > bytes.len() {
        return Err(invalid("SMART 日志缺失或被截断"));
    }
    let kelvin: u64 = bytes[start + 1] as u64 + 0x100 * (bytes[start + 2] as u64);
    if kelvin == 0 {
        return Err(invalid("SMART 未报告综合温度"));
    }
    proof {
        crate::double::lemma_whole(kelvin as nat);
        let log = bytes@.subrange(start as int, start + SMART_LOG_BYTES);
        assert(le16(log, 1) == kelvin);
    }
    Ok(
        SmartHealth {
            critical_warning: bytes[start],
            temperature_c: Double::from_u64(kelvin).subtract(Double { bits: ZERO_CELSIUS }),
            available_spare_percent: bytes[start + 3],
            spare_threshold_percent: bytes[start + 4],
            percentage_used: bytes[start + 5],
        },
    )
}

/// Reads the reply to a health query, of which the system says how many bytes it filled.
pub fn read_smart_reply(buffer: &[u8], returned: u32) -> (r: Result<SmartHealth, Error>)
    requires
        buffer.len() == BUFFER_BYTES,
    ensures
        returned > BUFFER_BYTES ==> r is Err && r->Err_0.says(
            ErrorKind::InvalidData,
            "驱动报告的字节数超过输出缓冲区"@,
        ),
        returned <= BUFFER_BYTES ==> is_smart_reading(
            r,
            smart_said(buffer@.take(returned as int)),
        ),
{
    if returned > BUFFER_BYTES {
        return Err(invalid("驱动报告的字节数超过输出缓冲区"));
    }
    let bytes = slice_subrange(buffer, 0, returned as usize);
    assert(bytes@ =~= buffer@.take(returned as int));
    parse_smart(bytes)
}

/// The health query: the property and the kind of query, then the protocol
/// part, which asks for the whole health log right behind itself.
pub fn smart_query() -> (r: Vec<u32>)
    ensures
        r@ == seq![
            PROPERTY_PROTOCOL_SPECIFIC,
            QUERY_STANDARD,
            PROTOCOL_TYPE_NVME,
            DATA_TYPE_LOG_PAGE,
            SMART_LOG_PAGE,
            0u32,
            PROTOCOL_BYTES,
            SMART_LOG_BYTES,
            0u32,
            0u32,
            0u32,
            0u32,
        ],
        r@ == seq![50u32, 0u32, 3u32, 2u32, 2u32, 0u32, 40u32, 512u32, 0u32, 0u32, 0u32, 0u32],
{
    let r: Vec<u32> = vec![
        PROPERTY_PROTOCOL_SPECIFIC,
        QUERY_STANDARD,
        PROTOCOL_TYPE_NVME,
        DATA_TYPE_LOG_PAGE,
        SMART_LOG_PAGE,
        0,
        PROTOCOL_BYTES,
        SMART_LOG_BYTES,
        0,
        0,
        0,
        0,
    ];
    r
}

/// A disk that was found is listed with the path of its number, whatever
/// failed elsewhere.
pub proof fn found_disks_are_listed(probes: Seq<Probe>, i: int)
    requires
        0 <= i < probes.len(),
        probes[i] matches Probe::Described(Some(_)),
    ensures
        found(probes).contains(
            DiskText {
                path: drive_path_text(i as nat),
                name: (probes[i]->Described_0->0)@,
            },
        ),
    decreases probes.len(),
{
    let disk = DiskText {
        path: drive_path_text(i as nat),
        name: (probes[i]->Described_0->0)@,
    };
    let before = found(probes.drop_last());
    if i == probes.len() - 1 {
        assert(found(probes).last() == disk);
    } else {
        found_disks_are_listed(probes.drop_last(), i);
        let k = choose|k: int| 0 <= k < before.len() && before[k] == disk;
        assert(found(probes)[k] == disk);
    }
}

/// A health log that is read lies behind the descriptor and within the reply.
pub proof fn health_lies_within_the_reply(bytes: Seq<u8>)
    requires
        smart_said(bytes) is Ok,
    ensures
        exists|start: int|
            PROTOCOL_DESCRIPTOR_BYTES <= start && start + SMART_LOG_BYTES <= bytes.len()
                && smart_said(bytes) == Ok::<SmartHealth, Seq<char>>(
                log_said(#[trigger] bytes.subrange(start, start + SMART_LOG_BYTES)),
            ),
{
    let start = PROTOCOL_START + le32(bytes, 24);
    assert(smart_said(bytes) == Ok::<SmartHealth, Seq<char>>(
        log_said(bytes.subrange(start, start + SMART_LOG_BYTES)),
    ));
}

/// Words of descriptors are little-endian: the first of the four bytes counts
/// ones, and the last one counts the most.
pub proof fn words_are_little_endian(bytes: Seq<u8>, at: int)
    ensures
        le32(bytes, at) == bytes[at] + 0x100 * bytes[at + 1] + 0x1_0000 * bytes[at + 2]
            + 0x100_0000 * bytes[at + 3],
        le16(bytes, at) == bytes[at] + 0x100 * bytes[at + 1],
{
}

/// A reply is read if it is a descriptor of version and size 48, of the NVMe
/// protocol and a log page, whose data of 512 bytes or more lies behind the
/// descriptor and within the reply, and which tells a temperature.
pub proof fn well_formed_replies_are_read(bytes: Seq<u8>)
    requires
        bytes.len() <= usize::MAX,
    ensures
        smart_said(bytes) is Ok <==> ({
            let s = 8 + le32(bytes, 24);
            let n = le32(bytes, 28);
            &&& bytes.len() >= 48
            &&& le32(bytes, 0) == 48 && le32(bytes, 4) == 48
            &&& le32(bytes, 8) == 3 && le32(bytes, 12) == 2
            &&& s >= 48 && n >= 512 && s + n <= bytes.len()
            &&& (bytes[s + 1] != 0 || bytes[s + 2] != 0)
        }),
{
}

/// Where a reply is read, the health is told by the bytes behind the offset in
/// its bytes 24 to 27, counted from the eighth byte: the warning, two bytes of
/// kelvins, the spare space, its threshold and the wear.
pub proof fn health_is_told_by_the_bytes_of_the_log(bytes: Seq<u8>, health: SmartHealth)
    requires
        smart_said(bytes) == Ok::<SmartHealth, Seq<char>>(health),
    ensures
        ({
            let s = 8 + bytes[24] + 0x100 * bytes[25] + 0x1_0000 * bytes[26] + 0x100_0000
                * bytes[27];
            &&& 48 <= s && s + 512 <= bytes.len()
            &&& health.critical_warning == bytes[s]
            &&& health.available_spare_percent == bytes[s + 3]
            &&& health.spare_threshold_percent == bytes[s + 4]
            &&& health.percentage_used == bytes[s + 5]
        }),
{
}

/// Replies whose logs differ in the warning, the spare space, its threshold or
/// the wear tell different healths.
pub proof fn different_logs_tell_different_healths(
    bytes: Seq<u8>,
    other: Seq<u8>,
    health: SmartHealth,
    other_health: SmartHealth,
)
    requires
        smart_said(bytes) == Ok::<SmartHealth, Seq<char>>(health),
        smart_said(other) == Ok::<SmartHealth, Seq<char>>(other_health),
    ensures
        ({
            let s = 8 + bytes[24] + 0x100 * bytes[25] + 0x1_0000 * bytes[26] + 0x100_0000
                * bytes[27];
            let t = 8 + other[24] + 0x100 * other[25] + 0x1_0000 * other[26] + 0x100_0000
                * other[27];
            bytes[s] != other[t] || bytes[s + 3] != other[t + 3] || bytes[s + 4] != other[t + 4]
                || bytes[s + 5] != other[t + 5] ==> health != other_health
        }),
{
    health_is_told_by_the_bytes_of_the_log(bytes, health);
    health_is_told_by_the_bytes_of_the_log(other, other_health);
}

/// The number that stands for 273.15, in steps of `2^-1030`.
proof fn lemma_zero_celsius()
    ensures
        crate::rounding::steps(ZERO_CELSIUS as nat, crate::double::LEAD as nat) == 0x11_1266_6666_6666
            * pow2(1030),
        (Double { bits: ZERO_CELSIUS }).value() == 0x11_1266_6666_6666 * pow2(1030),
        pow2(1074) == 0x1000_0000_0000 * pow2(1030),
{
    lemma_pow2_adds(44, 1030);
    vstd::arithmetic::power2::lemma2_to64_rest();
}

/// A temperature of `kelvin` is `kelvin - 273.15` degrees, but for less than
/// the `2^-30`th part of a hundredth of a degree. Degrees are counted in units
/// of `2^-1074`.
pub proof fn temperatures_are_above_273_15_kelvin(bytes: Seq<u8>, health: SmartHealth)
    requires
        smart_said(bytes) == Ok::<SmartHealth, Seq<char>>(health),
    ensures
        ({
            let s = 8 + bytes[24] + 0x100 * bytes[25] + 0x1_0000 * bytes[26] + 0x100_0000
                * bytes[27];
            let kelvin = bytes[s + 1] + 0x100 * bytes[s + 2];
            &&& kelvin > 0
            &&& pow2(30) * abs(
                100 * health.temperature_c.value() - (100 * kelvin - 27315) * pow2(1074),
            ) <= pow2(1074)
        }),
{
    let s = PROTOCOL_START + le32(bytes, 24);
    let log = bytes.subrange(s, s + SMART_LOG_BYTES);
    let kelvin = (bytes[s + 1] + 0x100 * bytes[s + 2]) as nat;
    assert(le16(log, 1) == kelvin);
    assert(health.temperature_c == minus(whole(kelvin), Double { bits: ZERO_CELSIUS }));
    let u = pow2(1074);
    let v = pow2(1030);
    let l = crate::double::LEAD as nat;
    let z = 0x11_1266_6666_6666 * v;
    lemma_zero_celsius();
    lemma_pow2_pos(1030);
    vstd::arithmetic::power2::lemma2_to64_rest();
    crate::double::lemma_whole(kelvin);
    crate::double::lemma_exact(kelvin);
    let t = health.temperature_c.value();
    let exact = kelvin * u - z;
    assert(0 <= kelvin * u <= 0x1_0000 * u) by (nonlinear_arith)
        requires 0 <= kelvin <= 0x1_0000, u > 0,
    ;
    crate::double::lemma_difference_close(whole(kelvin), Double { bits: ZERO_CELSIUS });
    crate::double::lemma_abs((2 * l) as int, t - exact, abs(exact) as int);
    assert(100 * exact == (100 * kelvin) * u - 100 * z) by (nonlinear_arith)
        requires exact == kelvin * u - z,
    ;
    assert((100 * kelvin - 27315) * u == (100 * kelvin) * u - 27315 * u) by (nonlinear_arith);
    let off = t - exact;
    let g = 100 * t - (100 * kelvin - 27315) * u;
    assert(g == 100 * off + 40 * v);
    assert(-(0x1_0000 * u) <= 0x20_0000_0000_0000 * off <= 0x1_0000 * u);
    vstd::arithmetic::power2::lemma2_to64();
    assert(-u <= 0x4000_0000 * g <= u);
    assert(pow2(30) * abs(g) <= u);
}

proof fn lemma_decimal_digits(n: nat)
    ensures
        decimal(n).len() > 0,
        forall|i: int| 0 <= i < decimal(n).len() ==> '0' <= #[trigger] decimal(n)[i] <= '9',
    decreases n,
{
    if n >= 10 {
        lemma_decimal_digits(n / 10);
        lemma_digit(n % 10);
    } else {
        lemma_digit(n);
    }
}

proof fn lemma_digit(d: nat)
    requires
        d < 10,
    ensures
        '0' <= crate::text::digit(d) <= '9',
{
    vstd::utf8::char_u32_cast('0', 48);
    vstd::utf8::char_u32_cast('1', 49);
    vstd::utf8::char_u32_cast('2', 50);
    vstd::utf8::char_u32_cast('3', 51);
    vstd::utf8::char_u32_cast('4', 52);
    vstd::utf8::char_u32_cast('5', 53);
    vstd::utf8::char_u32_cast('6', 54);
    vstd::utf8::char_u32_cast('7', 55);
    vstd::utf8::char_u32_cast('8', 56);
    vstd::utf8::char_u32_cast('9', 57);
}

/// Every path that the scan uses can be asked for.
pub proof fn scanned_paths_are_accepted(index: nat)
    ensures
        is_drive_path(drive_path_text(index)),
{
    reveal_strlit("\\\\.\\PhysicalDrive");
    reveal_strlit("\\\\.\\physicaldrive");
    let prefix = "\\\\.\\physicaldrive"@;
    let path = drive_path_text(index);
    vstd::utf8::char_u32_cast('p', 112);
    vstd::utf8::char_u32_cast('d', 100);
    lemma_decimal_digits(index);
    assert(ascii_lowercase(path).subrange(0, 17) =~= prefix);
    assert forall|i: int| prefix.len() <= i < path.len() implies '0' <= #[trigger] path[i]
        <= '9' by {
        assert(path[i] == decimal(index)[i - 17]);
    }
}

/// The lines that list some disks.
pub open spec fn disk_lines(disks: Seq<DiskText>) -> Seq<char>
    decreases disks.len(),
{
    if disks.len() == 0 {
        seq![]
    } else {
        disk_lines(disks.drop_last()) + disks.last().path + "  "@ + disks.last().name + "\n"@
    }
}

/// Lists some disks, one in a line.
pub fn disk_report(disks: &[DiskDevice]) -> (r: String)
    ensures
        r@ == disk_lines(disk_texts(disks@)),
{
    let ghost all = disk_texts(disks@);
    let mut r = String::new();
    let mut i: usize = 0;
    assert(all.take(0) =~= seq![]);
    while i < disks.len()
        invariant
            i <= disks.len(),
            all == disk_texts(disks@),
            r@ == disk_lines(all.take(i as int)),
        decreases disks.len() - i,
    {
        assert(all.take(i + 1).drop_last() =~= all.take(i as int));
        assert(all.take(i + 1).last() == disks@[i as int]@);
        r.append(disks[i].path.as_str());
        r.append("  ");
        r.append(disks[i].name.as_str());
        r.append("\n");
        i = i + 1;
    }
    assert(all.take(i as int) =~= all);
    r
}

/// A text in a descriptor reaches from its offset to the next zero, of which
/// there must be one; white space at its ends does not count. The offset zero
/// stands for no text.
pub proof fn descriptor_texts_end_at_a_zero(bytes: Seq<u8>, at: u32) -> (end: int)
    ensures
        at == 0 ==> string_said(bytes, at) == Ok::<Seq<char>, Seq<char>>(seq![]),
        at > 0 ==> (string_said(bytes, at) is Ok <==> exists|j: int|
            at <= j < bytes.len() && #[trigger] bytes[j] == 0),
        at > 0 ==> (string_said(bytes, at) matches Ok(text) ==> at <= end < bytes.len()
            && bytes[end] == 0 && !bytes.subrange(at as int, end).contains(0) && text == trim_both(
            utf8_lossy(bytes.subrange(at as int, end)),
        )),
{
    if at == 0 || at > bytes.len() {
        0
    } else {
        let rest = bytes.skip(at as int);
        let n = lemma_first_zero(rest);
        let end = at + n;
        assert(bytes.subrange(at as int, end) =~= rest.take(n));
        if n < rest.len() {
            assert(bytes[end] == rest[n]);
        } else {
            assert forall|j: int| at <= j < bytes.len() implies #[trigger] bytes[j] != 0 by {
                assert(rest[j - at] != 0);
            }
        }
        end
    }
}

/// Where the first zero stands.
proof fn lemma_first_zero(bytes: Seq<u8>) -> (n: int)
    ensures
        n == zero_at(bytes),
        0 <= n <= bytes.len(),
        !bytes.take(n).contains(0),
        forall|j: int| 0 <= j < n ==> #[trigger] bytes[j] != 0,
        n < bytes.len() ==> bytes[n] == 0,
    decreases bytes.len(),
{
    if bytes.len() == 0 || bytes[0] == 0 {
        0
    } else {
        let n = lemma_first_zero(bytes.skip(1));
        assert forall|j: int| 0 <= j < n + 1 implies #[trigger] bytes[j] != 0 by {
            if j > 0 {
                assert(bytes.skip(1)[j - 1] != 0);
            }
        }
        if n + 1 < bytes.len() {
            assert(bytes[n + 1] == bytes.skip(1)[n]);
        }
        n + 1
    }
}

/// A vendor and a product make a name with a blank between them, one that is
/// empty leaves the other, and without both there is a name of its own.
pub proof fn names_are_made_of_vendor_and_product(vendor: Seq<char>, product: Seq<char>)
    requires
        vendor.len() > 0 ==> !is_white(vendor[0]) && !is_white(vendor.last()),
        product.len() > 0 ==> !is_white(product[0]) && !is_white(product.last()),
    ensures
        vendor.len() > 0 && product.len() > 0 ==> device_name_text(vendor, product) == vendor
            + seq![' '] + product,
        vendor.len() > 0 && product.len() == 0 ==> device_name_text(vendor, product) == vendor,
        vendor.len() == 0 && product.len() > 0 ==> device_name_text(vendor, product) == product,
        vendor.len() == 0 && product.len() == 0 ==> device_name_text(vendor, product)
            == "未命名 NVMe"@,
{
    reveal_strlit(" ");
    let joined = vendor + " "@ + product;
    assert(joined =~= vendor + seq![' '] + product);
    let (a, b) = crate::text::trimming_takes_white_space_from_the_ends(joined);
    let n = vendor.len() as int;
    assert(joined[n] == ' ');
    crate::text::visible_characters_are_not_white(' ');
    if n > 0 {
        assert(joined[0] == vendor[0]);
        assert(joined[n - 1] == vendor.last());
    }
    if product.len() > 0 {
        assert(joined[n + 1] == product[0]);
        assert(joined.last() == product.last());
    }
    if n > 0 && product.len() > 0 {
        assert(joined.subrange(0, joined.len() as int) =~= joined);
    } else if n > 0 {
        assert(a == 0 && b == n);
        assert(joined.subrange(0, n) =~= vendor);
    } else if product.len() > 0 {
        assert(a == 1 && b == joined.len());
        assert(joined.subrange(1, joined.len() as int) =~= product);
    } else {
        assert(a == b);
    }
}

/// No device is without a name.
pub proof fn devices_have_names(vendor: Seq<char>, product: Seq<char>)
    ensures
        device_name_text(vendor, product).len() > 0,
{
    reveal_strlit("未命名 NVMe");
}

/// A descriptor is read if it holds its fixed part of 36 bytes, and tells a
/// version and a size of at least as much and no more than is there. One of bus
/// type 17 tells the texts at the offsets in its bytes 12 to 15 and 16 to 19,
/// within its own size; another one tells nothing.
pub proof fn descriptors_tell_their_devices(bytes: Seq<u8>)
    ensures
        bytes.len() < 36 || le32(bytes, 0) < 36 || le32(bytes, 4) < 36 || le32(bytes, 4)
            > bytes.len() ==> device_said(bytes) is Err,
        bytes.len() >= 36 && le32(bytes, 0) >= 36 && 36 <= le32(bytes, 4) <= bytes.len() ==> {
            let own = bytes.take(le32(bytes, 4) as int);
            let vendor = string_said(own, le32(bytes, 12));
            let product = string_said(own, le32(bytes, 16));
            &&& le32(bytes, 28) != 17 ==> device_said(bytes) == Ok::<Option<Seq<char>>, Seq<char>>(
                None,
            )
            &&& le32(bytes, 28) == 17 && vendor is Ok && product is Ok ==> device_said(bytes)
                == Ok::<Option<Seq<char>>, Seq<char>>(
                Some(device_name_text(vendor->Ok_0, product->Ok_0)),
            )
            &&& le32(bytes, 28) == 17 && (vendor is Err || product is Err) ==> device_said(bytes)
                is Err
        },
{
}

/// The listed disks are the NVMe disks among the drives, in the order of their
/// numbers: each has the name that its drive told and the path of its number.
pub proof fn listed_disks_are_those_found(probes: Seq<Probe>) -> (at: Seq<int>)
    ensures
        at.len() == found(probes).len(),
        forall|k: int|
            0 <= k < at.len() ==> 0 <= #[trigger] at[k] < probes.len() && (
            probes[at[k]] matches Probe::Described(Some(name)) && found(probes)[k] == (DiskText {
                path: "\\\\.\\PhysicalDrive"@ + decimal(at[k] as nat),
                name: name@,
            })),
        forall|k: int, m: int| 0 <= k < m < at.len() ==> #[trigger] at[k] < #[trigger] at[m],
        forall|i: int|
            0 <= i < probes.len() && (#[trigger] probes[i] matches Probe::Described(Some(_)))
                ==> at.contains(i),
    decreases probes.len(),
{
    if probes.len() == 0 {
        seq![]
    } else {
        let before = probes.drop_last();
        let n = probes.len() - 1;
        let prior = listed_disks_are_those_found(before);
        let at = if let Probe::Described(Some(_)) = probes.last() {
            prior.push(n)
        } else {
            prior
        };
        assert forall|k: int| 0 <= k < at.len() implies 0 <= #[trigger] at[k] < probes.len() && (
        probes[at[k]] matches Probe::Described(Some(name)) && found(probes)[k] == (DiskText {
            path: "\\\\.\\PhysicalDrive"@ + decimal(at[k] as nat),
            name: name@,
        })) by {
            if k < prior.len() {
                assert(at[k] == prior[k]);
                assert(before[prior[k]] == probes[prior[k]]);
            }
        }
        assert forall|i: int|
            0 <= i < probes.len() && (
            #[trigger] probes[i] matches Probe::Described(Some(_))) implies at.contains(i) by {
            if i < n {
                assert(before[i] == probes[i]);
                assert(prior.contains(i));
                let k = choose|k: int| 0 <= k < prior.len() && prior[k] == i;
                assert(at[k] == i);
            } else {
                assert(at[at.len() - 1] == i);
            }
        }
        at
    }
}

/// The failure of a scan is the first one that says more than that there is no
/// such drive, for which the codes 2 and 3 stand.
pub proof fn the_first_real_failure_is_told(probes: Seq<Probe>) -> (k: int)
    ensures
        match first_failure(probes) {
            Some(e) => {
                &&& 0 <= k < probes.len()
                &&& (probes[k] == Probe::OpenFailed(e) || probes[k] == Probe::QueryFailed(e))
                &&& e.os_code != Some(2i32) && e.os_code != Some(3i32)
                &&& forall|i: int|
                    0 <= i < k ==> !is_failure(#[trigger] probes[i])
            },
            None => forall|i: int| 0 <= i < probes.len() ==> !is_failure(#[trigger] probes[i]),
        },
    decreases probes.len(),
{
    if probes.len() == 0 {
        0
    } else {
        let before = probes.drop_last();
        let k = the_first_real_failure_is_told(before);
        assert(forall|i: int| 0 <= i < before.len() ==> #[trigger] probes[i] == before[i]);
        if first_failure(before) is Some {
            k
        } else {
            probes.len() - 1
        }
    }
}

/// Whether a probe failed otherwise than for want of a drive.
pub open spec fn is_failure(probe: Probe) -> bool {
    match probe {
        Probe::OpenFailed(e) | Probe::QueryFailed(e) => e.os_code != Some(2i32) && e.os_code
            != Some(3i32),
        Probe::Described(_) => false,
    }
}

/// The path of a drive ends in digits, and its letters can be of either case.
pub proof fn drive_paths_ignore_letter_case(path: Seq<char>, other: Seq<char>)
    ensures
        is_drive_path(path) ==> path.len() > 17 && all_digits(path.skip(17)),
        ascii_lowercase(path) == ascii_lowercase(other) ==> is_drive_path(path) == is_drive_path(
            other,
        ),
{
    reveal_strlit("\\\\.\\physicaldrive");
    assert("\\\\.\\physicaldrive"@.len() == 17);
    if is_drive_path(path) {
        assert forall|i: int| 0 <= i < path.skip(17).len() implies '0' <= #[trigger] path.skip(
            17,
        )[i] <= '9' by {
            assert(path[i + 17] == path.skip(17)[i]);
        }
    }
    if ascii_lowercase(path) == ascii_lowercase(other) {
        if is_drive_path(path) {
            lemma_case(path, other);
        }
        if is_drive_path(other) {
            lemma_case(other, path);
        }
    }
}

/// Texts that differ in letter case alone are both paths of drives or both not.
proof fn lemma_case(path: Seq<char>, other: Seq<char>)
    requires
        ascii_lowercase(path) == ascii_lowercase(other),
        is_drive_path(path),
    ensures
        is_drive_path(other),
{
    let n = "\\\\.\\physicaldrive"@.len() as int;
    assert(ascii_lowercase(path).len() == path.len());
    assert(ascii_lowercase(other).len() == other.len());
    assert forall|i: int| n <= i < other.len() implies '0' <= #[trigger] other[i] <= '9' by {
        assert('0' <= path[i] <= '9');
        crate::text::lowering_changes_capitals_alone(path, i);
        crate::text::lowering_changes_capitals_alone(other, i);
    }
}

/// Different drives have different paths.
pub proof fn drive_paths_tell_drives_apart(i: nat, j: nat)
    requires
        drive_path_text(i) == drive_path_text(j),
    ensures
        i == j,
{
    let prefix = "\\\\.\\PhysicalDrive"@;
    assert(drive_path_text(i).skip(prefix.len() as int) =~= decimal(i));
    assert(drive_path_text(j).skip(prefix.len() as int) =~= decimal(j));
    crate::text::numerals_tell_numbers_apart(i, j);
}

/// The lines on a disk's health: the temperature and the spare space stand in the
/// first one, and the wear, the threshold and the warning in the second one.
pub proof fn health_lines_show_each_number_in_its_place(h: SmartHealth)
    ensures
        ("温度 "@ + fixed(h.temperature_c, 10, false) + "°C"@).is_prefix_of(health_text(h)),
        ("备用空间 "@ + decimal(h.available_spare_percent as nat) + "%"@).is_suffix_of(
            health_text(h),
        ),
        ("已用寿命估计 "@ + decimal(h.percentage_used as nat) + "%"@).is_prefix_of(wear_text(h)),
        ("备用阈值 "@ + decimal(h.spare_threshold_percent as nat) + "%  ·  警告 0x"@ + hex(
            h.critical_warning as nat,
            2,
            true,
        )).is_suffix_of(wear_text(h)),
{
    reveal_strlit("°C");
    reveal_strlit("°C  ·  备用空间 ");
    reveal_strlit("备用空间 ");
    reveal_strlit("%");
    reveal_strlit("%  ·  备用阈值 ");
    reveal_strlit("备用阈值 ");
    let a = "温度 "@ + fixed(h.temperature_c, 10, false);
    let t = health_text(h);
    let x = a + "°C"@;
    assert(t.subrange(0, x.len() as int) =~= x);
    let y = "备用空间 "@ + decimal(h.available_spare_percent as nat) + "%"@;
    assert(t.subrange(t.len() - y.len(), t.len() as int) =~= y);
    let w = wear_text(h);
    let p = "已用寿命估计 "@ + decimal(h.percentage_used as nat) + "%"@;
    assert(w.subrange(0, p.len() as int) =~= p);
    let q = "备用阈值 "@ + decimal(h.spare_threshold_percent as nat) + "%  ·  警告 0x"@ + hex(
        h.critical_warning as nat,
        2,
        true,
    );
    assert(w.subrange(w.len() - q.len(), w.len() as int) =~= q);
}

/// Without a requested path, a disk is chosen if it is the only NVMe disk: it has
/// the path of its drive's number and the name that the drive told.
pub proof fn the_sole_disk_is_chosen(
    r: Result<Option<DiskDevice>, Error>,
    probes: Seq<Probe>,
    i: int,
)
    requires
        is_sole_choice(r, probes),
        0 <= i < probes.len(),
        probes[i] matches Probe::Described(Some(_)),
    ensures
        r is Ok,
        (forall|j: int|
            0 <= j < probes.len() && (#[trigger] probes[j] matches Probe::Described(Some(_))) ==> j
                == i) ==> (r matches Ok(Some(disk)) && disk.path@ == "\\\\.\\PhysicalDrive"@
            + decimal(i as nat) && disk.name@ == (probes[i]->Described_0->0)@),
        (exists|j: int|
            0 <= j < probes.len() && j != i && (
            #[trigger] probes[j] matches Probe::Described(Some(_)))) ==> (r matches Ok(None)),
{
    let at = listed_disks_are_those_found(probes);
    assert(at.contains(i));
    let k = choose|k: int| 0 <= k < at.len() && at[k] == i;
    if forall|j: int|
        0 <= j < probes.len() && (#[trigger] probes[j] matches Probe::Described(Some(_))) ==> j == i {
        assert(at.len() == 1) by {
            if at.len() > 1 {
                assert(at[0] < at[1]);
                assert(probes[at[0]] matches Probe::Described(Some(_)));
                assert(probes[at[1]] matches Probe::Described(Some(_)));
            }
        }
        assert(k == 0);
    }
    if exists|j: int|
        0 <= j < probes.len() && j != i && (
        #[trigger] probes[j] matches Probe::Described(Some(_))) {
        let j = choose|j: int|
            0 <= j < probes.len() && j != i && (
            #[trigger] probes[j] matches Probe::Described(Some(_)));
        assert(at.contains(j));
        let m = choose|m: int| 0 <= m < at.len() && at[m] == j;
        assert(m != k);
    }
}

/// A requested disk is chosen, with the requested path and the name it told, if
/// it is an NVMe disk, and refused otherwise.
pub proof fn a_requested_disk_is_chosen_or_refused(
    r: Result<Option<DiskDevice>, Error>,
    path: Seq<char>,
    probe: Probe,
)
    requires
        is_named_choice(r, path, probe),
    ensures
        r is Ok <==> (probe matches Probe::Described(Some(_))),
        probe matches Probe::Described(Some(name)) ==> (r matches Ok(Some(disk)) && disk.path@
            == path && disk.name@ == name@),
        probe matches Probe::QueryFailed(e) ==> r is Err && r->Err_0.kind == e.kind,
        probe matches Probe::OpenFailed(e) ==> r is Err && r->Err_0.kind == e.kind,
{
}

/// The lines of a list are those of its disks, in their order: each has the path
/// before the name.
pub proof fn disk_lines_follow_one_another(a: Seq<DiskText>, b: Seq<DiskText>)
    ensures
        disk_lines(a + b) == disk_lines(a) + disk_lines(b),
        a.len() == 1 ==> disk_lines(a) == a[0].path + "  "@ + a[0].name + "\n"@,
    decreases b.len(),
{
    if a.len() == 1 {
        assert(a.drop_last() =~= seq![]);
        assert(disk_lines(a.drop_last()) =~= seq![]);
        assert(disk_lines(a) =~= a[0].path + "  "@ + a[0].name + "\n"@);
    }
    if b.len() == 0 {
        assert(a + b =~= a);
        assert(disk_lines(a) + disk_lines(b) =~= disk_lines(a));
    } else {
        disk_lines_follow_one_another(a, b.drop_last());
        assert((a + b).drop_last() =~= a + b.drop_last());
        assert(disk_lines(a + b) =~= disk_lines(a) + disk_lines(b));
    }
}

} // verus!
