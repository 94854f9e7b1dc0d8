//! Samples, and the state that the sampling thread keeps between them.
use crate::battery::{self, BatterySnapshot};
use crate::clock::{elapsed, Moment, SECOND};
use crate::cpu::{measurable, CpuSampler, CpuTimes, CpuUsage};
use crate::double::Double;
use crate::error::Error;
use crate::memory::MemorySnapshot;
use crate::network::{Counters, InterfaceSnapshot, NetworkSampler, NetworkUsage};
use crate::nvme::{self, DiskDevice, SmartHealth};
use crate::pdh;
use std::sync::Arc;
use vstd::prelude::*;

verus! {

/// The time between two samples.
pub const INTERVAL: u64 = SECOND;

/// A longer gap between two samples is an interruption: rates start over, and
/// curves are broken.
pub const MAX_SAMPLE_GAP: u64 = 2_500_000_000;

/// A reading is stale if it is older than `limit`. What was never read is not stale.
pub open spec fn outdated(at: Option<Moment>, now: Moment, limit: u64) -> bool {
    at matches Some(moment) && elapsed(now, moment) > limit
}

pub fn is_stale(at: Option<Moment>, now: Moment, limit: u64) -> (r: bool)
    ensures
        r == outdated(at, now, limit),
        r <==> at is Some && now.nanos > at->0.nanos + limit,
{
    match at {
        Some(moment) => now.since(moment) > limit,
        None => false,
    }
}

/// Everything that one round of sampling gave. Each part fails by itself.
#[derive(Debug)]
pub struct Sample {
    pub taken_at: Moment,
    pub cpu: Result<CpuUsage, Error>,
    /// The estimated frequency in MHz, measured apart from the usage; nothing
    /// while there is no baseline or no value.
    pub cpu_mhz: Result<Option<Double>, String>,
    pub memory: Result<MemorySnapshot, Error>,
    /// When the network was read: its rates and its curve go by this time.
    pub network_at: Moment,
    pub network: Result<NetworkUsage, Error>,
    /// The last battery reading, which every sample carries, and its time.
    pub battery: Option<(Moment, Arc<BatterySnapshot>)>,
    /// The last NVMe reading, which every sample carries, and its time.
    pub nvme: Option<(Moment, Arc<Result<SmartHealth, String>>)>,
    /// What the counters gave in this round; nothing while there is no baseline.
    pub pdh: Option<(Moment, pdh::Snapshot)>,
}

/// A mailbox for one value: a newer value replaces one that was not taken.
#[derive(Debug)]
pub struct Latest<T> {
    slot: Option<T>,
}

impl<T> View for Latest<T> {
    type V = Option<T>;

    closed spec fn view(&self) -> Option<T> {
        self.slot
    }
}

impl<T> Latest<T> {
    pub fn new() -> (r: Latest<T>)
        ensures
            r@ is None,
    {
        Latest { slot: None }
    }

    /// Leaves a value, and says whether the mailbox was empty.
    pub fn publish(&mut self, value: T) -> (r: bool)
        ensures
            r == (old(self)@ is None),
            final(self)@ == Some(value),
    {
        let was_empty: bool = self.slot.is_none();
        self.slot = Some(value);
        was_empty
    }

    /// Takes the value out.
    pub fn take(&mut self) -> (r: Option<T>)
        ensures
            r == old(self)@,
            final(self)@ is None,
    {
        self.slot.take()
    }
}

impl<T> Default for Latest<T> {
    fn default() -> (r: Latest<T>)
        ensures
            r@ is None,
    {
        Latest::new()
    }
}

/// What the sampling thread keeps from one round to the next.
#[derive(Debug)]
pub struct Collector {
    network_luid: Option<u64>,
    disk: Option<DiskDevice>,
    cpu: CpuSampler,
    network: NetworkSampler,
    battery: Option<(Moment, Arc<BatterySnapshot>)>,
    nvme: Option<(Moment, Arc<Result<SmartHealth, String>>)>,
}

/// A collector's state: the chosen devices, the baselines, and the slow readings.
pub struct CollectorState {
    pub network_luid: Option<u64>,
    pub disk: Option<DiskDevice>,
    pub cpu: Option<(CpuTimes, Moment)>,
    pub network: Option<Counters>,
    pub battery: Option<(Moment, Arc<BatterySnapshot>)>,
    pub nvme: Option<(Moment, Arc<Result<SmartHealth, String>>)>,
}

impl View for Collector {
    type V = CollectorState;

    closed spec fn view(&self) -> CollectorState {
        CollectorState {
            network_luid: self.network_luid,
            disk: self.disk,
            cpu: self.cpu.baseline(),
            network: self.network.baseline(),
            battery: self.battery,
            nvme: self.nvme,
        }
    }
}

/// The first interface from `from` on with the given identifier.
pub open spec fn with_luid<'a>(
    interfaces: Seq<InterfaceSnapshot>,
    luid: u64,
    from: int,
) -> Option<&'a InterfaceSnapshot>
    decreases interfaces.len() - from,
{
    if from < 0 || from >= interfaces.len() {
        None
    } else if interfaces[from].luid == luid {
        Some(&interfaces[from])
    } else {
        with_luid(interfaces, luid, from + 1)
    }
}

fn find_luid(interfaces: &[InterfaceSnapshot], luid: u64) -> (r: Option<&InterfaceSnapshot>)
    ensures
        r == with_luid(interfaces@, luid, 0),
{
    let mut i: usize = 0;
    while i < interfaces.len()
        invariant
            i <= interfaces.len(),
            with_luid(interfaces@, luid, 0) == with_luid(interfaces@, luid, i as int),
        decreases interfaces.len() - i,
    {
        if interfaces[i].luid == luid {
            return Some(&interfaces[i]);
        }
        i = i + 1;
    }
    None
}

/// Whether a slow reading is due, `last` being the time of the last one.
pub open spec fn due(last: Option<Moment>, now: Moment, interval: u64) -> bool {
    match last {
        Some(at) => elapsed(now, at) >= interval,
        None => true,
    }
}

/// The time of a reading.
pub open spec fn time_of<T>(reading: Option<(Moment, T)>) -> Option<Moment> {
    match reading {
        Some((at, _)) => Some(at),
        None => None,
    }
}

/// What comes of reading the CPU times.
pub open spec fn cpu_result(
    last: Option<(CpuTimes, Moment)>,
    times: Result<CpuTimes, Error>,
    at: Moment,
) -> Result<CpuUsage, Error> {
    match times {
        Ok(now) => Ok(crate::cpu::usage(last, now, at)),
        Err(e) => Err(e),
    }
}

/// The CPU baseline after the times were read.
pub open spec fn cpu_baseline(times: Result<CpuTimes, Error>, at: Moment) -> Option<
    (CpuTimes, Moment),
> {
    match times {
        Ok(now) => Some((now, at)),
        Err(_) => None,
    }
}

/// What comes of reading the interfaces.
pub open spec fn network_result(
    luid: Option<u64>,
    last: Option<Counters>,
    interfaces: Option<Result<Vec<InterfaceSnapshot>, Error>>,
    at: Moment,
) -> Result<NetworkUsage, Error> {
    match (luid, interfaces) {
        (Some(luid), Some(Ok(list))) => Ok(
            crate::network::usage(last, with_luid(list@, luid, 0), at),
        ),
        (Some(_), Some(Err(e))) => Err(e),
        _ => Ok(NetworkUsage::NotSelected),
    }
}

/// The network baseline after the interfaces were read.
pub open spec fn network_baseline(
    luid: Option<u64>,
    last: Option<Counters>,
    interfaces: Option<Result<Vec<InterfaceSnapshot>, Error>>,
    at: Moment,
) -> Option<Counters> {
    match (luid, interfaces) {
        (Some(luid), Some(Ok(list))) => crate::network::next_baseline(
            with_luid(list@, luid, 0),
            at,
        ),
        (Some(_), Some(Err(_))) => None,
        _ => last,
    }
}

/// The state of a collector that has collected nothing.
pub open spec fn unused(network_luid: Option<u64>, disk: Option<DiskDevice>) -> CollectorState {
    CollectorState { network_luid, disk, cpu: None, network: None, battery: None, nvme: None }
}

/// What was read in one round of sampling.
#[derive(Debug)]
pub struct Round {
    pub taken_at: Moment,
    pub times: Result<CpuTimes, Error>,
    pub cpu_mhz: Result<Option<Double>, String>,
    pub memory: Result<MemorySnapshot, Error>,
    /// Nothing if no interface is chosen.
    pub interfaces: Option<Result<Vec<InterfaceSnapshot>, Error>>,
    pub network_at: Moment,
    /// When it was asked whether the battery is due.
    pub battery_asked: Moment,
    /// Nothing if the battery was not due.
    pub battery: Option<(Moment, BatterySnapshot)>,
    /// When it was asked whether the disk's health is due.
    pub nvme_asked: Moment,
    /// Nothing if the disk's health was not due.
    pub nvme: Option<(Moment, Result<SmartHealth, String>)>,
    pub pdh: Option<(Moment, pdh::Snapshot)>,
}

/// Whether a collector in this state asked for what was read, and for no more.
pub open spec fn is_round(state: CollectorState, round: Round) -> bool {
    &&& round.times matches Ok(now) ==> measurable(state.cpu, now, round.taken_at)
    &&& state.network_luid is Some <==> round.interfaces is Some
    &&& round.battery is Some <==> due(
        time_of(state.battery),
        round.battery_asked,
        battery::INTERVAL,
    )
    &&& round.battery matches Some((at, _)) ==> at.nanos >= round.battery_asked.nanos
    &&& round.nvme is Some <==> state.disk is Some && due(
        time_of(state.nvme),
        round.nvme_asked,
        nvme::INTERVAL,
    )
    &&& round.nvme matches Some((at, _)) ==> at.nanos >= round.nvme_asked.nanos
}

/// The last slow reading after a round: what was read in it, or else what was there.
pub open spec fn latest_of<T>(
    before: Option<(Moment, Arc<T>)>,
    read: Option<(Moment, T)>,
) -> Option<(Moment, Arc<T>)> {
    match read {
        Some((at, reading)) => Some((at, Arc::new(reading))),
        None => before,
    }
}

/// The state of a collector after a round.
pub open spec fn after_round(state: CollectorState, round: Round) -> CollectorState {
    CollectorState {
        cpu: cpu_baseline(round.times, round.taken_at),
        network: network_baseline(
            state.network_luid,
            state.network,
            round.interfaces,
            round.network_at,
        ),
        battery: latest_of(state.battery, round.battery),
        nvme: latest_of(state.nvme, round.nvme),
        ..state
    }
}

/// The sample of a round.
pub open spec fn sample_of(state: CollectorState, round: Round) -> Sample {
    Sample {
        taken_at: round.taken_at,
        cpu: cpu_result(state.cpu, round.times, round.taken_at),
        cpu_mhz: round.cpu_mhz,
        memory: round.memory,
        network_at: round.network_at,
        network: network_result(
            state.network_luid,
            state.network,
            round.interfaces,
            round.network_at,
        ),
        battery: latest_of(state.battery, round.battery),
        nvme: latest_of(state.nvme, round.nvme),
        pdh: round.pdh,
    }
}

impl Collector {
    pub fn new(network_luid: Option<u64>, disk: Option<DiskDevice>) -> (r: Collector)
        ensures
            r@ == unused(network_luid, disk),
    {
        Collector {
            network_luid,
            disk,
            cpu: CpuSampler::new(),
            network: NetworkSampler::default(),
            battery: None,
            nvme: None,
        }
    }

    /// Whether `take_cpu` can take these times.
    pub fn accepts_cpu(&self, times: CpuTimes, at: Moment) -> (r: bool)
        ensures
            r == measurable(self@.cpu, times, at),
    {
        self.cpu.accepts(times, at)
    }

    /// Takes the CPU times that were read, or the failure to read them, after
    /// which the measuring starts over.
    pub fn take_cpu(&mut self, times: Result<CpuTimes, Error>, at: Moment) -> (r: Result<
        CpuUsage,
        Error,
    >)
        requires
            times matches Ok(now) ==> measurable(old(self)@.cpu, now, at),
        ensures
            r == cpu_result(old(self)@.cpu, times, at),
            final(self)@ == (CollectorState { cpu: cpu_baseline(times, at), ..old(self)@ }),
    {
        match times {
            Ok(now) => Ok(self.cpu.update(now, at)),
            Err(e) => {
                self.cpu.reset();
                Err(e)
            },
        }
    }

    /// Whether the interfaces have to be read.
    pub fn wants_interfaces(&self) -> (r: bool)
        ensures
            r == (self@.network_luid is Some),
    {
        self.network_luid.is_some()
    }

    /// Takes the interfaces that were read, or the failure to read them, after
    /// which the measuring starts over. Nothing was read if no interface is chosen.
    pub fn take_interfaces(
        &mut self,
        interfaces: Option<Result<Vec<InterfaceSnapshot>, Error>>,
        at: Moment,
    ) -> (r: Result<NetworkUsage, Error>)
        requires
            old(self)@.network_luid is Some <==> interfaces is Some,
        ensures
            r == network_result(old(self)@.network_luid, old(self)@.network, interfaces, at),
            final(self)@ == (CollectorState {
                network: network_baseline(
                    old(self)@.network_luid,
                    old(self)@.network,
                    interfaces,
                    at,
                ),
                ..old(self)@
            }),
    {
        match (self.network_luid, interfaces) {
            (Some(luid), Some(Ok(list))) => {
                let found = find_luid(list.as_slice(), luid);
                Ok(self.network.update(found, at))
            },
            (Some(_), Some(Err(e))) => {
                self.network.reset();
                Err(e)
            },
            _ => Ok(NetworkUsage::NotSelected),
        }
    }

    /// Whether the battery has to be read.
    pub fn battery_due(&self, now: Moment) -> (r: bool)
        ensures
            r == due(time_of(self@.battery), now, battery::INTERVAL),
            r <==> self@.battery is None || now.nanos >= (self@.battery->0).0.nanos
                + 3_000_000_000,
    {
        match &self.battery {
            Some((at, _)) => now.since(*at) >= battery::INTERVAL,
            None => true,
        }
    }

    pub fn take_battery(&mut self, at: Moment, snapshot: BatterySnapshot)
        ensures
            final(self)@ == (CollectorState {
                battery: Some((at, Arc::new(snapshot))),
                ..old(self)@
            }),
    {
        self.battery = Some((at, Arc::new(snapshot)));
    }

    /// The disk whose health has to be read, if that is due.
    pub fn nvme_due(&self, now: Moment) -> (r: Option<&DiskDevice>)
        ensures
            match r {
                Some(disk) => self@.disk == Some(*disk) && due(
                    time_of(self@.nvme),
                    now,
                    nvme::INTERVAL,
                ),
                None => self@.disk is None || !due(time_of(self@.nvme), now, nvme::INTERVAL),
            },
            r is Some <==> self@.disk is Some && (self@.nvme is None || now.nanos >= (
            self@.nvme->0).0.nanos + 30_000_000_000),
    {
        let wanted: bool = match &self.nvme {
            Some((at, _)) => now.since(*at) >= nvme::INTERVAL,
            None => true,
        };
        if wanted {
            self.disk.as_ref()
        } else {
            None
        }
    }

    pub fn take_nvme(&mut self, at: Moment, reading: Result<SmartHealth, String>)
        ensures
            final(self)@ == (CollectorState {
                nvme: Some((at, Arc::new(reading))),
                ..old(self)@
            }),
    {
        self.nvme = Some((at, Arc::new(reading)));
    }

    /// The sample of a round, with the last slow readings.
    pub fn sample(
        &self,
        taken_at: Moment,
        cpu: Result<CpuUsage, Error>,
        cpu_mhz: Result<Option<Double>, String>,
        memory: Result<MemorySnapshot, Error>,
        network_at: Moment,
        network: Result<NetworkUsage, Error>,
        pdh: Option<(Moment, pdh::Snapshot)>,
    ) -> (r: Sample)
        ensures
            r == (Sample {
                taken_at,
                cpu,
                cpu_mhz,
                memory,
                network_at,
                network,
                battery: self@.battery,
                nvme: self@.nvme,
                pdh,
            }),
    {
        let battery = match &self.battery {
            Some((at, snapshot)) => Some((*at, Arc::clone(snapshot))),
            None => None,
        };
        let nvme = match &self.nvme {
            Some((at, reading)) => Some((*at, Arc::clone(reading))),
            None => None,
        };
        Sample { taken_at, cpu, cpu_mhz, memory, network_at, network, battery, nvme, pdh }
    }

    /// Takes everything that was read in a round, and makes its sample.
    pub fn take_round(&mut self, round: Round) -> (r: Sample)
        requires
            is_round(old(self)@, round),
        ensures
            r == sample_of(old(self)@, round),
            final(self)@ == after_round(old(self)@, round),
    {
        let cpu = self.take_cpu(round.times, round.taken_at);
        let network = self.take_interfaces(round.interfaces, round.network_at);
        if let Some((at, snapshot)) = round.battery {
            self.take_battery(at, snapshot);
        }
        if let Some((at, reading)) = round.nvme {
            self.take_nvme(at, reading);
        }
        self.sample(
            round.taken_at,
            cpu,
            round.cpu_mhz,
            round.memory,
            round.network_at,
            network,
            round.pdh,
        )
    }
}

/// How waiting for the next round ended.
#[derive(Clone, Copy, Debug, PartialEq, Eq, Structural)]
pub enum Wait {
    TimedOut,
    Signalled,
    Disconnected,
}

/// What the sampling thread has just come from.
#[derive(Clone, Copy, Debug, PartialEq, Eq, Structural)]
pub enum Event {
    Started,
    Waited(Wait),
}

/// What the sampling thread does next.
#[derive(Clone, Copy, Debug, PartialEq, Eq, Structural)]
pub enum Step {
    /// Sample, hand the sample on, and wait.
    Round,
    End,
}

/// A thread that has started makes a round, and so does one whose wait ran its
/// full time: any sign from the owner ends the sampling.
pub open spec fn step_after(event: Event) -> Step {
    if event == Event::Started || event == Event::Waited(Wait::TimedOut) {
        Step::Round
    } else {
        Step::End
    }
}

pub fn next_step(event: Event) -> (r: Step)
    ensures
        r == step_after(event),
        r == Step::Round <==> event == Event::Started || event == Event::Waited(Wait::TimedOut),
{
    match event {
        Event::Started | Event::Waited(Wait::TimedOut) => Step::Round,
        Event::Waited(Wait::Signalled) | Event::Waited(Wait::Disconnected) => Step::End,
    }
}

/// How many rounds the thread makes from an event on, if its waits end as
/// given; with no more waits given, it is in the wait after its last round.
pub open spec fn rounds_from(event: Event, waits: Seq<Wait>) -> nat
    decreases waits.len(),
{
    if step_after(event) == Step::End {
        0
    } else if waits.len() == 0 {
        1
    } else {
        1 + rounds_from(Event::Waited(waits[0]), waits.skip(1))
    }
}

/// A thread that was started makes at least one round, and one more for every
/// wait that runs its full time, up to the first that does not.
pub proof fn rounds_last_until_the_first_sign(waits: Seq<Wait>, n: int)
    requires
        0 <= n <= waits.len(),
        forall|i: int| 0 <= i < n ==> waits[i] == Wait::TimedOut,
        n < waits.len() ==> waits[n] != Wait::TimedOut,
    ensures
        rounds_from(Event::Started, waits) == n + 1,
        rounds_from(Event::Waited(Wait::TimedOut), waits) == n + 1,
    decreases n,
{
    if n > 0 {
        rounds_last_until_the_first_sign(waits.skip(1), n - 1);
    } else if waits.len() > 0 {
        assert(rounds_from(Event::Waited(waits[0]), waits.skip(1)) == 0);
    }
}

/// A slow reading is not repeated before its interval has passed, and is due from then on.
pub proof fn slow_readings_keep_their_interval(at: Moment, now: Moment, interval: u64)
    requires
        at.nanos <= now.nanos,
    ensures
        due(Some(at), now, interval) <==> now.nanos >= at.nanos + interval,
        due(None, now, interval),
{
}

/// After a failure to read the CPU times or the interfaces, the next reading
/// brings no value, whatever it is.
pub proof fn failures_start_over(
    luid: u64,
    last: Option<Counters>,
    e: Error,
    failed_at: Moment,
    times: CpuTimes,
    interfaces: Vec<InterfaceSnapshot>,
    at: Moment,
)
    ensures
        crate::cpu::usage(None, times, at) == CpuUsage::Pending,
        network_baseline(Some(luid), last, Some(Err(e)), failed_at) is None,
        !(network_result(Some(luid), None, Some(Ok(interfaces)), at) matches Ok(
            NetworkUsage::Transfer { .. },
        )),
{
}

/// The state of a collector before round `i` of a run from `start` on.
pub open spec fn state_before(start: CollectorState, rounds: Seq<Round>, i: int) -> CollectorState
    decreases i,
{
    if i <= 0 {
        start
    } else {
        after_round(state_before(start, rounds, i - 1), rounds[i - 1])
    }
}

/// Whether the rounds follow one another from `start` on.
pub open spec fn is_run(start: CollectorState, rounds: Seq<Round>) -> bool {
    forall|i: int|
        0 <= i < rounds.len() ==> is_round(#[trigger] state_before(start, rounds, i), rounds[i])
}

/// The sample of round `i` of a run.
pub open spec fn sample_at(start: CollectorState, rounds: Seq<Round>, i: int) -> Sample {
    sample_of(state_before(start, rounds, i), rounds[i])
}

/// What a run keeps: the chosen devices, and slow readings of what was chosen once there was a round.
proof fn lemma_run(luid: Option<u64>, disk: Option<DiskDevice>, rounds: Seq<Round>, i: int)
    requires
        is_run(unused(luid, disk), rounds),
        0 <= i <= rounds.len(),
    ensures
        state_before(unused(luid, disk), rounds, i).network_luid == luid,
        state_before(unused(luid, disk), rounds, i).disk == disk,
        state_before(unused(luid, disk), rounds, i).battery is Some <==> i > 0,
        state_before(unused(luid, disk), rounds, i).nvme is Some <==> i > 0 && disk is Some,
    decreases i,
{
    if i > 0 {
        lemma_run(luid, disk, rounds, i - 1);
        assert(is_round(state_before(unused(luid, disk), rounds, i - 1), rounds[i - 1]));
    }
}

/// Of every sample of a run: the network is not selected exactly if no
/// interface was chosen, there is a battery reading, and there is a reading of
/// the disk's health exactly if a disk was chosen.
pub proof fn samples_tell_what_was_chosen(
    luid: Option<u64>,
    disk: Option<DiskDevice>,
    rounds: Seq<Round>,
    i: int,
)
    requires
        is_run(unused(luid, disk), rounds),
        0 <= i < rounds.len(),
    ensures
        (sample_at(unused(luid, disk), rounds, i).network matches Ok(NetworkUsage::NotSelected))
            <==> luid is None,
        sample_at(unused(luid, disk), rounds, i).battery is Some,
        sample_at(unused(luid, disk), rounds, i).nvme is Some <==> disk is Some,
{
    lemma_run(luid, disk, rounds, i);
    assert(is_round(state_before(unused(luid, disk), rounds, i), rounds[i]));
}

/// A thread that was started hands on at least one sample, however its waits
/// end, and that sample tells what was chosen.
pub proof fn a_started_thread_hands_on_a_sample(
    luid: Option<u64>,
    disk: Option<DiskDevice>,
    rounds: Seq<Round>,
    waits: Seq<Wait>,
)
    requires
        is_run(unused(luid, disk), rounds),
        rounds.len() == rounds_from(Event::Started, waits),
    ensures
        rounds.len() >= 1,
        (sample_at(unused(luid, disk), rounds, 0).network matches Ok(NetworkUsage::NotSelected))
            <==> luid is None,
        sample_at(unused(luid, disk), rounds, 0).battery is Some,
        sample_at(unused(luid, disk), rounds, 0).nvme is Some <==> disk is Some,
{
    samples_tell_what_was_chosen(luid, disk, rounds, 0);
}

/// Whether a later slow reading is the very same as an earlier one, or at least `interval` younger.
pub open spec fn is_spaced<T>(
    earlier: Option<(Moment, T)>,
    later: Option<(Moment, T)>,
    interval: u64,
) -> bool {
    match (earlier, later) {
        (Some(a), Some(b)) => a == b || b.0.nanos >= a.0.nanos + interval,
        (Some(_), None) => false,
        (None, _) => true,
    }
}

/// Two samples of a run carry the same slow reading, or two that are at least
/// the reading's interval apart.
pub proof fn slow_readings_of_a_run_are_spaced(
    start: CollectorState,
    rounds: Seq<Round>,
    i: int,
    j: int,
)
    requires
        is_run(start, rounds),
        0 <= i <= j < rounds.len(),
    ensures
        is_spaced(
            sample_at(start, rounds, i).battery,
            sample_at(start, rounds, j).battery,
            battery::INTERVAL,
        ),
        is_spaced(
            sample_at(start, rounds, i).nvme,
            sample_at(start, rounds, j).nvme,
            nvme::INTERVAL,
        ),
    decreases j - i,
{
    if i < j {
        slow_readings_of_a_run_are_spaced(start, rounds, i, j - 1);
        assert(is_round(state_before(start, rounds, j), rounds[j]));
        assert(state_before(start, rounds, j).battery == sample_at(start, rounds, j - 1).battery);
        assert(state_before(start, rounds, j).nvme == sample_at(start, rounds, j - 1).nvme);
    }
}

/// Every reading of a round stands for itself: what is read of one thing, a
/// failure to read it included, changes nothing of the rest of the sample.
pub proof fn readings_of_a_round_stand_alone(state: CollectorState, round: Round, other: Round)
    ensures
        round.times == other.times && round.taken_at == other.taken_at ==> sample_of(
            state,
            round,
        ).cpu == sample_of(state, other).cpu,
        round.cpu_mhz == other.cpu_mhz ==> sample_of(state, round).cpu_mhz == sample_of(
            state,
            other,
        ).cpu_mhz,
        round.memory == other.memory ==> sample_of(state, round).memory == sample_of(
            state,
            other,
        ).memory,
        round.interfaces == other.interfaces && round.network_at == other.network_at ==> sample_of(
            state,
            round,
        ).network == sample_of(state, other).network,
        round.battery == other.battery ==> sample_of(state, round).battery == sample_of(
            state,
            other,
        ).battery,
        round.nvme == other.nvme ==> sample_of(state, round).nvme == sample_of(state, other).nvme,
        round.pdh == other.pdh ==> sample_of(state, round).pdh == sample_of(state, other).pdh,
{
}

/// A reading is stale once it is older than the limit, and one that was never
/// made is not.
pub proof fn readings_go_stale_after_their_limit(at: Moment, now: Moment, limit: u64)
    ensures
        outdated(Some(at), now, limit) <==> now.nanos > at.nanos + limit,
        !outdated(None, now, limit),
{
}

/// An interface that is looked for by its identifier is the first that has it;
/// none is found only if none has it.
pub proof fn interfaces_are_found_by_identifier(
    interfaces: Seq<InterfaceSnapshot>,
    luid: u64,
    from: int,
) -> (k: int)
    requires
        0 <= from,
    ensures
        match with_luid(interfaces, luid, from) {
            Some(found) => {
                &&& from <= k < interfaces.len()
                &&& *found == interfaces[k]
                &&& interfaces[k].luid == luid
                &&& forall|j: int| from <= j < k ==> (#[trigger] interfaces[j]).luid != luid
            },
            None => forall|j: int|
                from <= j < interfaces.len() ==> (#[trigger] interfaces[j]).luid != luid,
        },
    decreases interfaces.len() - from,
{
    if from < interfaces.len() && interfaces[from].luid != luid {
        interfaces_are_found_by_identifier(interfaces, luid, from + 1)
    } else {
        from
    }
}

/// Of the interfaces that were read, the chosen one is measured against the last
/// counters, and one that is gone is not available.
pub proof fn the_chosen_interface_is_measured(
    luid: u64,
    last: Option<Counters>,
    list: Vec<InterfaceSnapshot>,
    at: Moment,
    k: int,
)
    requires
        forall|j: int| 0 <= j < k ==> (#[trigger] list@[j]).luid != luid,
        0 <= k <= list@.len(),
        k < list@.len() ==> list@[k].luid == luid,
    ensures
        k < list@.len() ==> network_result(Some(luid), last, Some(Ok(list)), at) == Ok::<
            NetworkUsage,
            Error,
        >(crate::network::usage(last, Some(&list@[k]), at)) && network_baseline(
            Some(luid),
            last,
            Some(Ok(list)),
            at,
        ) == (if list@[k].oper_status == 1 {
            Some(
                Counters { at, received: list@[k].received_bytes, sent: list@[k].sent_bytes },
            )
        } else {
            None
        }),
        k == list@.len() ==> network_result(Some(luid), last, Some(Ok(list)), at) == Ok::<
            NetworkUsage,
            Error,
        >(NetworkUsage::Unavailable) && network_baseline(Some(luid), last, Some(Ok(list)), at)
            is None,
{
    let m = interfaces_are_found_by_identifier(list@, luid, 0);
}

/// The readings of a round are the baselines of the next one, and a failure to
/// read leaves none. What was read of the battery and of the disk's health stays
/// until it is read again.
pub proof fn rounds_leave_baselines(state: CollectorState, round: Round)
    ensures
        round.times matches Ok(now) ==> after_round(state, round).cpu == Some(
            (now, round.taken_at),
        ),
        round.times is Err ==> after_round(state, round).cpu is None,
        state.network_luid is Some && (round.interfaces matches Some(Err(_))) ==> after_round(
            state,
            round,
        ).network is None,
        round.battery matches Some((at, battery)) ==> after_round(state, round).battery == Some(
            (at, Arc::new(battery)),
        ),
        round.battery is None ==> after_round(state, round).battery == state.battery,
        round.nvme matches Some((at, health)) ==> after_round(state, round).nvme == Some(
            (at, Arc::new(health)),
        ),
        round.nvme is None ==> after_round(state, round).nvme == state.nvme,
        after_round(state, round).network_luid == state.network_luid,
        after_round(state, round).disk == state.disk,
{
}

/// A sample carries what was read: the times of its round, the usage since the
/// last CPU times or why they could not be read, the frequency, the memory and
/// the counters as they were read, and the last slow readings, those of the
/// round among them.
pub proof fn samples_carry_what_was_read(state: CollectorState, round: Round)
    ensures
        sample_of(state, round).taken_at == round.taken_at,
        sample_of(state, round).network_at == round.network_at,
        sample_of(state, round).cpu_mhz == round.cpu_mhz,
        sample_of(state, round).memory == round.memory,
        sample_of(state, round).pdh == round.pdh,
        round.times matches Ok(now) ==> sample_of(state, round).cpu == Ok::<CpuUsage, Error>(
            crate::cpu::usage(state.cpu, now, round.taken_at),
        ),
        round.times matches Err(e) ==> sample_of(state, round).cpu == Err::<CpuUsage, Error>(e),
        state.network_luid is Some ==> (round.interfaces matches Some(Err(e)) ==> sample_of(
            state,
            round,
        ).network == Err::<NetworkUsage, Error>(e)),
        sample_of(state, round).battery == after_round(state, round).battery,
        sample_of(state, round).nvme == after_round(state, round).nvme,
{
}

} // verus!
