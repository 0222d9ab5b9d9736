//! Subscribers, and the limits that are sent to them.

use std::collections::HashMap;
use std::collections::hash_map::Entry;

use vstd::prelude::*;

use crate::ewm::{DeviceEwm, FpsDetail};

verus! {

broadcast use vstd::std_specs::hash::group_hash_axioms;

/// What a subscriber asks for.
#[derive(Clone, Copy, PartialEq, Eq, Debug)]
pub struct RegisterParams {
    /// How many times a second it wants to hear of its limit.
    pub frequency_hz: u16,
    pub min_fps: u16,
    pub max_fps: u16,
    pub attack_half_life_us: u32,
    pub release_half_life_us: u32,
    /// Whether the limit is to be a divider of `max_fps`.
    pub snap_to_divider: bool,
}

/// Why what a subscriber asks for is refused.
#[derive(Clone, Copy, PartialEq, Eq, Debug, Structural)]
pub enum ParamError {
    Frequency,
    FpsRange,
    HalfLife,
}

impl ParamError {
    pub open spec fn spec_message(self) -> Seq<char> {
        match self {
            ParamError::Frequency => "frequencyHz must be within 1-1000"@,
            ParamError::FpsRange => "invalid fps range"@,
            ParamError::HalfLife => "half-lives must be > 0"@,
        }
    }

    /// The words in which the subscriber is told.
    pub fn message(&self) -> (m: &'static str)
        ensures
            m@ == self.spec_message(),
    {
        match self {
            ParamError::Frequency => "frequencyHz must be within 1-1000",
            ParamError::FpsRange => "invalid fps range",
            ParamError::HalfLife => "half-lives must be > 0",
        }
    }
}

/// Why a registration failed.
#[derive(PartialEq, Eq, Debug)]
pub enum RegisterError<E> {
    /// What was asked for is refused.
    Params(ParamError),
    /// There is no one to send the limit to.
    Receiver(E),
}

impl RegisterParams {
    /// The verdict on what is asked for: the first thing that is wrong with it.
    pub open spec fn verdict(self) -> Result<(), ParamError> {
        if !(1 <= self.frequency_hz <= 1000) {
            Err(ParamError::Frequency)
        } else if self.min_fps >= self.max_fps {
            Err(ParamError::FpsRange)
        } else if self.attack_half_life_us == 0 || self.release_half_life_us == 0 {
            Err(ParamError::HalfLife)
        } else {
            Ok(())
        }
    }

    pub fn validate(&self) -> (r: Result<(), ParamError>)
        ensures
            r == self.verdict(),
    {
        if self.frequency_hz < 1 || self.frequency_hz > 1000 {
            return Err(ParamError::Frequency);
        }
        if self.min_fps >= self.max_fps || self.max_fps == 0 {
            return Err(ParamError::FpsRange);
        }
        if self.attack_half_life_us == 0 || self.release_half_life_us == 0 {
            return Err(ParamError::HalfLife);
        }
        Ok(())
    }
}

/// The time between two ticks in microseconds.
pub fn tick_period_us(frequency_hz: u16) -> (us: u64)
    requires
        frequency_hz > 0,
    ensures
        us == 1_000_000int / frequency_hz as int,
{
    1_000_000 / frequency_hz as u64
}

/// What is left of `max_fps` when only every `n`-th refresh shows a frame.
pub open spec fn quotient(max_fps: u16, n: int) -> int {
    max_fps as int / n
}

/// Whether the `n`-th quotient of `max_fps` is a candidate: the quotients go no
/// further down than to the first below `max_fps` that is at or below `min_fps`.
pub open spec fn is_candidate(max_fps: u16, min_fps: u16, n: int) -> bool {
    &&& 1 <= n
    &&& n <= max_fps || n == 1
    &&& n <= 2 || quotient(max_fps, n - 1) > min_fps
}

/// Whether `r` is as good as `q` for a target of at least `halves` and less than
/// `halves + 1` halves of a frame: it is nearer to the target, or as near and no
/// smaller.
pub open spec fn no_farther(r: int, q: int, halves: int) -> bool {
    if q > r {
        halves < q + r
    } else if q < r {
        halves >= q + r
    } else {
        true
    }
}

/// Whether `r` is the candidate that is nearest to a target of `halves` halves of a
/// frame; of two that are as near, the larger.
pub open spec fn is_nearest_divider(max_fps: u16, min_fps: u16, halves: int, r: int) -> bool {
    &&& exists|n: int| #[trigger] is_candidate(max_fps, min_fps, n) && r == quotient(max_fps, n)
    &&& forall|n: int| #[trigger]
        is_candidate(max_fps, min_fps, n) ==> no_farther(r, quotient(max_fps, n), halves)
}

/// The candidate that is nearest to a target.
pub open spec fn nearest_divider(max_fps: u16, min_fps: u16, halves: int) -> int {
    choose|r: int| is_nearest_divider(max_fps, min_fps, halves, r)
}

/// No two candidates are the nearest.
pub proof fn lemma_nearest_divider_unique(max_fps: u16, min_fps: u16, halves: int, a: int, b: int)
    requires
        is_nearest_divider(max_fps, min_fps, halves, a),
        is_nearest_divider(max_fps, min_fps, halves, b),
    ensures
        a == b,
{
}

/// Snaps a target to the nearest divider of `max_fps`, in the sense of whole-number
/// division: of two that are as near, to the larger. Quotients that repeat are
/// passed over. The target is given by the number of halves of a frame in it.
pub fn snap_to_divider(max_fps: u16, min_fps: u16, target_halves: u32) -> (best: u16)
    ensures
        is_nearest_divider(max_fps, min_fps, target_halves as int, best as int),
        best == nearest_divider(max_fps, min_fps, target_halves as int),
{
    let mut best: u16 = max_fps;
    let mut n: u32 = 2;
    assert(best == quotient(max_fps, 1) && is_candidate(max_fps, min_fps, 1));
    while n <= max_fps as u32
        invariant_except_break
            2 <= n <= 65536,
            n > 2 ==> best > min_fps,
            best == quotient(max_fps, n - 1),
            forall|k: int|
                1 <= k < n && #[trigger] is_candidate(max_fps, min_fps, k) ==> no_farther(
                    best as int,
                    quotient(max_fps, k),
                    target_halves as int,
                ),
        invariant
            exists|k: int| #[trigger]
                is_candidate(max_fps, min_fps, k) && best == quotient(max_fps, k),
        ensures
            forall|k: int| #[trigger]
                is_candidate(max_fps, min_fps, k) ==> no_farther(
                    best as int,
                    quotient(max_fps, k),
                    target_halves as int,
                ),
        decreases 65536 - n,
    {
        let d: u16 = (max_fps as u32 / n) as u16;
        proof {
            assert(d == quotient(max_fps, n as int));
            if n == 2 {
                vstd::arithmetic::div_mod::lemma_div_basics(max_fps as int);
                vstd::arithmetic::div_mod::lemma_div_decreases(max_fps as int, 2);
            }
            assert forall|k: int, l: int| 1 <= k <= l implies (#[trigger] quotient(max_fps, k)) >= (
            #[trigger] quotient(max_fps, l)) by {
                vstd::arithmetic::div_mod::lemma_div_is_ordered_by_denominator(
                    max_fps as int,
                    k,
                    l,
                );
            }
        }
        if d < best {
            if target_halves >= best as u32 + d as u32 {
                break ;
            }
            assert(is_candidate(max_fps, min_fps, n as int));
            best = d;
            if d <= min_fps {
                assert forall|k: int| #[trigger] is_candidate(max_fps, min_fps, k) implies no_farther(
                    best as int,
                    quotient(max_fps, k),
                    target_halves as int,
                ) by {
                    if k > n {
                        assert(quotient(max_fps, k - 1) <= quotient(max_fps, n as int));
                    }
                }
                break ;
            }
        }
        n = n + 1;
    }
    proof {
        let halves = target_halves as int;
        assert(is_nearest_divider(max_fps, min_fps, halves, best as int));
        lemma_nearest_divider_unique(
            max_fps,
            min_fps,
            halves,
            best as int,
            nearest_divider(max_fps, min_fps, halves),
        );
    }
    best
}

/// The nearest whole number of frames, halfway cases up, capped at what 16 bits hold.
pub open spec fn rounded(halves: int) -> int {
    if (halves + 1) / 2 > u16::MAX {
        u16::MAX as int
    } else {
        (halves + 1) / 2
    }
}

/// Rounds a number of halves of a frame to whole frames.
pub fn round_halves(halves: u32) -> (fps: u16)
    ensures
        fps == rounded(halves as int),
{
    if halves >= 2 * (u16::MAX as u32) {
        u16::MAX
    } else {
        ((halves + 1) / 2) as u16
    }
}

/// What a tick found out about one device of a subscriber.
#[derive(Clone, Copy, PartialEq, Eq, Debug)]
pub struct DeviceTick {
    pub device_id: u16,
    /// The bit pattern of the envelope's level before the tick.
    pub level: u64,
    pub detail: FpsDetail,
}

/// Where the envelope of one device of a subscriber stands after a tick.
#[derive(Clone, Copy, PartialEq, Eq, Debug)]
pub struct DeviceLevel {
    pub device_id: u16,
    /// The bit pattern of the envelope's level.
    pub level: u64,
    /// The number of halves of a frame in the limit that the level stands for.
    pub halves: u32,
}

/// What comes of a tick.
#[derive(Clone, Copy, PartialEq, Eq, Debug, Structural)]
pub enum TickOutcome {
    /// The subscriber is gone.
    Stopped,
    /// The limit, rounded, is the one that was last sent.
    Unchanged,
    /// The highest limit is to be sent as it is.
    Send,
    /// This limit is to be sent.
    SendSnapped(u16),
}

/// The number of halves of a frame in the highest limit, which is no lower than
/// `min_fps`.
pub open spec fn highest(min_fps: u16, levels: Seq<DeviceLevel>) -> int
    decreases levels.len(),
{
    if levels.len() == 0 {
        2 * min_fps
    } else {
        let rest = highest(min_fps, levels.drop_last());
        if levels.last().halves > rest {
            levels.last().halves as int
        } else {
            rest
        }
    }
}

/// The devices with their new levels.
pub open spec fn with_levels(
    devices: Map<u16, crate::ewm::EwmState>,
    levels: Seq<DeviceLevel>,
) -> Map<u16, crate::ewm::EwmState>
    decreases levels.len(),
{
    if levels.len() == 0 {
        devices
    } else {
        let rest = with_levels(devices, levels.drop_last());
        let l = levels.last();
        if rest.contains_key(l.device_id) {
            rest.insert(
                l.device_id,
                crate::ewm::EwmState { level: l.level, ..rest[l.device_id] },
            )
        } else {
            rest
        }
    }
}

/// Whether `report` says of every device, once, what a tick at `now` finds out.
pub open spec fn reports(
    devices: Map<u16, crate::ewm::EwmState>,
    now: i64,
    report: Seq<DeviceTick>,
) -> bool {
    &&& forall|j: int|
        #![trigger report[j]]
        0 <= j < report.len() ==> {
            &&& devices.contains_key(report[j].device_id)
            &&& report[j].level == devices[report[j].device_id].level
            &&& report[j].detail == devices[report[j].device_id].detail(now)
        }
    &&& forall|d: u16| #[trigger]
        devices.contains_key(d) ==> exists|j: int|
            0 <= j < report.len() && (#[trigger] report[j]).device_id == d
    &&& forall|j: int, k: int|
        0 <= j < k < report.len() ==> (#[trigger] report[j]).device_id != (
        #[trigger] report[k]).device_id
}

/// A subscriber, with `H` for what its limit is sent through.
pub struct FpsSubscriber<H> {
    min_fps: u16,
    max_fps: u16,
    attack_hl_us: u32,
    release_hl_us: u32,
    snap_to_divider: bool,
    handle: H,
    devices: HashMap<u16, DeviceEwm>,
    last_sent_fps: u16,
}

/// What a subscriber stands for.
#[verifier::ext_equal]
#[verifier::reject_recursive_types(H)]
pub struct SubscriberState<H> {
    pub min_fps: u16,
    pub max_fps: u16,
    pub attack_hl_us: u32,
    pub release_hl_us: u32,
    pub snap_to_divider: bool,
    pub handle: H,
    /// The devices that it has heard of.
    pub devices: Map<u16, crate::ewm::EwmState>,
    /// The limit that was last sent to it, rounded.
    pub last_sent_fps: u16,
}

impl<H> SubscriberState<H> {
    /// A subscriber that has heard of no device.
    pub open spec fn init(p: RegisterParams, handle: H) -> Self {
        SubscriberState {
            min_fps: p.min_fps,
            max_fps: p.max_fps,
            attack_hl_us: p.attack_half_life_us,
            release_hl_us: p.release_half_life_us,
            snap_to_divider: p.snap_to_divider,
            handle,
            devices: Map::empty(),
            last_sent_fps: 0,
        }
    }

    pub open spec fn wf(self) -> bool {
        forall|d: u16| #[trigger] self.devices.contains_key(d) ==> self.devices[d].wf()
    }

    /// What it knows of a device: nothing, if it has not heard of it.
    pub open spec fn device(self, d: u16) -> crate::ewm::EwmState {
        if self.devices.contains_key(d) {
            self.devices[d]
        } else {
            crate::ewm::EwmState::init()
        }
    }

    /// After a batch of event times of a device.
    pub open spec fn fed(self, d: u16, ts: Seq<i64>, active: bool) -> Self {
        let next = crate::ewm::EwmState { active, ..self.device(d).observe(ts) };
        SubscriberState { devices: self.devices.insert(d, next), ..self }
    }

    /// Whether all its devices can have a tick at `now`.
    pub open spec fn tick_in_range(self, now: i64) -> bool {
        forall|d: u16| #[trigger] self.devices.contains_key(d) ==> self.devices[d].tick_in_range(now)
    }

    /// The limit that the levels come to, rounded.
    pub open spec fn limit(self, levels: Seq<DeviceLevel>) -> int {
        let halves = highest(self.min_fps, levels);
        if self.snap_to_divider {
            nearest_divider(self.max_fps, self.min_fps, halves)
        } else {
            rounded(halves)
        }
    }

    /// What comes of the levels.
    pub open spec fn outcome(self, levels: Seq<DeviceLevel>) -> TickOutcome {
        if self.limit(levels) == self.last_sent_fps {
            TickOutcome::Unchanged
        } else if self.snap_to_divider {
            TickOutcome::SendSnapped(self.limit(levels) as u16)
        } else {
            TickOutcome::Send
        }
    }

    /// After the levels have been settled.
    pub open spec fn settled(self, levels: Seq<DeviceLevel>) -> Self {
        SubscriberState {
            devices: with_levels(self.devices, levels),
            last_sent_fps: self.limit(levels) as u16,
            ..self
        }
    }

    /// After a tick at `now`.
    pub open spec fn ticked(self, now: i64) -> Self {
        SubscriberState {
            devices: self.devices.map_values(|v: crate::ewm::EwmState| v.tick(now)),
            ..self
        }
    }
}

impl<H> View for FpsSubscriber<H> {
    type V = SubscriberState<H>;

    closed spec fn view(&self) -> SubscriberState<H> {
        SubscriberState {
            min_fps: self.min_fps,
            max_fps: self.max_fps,
            attack_hl_us: self.attack_hl_us,
            release_hl_us: self.release_hl_us,
            snap_to_divider: self.snap_to_divider,
            handle: self.handle,
            devices: self.devices@.map_values(|e: DeviceEwm| e@),
            last_sent_fps: self.last_sent_fps,
        }
    }
}

impl<H> FpsSubscriber<H> {
    /// Whether a batch of event times of a device can be taken in.
    fn can_feed(&self, device_id: u16, timestamps_us: &[i64]) -> (yes: bool)
        ensures
            yes == self@.device(device_id).accepts(timestamps_us@),
    {
        match self.devices.get(&device_id) {
            Some(ewm) => ewm.can_observe(timestamps_us),
            None => {
                let ewm: DeviceEwm = DeviceEwm::new();
                ewm.can_observe(timestamps_us)
            },
        }
    }

    /// Takes in a batch of event times of a device.
    fn feed(&mut self, device_id: u16, timestamps_us: &[i64], is_active_indefinitely: bool)
        requires
            old(self)@.wf(),
            old(self)@.device(device_id).accepts(timestamps_us@),
        ensures
            final(self)@.wf(),
            final(self)@ == old(self)@.fed(device_id, timestamps_us@, is_active_indefinitely),
    {
        let ghost before = self.devices@;
        let ewm = self.devices.entry(device_id).or_insert(DeviceEwm::new());
        proof {
            assert(ewm@ == old(self)@.device(device_id));
            if before.contains_key(device_id) {
                assert(old(self)@.devices.contains_key(device_id));
            }
        }
        ewm.observe_batch(timestamps_us);
        ewm.active_indefinitely(is_active_indefinitely);
        proof {
            assert(self@.devices =~= old(self)@.fed(
                device_id,
                timestamps_us@,
                is_active_indefinitely,
            ).devices);
            assert forall|d: u16| #[trigger] self@.devices.contains_key(d) implies self@.devices[d].wf() by {
                if d != device_id {
                    assert(old(self)@.devices.contains_key(d));
                }
            }
        }
    }

    /// Whether all the devices can have a tick at `now_us`.
    fn can_tick(&mut self, now_us: i64) -> (yes: bool)
        requires
            old(self)@.wf(),
        ensures
            final(self)@ == old(self)@,
            yes == old(self)@.tick_in_range(now_us),
    {
        let ids: Vec<u16> = collect_keys(&self.devices);
        let mut i: usize = 0;
        while i < ids.len()
            invariant
                i <= ids.len(),
                self@ == old(self)@,
                self@.wf(),
                ids@.to_set() == self.devices@.dom(),
                forall|j: int| 0 <= j < i ==> self@.devices[#[trigger] ids@[j]].tick_in_range(now_us),
            decreases ids.len() - i,
        {
            let id: u16 = ids[i];
            assert(ids@.to_set().contains(id));
            assert(self@.devices.contains_key(id));
            let ghost before = self@.devices;
            match self.devices.entry(id) {
                Entry::Occupied(entry) => {
                    let ewm = entry.into_mut();
                    assert(ewm@ == before[id]);
                    let yes: bool = ewm.can_compute_fps(now_us);
                    assert(self@.devices =~= before);
                    if !yes {
                        return false;
                    }
                },
                Entry::Vacant(_) => {
                    assert(false);
                },
            }
            i = i + 1;
        }
        assert forall|d: u16| #[trigger] self@.devices.contains_key(d) implies self@.devices[d].tick_in_range(now_us) by {
            assert(ids@.to_set().contains(d));
            let j = choose|j: int| 0 <= j < ids@.len() && ids@[j] == d;
            assert(self@.devices[ids@[j]].tick_in_range(now_us));
        }
        true
    }

    /// Gives all the devices a tick at `now_us`.
    fn tick_devices(&mut self, now_us: i64) -> (report: Vec<DeviceTick>)
        requires
            old(self)@.wf(),
            old(self)@.tick_in_range(now_us),
        ensures
            final(self)@.wf(),
            final(self)@ == old(self)@.ticked(now_us),
            reports(old(self)@.devices, now_us, report@),
    {
        let ids: Vec<u16> = collect_keys(&self.devices);
        let mut report: Vec<DeviceTick> = Vec::new();
        let ghost start = self@.devices;
        let mut i: usize = 0;
        while i < ids.len()
            invariant
                i <= ids.len(),
                ids@.to_set() == start.dom(),
                ids@.no_duplicates(),
                old(self)@.devices == start,
                old(self)@.wf(),
                old(self)@.tick_in_range(now_us),
                self@.devices.dom() == start.dom(),
                self@ == (SubscriberState { devices: self@.devices, ..old(self)@ }),
                forall|d: u16| #[trigger] start.contains_key(d) ==> self@.devices[d] == if ids@.take(
                    i as int,
                ).contains(d) {
                    start[d].tick(now_us)
                } else {
                    start[d]
                },
                report@.len() == i,
                forall|j: int|
                    #![trigger report@[j]]
                    0 <= j < i ==> report@[j] == (DeviceTick {
                        device_id: ids@[j],
                        level: start[ids@[j]].level,
                        detail: start[ids@[j]].detail(now_us),
                    }),
            decreases ids.len() - i,
        {
            let id: u16 = ids[i];
            let ghost before = self@.devices;
            proof {
                assert(ids@.to_set().contains(id));
                assert(start.contains_key(id));
                assert(before.contains_key(id));
                assert(!ids@.take(i as int).contains(id));
            }
            match self.devices.entry(id) {
                Entry::Occupied(entry) => {
                    let ewm = entry.into_mut();
                    assert(ewm@ == before[id]);
                    let level: u64 = ewm.level();
                    let detail: FpsDetail = ewm.compute_fps_detailed(now_us);
                    report.push(DeviceTick { device_id: id, level, detail });
                    assert(self@.devices =~= before.insert(id, start[id].tick(now_us)));
                },
                Entry::Vacant(_) => {
                    assert(false);
                },
            }
            proof {
                assert(ids@.take(i + 1) =~= ids@.take(i as int).push(id));
                assert forall|d: u16| #[trigger] start.contains_key(d) implies self@.devices[d]
                    == if ids@.take(i + 1).contains(d) {
                    start[d].tick(now_us)
                } else {
                    start[d]
                } by {
                    if d == id {
                        assert(ids@.take(i + 1)[i as int] == id);
                    } else if ids@.take(i as int).contains(d) {
                        let j = choose|j: int| 0 <= j < i && ids@.take(i as int)[j] == d;
                        assert(ids@.take(i + 1)[j] == d);
                    }
                }
            }
            i = i + 1;
        }
        proof {
            assert(ids@.take(i as int) =~= ids@);
            assert forall|d: u16| #[trigger] start.contains_key(d) implies exists|j: int|
                0 <= j < report@.len() && (#[trigger] report@[j]).device_id == d by {
                assert(ids@.to_set().contains(d));
                let j = choose|j: int| 0 <= j < ids@.len() && ids@[j] == d;
                assert(report@[j].device_id == d);
            }
            assert(self@.devices =~= old(self)@.ticked(now_us).devices) by {
                assert forall|d: u16| #[trigger] start.contains_key(d) implies self@.devices[d]
                    == start[d].tick(now_us) by {
                    assert(ids@.to_set().contains(d));
                }
            }
        }
        report
    }

    /// Keeps the new levels, and decides what to send.
    fn settle(&mut self, levels: &[DeviceLevel]) -> (outcome: TickOutcome)
        requires
            old(self)@.wf(),
        ensures
            final(self)@.wf(),
            final(self)@ == old(self)@.settled(levels@),
            outcome == old(self)@.outcome(levels@),
    {
        let mut halves: u32 = 2 * (self.min_fps as u32);
        let ghost start = self@.devices;
        let mut i: usize = 0;
        while i < levels.len()
            invariant
                i <= levels.len(),
                self@.devices == with_levels(start, levels@.take(i as int)),
                self@.wf(),
                self@ == (SubscriberState { devices: self@.devices, ..old(self)@ }),
                halves == highest(self@.min_fps, levels@.take(i as int)),
            decreases levels.len() - i,
        {
            let l: DeviceLevel = levels[i];
            let ghost before = self@.devices;
            assert(levels@.take(i + 1).drop_last() =~= levels@.take(i as int));
            match self.devices.entry(l.device_id) {
                Entry::Occupied(entry) => {
                    let ewm = entry.into_mut();
                    assert(before.contains_key(l.device_id));
                    assert(ewm@ == before[l.device_id]);
                    ewm.set_level(l.level);
                    assert(self@.devices =~= with_levels(start, levels@.take(i + 1)));
                    assert forall|d: u16| #[trigger] self@.devices.contains_key(d) implies self@.devices[d].wf() by {
                        assert(before.contains_key(d));
                    }
                },
                Entry::Vacant(_) => {
                    assert(self@.devices =~= before);
                },
            }
            if l.halves > halves {
                halves = l.halves;
            }
            i = i + 1;
        }
        assert(levels@.take(i as int) =~= levels@);
        let (limit, snapped): (u16, bool) = if self.snap_to_divider {
            (snap_to_divider(self.max_fps, self.min_fps, halves), true)
        } else {
            (round_halves(halves), false)
        };
        if limit == self.last_sent_fps {
            TickOutcome::Unchanged
        } else {
            self.last_sent_fps = limit;
            if snapped {
                TickOutcome::SendSnapped(limit)
            } else {
                TickOutcome::Send
            }
        }
    }
}

/// The keys of a map, in some order.
pub(crate) fn collect_keys<K: Copy + Eq + std::hash::Hash, V>(m: &HashMap<K, V>) -> (keys: Vec<K>)
    requires
        vstd::std_specs::hash::obeys_key_model::<K>(),
    ensures
        keys@.to_set() == m@.dom(),
        keys@.no_duplicates(),
{
    let mut keys: Vec<K> = Vec::new();
    for k in it: m.keys()
        invariant
            keys@ == it.seq().unref().take(it.index()),
            it.index() == it.seq().len() ==> keys@ == it.seq().unref(),
            it.seq().unref().to_set() == m@.dom(),
            it.seq().unref().no_duplicates(),
    {
        keys.push(*k);
    }
    keys
}

/// All the subscribers.
pub struct FpsSubscribers<H> {
    map: HashMap<u32, FpsSubscriber<H>>,
}

impl<H> Default for FpsSubscribers<H> {
    fn default() -> (s: Self)
        ensures
            s.wf(),
            s@ == Map::<u32, SubscriberState<H>>::empty(),
    {
        Self::new()
    }
}

impl<H> View for FpsSubscribers<H> {
    type V = Map<u32, SubscriberState<H>>;

    closed spec fn view(&self) -> Map<u32, SubscriberState<H>> {
        self.map@.map_values(|s: FpsSubscriber<H>| s@)
    }
}

/// What subscribers always look like.
pub open spec fn subscribers_wf<H>(m: Map<u32, SubscriberState<H>>) -> bool {
    forall|id: u32| #[trigger] m.contains_key(id) ==> m[id].wf()
}

/// Whether a batch of event times of a device can be taken in for every subscriber.
pub open spec fn all_accept<H>(m: Map<u32, SubscriberState<H>>, d: u16, ts: Seq<i64>) -> bool {
    forall|id: u32| #[trigger] m.contains_key(id) ==> m[id].device(d).accepts(ts)
}

impl<H> FpsSubscribers<H> {
    pub open spec fn wf(self) -> bool {
        subscribers_wf(self@)
    }

    pub fn new() -> (s: Self)
        ensures
            s.wf(),
            s@ == Map::<u32, SubscriberState<H>>::empty(),
    {
        let s = Self { map: HashMap::new() };
        assert(s@ =~= Map::<u32, SubscriberState<H>>::empty());
        s
    }

    pub fn is_empty(&self) -> (yes: bool)
        ensures
            yes == self@.is_empty(),
    {
        proof {
            if self@.is_empty() {
                assert forall|id: u32| !self.map@.contains_key(id) by {
                    assert(!self@.contains_key(id));
                }
                assert(self.map@ =~= Map::<u32, FpsSubscriber<H>>::empty());
            }
            if self.map@.is_empty() {
                assert(self@ =~= Map::<u32, SubscriberState<H>>::empty());
            }
        }
        self.map.is_empty()
    }

    /// What the limit of a subscriber is sent through.
    pub fn handle(&self, id: u32) -> (h: Option<&H>)
        ensures
            h == if self@.contains_key(id) {
                Some(&self@[id].handle)
            } else {
                None
            },
    {
        match self.map.get(&id) {
            Some(sub) => Some(&sub.handle),
            None => None,
        }
    }

    /// The lower and the upper bound of the limit of a subscriber.
    pub fn fps_range(&self, id: u32) -> (r: Option<(u16, u16)>)
        ensures
            r == if self@.contains_key(id) {
                Some((self@[id].min_fps, self@[id].max_fps))
            } else {
                None
            },
    {
        match self.map.get(&id) {
            Some(sub) => Some((sub.min_fps, sub.max_fps)),
            None => None,
        }
    }

    /// The attack and the release half-life of a subscriber.
    pub fn half_lives_us(&self, id: u32) -> (r: Option<(u32, u32)>)
        ensures
            r == if self@.contains_key(id) {
                Some((self@[id].attack_hl_us, self@[id].release_hl_us))
            } else {
                None
            },
    {
        match self.map.get(&id) {
            Some(sub) => Some((sub.attack_hl_us, sub.release_hl_us)),
            None => None,
        }
    }

    /// Forgets a subscriber.
    pub fn remove(&mut self, id: u32)
        ensures
            final(self)@ == old(self)@.remove(id),
            old(self).wf() ==> final(self).wf(),
    {
        let _ = self.map.remove(&id);
        assert(self@ =~= old(self)@.remove(id));
        assert forall|k: u32| #[trigger] self@.contains_key(k) implies old(self)@.contains_key(k) by {
        }
    }

    /// Whether a batch of event times of a device can be taken in for every
    /// subscriber.
    pub fn can_feed(&self, device_id: u16, timestamps_us: &[i64]) -> (yes: bool)
        ensures
            yes == all_accept(self@, device_id, timestamps_us@),
    {
        let ids: Vec<u32> = collect_keys(&self.map);
        let mut i: usize = 0;
        while i < ids.len()
            invariant
                i <= ids.len(),
                ids@.to_set() == self.map@.dom(),
                forall|j: int|
                    0 <= j < i ==> self@[#[trigger] ids@[j]].device(device_id).accepts(
                        timestamps_us@,
                    ),
            decreases ids.len() - i,
        {
            let id: u32 = ids[i];
            assert(ids@.to_set().contains(id));
            assert(self@.contains_key(id));
            match self.map.get(&id) {
                Some(sub) => {
                    if !sub.can_feed(device_id, timestamps_us) {
                        return false;
                    }
                },
                None => {
                    assert(false);
                },
            }
            i = i + 1;
        }
        assert forall|id: u32| #[trigger] self@.contains_key(id) implies self@[id].device(
            device_id,
        ).accepts(timestamps_us@) by {
            assert(ids@.to_set().contains(id));
            let j = choose|j: int| 0 <= j < ids@.len() && ids@[j] == id;
            assert(self@[ids@[j]].device(device_id).accepts(timestamps_us@));
        }
        true
    }

    /// Whether the devices of a subscriber can have a tick at `now_us`.
    pub fn can_tick(&mut self, id: u32, now_us: i64) -> (yes: bool)
        requires
            old(self).wf(),
        ensures
            final(self)@ == old(self)@,
            yes == (old(self)@.contains_key(id) ==> old(self)@[id].tick_in_range(now_us)),
    {
        let ghost before = self@;
        match self.map.entry(id) {
            Entry::Occupied(entry) => {
                let sub = entry.into_mut();
                assert(before.contains_key(id));
                assert(sub@ == before[id]);
                let yes: bool = sub.can_tick(now_us);
                assert(self@ =~= before);
                yes
            },
            Entry::Vacant(_) => {
                assert(self@ =~= before);
                true
            },
        }
    }

    /// Starts a tick of a subscriber: gives its devices a tick at `now_us`. There is
    /// nothing to report if the subscriber is gone.
    pub fn begin_tick(&mut self, id: u32, now_us: i64) -> (report: Option<Vec<DeviceTick>>)
        requires
            old(self).wf(),
            old(self)@.contains_key(id) ==> old(self)@[id].tick_in_range(now_us),
        ensures
            final(self).wf(),
            report is Some <==> old(self)@.contains_key(id),
            final(self)@ == if old(self)@.contains_key(id) {
                old(self)@.insert(id, old(self)@[id].ticked(now_us))
            } else {
                old(self)@
            },
            report matches Some(r) ==> reports(old(self)@[id].devices, now_us, r@),
    {
        let ghost before = self@;
        match self.map.entry(id) {
            Entry::Occupied(entry) => {
                let sub = entry.into_mut();
                assert(before.contains_key(id));
                assert(sub@ == before[id]);
                let report: Vec<DeviceTick> = sub.tick_devices(now_us);
                proof {
                    assert(self@ =~= before.insert(id, before[id].ticked(now_us)));
                    assert forall|k: u32| #[trigger] self@.contains_key(k) implies self@[k].wf() by {
                        assert(before.contains_key(k));
                    }
                }
                Some(report)
            },
            Entry::Vacant(_) => {
                assert(self@ =~= before);
                None
            },
        }
    }

    /// Ends a tick of a subscriber: keeps where the envelopes of its devices stand
    /// now, and decides what to send to it.
    pub fn finish_tick(&mut self, id: u32, levels: &[DeviceLevel]) -> (outcome: TickOutcome)
        requires
            old(self).wf(),
        ensures
            final(self).wf(),
            outcome == if old(self)@.contains_key(id) {
                old(self)@[id].outcome(levels@)
            } else {
                TickOutcome::Stopped
            },
            final(self)@ == if old(self)@.contains_key(id) {
                old(self)@.insert(id, old(self)@[id].settled(levels@))
            } else {
                old(self)@
            },
    {
        let ghost before = self@;
        match self.map.entry(id) {
            Entry::Occupied(entry) => {
                let sub = entry.into_mut();
                assert(before.contains_key(id));
                assert(sub@ == before[id]);
                let outcome: TickOutcome = sub.settle(levels);
                proof {
                    assert(self@ =~= before.insert(id, before[id].settled(levels@)));
                    assert forall|k: u32| #[trigger] self@.contains_key(k) implies self@[k].wf() by {
                        assert(before.contains_key(k));
                    }
                }
                outcome
            },
            Entry::Vacant(_) => {
                assert(self@ =~= before);
                TickOutcome::Stopped
            },
        }
    }
}

impl<H> FpsSubscribers<H> {
    /// Notes whether a limit could be sent. A subscriber that cannot be reached is
    /// forgotten, and has no more ticks.
    pub fn sent(&mut self, id: u32, delivered: bool) -> (go_on: bool)
        ensures
            go_on == delivered,
            final(self)@ == if delivered {
                old(self)@
            } else {
                old(self)@.remove(id)
            },
            old(self).wf() ==> final(self).wf(),
    {
        if !delivered {
            self.remove(id);
        }
        delivered
    }
}

/// Takes in a batch of event times of a device for every subscriber.
pub fn feed_events<H>(
    subscribers: &mut FpsSubscribers<H>,
    device_id: u16,
    timestamps_us: &[i64],
    is_active_indefinitely: bool,
)
    requires
        old(subscribers).wf(),
        all_accept(old(subscribers)@, device_id, timestamps_us@),
    ensures
        final(subscribers).wf(),
        final(subscribers)@ == old(subscribers)@.map_values(
            |s: SubscriberState<H>| s.fed(device_id, timestamps_us@, is_active_indefinitely),
        ),
{
    let ids: Vec<u32> = collect_keys(&subscribers.map);
    let ghost start = subscribers@;
    let mut i: usize = 0;
    while i < ids.len()
        invariant
            i <= ids.len(),
            ids@.to_set() == start.dom(),
            ids@.no_duplicates(),
            old(subscribers)@ == start,
            subscribers_wf(start),
            subscribers.wf(),
            all_accept(start, device_id, timestamps_us@),
            subscribers@.dom() == start.dom(),
            forall|id: u32| #[trigger] start.contains_key(id) ==> subscribers@[id] == if ids@.take(
                i as int,
            ).contains(id) {
                start[id].fed(device_id, timestamps_us@, is_active_indefinitely)
            } else {
                start[id]
            },
        decreases ids.len() - i,
    {
        let id: u32 = ids[i];
        let ghost before = subscribers@;
        proof {
            assert(ids@.to_set().contains(id));
            assert(start.contains_key(id));
            assert(before.contains_key(id));
            assert(!ids@.take(i as int).contains(id));
        }
        match subscribers.map.entry(id) {
            Entry::Occupied(entry) => {
                let sub = entry.into_mut();
                assert(sub@ == before[id]);
                sub.feed(device_id, timestamps_us, is_active_indefinitely);
                proof {
                    let fed = start[id].fed(device_id, timestamps_us@, is_active_indefinitely);
                    assert(subscribers@ =~= before.insert(id, fed));
                    assert forall|k: u32| #[trigger] subscribers@.contains_key(k) implies subscribers@[k].wf() by {
                        assert(before.contains_key(k));
                    }
                }
            },
            Entry::Vacant(_) => {
                assert(false);
            },
        }
        proof {
            assert(ids@.take(i + 1) =~= ids@.take(i as int).push(id));
            assert forall|k: u32| #[trigger] start.contains_key(k) implies subscribers@[k]
                == if ids@.take(i + 1).contains(k) {
                start[k].fed(device_id, timestamps_us@, is_active_indefinitely)
            } else {
                start[k]
            } by {
                if k == id {
                    assert(ids@.take(i + 1)[i as int] == id);
                } else if ids@.take(i as int).contains(k) {
                    let j = choose|j: int| 0 <= j < i && ids@.take(i as int)[j] == k;
                    assert(ids@.take(i + 1)[j] == k);
                }
            }
        }
        i = i + 1;
    }
    proof {
        assert(ids@.take(i as int) =~= ids@);
        assert forall|k: u32| #[trigger] start.contains_key(k) implies subscribers@[k] == start[k].fed(
            device_id,
            timestamps_us@,
            is_active_indefinitely,
        ) by {
            assert(ids@.to_set().contains(k));
        }
        assert(subscribers@ =~= start.map_values(
            |s: SubscriberState<H>| s.fed(device_id, timestamps_us@, is_active_indefinitely),
        ));
    }
}

/// Hands out the numbers by which subscribers are known.
pub struct FpsLimiterImpl {
    next_id: u32,
}

impl FpsLimiterImpl {
    /// The number that the next subscriber gets.
    pub closed spec fn next(self) -> u32 {
        self.next_id
    }

    /// Whether all the subscribers have numbers that were handed out.
    pub open spec fn knows<H>(self, m: Map<u32, SubscriberState<H>>) -> bool {
        forall|id: u32| #[trigger] m.contains_key(id) ==> id < self.next()
    }

    pub fn new() -> (l: Self)
        ensures
            l.next() == 0,
    {
        Self { next_id: 0 }
    }

    /// Whether there is a number left for another subscriber.
    pub fn has_next(&self) -> (yes: bool)
        ensures
            yes == (self.next() < u32::MAX),
    {
        self.next_id < u32::MAX
    }

    /// Registers a subscriber, if what it asks for is in order and it can be reached.
    pub fn register<H, E>(
        &mut self,
        subscribers: &mut FpsSubscribers<H>,
        params: RegisterParams,
        handle: Result<H, E>,
    ) -> (r: Result<u32, RegisterError<E>>)
        requires
            params.verdict() is Ok && handle is Ok ==> old(self).next() < u32::MAX,
        ensures
            r == match (params.verdict(), handle) {
                (Err(e), _) => Err(RegisterError::Params(e)),
                (Ok(_), Err(e)) => Err(RegisterError::Receiver(e)),
                (Ok(_), Ok(_)) => Ok(old(self).next()),
            },
            final(self).next() == old(self).next() + if r is Ok { 1int } else { 0 },
            final(subscribers)@ == match (r, handle) {
                (Ok(id), Ok(h)) => old(subscribers)@.insert(id, SubscriberState::init(params, h)),
                _ => old(subscribers)@,
            },
            old(subscribers).wf() ==> final(subscribers).wf(),
            old(self).knows(old(subscribers)@) ==> final(self).knows(final(subscribers)@),
    {
        match params.validate() {
            Err(e) => {
                return Err(RegisterError::Params(e));
            },
            Ok(_) => {},
        }
        match handle {
            Err(e) => Err(RegisterError::Receiver(e)),
            Ok(h) => {
                let id: u32 = self.next_id;
                self.next_id = id + 1;
                let sub = FpsSubscriber {
                    min_fps: params.min_fps,
                    max_fps: params.max_fps,
                    attack_hl_us: params.attack_half_life_us,
                    release_hl_us: params.release_half_life_us,
                    snap_to_divider: params.snap_to_divider,
                    handle: h,
                    devices: HashMap::new(),
                    last_sent_fps: 0,
                };
                let ghost state = sub@;
                proof {
                    assert(state.devices =~= Map::<u16, crate::ewm::EwmState>::empty());
                }
                let _ = subscribers.map.insert(id, sub);
                proof {
                    assert(subscribers@ =~= old(subscribers)@.insert(id, state));
                    assert forall|k: u32| #[trigger] subscribers@.contains_key(k) implies k == id
                        || old(subscribers)@.contains_key(k) by {
                    }
                }
                Ok(id)
            },
        }
    }
}

/// Being no farther carries over.
proof fn lemma_no_farther_transitive(a: int, b: int, c: int, halves: int)
    requires
        no_farther(a, b, halves),
        no_farther(b, c, halves),
    ensures
        no_farther(a, c, halves),
{
}

/// Quotients do not grow.
proof fn lemma_quotients_shrink(max_fps: u16, k: int, l: int)
    requires
        1 <= k <= l,
    ensures
        0 <= quotient(max_fps, l) <= quotient(max_fps, k) <= max_fps,
{
    vstd::arithmetic::div_mod::lemma_div_is_ordered_by_denominator(max_fps as int, k, l);
    vstd::arithmetic::div_mod::lemma_div_is_ordered_by_denominator(max_fps as int, 1, k);
    vstd::arithmetic::div_mod::lemma_div_pos_is_pos(max_fps as int, l);
}

/// Whether the `b`-th quotient is no farther from a target than any candidate among the
/// first `n`.
spec fn is_best_of(max_fps: u16, min_fps: u16, halves: int, n: int, b: int) -> bool {
    &&& is_candidate(max_fps, min_fps, b)
    &&& forall|k: int|
        1 <= k <= n && #[trigger] is_candidate(max_fps, min_fps, k) ==> no_farther(
            quotient(max_fps, b),
            quotient(max_fps, k),
            halves,
        )
}

/// The best of `n - 1` quotients and the `n`-th.
proof fn lemma_better_of(max_fps: u16, min_fps: u16, halves: int, n: int, b: int)
    requires
        1 < n,
        is_best_of(max_fps, min_fps, halves, n - 1, b),
    ensures
        is_best_of(max_fps, min_fps, halves, n, b) || is_best_of(max_fps, min_fps, halves, n, n),
{
    let q = quotient(max_fps, n);
    let r = quotient(max_fps, b);
    if is_candidate(max_fps, min_fps, n) && !no_farther(r, q, halves) {
        assert forall|k: int| 1 <= k <= n && #[trigger] is_candidate(max_fps, min_fps, k) implies no_farther(
            q,
            quotient(max_fps, k),
            halves,
        ) by {
            if k < n {
                assert(no_farther(q, r, halves));
                lemma_no_farther_transitive(q, r, quotient(max_fps, k), halves);
            }
        }
        assert(is_best_of(max_fps, min_fps, halves, n, n));
    } else {
        assert(is_best_of(max_fps, min_fps, halves, n, b));
    }
}

/// One of the first `n` quotients is the best of them.
proof fn lemma_best_of(max_fps: u16, min_fps: u16, halves: int, n: int) -> (b: int)
    requires
        1 <= n,
    ensures
        is_best_of(max_fps, min_fps, halves, n, b),
    decreases n,
{
    if n == 1 {
        1
    } else {
        let b = lemma_best_of(max_fps, min_fps, halves, n - 1);
        lemma_better_of(max_fps, min_fps, halves, n, b);
        if is_best_of(max_fps, min_fps, halves, n, b) {
            b
        } else {
            n
        }
    }
}

/// There is always a nearest divider, and it is no higher than `max_fps`.
pub proof fn law_nearest_divider_exists(max_fps: u16, min_fps: u16, halves: int)
    ensures
        is_nearest_divider(max_fps, min_fps, halves, nearest_divider(max_fps, min_fps, halves)),
        0 <= nearest_divider(max_fps, min_fps, halves) <= max_fps,
{
    let top = if max_fps == 0 { 1 } else { max_fps as int };
    let b = lemma_best_of(max_fps, min_fps, halves, top);
    assert(is_nearest_divider(max_fps, min_fps, halves, quotient(max_fps, b)));
    let best = nearest_divider(max_fps, min_fps, halves);
    let n = choose|n: int| #[trigger]
        is_candidate(max_fps, min_fps, n) && best == quotient(max_fps, n);
    lemma_quotients_shrink(max_fps, n, n);
}

/// Among the first `n` quotients from the second on, if the `n`-th is at or below
/// `min_fps`, one that is so is a candidate.
proof fn lemma_low_candidate(max_fps: u16, min_fps: u16, n: int) -> (k: int)
    requires
        2 <= n <= max_fps,
        quotient(max_fps, n) <= min_fps,
    ensures
        2 <= k <= n,
        is_candidate(max_fps, min_fps, k),
        quotient(max_fps, k) <= min_fps,
    decreases n,
{
    if n == 2 || quotient(max_fps, n - 1) > min_fps {
        n
    } else {
        lemma_low_candidate(max_fps, min_fps, n - 1)
    }
}

/// A target of at least `min_fps` is snapped to the nearest of all the dividers of
/// `max_fps`.
pub proof fn law_snap_is_to_the_nearest_divider(max_fps: u16, min_fps: u16, halves: int, n: int)
    requires
        halves >= 2 * min_fps,
        1 <= n <= max_fps,
    ensures
        no_farther(
            nearest_divider(max_fps, min_fps, halves),
            quotient(max_fps, n),
            halves,
        ),
{
    law_nearest_divider_exists(max_fps, min_fps, halves);
    let best = nearest_divider(max_fps, min_fps, halves);
    if !is_candidate(max_fps, min_fps, n) {
        let k = lemma_low_candidate(max_fps, min_fps, n - 1);
        lemma_quotients_shrink(max_fps, k, n);
        assert(no_farther(best, quotient(max_fps, k), halves));
        lemma_no_farther_transitive(best, quotient(max_fps, k), quotient(max_fps, n), halves);
    } else {
        assert(no_farther(best, quotient(max_fps, n), halves));
    }
}

/// The highest limit is no lower than `min_fps`, and no higher than `max_fps` if
/// none of the limits is.
proof fn lemma_highest_range(min_fps: u16, max_fps: u16, levels: Seq<DeviceLevel>)
    ensures
        highest(min_fps, levels) >= 2 * min_fps,
        min_fps <= max_fps && (forall|i: int|
            0 <= i < levels.len() ==> (#[trigger] levels[i]).halves <= 2 * max_fps) ==> highest(
            min_fps,
            levels,
        ) <= 2 * max_fps,
    decreases levels.len(),
{
    if levels.len() > 0 {
        lemma_highest_range(min_fps, max_fps, levels.drop_last());
        if forall|i: int| 0 <= i < levels.len() ==> (#[trigger] levels[i]).halves <= 2 * max_fps {
            assert forall|i: int| 0 <= i < levels.drop_last().len() implies (
            #[trigger] levels.drop_last()[i]).halves <= 2 * max_fps by {
                assert(levels.drop_last()[i] == levels[i]);
            }
            assert(levels[levels.len() - 1].halves <= 2 * max_fps);
        }
    }
}

/// A limit that is not snapped lies between the bounds of the subscriber, if the
/// limits of its devices do not exceed the upper one.
pub proof fn law_limit_is_within_bounds<H>(s: SubscriberState<H>, levels: Seq<DeviceLevel>)
    requires
        s.min_fps <= s.max_fps,
        !s.snap_to_divider,
        forall|i: int| 0 <= i < levels.len() ==> (#[trigger] levels[i]).halves <= 2 * s.max_fps,
    ensures
        s.min_fps <= s.limit(levels) <= s.max_fps,
{
    lemma_highest_range(s.min_fps, s.max_fps, levels);
}

/// A limit that is the same as the last one is not sent again.
pub proof fn law_same_limit_is_sent_once<H>(
    s: SubscriberState<H>,
    levels: Seq<DeviceLevel>,
    again: Seq<DeviceLevel>,
)
    requires
        s.limit(levels) == s.limit(again),
    ensures
        s.settled(levels).outcome(again) == TickOutcome::Unchanged,
        s.settled(levels).settled(again).last_sent_fps == s.settled(levels).last_sent_fps,
{
    law_nearest_divider_exists(s.max_fps, s.min_fps, highest(s.min_fps, levels));
    lemma_highest_range(s.min_fps, s.max_fps, levels);
}

/// A limit that is sent, rounded, is not the one that was sent before it.
pub proof fn law_sent_limit_is_new<H>(s: SubscriberState<H>, levels: Seq<DeviceLevel>)
    ensures
        s.outcome(levels) != TickOutcome::Unchanged <==> s.settled(levels).last_sent_fps
            != s.last_sent_fps,
{
    law_nearest_divider_exists(s.max_fps, s.min_fps, highest(s.min_fps, levels));
    lemma_highest_range(s.min_fps, s.max_fps, levels);
}

/// What can happen to a subscriber.
pub enum Happening {
    /// Events of a device came.
    Fed { device_id: u16, ts: Seq<i64>, active: bool },
    /// A tick started.
    Ticked { now: i64 },
    /// A tick ended with these levels.
    Settled { levels: Seq<DeviceLevel> },
}

impl<H> SubscriberState<H> {
    /// After something that happened.
    pub open spec fn after(self, h: Happening) -> Self {
        match h {
            Happening::Fed { device_id, ts, active } => self.fed(device_id, ts, active),
            Happening::Ticked { now } => self.ticked(now),
            Happening::Settled { levels } => self.settled(levels),
        }
    }

    /// After all that happened.
    pub open spec fn after_all(self, hs: Seq<Happening>) -> Self
        decreases hs.len(),
    {
        if hs.len() == 0 {
            self
        } else {
            self.after_all(hs.drop_last()).after(hs.last())
        }
    }

    /// The limits that are sent meanwhile, rounded.
    pub open spec fn sent(self, hs: Seq<Happening>) -> Seq<int>
        decreases hs.len(),
    {
        if hs.len() == 0 {
            Seq::empty()
        } else {
            let before = self.after_all(hs.drop_last());
            let sent = self.sent(hs.drop_last());
            match hs.last() {
                Happening::Settled { levels } => if before.outcome(levels)
                    == TickOutcome::Unchanged {
                    sent
                } else {
                    sent.push(before.limit(levels))
                },
                _ => sent,
            }
        }
    }
}

/// A limit is a number of 16 bits.
proof fn lemma_limit_range<H>(s: SubscriberState<H>, levels: Seq<DeviceLevel>)
    ensures
        0 <= s.limit(levels) <= u16::MAX,
{
    law_nearest_divider_exists(s.max_fps, s.min_fps, highest(s.min_fps, levels));
    lemma_highest_range(s.min_fps, s.max_fps, levels);
}

/// Over a whole run no limit is sent twice in a row, and the first that is sent is not the
/// one that the subscriber had before; a new subscriber had 0.
pub proof fn law_no_limit_is_sent_twice_in_a_row<H>(s: SubscriberState<H>, hs: Seq<Happening>)
    ensures
        forall|i: int|
            0 < i < s.sent(hs).len() ==> #[trigger] s.sent(hs)[i] != s.sent(hs)[i - 1],
        s.sent(hs).len() > 0 ==> s.sent(hs)[0] != s.last_sent_fps,
        s.after_all(hs).last_sent_fps == if s.sent(hs).len() > 0 {
            s.sent(hs).last()
        } else {
            s.last_sent_fps as int
        },
    decreases hs.len(),
{
    if hs.len() > 0 {
        let rest = hs.drop_last();
        let before = s.after_all(rest);
        law_no_limit_is_sent_twice_in_a_row(s, rest);
        if let Happening::Settled { levels } = hs.last() {
            lemma_limit_range(before, levels);
            law_sent_limit_is_new(before, levels);
            if before.outcome(levels) != TickOutcome::Unchanged {
                let sent = s.sent(rest);
                assert(s.sent(hs) == sent.push(before.limit(levels)));
                assert(before.limit(levels) != before.last_sent_fps);
                assert forall|i: int| 0 < i < s.sent(hs).len() implies #[trigger] s.sent(hs)[i]
                    != s.sent(hs)[i - 1] by {
                    if i < sent.len() {
                        assert(s.sent(hs)[i] == sent[i] && s.sent(hs)[i - 1] == sent[i - 1]);
                    }
                }
            }
        }
    }
}

/// A new subscriber is never sent a limit of 0 first.
pub proof fn law_first_limit_is_not_zero<H>(p: RegisterParams, handle: H, hs: Seq<Happening>)
    ensures
        SubscriberState::init(p, handle).sent(hs).len() > 0 ==> SubscriberState::init(
            p,
            handle,
        ).sent(hs)[0] != 0,
{
    law_no_limit_is_sent_twice_in_a_row(SubscriberState::init(p, handle), hs);
}

/// What happens to one subscriber leaves the others as they were, and so does forgetting
/// it when it cannot be reached.
pub proof fn law_subscribers_are_independent<H>(
    m: Map<u32, SubscriberState<H>>,
    id: u32,
    other: u32,
    h: Happening,
)
    requires
        id != other,
    ensures
        m.insert(id, m[id].after(h)).contains_key(other) == m.contains_key(other),
        m.insert(id, m[id].after(h))[other] == m[other],
        m.remove(id).contains_key(other) == m.contains_key(other),
        m.contains_key(other) ==> m.remove(id)[other] == m[other],
        !m.remove(id).contains_key(id),
{
}

/// Forgetting a subscriber undoes its registration.
pub proof fn law_removal_undoes_registration<H>(
    limiter: FpsLimiterImpl,
    m: Map<u32, SubscriberState<H>>,
    params: RegisterParams,
    handle: H,
)
    requires
        limiter.knows(m),
        limiter.next() < u32::MAX,
    ensures
        !m.contains_key(limiter.next()),
        m.insert(limiter.next(), SubscriberState::init(params, handle)).remove(
            limiter.next(),
        ) == m,
{
    let id = limiter.next();
    assert(!m.contains_key(id));
    assert(m.insert(id, SubscriberState::init(params, handle)).remove(id) =~= m);
}

/// Events of one device leave what is known of the others as it was.
pub proof fn law_devices_are_independent<H>(
    s: SubscriberState<H>,
    fed: u16,
    other: u16,
    ts: Seq<i64>,
    active: bool,
)
    requires
        fed != other,
    ensures
        s.fed(fed, ts, active).device(other) == s.device(other),
        s.fed(fed, ts, active).last_sent_fps == s.last_sent_fps,
{
}

/// What is asked for is in order if and only if the frequency is from 1 to 1000, the lower
/// bound is below the upper one, and neither half-life is zero; else the first of these that
/// fails is what is wrong with it.
pub proof fn law_what_may_be_asked_for(p: RegisterParams)
    ensures
        p.frequency_hz < 1 || p.frequency_hz > 1000 <==> p.verdict() == Err::<(), ParamError>(
            ParamError::Frequency,
        ),
        1 <= p.frequency_hz <= 1000 && p.min_fps >= p.max_fps <==> p.verdict() == Err::<
            (),
            ParamError,
        >(ParamError::FpsRange),
        1 <= p.frequency_hz <= 1000 && p.min_fps < p.max_fps && (p.attack_half_life_us == 0
            || p.release_half_life_us == 0) <==> p.verdict() == Err::<(), ParamError>(
            ParamError::HalfLife,
        ),
        1 <= p.frequency_hz <= 1000 && p.min_fps < p.max_fps && p.attack_half_life_us > 0
            && p.release_half_life_us > 0 <==> p.verdict() is Ok,
{
}

/// The refusals in words.
pub proof fn law_refusals_in_words()
    ensures
        ParamError::Frequency.spec_message() == "frequencyHz must be within 1-1000"@,
        ParamError::FpsRange.spec_message() == "invalid fps range"@,
        ParamError::HalfLife.spec_message() == "half-lives must be > 0"@,
{
}

/// A number of halves of a frame is rounded to the nearest whole frame, up where it is
/// halfway, and capped at what 16 bits hold.
pub proof fn law_rounding_is_to_the_nearest_frame(halves: int)
    requires
        halves >= 0,
    ensures
        halves <= 131_070 ==> 2 * rounded(halves) == halves || 2 * rounded(halves) == halves + 1,
        halves > 131_070 ==> rounded(halves) == 65_535,
{
}

/// How far a number of frames is from a number of halves, in halves.
pub open spec fn halves_off(fps: int, halves: int) -> int {
    if 2 * fps >= halves {
        2 * fps - halves
    } else {
        halves - 2 * fps
    }
}

/// What a target is snapped to is `max_fps` divided by a whole number. Of all those, down to
/// the first from the second on that is at or below `min_fps`, none is nearer to the target,
/// and none that is as near is larger.
pub proof fn law_snapping_picks_the_nearest_quotient(
    max_fps: u16,
    min_fps: u16,
    halves: int,
    n: int,
)
    requires
        0 < max_fps,
        1 <= n <= max_fps,
        n <= 2 || max_fps as int / (n - 1) > min_fps,
    ensures
        exists|k: int|
            1 <= k <= max_fps && (k <= 2 || max_fps as int / (k - 1) > min_fps) && #[trigger] (
            max_fps as int / k) == nearest_divider(max_fps, min_fps, halves),
        ({
            let best = nearest_divider(max_fps, min_fps, halves);
            let other = max_fps as int / n;
            &&& halves_off(best, halves) <= halves_off(other, halves)
            &&& halves_off(best, halves) == halves_off(other, halves) ==> best >= other
        }),
{
    law_nearest_divider_exists(max_fps, min_fps, halves);
    let best = nearest_divider(max_fps, min_fps, halves);
    let k = choose|k: int| #[trigger]
        is_candidate(max_fps, min_fps, k) && best == quotient(max_fps, k);
    assert(max_fps as int / k == quotient(max_fps, k));
    assert(is_candidate(max_fps, min_fps, n)) by {
        assert(quotient(max_fps, n - 1) == max_fps as int / (n - 1));
    }
    assert(max_fps as int / n == quotient(max_fps, n));
    assert(quotient(max_fps, k - 1) == max_fps as int / (k - 1));
}

/// A target that is not below `min_fps` is snapped to the nearest of all the quotients of
/// `max_fps`, and to the larger of two that are as near.
pub proof fn law_snapping_is_to_the_nearest_of_all(
    max_fps: u16,
    min_fps: u16,
    halves: int,
    n: int,
)
    requires
        halves >= 2 * min_fps,
        1 <= n <= max_fps,
    ensures
        ({
            let best = nearest_divider(max_fps, min_fps, halves);
            let other = max_fps as int / n;
            &&& halves_off(best, halves) <= halves_off(other, halves)
            &&& halves_off(best, halves) == halves_off(other, halves) ==> best >= other
        }),
{
    law_snap_is_to_the_nearest_divider(max_fps, min_fps, halves, n);
    assert(max_fps as int / n == quotient(max_fps, n));
}

/// The highest limit is no lower than any of the limits, nor than `min_fps`, and is one of
/// them.
pub proof fn law_busiest_device_decides(min_fps: u16, levels: Seq<DeviceLevel>)
    ensures
        forall|i: int|
            0 <= i < levels.len() ==> highest(min_fps, levels) >= (#[trigger] levels[i]).halves,
        highest(min_fps, levels) >= 2 * min_fps,
        highest(min_fps, levels) == 2 * min_fps || exists|i: int|
            0 <= i < levels.len() && highest(min_fps, levels) == (#[trigger] levels[i]).halves,
    decreases levels.len(),
{
    if levels.len() > 0 {
        let rest = levels.drop_last();
        law_busiest_device_decides(min_fps, rest);
        let h = highest(min_fps, levels);
        assert forall|i: int| 0 <= i < levels.len() implies h >= (#[trigger] levels[i]).halves by {
            if i < rest.len() {
                assert(rest[i] == levels[i]);
            }
        }
        if h == highest(min_fps, rest) {
            if h != 2 * min_fps {
                let i = choose|i: int|
                    0 <= i < rest.len() && highest(min_fps, rest) == (#[trigger] rest[i]).halves;
                assert(levels[i].halves == h);
            }
        } else {
            assert(levels[levels.len() - 1].halves == h);
        }
    }
}

/// The limit follows the busiest device: it is the highest of the limits and `min_fps`,
/// rounded to the nearest frame or, where that was asked for, snapped to the nearest quotient
/// of `max_fps`.
pub proof fn law_limit_follows_the_busiest_device<H>(
    s: SubscriberState<H>,
    levels: Seq<DeviceLevel>,
    halves: int,
    n: int,
)
    requires
        forall|i: int| 0 <= i < levels.len() ==> halves >= (#[trigger] levels[i]).halves,
        halves >= 2 * s.min_fps,
        halves == 2 * s.min_fps || exists|i: int|
            0 <= i < levels.len() && halves == (#[trigger] levels[i]).halves,
        1 <= n <= s.max_fps,
    ensures
        !s.snap_to_divider && halves <= 131_070 ==> 2 * s.limit(levels) == halves || 2 * s.limit(
            levels,
        ) == halves + 1,
        !s.snap_to_divider && halves > 131_070 ==> s.limit(levels) == 65_535,
        s.snap_to_divider ==> {
            let other = s.max_fps as int / n;
            &&& halves_off(s.limit(levels), halves) <= halves_off(other, halves)
            &&& halves_off(s.limit(levels), halves) == halves_off(other, halves) ==> s.limit(levels)
                >= other
        },
        s.snap_to_divider ==> exists|k: int|
            1 <= k <= s.max_fps && #[trigger] (s.max_fps as int / k) == s.limit(levels),
{
    law_busiest_device_decides(s.min_fps, levels);
    assert(highest(s.min_fps, levels) == halves);
    law_snapping_is_to_the_nearest_of_all(s.max_fps, s.min_fps, halves, n);
    law_snapping_picks_the_nearest_quotient(s.max_fps, s.min_fps, halves, 1);
}

/// What comes of a tick: nothing where the limit is the one that was last sent; else the
/// limit is sent, as the snapped number where that was asked for.
pub proof fn law_limit_is_sent_when_it_changed<H>(s: SubscriberState<H>, levels: Seq<DeviceLevel>)
    ensures
        s.outcome(levels) == TickOutcome::Unchanged <==> s.limit(levels) == s.last_sent_fps,
        s.outcome(levels) == TickOutcome::Send <==> s.limit(levels) != s.last_sent_fps
            && !s.snap_to_divider,
        s.limit(levels) != s.last_sent_fps && s.snap_to_divider <==> s.outcome(
            levels,
        ) is SendSnapped,
        s.outcome(levels) matches TickOutcome::SendSnapped(fps) ==> fps == s.limit(levels),
        s.outcome(levels) != TickOutcome::Stopped,
{
    lemma_limit_range(s, levels);
}

/// A tick that was settled remembers the limit as the last one that was sent, and what the
/// subscriber asked for stays.
pub proof fn law_settling_remembers_the_limit<H>(s: SubscriberState<H>, levels: Seq<DeviceLevel>)
    ensures
        s.settled(levels).last_sent_fps == s.limit(levels),
        s.settled(levels).devices == with_levels(s.devices, levels),
        s.settled(levels).min_fps == s.min_fps,
        s.settled(levels).max_fps == s.max_fps,
        s.settled(levels).attack_hl_us == s.attack_hl_us,
        s.settled(levels).release_hl_us == s.release_hl_us,
        s.settled(levels).snap_to_divider == s.snap_to_divider,
        s.settled(levels).handle == s.handle,
{
    lemma_limit_range(s, levels);
}

/// A device gets the level that is last given for it.
pub proof fn law_device_gets_its_level(
    devices: Map<u16, crate::ewm::EwmState>,
    levels: Seq<DeviceLevel>,
    i: int,
)
    requires
        0 <= i < levels.len(),
        devices.contains_key(levels[i].device_id),
        forall|j: int|
            i < j < levels.len() ==> (#[trigger] levels[j]).device_id != levels[i].device_id,
    ensures
        with_levels(devices, levels)[levels[i].device_id].level == levels[i].level,
    decreases levels.len(),
{
    let rest = levels.drop_last();
    law_levels_change_nothing_else(devices, rest, levels[i].device_id);
    if i < rest.len() {
        assert(rest[i] == levels[i]);
        assert forall|j: int| i < j < rest.len() implies (#[trigger] rest[j]).device_id
            != rest[i].device_id by {
            assert(rest[j] == levels[j]);
        }
        law_device_gets_its_level(devices, rest, i);
        assert(levels.last() == levels[levels.len() - 1]);
    }
}

/// New levels change nothing but levels: the devices stay the same ones, and what is known
/// of each stays; one for which no level is given keeps its level too.
pub proof fn law_levels_change_nothing_else(
    devices: Map<u16, crate::ewm::EwmState>,
    levels: Seq<DeviceLevel>,
    d: u16,
)
    ensures
        with_levels(devices, levels).contains_key(d) == devices.contains_key(d),
        devices.contains_key(d) ==> {
            let after = with_levels(devices, levels)[d];
            &&& after.pending == devices[d].pending
            &&& after.last_tick == devices[d].last_tick
            &&& after.last_event == devices[d].last_event
            &&& after.active == devices[d].active
            &&& after.history == devices[d].history
            &&& (forall|j: int| 0 <= j < levels.len() ==> (#[trigger] levels[j]).device_id != d)
                ==> after.level == devices[d].level
        },
    decreases levels.len(),
{
    if levels.len() > 0 {
        let rest = levels.drop_last();
        law_levels_change_nothing_else(devices, rest, d);
        law_levels_change_nothing_else(devices, rest, levels.last().device_id);
        if forall|j: int| 0 <= j < levels.len() ==> (#[trigger] levels[j]).device_id != d {
            assert forall|j: int| 0 <= j < rest.len() implies (#[trigger] rest[j]).device_id != d by {
                assert(rest[j] == levels[j]);
            }
            assert(levels[levels.len() - 1].device_id != d);
        }
    }
}

/// A report names every device, once and no other, with its level and what the tick found
/// out about it.
pub proof fn law_report_is_complete(
    devices: Map<u16, crate::ewm::EwmState>,
    now: i64,
    report: Seq<DeviceTick>,
    d: u16,
)
    requires
        reports(devices, now, report),
    ensures
        devices.contains_key(d) <==> exists|j: int|
            0 <= j < report.len() && (#[trigger] report[j]).device_id == d,
        forall|j: int|
            0 <= j < report.len() && (#[trigger] report[j]).device_id == d ==> report[j].level
                == devices[d].level && report[j].detail == devices[d].detail(now),
        forall|j: int, k: int|
            0 <= j < k < report.len() ==> (#[trigger] report[j]).device_id != (
            #[trigger] report[k]).device_id,
{
}

/// A new subscriber has what it asked for, no devices, and nothing sent.
pub proof fn law_new_subscriber_has_what_it_asked_for<H>(p: RegisterParams, handle: H)
    ensures
        SubscriberState::init(p, handle).min_fps == p.min_fps,
        SubscriberState::init(p, handle).max_fps == p.max_fps,
        SubscriberState::init(p, handle).attack_hl_us == p.attack_half_life_us,
        SubscriberState::init(p, handle).release_hl_us == p.release_half_life_us,
        SubscriberState::init(p, handle).snap_to_divider == p.snap_to_divider,
        SubscriberState::init(p, handle).handle == handle,
        forall|d: u16| !SubscriberState::init(p, handle).devices.contains_key(d),
        SubscriberState::init(p, handle).last_sent_fps == 0,
{
}

/// Events of a device are taken in by what is known of it, which is nothing at first, and
/// whether it is active until further notice is noted. The rest stays.
pub proof fn law_events_reach_their_device<H>(
    s: SubscriberState<H>,
    d: u16,
    ts: Seq<i64>,
    active: bool,
)
    ensures
        ({
            let known = if s.devices.contains_key(d) {
                s.devices[d]
            } else {
                crate::ewm::EwmState::init()
            };
            let after = s.fed(d, ts, active);
            &&& after.devices.contains_key(d)
            &&& after.devices[d].active == active
            &&& after.devices[d].level == known.level
            &&& after.devices[d].pending == known.observe(ts).pending
            &&& after.devices[d].last_tick == known.last_tick
            &&& after.devices[d].last_event == known.observe(ts).last_event
            &&& after.devices[d].history == known.observe(ts).history
            &&& forall|o: u16| o != d ==> (#[trigger] after.devices.contains_key(o)
                == s.devices.contains_key(o))
            &&& forall|o: u16| o != d && #[trigger] s.devices.contains_key(o) ==> after.devices[o]
                == s.devices[o]
            &&& after.min_fps == s.min_fps && after.max_fps == s.max_fps
            &&& after.attack_hl_us == s.attack_hl_us && after.release_hl_us == s.release_hl_us
            &&& after.snap_to_divider == s.snap_to_divider && after.handle == s.handle
            &&& after.last_sent_fps == s.last_sent_fps
        }),
{
}

/// A tick reaches every device of a subscriber, and changes nothing else.
pub proof fn law_tick_reaches_every_device<H>(s: SubscriberState<H>, now: i64, d: u16)
    ensures
        s.ticked(now).devices.contains_key(d) == s.devices.contains_key(d),
        s.devices.contains_key(d) ==> s.ticked(now).devices[d] == s.devices[d].tick(now),
        s.ticked(now).min_fps == s.min_fps && s.ticked(now).max_fps == s.max_fps,
        s.ticked(now).attack_hl_us == s.attack_hl_us && s.ticked(now).release_hl_us
            == s.release_hl_us,
        s.ticked(now).snap_to_divider == s.snap_to_divider && s.ticked(now).handle == s.handle,
        s.ticked(now).last_sent_fps == s.last_sent_fps,
{
}

/// Event times can be fed to all the subscribers if and only if each can take them in, and a
/// subscriber can have a tick if and only if each of its devices can.
pub proof fn law_all_are_asked<H>(
    m: Map<u32, SubscriberState<H>>,
    d: u16,
    ts: Seq<i64>,
    s: SubscriberState<H>,
    now: i64,
)
    ensures
        all_accept(m, d, ts) <==> forall|id: u32| #[trigger]
            m.contains_key(id) ==> (if m[id].devices.contains_key(d) {
                m[id].devices[d]
            } else {
                crate::ewm::EwmState::init()
            }).accepts(ts),
        s.tick_in_range(now) <==> forall|o: u16| #[trigger]
            s.devices.contains_key(o) ==> s.devices[o].tick_in_range(now),
{
}

} // verus!
