//! What the server decides about a device, and what it tells raw subscribers.

use std::collections::HashMap;

use vstd::prelude::*;

use crate::debounce::Debounce;
use crate::input_parsing::{AXIS_COUNT, DeviceCapabilities, EV_ABS, EV_KEY};

verus! {

broadcast use vstd::std_specs::hash::group_hash_axioms;

/// The property of a device that moves a pointer.
pub const INPUT_PROP_POINTER: u16 = 0;

/// The property of a device that measures acceleration.
pub const INPUT_PROP_ACCELEROMETER: u16 = 6;

/// Whether bit `n` of a bit field, lowest first, is there and set.
pub open spec fn bit_is_set(bits: Seq<u8>, n: u16) -> bool {
    &&& n / 8 < bits.len()
    &&& (bits[(n / 8) as int] as nat / vstd::arithmetic::power2::pow2((n % 8) as nat)) % 2 == 1
}

/// Whether bit `n` of a bit field, lowest first, is there and set.
pub fn has_bit(bits: &[u8], n: u16) -> (yes: bool)
    ensures
        yes == bit_is_set(bits@, n),
{
    let at: usize = (n / 8) as usize;
    let shift: u8 = (n % 8) as u8;
    if at >= bits.len() {
        return false;
    }
    let byte: u8 = bits[at];
    proof {
        vstd::bits::lemma_u8_shr_is_div(byte, shift);
    }
    (byte >> shift) % 2 == 1
}

/// How far setting up a device got.
pub enum DeviceReport {
    /// It could not be opened.
    OpenFailed,
    /// Its clock could not be set.
    ClockFailed,
    /// Its properties could not be read.
    PropertiesFailed,
    /// The kinds of its events could not be read.
    EventBitsFailed,
    /// It has these properties and these kinds of events.
    Described { properties: Vec<u8>, event_bits: Vec<u8> },
}

/// What a device can do.
#[derive(Clone, Copy)]
pub struct DeviceDescription {
    pub caps: DeviceCapabilities,
    /// Whether it has keys.
    pub has_key: bool,
}

/// What becomes of a device.
pub enum SetupDecision {
    /// It is not watched, and may be tried again.
    Forget,
    /// It is not watched, and not tried again either.
    Abandon,
    /// It is watched.
    Watch(DeviceDescription),
}

/// What the properties and the kinds of events of a device say of it.
pub open spec fn description(properties: Seq<u8>, event_bits: Seq<u8>) -> DeviceDescription {
    DeviceDescription {
        caps: DeviceCapabilities {
            is_pointer: bit_is_set(properties, INPUT_PROP_POINTER),
            is_accelerometer: bit_is_set(properties, INPUT_PROP_ACCELEROMETER),
            has_abs: bit_is_set(event_bits, EV_ABS),
        },
        has_key: bit_is_set(event_bits, EV_KEY),
    }
}

/// Says what becomes of a device.
pub fn set_up(report: &DeviceReport) -> (decision: SetupDecision)
    ensures
        decision == match *report {
            DeviceReport::OpenFailed => SetupDecision::Forget,
            DeviceReport::Described { properties, event_bits } => if description(
                properties@,
                event_bits@,
            ).caps.is_accelerometer {
                SetupDecision::Abandon
            } else {
                SetupDecision::Watch(description(properties@, event_bits@))
            },
            _ => SetupDecision::Abandon,
        },
        *report matches DeviceReport::Described { properties, event_bits } ==> {
            &&& decision is Abandon <==> bit_is_set(properties@, 6)
            &&& decision is Watch <==> !bit_is_set(properties@, 6)
            &&& decision matches SetupDecision::Watch(d) ==> {
                &&& d.caps.is_pointer == bit_is_set(properties@, 0)
                &&& !d.caps.is_accelerometer
                &&& d.caps.has_abs == bit_is_set(event_bits@, 3)
                &&& d.has_key == bit_is_set(event_bits@, 1)
            }
        },
{
    match report {
        DeviceReport::OpenFailed => SetupDecision::Forget,
        DeviceReport::ClockFailed => SetupDecision::Abandon,
        DeviceReport::PropertiesFailed => SetupDecision::Abandon,
        DeviceReport::EventBitsFailed => SetupDecision::Abandon,
        DeviceReport::Described { properties, event_bits } => {
            let caps = DeviceCapabilities {
                is_pointer: has_bit(properties.as_slice(), INPUT_PROP_POINTER),
                is_accelerometer: has_bit(properties.as_slice(), INPUT_PROP_ACCELEROMETER),
                has_abs: has_bit(event_bits.as_slice(), EV_ABS),
            };
            let has_key: bool = has_bit(event_bits.as_slice(), EV_KEY);
            if caps.is_accelerometer {
                SetupDecision::Abandon
            } else {
                SetupDecision::Watch(DeviceDescription { caps, has_key })
            }
        },
    }
}

/// The ranges of all the axes, of which only the first were read.
pub fn axis_ranges(read: &[(i32, i32)]) -> (ranges: [(i32, i32); AXIS_COUNT])
    ensures
        forall|i: int|
            0 <= i < AXIS_COUNT ==> #[trigger] ranges@[i] == if i < read@.len() {
                read@[i]
            } else {
                (0i32, 0i32)
            },
{
    let mut ranges: [(i32, i32); AXIS_COUNT] = [(0i32, 0i32); AXIS_COUNT];
    let mut i: usize = 0;
    while i < AXIS_COUNT && i < read.len()
        invariant
            i <= AXIS_COUNT,
            i <= read.len(),
            forall|j: int|
                0 <= j < AXIS_COUNT ==> #[trigger] ranges@[j] == if j < i {
                    read@[j]
                } else {
                    (0i32, 0i32)
                },
        decreases AXIS_COUNT - i,
    {
        ranges[i] = read[i];
        i = i + 1;
    }
    ranges
}

/// What ended the wait before a read.
#[derive(Clone, Copy, PartialEq, Eq, Debug)]
pub enum Wakeup {
    /// The delay was over.
    Slept,
    /// A subscriber is about to look.
    Interrupted,
    /// There was no telling whether a subscriber is about to look.
    InterruptFailed,
}

/// What is to be done next for a device.
#[derive(Clone, Copy, PartialEq, Eq, Debug)]
pub enum WatchAction {
    /// Read at once.
    Read,
    /// Wait until there is something to read, then for this long.
    Wait { delay_ns: u128 },
}

/// Decides when a device is read.
pub struct WatchLoop {
    debounce: Debounce,
    is_ready: bool,
    was_interrupted: bool,
}

/// What a watch loop stands for.
pub struct WatchState {
    pub debounce: crate::debounce::DebounceState,
    /// Whether there may be more to read.
    pub is_ready: bool,
    /// Whether the last wait was cut short.
    pub was_interrupted: bool,
}

impl WatchState {
    /// At first the delay is a millisecond.
    pub open spec fn init() -> Self {
        WatchState {
            debounce: crate::debounce::DebounceState {
                period_ns: 1_000_000,
                ceiling_ns: crate::debounce::MAX_NS as int,
            },
            is_ready: false,
            was_interrupted: false,
        }
    }

    /// Whether a read makes the delay longer: it lost nothing, had room to spare, and
    /// came after a wait to the end.
    pub open spec fn lengthens(self, read: usize, room: usize, overflowed: bool) -> bool {
        !overflowed && read != room && !self.was_interrupted
    }

    /// Whether the delay can be changed as a read demands.
    pub open spec fn can_adapt(self, read: usize, room: usize, overflowed: bool) -> bool {
        &&& overflowed ==> self.debounce.can_shrink()
        &&& self.lengthens(read, room, overflowed) ==> self.debounce.can_expand()
    }

    /// After a number of reads, each with whether the wait before it was cut short.
    pub open spec fn after_reads(self, reads: Seq<(bool, usize, usize, bool)>) -> Self
        decreases reads.len(),
    {
        if reads.len() == 0 {
            self
        } else {
            let (interrupted, read, room, overflowed) = reads.last();
            let before = self.after_reads(reads.drop_last());
            (WatchState { was_interrupted: interrupted, ..before }).adapted(read, room, overflowed)
        }
    }

    /// After a read of `read` bytes into `room` bytes.
    pub open spec fn adapted(self, read: usize, room: usize, overflowed: bool) -> Self {
        WatchState {
            debounce: if overflowed {
                self.debounce.shrunk()
            } else if self.lengthens(read, room, overflowed) {
                self.debounce.expanded()
            } else {
                self.debounce
            },
            ..self
        }
    }
}

impl View for WatchLoop {
    type V = WatchState;

    closed spec fn view(&self) -> WatchState {
        WatchState {
            debounce: self.debounce@,
            is_ready: self.is_ready,
            was_interrupted: self.was_interrupted,
        }
    }
}

impl WatchLoop {
    pub open spec fn wf(self) -> bool {
        self@.debounce.wf()
    }

    pub fn new() -> (w: Self)
        ensures
            w.wf(),
            w@ == WatchState::init(),
    {
        WatchLoop {
            debounce: Debounce::new(1_000_000),
            is_ready: false,
            was_interrupted: false,
        }
    }

    /// What is to be done next.
    pub fn next(&self) -> (action: WatchAction)
        ensures
            action == if self@.is_ready {
                WatchAction::Read
            } else {
                WatchAction::Wait { delay_ns: self@.debounce.period_ns as u128 }
            },
    {
        if self.is_ready {
            WatchAction::Read
        } else {
            WatchAction::Wait { delay_ns: self.debounce.period_ns() }
        }
    }

    /// The wait is over.
    pub fn woken(&mut self, cause: Wakeup)
        ensures
            final(self)@ == (WatchState {
                is_ready: true,
                was_interrupted: cause == Wakeup::Interrupted,
                ..old(self)@
            }),
    {
        self.is_ready = true;
        self.was_interrupted = matches!(cause, Wakeup::Interrupted);
    }

    /// There is nothing more to read for now.
    pub fn would_block(&mut self)
        ensures
            final(self)@ == (WatchState { is_ready: false, ..old(self)@ }),
    {
        self.is_ready = false;
    }

    /// Whether the delay can be changed as a read demands.
    pub fn can_adapt(&self, read: usize, room: usize, overflowed: bool) -> (yes: bool)
        requires
            self.wf(),
        ensures
            yes == self@.can_adapt(read, room, overflowed),
    {
        if overflowed {
            self.debounce.can_shrink()
        } else if read != room && !self.was_interrupted {
            self.debounce.can_expand()
        } else {
            true
        }
    }

    /// Adapts the delay after a read. Gives the new delay if it is another one.
    pub fn after_read(&mut self, read: usize, room: usize, overflowed: bool) -> (changed: Option<
        u128,
    >)
        requires
            old(self).wf(),
            old(self)@.can_adapt(read, room, overflowed),
        ensures
            final(self).wf(),
            final(self)@ == old(self)@.adapted(read, room, overflowed),
            changed == if final(self)@.debounce.period_ns == old(self)@.debounce.period_ns {
                None
            } else {
                Some(final(self)@.debounce.period_ns as u128)
            },
    {
        if overflowed {
            self.debounce.shrink()
        } else if read != room && !self.was_interrupted {
            self.debounce.expand()
        } else {
            None
        }
    }
}

/// A delay at which events were lost is never waited for again, whatever is read.
pub proof fn law_lossy_delay_is_not_used_again(
    s: WatchState,
    read: usize,
    room: usize,
    reads: Seq<(bool, usize, usize, bool)>,
)
    requires
        s.debounce.wf(),
        s.can_adapt(read, room, true),
    ensures
        s.adapted(read, room, true).after_reads(reads).debounce.period_ns < s.debounce.period_ns,
{
    lemma_delay_is_bounded(s.adapted(read, room, true), reads);
}

/// Reads keep the delay below what it might grow to, and do not raise that.
proof fn lemma_delay_is_bounded(s: WatchState, reads: Seq<(bool, usize, usize, bool)>)
    requires
        0 <= s.debounce.period_ns <= s.debounce.ceiling_ns,
    ensures
        0 <= s.after_reads(reads).debounce.period_ns <= s.after_reads(reads).debounce.ceiling_ns
            <= s.debounce.ceiling_ns,
    decreases reads.len(),
{
    if reads.len() > 0 {
        lemma_delay_is_bounded(s, reads.drop_last());
    }
}

/// A read that is full, or comes early for a subscriber, leaves the delay alone unless
/// events were lost.
pub proof fn law_full_or_early_read_keeps_the_delay(s: WatchState, read: usize, room: usize)
    requires
        read == room || s.was_interrupted,
    ensures
        s.adapted(read, room, false) == s,
{
}

/// A point in time, in whole seconds and what is left of a second.
#[derive(Clone, Copy, PartialEq, Eq, Debug)]
pub struct Stamp {
    pub seconds: i64,
    pub microseconds: u32,
}

/// The stamp of a point in time. Both parts go toward zero, and a negative rest of a
/// second wraps around.
pub open spec fn stamp(us: int) -> Stamp {
    if us >= 0 {
        Stamp { seconds: (us / 1_000_000) as i64, microseconds: (us % 1_000_000) as u32 }
    } else {
        let rest = (-us) % 1_000_000;
        Stamp {
            seconds: (-((-us) / 1_000_000)) as i64,
            microseconds: (if rest == 0 {
                0
            } else {
                0x1_0000_0000 - rest
            }) as u32,
        }
    }
}

/// The stamp of a point in time.
pub fn split_us(us: i64) -> (s: Stamp)
    ensures
        s == stamp(us as int),
{
    if us >= 0 {
        Stamp { seconds: us / 1_000_000, microseconds: (us % 1_000_000) as u32 }
    } else {
        let behind: u64 = (-(us as i128)) as u64;
        let rest: u64 = behind % 1_000_000;
        let whole: i64 = (behind / 1_000_000) as i64;
        Stamp {
            seconds: -whole,
            microseconds: if rest == 0 {
                0
            } else {
                (0x1_0000_0000 - rest) as u32
            },
        }
    }
}

/// What a raw subscriber is told after a read.
pub struct RawMessage {
    pub collected_at: Stamp,
    pub readings: Vec<Stamp>,
}

/// What raw subscribers are told of activity at these times.
pub fn raw_message(now_us: i64, timestamps_us: &[i64]) -> (m: RawMessage)
    requires
        timestamps_us.len() <= u32::MAX,
    ensures
        m.collected_at == stamp(now_us as int),
        m.readings@ == timestamps_us@.map_values(|t: i64| stamp(t as int)),
{
    let mut readings: Vec<Stamp> = Vec::new();
    let mut i: usize = 0;
    while i < timestamps_us.len()
        invariant
            i <= timestamps_us.len(),
            readings@ == timestamps_us@.take(i as int).map_values(|t: i64| stamp(t as int)),
        decreases timestamps_us.len() - i,
    {
        readings.push(split_us(timestamps_us[i]));
        assert(timestamps_us@.take(i + 1) =~= timestamps_us@.take(i as int).push(
            timestamps_us@[i as int],
        ));
        i = i + 1;
    }
    assert(timestamps_us@.take(i as int) =~= timestamps_us@);
    RawMessage { collected_at: split_us(now_us), readings }
}

/// All the subscribers to the times of the activity.
pub struct RawSubscribers<H> {
    map: HashMap<u32, H>,
}

impl<H> View for RawSubscribers<H> {
    type V = Map<u32, H>;

    closed spec fn view(&self) -> Map<u32, H> {
        self.map@
    }
}

impl<H> RawSubscribers<H> {
    pub fn new() -> (s: Self)
        ensures
            s@ == Map::<u32, H>::empty(),
    {
        Self { map: HashMap::new() }
    }

    pub fn is_empty(&self) -> (yes: bool)
        ensures
            yes == self@.is_empty(),
    {
        self.map.is_empty()
    }

    /// The numbers of the subscribers, each once, in no particular order.
    pub fn ids(&self) -> (ids: Vec<u32>)
        ensures
            ids@.no_duplicates(),
            ids@.to_set() == self@.dom(),
    {
        crate::fps_limiter::collect_keys(&self.map)
    }

    /// What a subscriber is told things through.
    pub fn handle(&self, id: u32) -> (h: Option<&H>)
        ensures
            h == if self@.contains_key(id) {
                Some(&self@[id])
            } else {
                None
            },
    {
        self.map.get(&id)
    }

    /// Forgets a subscriber.
    pub fn remove(&mut self, id: u32)
        ensures
            final(self)@ == old(self)@.remove(id),
    {
        let _ = self.map.remove(&id);
    }
}

/// Hands out the numbers by which raw subscribers are known.
pub struct RawServerImpl {
    next_id: u32,
}

impl RawServerImpl {
    /// The number that the next subscriber gets.
    pub closed spec fn next(self) -> u32 {
        self.next_id
    }

    /// Whether all the subscribers have numbers that were handed out.
    pub open spec fn knows<H>(self, m: Map<u32, H>) -> bool {
        forall|id: u32| #[trigger] m.contains_key(id) ==> id < self.next()
    }

    pub fn new() -> (s: Self)
        ensures
            s.next() == 0,
    {
        Self { next_id: 0 }
    }

    /// Whether there is a number left for another subscriber.
    pub fn has_next(&self) -> (yes: bool)
        ensures
            yes == (self.next() < u32::MAX),
    {
        self.next_id < u32::MAX
    }

    /// Registers a subscriber, if it can be reached.
    pub fn register<H, E>(
        &mut self,
        subscribers: &mut RawSubscribers<H>,
        handle: Result<H, E>,
    ) -> (r: Result<u32, E>)
        requires
            handle is Ok ==> old(self).next() < u32::MAX,
        ensures
            r == match handle {
                Ok(_) => Ok(old(self).next()),
                Err(e) => Err(e),
            },
            final(self).next() == old(self).next() + if r is Ok { 1int } else { 0 },
            final(subscribers)@ == match (r, handle) {
                (Ok(id), Ok(h)) => old(subscribers)@.insert(id, h),
                _ => old(subscribers)@,
            },
            old(self).knows(old(subscribers)@) ==> final(self).knows(final(subscribers)@),
    {
        match handle {
            Err(e) => Err(e),
            Ok(h) => {
                let id: u32 = self.next_id;
                self.next_id = id + 1;
                let _ = subscribers.map.insert(id, h);
                Ok(id)
            },
        }
    }
}

/// Forgetting a raw subscriber undoes its registration.
pub proof fn law_raw_removal_undoes_registration<H>(server: RawServerImpl, m: Map<u32, H>, handle: H)
    requires
        server.knows(m),
        server.next() < u32::MAX,
    ensures
        !m.contains_key(server.next()),
        m.insert(server.next(), handle).remove(server.next()) == m,
{
    let id = server.next();
    assert(!m.contains_key(id));
    assert(m.insert(id, handle).remove(id) =~= m);
}

/// A bit of a bit field is set if it is there and masking its byte leaves something.
pub proof fn law_bit_is_set_where_the_mask_hits(bits: Seq<u8>, n: u16)
    ensures
        bit_is_set(bits, n) <==> (n as int / 8) < bits.len() && bits[n as int / 8] & (1u8 << ((n
            % 8) as u8)) != 0,
{
    if (n as int / 8) < bits.len() {
        let byte = bits[n as int / 8];
        let k = (n % 8) as u8;
        vstd::bits::lemma_u8_shr_is_div(byte, k);
        assert(((byte >> k) % 2 == 1) == (byte & (1u8 << k) != 0)) by (bit_vector)
            requires
                k < 8,
        ;
    }
}

/// A device is taken for an accelerometer if and only if bit 6 of its properties is set,
/// and for a pointer if and only if bit 0 is, whatever its events are; it has axes if and
/// only if bit 3 of its events is set, and keys if and only if bit 1 is, whatever its
/// properties are.
pub proof fn law_each_capability_has_its_bit(properties: Seq<u8>, event_bits: Seq<u8>)
    ensures
        ({
            let d = description(properties, event_bits);
            &&& d.caps.is_pointer <==> properties.len() > 0 && properties[0] & 0x01 != 0
            &&& d.caps.is_accelerometer <==> properties.len() > 0 && properties[0] & 0x40 != 0
            &&& d.caps.has_abs <==> event_bits.len() > 0 && event_bits[0] & 0x08 != 0
            &&& d.has_key <==> event_bits.len() > 0 && event_bits[0] & 0x02 != 0
        }),
{
    law_bit_is_set_where_the_mask_hits(properties, 0);
    law_bit_is_set_where_the_mask_hits(properties, 6);
    law_bit_is_set_where_the_mask_hits(event_bits, 3);
    law_bit_is_set_where_the_mask_hits(event_bits, 1);
    assert(1u8 << 0u8 == 0x01u8 && 1u8 << 6u8 == 0x40u8 && 1u8 << 3u8 == 0x08u8 && 1u8 << 1u8
        == 0x02u8) by (bit_vector);
}

/// A stamp holds all of a time: its seconds and microseconds add up to it, where the
/// microseconds of a negative time are counted down from where they wrap around.
pub proof fn law_stamp_adds_up_to_the_time(us: i64)
    ensures
        ({
            let s = stamp(us as int);
            let micros = if s.microseconds >= 0x8000_0000 {
                s.microseconds - 0x1_0000_0000
            } else {
                s.microseconds as int
            };
            &&& 1_000_000 * s.seconds + micros == us
            &&& -1_000_000 < micros < 1_000_000
            &&& us >= 0 ==> micros >= 0 && s.seconds >= 0
            &&& us <= 0 ==> micros <= 0 && s.seconds <= 0
        }),
{
}

/// At first a device is waited for, and for a millisecond.
pub proof fn law_watching_starts_with_a_wait()
    ensures
        WatchState::init().debounce.period_ns == 1_000_000,
        WatchState::init().debounce.ceiling_ns == 18_446_744_073_709_551_615_999_999_999,
        !WatchState::init().is_ready,
        !WatchState::init().was_interrupted,
{
}

/// What a read does to the delay: lost events shorten it by a fifth for good; a read that
/// lost nothing, left room, and was waited for to the end doubles it as far as it may grow;
/// any other leaves it. Whether there may be more to read, and whether the wait was cut
/// short, stays as it was.
pub proof fn law_read_adapts_the_delay(s: WatchState, read: usize, room: usize, overflowed: bool)
    requires
        s.debounce.period_ns > 0,
    ensures
        ({
            let after = s.adapted(read, room, overflowed);
            let period = after.debounce.period_ns;
            let ceiling = after.debounce.ceiling_ns;
            &&& after.is_ready == s.is_ready
            &&& after.was_interrupted == s.was_interrupted
            &&& overflowed ==> ceiling == period && 5 * period <= 4 * s.debounce.period_ns < 5
                * period + 5
            &&& !overflowed ==> ceiling == s.debounce.ceiling_ns
            &&& !overflowed && (read == room || s.was_interrupted) ==> period
                == s.debounce.period_ns
            &&& !overflowed && read != room && !s.was_interrupted ==> period == if 2
                * s.debounce.period_ns <= s.debounce.ceiling_ns {
                2 * s.debounce.period_ns
            } else {
                s.debounce.ceiling_ns
            }
        }),
{
}

/// The delay can be adapted wherever doubling it, or four times it, is a duration and a
/// fifth can be taken off.
pub proof fn law_ordinary_delay_can_be_adapted(
    s: WatchState,
    read: usize,
    room: usize,
    overflowed: bool,
)
    requires
        2 <= s.debounce.period_ns <= 1_000_000_000_000_000_000,
    ensures
        s.can_adapt(read, room, overflowed),
{
}

/// The delay can be adapted after a read if and only if what that demands is a duration: four
/// times the delay where events were lost, and something is left of it; twice the delay where
/// it is to be longer.
pub proof fn law_when_the_delay_can_be_adapted(
    s: WatchState,
    read: usize,
    room: usize,
    overflowed: bool,
)
    ensures
        overflowed ==> (s.can_adapt(read, room, overflowed) <==> s.debounce.period_ns >= 2 && 4
            * s.debounce.period_ns <= 18_446_744_073_709_551_615_999_999_999),
        !overflowed && read != room && !s.was_interrupted ==> (s.can_adapt(read, room, overflowed)
            <==> 2 * s.debounce.period_ns <= 18_446_744_073_709_551_615_999_999_999),
        !overflowed && (read == room || s.was_interrupted) ==> s.can_adapt(read, room, overflowed),
{
}

} // verus!
