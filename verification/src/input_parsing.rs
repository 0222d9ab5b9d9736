//! What input events say about activity.

use vstd::prelude::*;

use crate::scratch::{InputEvent, Scratch, EVENT_SIZE};

verus! {

/// The number of absolute axes that a device can have.
pub const AXIS_COUNT: usize = 64;

/// The type of events that separate packets of events.
pub const EV_SYN: u16 = 0;

/// The code of the event that says that events were lost.
pub const SYN_DROPPED: u16 = 3;

/// The type of events of keys and buttons.
pub const EV_KEY: u16 = 1;

/// The type of events of absolute axes.
pub const EV_ABS: u16 = 3;

/// What a device says of itself.
#[derive(Clone, Copy, Default, PartialEq, Eq, Debug)]
pub struct DeviceCapabilities {
    /// It steers a pointer.
    pub is_pointer: bool,
    /// It is an accelerometer.
    pub is_accelerometer: bool,
    /// It has absolute axes.
    pub has_abs: bool,
}

/// The absolute axes of a device. An axis that has not been heard of has the
/// smallest number for its last value.
pub struct Axes {
    pub last_values: [i32; AXIS_COUNT],
    pub midpoints: [i32; AXIS_COUNT],
    pub deadzones: [u32; AXIS_COUNT],
}

/// Half of `n`, rounded towards zero.
pub open spec fn half(n: int) -> int {
    if n >= 0 {
        n / 2
    } else {
        -((-n) / 2)
    }
}

/// Whether a range of values has a deadzone: its span is a number of 32 bits, and a
/// tenth of it, rounded towards zero, is not negative.
pub open spec fn has_deadzone(min_max: (i32, i32)) -> bool {
    -10 < min_max.1 - min_max.0 <= i32::MAX
}

impl Axes {
    /// Whether all the ranges have deadzones.
    pub fn ranges_have_deadzones(min_max: &[(i32, i32); AXIS_COUNT]) -> (yes: bool)
        ensures
            yes == forall|i: int| 0 <= i < AXIS_COUNT ==> has_deadzone(#[trigger] min_max@[i]),
    {
        let mut i: usize = 0;
        while i < AXIS_COUNT
            invariant
                i <= AXIS_COUNT,
                forall|j: int| 0 <= j < i ==> has_deadzone(#[trigger] min_max@[j]),
            decreases AXIS_COUNT - i,
        {
            let span: i64 = min_max[i].1 as i64 - min_max[i].0 as i64;
            if span <= -10 || span > i32::MAX as i64 {
                assert(!has_deadzone(min_max@[i as int]));
                return false;
            }
            i = i + 1;
        }
        true
    }

    /// Axes with the given ranges of values: the deadzone of an axis is a tenth of
    /// its range, around the middle.
    pub fn from_min_max(min_max: &[(i32, i32); AXIS_COUNT]) -> (axes: Self)
        requires
            forall|i: int| 0 <= i < AXIS_COUNT ==> has_deadzone(#[trigger] min_max@[i]),
        ensures
            forall|i: int| 0 <= i < AXIS_COUNT ==> #[trigger] axes.last_values@[i] == i32::MIN,
            forall|i: int|
                0 <= i < AXIS_COUNT ==> #[trigger] axes.midpoints@[i] == min_max@[i].0 + half(
                    min_max@[i].1 - min_max@[i].0,
                ),
            forall|i: int|
                0 <= i < AXIS_COUNT ==> #[trigger] axes.deadzones@[i] == if min_max@[i].1
                    >= min_max@[i].0 {
                    (min_max@[i].1 - min_max@[i].0) / 10
                } else {
                    0
                },
    {
        let mut midpoints: [i32; AXIS_COUNT] = [0;AXIS_COUNT];
        let mut deadzones: [u32; AXIS_COUNT] = [0;AXIS_COUNT];
        let mut i: usize = 0;
        while i < AXIS_COUNT
            invariant
                i <= AXIS_COUNT,
                forall|j: int| 0 <= j < AXIS_COUNT ==> has_deadzone(#[trigger] min_max@[j]),
                forall|j: int|
                    0 <= j < i ==> #[trigger] midpoints@[j] == min_max@[j].0 + half(
                        min_max@[j].1 - min_max@[j].0,
                    ),
                forall|j: int|
                    0 <= j < i ==> #[trigger] deadzones@[j] == if min_max@[j].1 >= min_max@[j].0 {
                        (min_max@[j].1 - min_max@[j].0) / 10
                    } else {
                        0
                    },
            decreases AXIS_COUNT - i,
        {
            let (minimum, maximum) = min_max[i];
            assert(has_deadzone(min_max@[i as int]));
            let span: i32 = maximum - minimum;
            if span >= 0 {
                midpoints[i] = minimum + span / 2;
                deadzones[i] = (span / 10) as u32;
            } else {
                midpoints[i] = minimum - (-span) / 2;
                deadzones[i] = 0;
            }
            i = i + 1;
        }
        Self { last_values: [i32::MIN;AXIS_COUNT], midpoints, deadzones }
    }
}

/// What a batch of events came to.
pub struct BatchOutcome<'a> {
    /// The times of the events that show activity.
    pub timestamps_us: &'a [i64],
    /// Whether events were lost.
    pub overflowed: bool,
    /// Whether the device is active until further notice.
    pub is_active_indefinitely: bool,
}

/// What the state of a processor stands for. One that knows of no axes has empty
/// sequences.
#[verifier::ext_equal]
pub struct AxesState {
    pub last_values: Seq<i32>,
    pub midpoints: Seq<i32>,
    pub deadzones: Seq<u32>,
    pub is_pointer: bool,
}

/// The distance between two values.
pub open spec fn distance(a: i32, b: i32) -> int {
    if a >= b {
        a - b
    } else {
        b - a
    }
}

/// The axis that an event belongs to.
pub open spec fn axis_of(ev: InputEvent) -> int {
    ev.code as int % AXIS_COUNT as int
}

impl AxesState {
    pub open spec fn wf(self) -> bool {
        &&& self.last_values.len() == self.midpoints.len()
        &&& self.last_values.len() == self.deadzones.len()
        &&& self.last_values.len() == 0 || self.last_values.len() == AXIS_COUNT
    }

    /// Whether a value lies outside the deadzone of an axis.
    pub open spec fn outside_deadzone(self, axis: int, value: i32) -> bool {
        distance(value, self.midpoints[axis]) >= self.deadzones[axis]
    }

    /// After the value of an event has become the last one of its axis.
    pub open spec fn moved(self, ev: InputEvent) -> Self {
        AxesState { last_values: self.last_values.update(axis_of(ev), ev.value), ..self }
    }

    /// After an event: an axis remembers its last value.
    pub open spec fn after(self, has_abs: bool, ev: InputEvent) -> Self {
        if has_abs && ev.type_ == EV_ABS {
            self.moved(ev)
        } else {
            self
        }
    }

    /// After a batch of events.
    pub open spec fn after_all(self, has_abs: bool, events: Seq<InputEvent>) -> Self
        decreases events.len(),
    {
        if events.len() == 0 {
            self
        } else {
            self.after_all(has_abs, events.drop_last()).after(has_abs, events.last())
        }
    }

    /// Whether an event shows activity: it separates no packets, and, where axes are
    /// looked at and it belongs to one, its value is outside the deadzone.
    pub open spec fn shows_activity(self, has_abs: bool, ev: InputEvent) -> bool {
        &&& ev.type_ != EV_SYN
        &&& has_abs && ev.type_ == EV_ABS ==> self.outside_deadzone(axis_of(ev), ev.value)
    }

    /// Whether an axis of the device is held outside its deadzone. A pointer's axes
    /// stay where they were let go of, so they do not count.
    pub open spec fn held(self) -> bool {
        &&& !self.is_pointer
        &&& exists|axis: int|
            0 <= axis < self.last_values.len() && (#[trigger] self.last_values[axis]) != i32::MIN
                && self.outside_deadzone(axis, self.last_values[axis])
    }
}

/// The time of an event in microseconds.
pub open spec fn time_us(ev: InputEvent) -> int {
    ev.time.tv_sec * 1_000_000 + ev.time.tv_usec
}

/// Whether the time of an event can be computed in 64 bits.
pub open spec fn time_in_range(ev: InputEvent) -> bool {
    &&& i64::MIN <= ev.time.tv_sec * 1_000_000 <= i64::MAX
    &&& i64::MIN <= time_us(ev) <= i64::MAX
}

/// Whether the times of all the events can be computed in 64 bits.
pub open spec fn times_in_range(events: Seq<InputEvent>) -> bool {
    forall|i: int| 0 <= i < events.len() ==> time_in_range(#[trigger] events[i])
}

/// Whether an event says that events were lost.
pub open spec fn is_dropped_marker(ev: InputEvent) -> bool {
    ev.type_ == EV_SYN && ev.code == SYN_DROPPED
}

/// Whether a batch says that events were lost.
pub open spec fn overflows(events: Seq<InputEvent>) -> bool {
    exists|i: int| 0 <= i < events.len() && is_dropped_marker(#[trigger] events[i])
}

/// The time of the last event, or the smallest number where there is none.
pub open spec fn last_time(events: Seq<InputEvent>) -> int {
    if events.len() == 0 {
        i64::MIN as int
    } else {
        time_us(events.last())
    }
}

/// The times of the events that show activity, but for those that have the time of
/// the event right before them.
pub open spec fn activity(v: AxesState, has_abs: bool, events: Seq<InputEvent>) -> Seq<i64>
    decreases events.len(),
{
    if events.len() == 0 {
        Seq::empty()
    } else {
        let before = activity(v, has_abs, events.drop_last());
        let ev = events.last();
        if v.shows_activity(has_abs, ev) && time_us(ev) != last_time(events.drop_last()) {
            before.push(time_us(ev) as i64)
        } else {
            before
        }
    }
}

fn abs_diff(a: i32, b: i32) -> (d: u32)
    ensures
        d == distance(a, b),
{
    if a >= b {
        (a as i64 - b as i64) as u32
    } else {
        (b as i64 - a as i64) as u32
    }
}

/// What is known of a batch part of the way through it.
spec fn batch_invariant(
    before: AxesState,
    has_abs: bool,
    done: Seq<InputEvent>,
    state: AxesState,
    prev_ts_us: i64,
    overflowed: bool,
    kept: Seq<i64>,
) -> bool {
    &&& state == before.after_all(has_abs, done)
    &&& state.wf()
    &&& state.midpoints == before.midpoints
    &&& state.deadzones == before.deadzones
    &&& state.is_pointer == before.is_pointer
    &&& prev_ts_us == last_time(done)
    &&& overflowed == overflows(done)
    &&& kept == activity(before, has_abs, done)
}

/// What one more event adds to a batch.
proof fn lemma_batch_step(v: AxesState, has_abs: bool, done: Seq<InputEvent>, ev: InputEvent)
    ensures
        ({
            let more = done.push(ev);
            &&& v.after_all(has_abs, more) == v.after_all(has_abs, done).after(has_abs, ev)
            &&& last_time(more) == time_us(ev)
            &&& overflows(more) == (overflows(done) || is_dropped_marker(ev))
            &&& activity(v, has_abs, more) == if v.shows_activity(has_abs, ev) && time_us(ev)
                != last_time(done) {
                activity(v, has_abs, done).push(time_us(ev) as i64)
            } else {
                activity(v, has_abs, done)
            }
        }),
{
    let more = done.push(ev);
    assert(more.drop_last() =~= done);
    if overflows(done) {
        let i = choose|i: int| 0 <= i < done.len() && is_dropped_marker(#[trigger] done[i]);
        assert(is_dropped_marker(more[i]));
    }
    if is_dropped_marker(ev) {
        assert(is_dropped_marker(more[done.len() as int]));
    }
    if overflows(more) && !is_dropped_marker(ev) {
        let i = choose|i: int| 0 <= i < more.len() && is_dropped_marker(#[trigger] more[i]);
        assert(is_dropped_marker(done[i]));
    }
}

/// Puts a timestamp into the next slot if it is to be kept.
fn keep_if(scratch: &mut Scratch, ix: usize, keep: bool, ts_us: i64) -> (next: usize)
    requires
        ix < old(scratch).capacity(),
        ix < usize::MAX,
    ensures
        final(scratch).order() == old(scratch).order(),
        final(scratch).bytes() == old(scratch).bytes(),
        crate::scratch::alike_from(final(scratch).slots(), old(scratch).slots(), next as int),
        next == if keep { ix + 1 } else { ix as int },
        final(scratch).slots().take(next as int) == if keep {
            old(scratch).slots().take(ix as int).push(ts_us)
        } else {
            old(scratch).slots().take(ix as int)
        },
{
    if keep {
        scratch.store(ix, ts_us);
        assert(scratch.slots().take(ix + 1) =~= old(scratch).slots().take(ix as int).push(ts_us));
        ix + 1
    } else {
        ix
    }
}

/// How a processor goes through the events of a device, with or without a look at
/// absolute axes.
pub trait ProcessorState<const HAS_ABS: bool>: Sized {
    type State;

    /// What a state stands for.
    spec fn axes(state: Self::State) -> AxesState;

    /// Takes in an event of an axis. Says whether it is outside the deadzone, where
    /// axes are looked at.
    fn handle_abs(state: &mut Self::State, ev: &InputEvent) -> (outside: bool)
        requires
            Self::axes(*old(state)).wf(),
        ensures
            Self::axes(*final(state)).wf(),
            Self::axes(*final(state)) == if HAS_ABS {
                Self::axes(*old(state)).moved(*ev)
            } else {
                Self::axes(*old(state))
            },
            outside == (HAS_ABS && Self::axes(*old(state)).outside_deadzone(axis_of(*ev), ev.value)),
    ;

    /// Whether an axis is held outside its deadzone.
    fn is_active_indefinitely(state: &Self::State) -> (active: bool)
        requires
            Self::axes(*state).wf(),
        ensures
            active == Self::axes(*state).held(),
    ;

    /// Takes in an event. Says whether it is to be kept, and its time.
    fn process_event_specialized(
        ev: &InputEvent,
        state: &mut Self::State,
        prev_ts_us: &mut i64,
        overflowed: &mut bool,
    ) -> (verdict: (bool, i64))
        requires
            Self::axes(*old(state)).wf(),
            time_in_range(*ev),
        ensures
            Self::axes(*final(state)).wf(),
            Self::axes(*final(state)) == Self::axes(*old(state)).after(HAS_ABS, *ev),
            verdict.1 == time_us(*ev),
            verdict.0 == (Self::axes(*old(state)).shows_activity(HAS_ABS, *ev)
                && time_us(*ev) != *old(prev_ts_us)),
            *final(prev_ts_us) == time_us(*ev),
            *final(overflowed) == (*old(overflowed) || is_dropped_marker(*ev)),
    {
        let ts_us: i64 = ev.time.tv_sec * 1_000_000 + ev.time.tv_usec;
        let is_ev_syn: bool = ev.type_ == EV_SYN;
        let is_ev_abs: bool = ev.type_ == EV_ABS;
        let shows: bool = if is_ev_syn {
            false
        } else if HAS_ABS && is_ev_abs {
            Self::handle_abs(state, ev)
        } else {
            true
        };
        if is_ev_syn && ev.code == SYN_DROPPED {
            *overflowed = true;
        }
        let keep: bool = shows && ts_us != *prev_ts_us;
        *prev_ts_us = ts_us;
        (keep, ts_us)
    }

    /// Goes through events that are given apart from the read buffer.
    fn process_events<'a>(
        scratch: &'a mut Scratch,
        events: &[InputEvent],
        state: &mut Self::State,
    ) -> (outcome: BatchOutcome<'a>)
        requires
            old(scratch).wf(),
            Self::axes(*old(state)).wf(),
            events@.len() <= old(scratch).capacity(),
            times_in_range(events@),
        ensures
            final(scratch).wf(),
            final(scratch).order() == old(scratch).order(),
            final(scratch).bytes() == old(scratch).bytes(),
            final(scratch).capacity() == old(scratch).capacity(),
            outcome.timestamps_us@.len() <= events@.len(),
            final(scratch).slots() == outcome.timestamps_us@ + old(scratch).slots().skip(
                outcome.timestamps_us@.len() as int,
            ),
            Self::axes(*final(state)).wf(),
            Self::axes(*final(state)) == Self::axes(*old(state)).after_all(
                HAS_ABS,
                events@,
            ),
            outcome.timestamps_us@ == activity(
                Self::axes(*old(state)),
                HAS_ABS,
                events@,
            ),
            outcome.overflowed == overflows(events@),
            outcome.is_active_indefinitely == Self::axes(*final(state)).held(),
    {
        let mut prev_ts_us: i64 = i64::MIN;
        let mut overflowed: bool = false;
        let ghost before = Self::axes(*state);
        let mut ix: usize = 0;
        let mut i: usize = 0;
        assert(scratch.slots().take(0) =~= activity(
            before,
            HAS_ABS,
            events@.take(0),
        ));
        while i < events.len()
            invariant
                ix <= i <= events.len(),
                events@.len() <= scratch.capacity(),
                scratch.wf(),
                scratch.order() == old(scratch).order(),
                scratch.bytes() == old(scratch).bytes(),
                crate::scratch::alike_from(scratch.slots(), old(scratch).slots(), ix as int),
                times_in_range(events@),
                batch_invariant(
                    before,
                    HAS_ABS,
                    events@.take(i as int),
                    Self::axes(*state),
                    prev_ts_us,
                    overflowed,
                    scratch.slots().take(ix as int),
                ),
            decreases events.len() - i,
        {
            let ev: InputEvent = events[i];
            let (keep, ts_us) = Self::process_event_specialized(
                &ev,
                state,
                &mut prev_ts_us,
                &mut overflowed,
            );
            proof {
                lemma_batch_step(before, HAS_ABS, events@.take(i as int), ev);
                assert(events@.take(i + 1) =~= events@.take(i as int).push(ev));
            }
            ix = keep_if(scratch, ix, keep, ts_us);
            i = i + 1;
        }
        assert(events@.take(i as int) =~= events@);
        proof {
            crate::scratch::lemma_alike_from(
                scratch.slots(),
                old(scratch).slots(),
                scratch.slots().take(ix as int),
            );
        }
        BatchOutcome {
            is_active_indefinitely: Self::is_active_indefinitely(state),
            timestamps_us: scratch.stored(ix),
            overflowed,
        }
    }

    /// Goes through the events of a read of `read` bytes. A read that filled the
    /// buffer has it doubled.
    fn process_batch<'a>(
        scratch: &'a mut Scratch,
        read: usize,
        state: &mut Self::State,
    ) -> (outcome: BatchOutcome<'a>)
        requires
            old(scratch).wf(),
            Self::axes(*old(state)).wf(),
            old(scratch).can_record(read as int),
            times_in_range(old(scratch).read_events(read as int)),
        ensures
            final(scratch).wf(),
            final(scratch).capacity() == old(scratch).capacity_after(read as int),
            final(scratch).order() == old(scratch).order(),
            final(scratch).bytes().take(old(scratch).bytes().len() as int) == old(scratch).bytes(),
            outcome.timestamps_us@.len() <= read / EVENT_SIZE,
            final(scratch).slots().take(old(scratch).slots().len() as int)
                == outcome.timestamps_us@ + old(scratch).slots().skip(
                outcome.timestamps_us@.len() as int,
            ),
            Self::axes(*final(state)).wf(),
            Self::axes(*final(state)) == Self::axes(*old(state)).after_all(
                HAS_ABS,
                old(scratch).read_events(read as int),
            ),
            outcome.timestamps_us@ == activity(
                Self::axes(*old(state)),
                HAS_ABS,
                old(scratch).read_events(read as int),
            ),
            outcome.overflowed == overflows(old(scratch).read_events(read as int)),
            outcome.is_active_indefinitely == Self::axes(*final(state)).held(),
    {
        let mut prev_ts_us: i64 = i64::MIN;
        let mut overflowed: bool = false;
        let ghost before = Self::axes(*state);
        let ghost events = old(scratch).read_events(read as int);
        scratch.record_read(read);
        let ghost bytes = scratch.bytes();
        let ghost slots = scratch.slots();
        assert(bytes.take(read as int) =~= old(scratch).bytes().take(read as int));
        let count: usize = read / EVENT_SIZE;
        let mut ix: usize = 0;
        let mut i: usize = 0;
        assert(scratch.slots().take(0) =~= activity(before, HAS_ABS, events.take(0)));
        while i < count
            invariant
                ix <= i <= count,
                count == events.len(),
                count * EVENT_SIZE <= read <= bytes.len(),
                events == crate::scratch::events_in(scratch.order(), bytes.take(read as int)),
                count <= scratch.capacity(),
                scratch.wf(),
                scratch.order() == old(scratch).order(),
                scratch.bytes() == bytes,
                crate::scratch::alike_from(scratch.slots(), slots, ix as int),
                times_in_range(events),
                batch_invariant(
                    before,
                    HAS_ABS,
                    events.take(i as int),
                    Self::axes(*state),
                    prev_ts_us,
                    overflowed,
                    scratch.slots().take(ix as int),
                ),
            decreases count - i,
        {
            let ev: InputEvent = scratch.event(i);
            proof {
                crate::scratch::lemma_event_prefix(
                    scratch.order(),
                    bytes,
                    read as int,
                    EVENT_SIZE * i,
                );
                assert(ev == events[i as int]);
            }
            let (keep, ts_us) = Self::process_event_specialized(
                &ev,
                state,
                &mut prev_ts_us,
                &mut overflowed,
            );
            proof {
                lemma_batch_step(before, HAS_ABS, events.take(i as int), ev);
                assert(events.take(i + 1) =~= events.take(i as int).push(ev));
            }
            ix = keep_if(scratch, ix, keep, ts_us);
            i = i + 1;
        }
        assert(events.take(i as int) =~= events);
        proof {
            crate::scratch::lemma_kept_in_front(
                scratch.slots(),
                slots,
                old(scratch).slots(),
                ix as int,
            );
        }
        BatchOutcome {
            is_active_indefinitely: Self::is_active_indefinitely(state),
            timestamps_us: scratch.stored(ix),
            overflowed,
        }
    }
}

/// Whether the times of the events of a read of `read` bytes can be computed.
pub fn read_times_in_range(scratch: &Scratch, read: usize) -> (yes: bool)
    requires
        scratch.wf(),
        scratch.can_record(read as int),
    ensures
        yes == times_in_range(scratch.read_events(read as int)),
{
    let count: usize = read / EVENT_SIZE;
    let ghost events = scratch.read_events(read as int);
    let mut i: usize = 0;
    while i < count
        invariant
            i <= count,
            count == events.len(),
            count * EVENT_SIZE <= read <= scratch.bytes().len(),
            events == crate::scratch::events_in(
                scratch.order(),
                scratch.bytes().take(read as int),
            ),
            forall|j: int| 0 <= j < i ==> time_in_range(#[trigger] events[j]),
        decreases count - i,
    {
        let ev: InputEvent = scratch.event(i);
        proof {
            crate::scratch::lemma_event_prefix(
                scratch.order(),
                scratch.bytes(),
                read as int,
                EVENT_SIZE * i,
            );
            assert(ev == events[i as int]);
        }
        let us: i128 = ev.time.tv_sec as i128 * 1_000_000;
        let all: i128 = us + ev.time.tv_usec as i128;
        if us < i64::MIN as i128 || us > i64::MAX as i128 || all < i64::MIN as i128 || all
            > i64::MAX as i128 {
            assert(!time_in_range(events[i as int]));
            return false;
        }
        i = i + 1;
    }
    true
}

/// What axes stand for.
pub open spec fn axes_state(axes: Axes, is_pointer: bool) -> AxesState {
    AxesState {
        last_values: axes.last_values@,
        midpoints: axes.midpoints@,
        deadzones: axes.deadzones@,
        is_pointer,
    }
}

/// Goes through the events of input devices.
pub struct Processor;

impl ProcessorState<true> for Processor {
    type State = (Axes, bool);

    open spec fn axes(state: (Axes, bool)) -> AxesState {
        axes_state(state.0, state.1)
    }

    fn handle_abs(state: &mut (Axes, bool), ev: &InputEvent) -> (outside: bool) {
        let axis: usize = (ev.code % (AXIS_COUNT as u16)) as usize;
        let midpoint: i32 = state.0.midpoints[axis];
        let deadzone: u32 = state.0.deadzones[axis];
        state.0.last_values[axis] = ev.value;
        abs_diff(ev.value, midpoint) >= deadzone
    }

    fn is_active_indefinitely(state: &(Axes, bool)) -> (active: bool) {
        if state.1 {
            return false;
        }
        let mut axis: usize = 0;
        while axis < AXIS_COUNT
            invariant
                axis <= AXIS_COUNT,
                !state.1,
                forall|a: int|
                    0 <= a < axis ==> !((#[trigger] state.0.last_values@[a]) != i32::MIN
                        && axes_state(state.0, state.1).outside_deadzone(a, state.0.last_values@[a])),
            decreases AXIS_COUNT - axis,
        {
            let last: i32 = state.0.last_values[axis];
            if last != i32::MIN && abs_diff(last, state.0.midpoints[axis])
                >= state.0.deadzones[axis] {
                let ghost v = axes_state(state.0, state.1);
                assert(v.last_values[axis as int] != i32::MIN);
                return true;
            }
            axis = axis + 1;
        }
        false
    }
}

impl ProcessorState<false> for Processor {
    type State = ();

    open spec fn axes(state: ()) -> AxesState {
        AxesState {
            last_values: Seq::empty(),
            midpoints: Seq::empty(),
            deadzones: Seq::empty(),
            is_pointer: false,
        }
    }

    fn handle_abs(state: &mut (), ev: &InputEvent) -> (outside: bool) {
        false
    }

    fn is_active_indefinitely(state: &()) -> (active: bool) {
        false
    }
}

/// Whether events are read from the buffer or given apart from it makes no difference to
/// the times that come out, to what is said of lost events and of held axes, and to what
/// the axes remember.
pub proof fn law_buffer_makes_no_difference(
    v: AxesState,
    has_abs: bool,
    scratch: Scratch,
    read: int,
    events: Seq<InputEvent>,
)
    requires
        scratch.can_record(read),
        scratch.bytes().take(read) == crate::scratch::events_bytes(scratch.order(), events),
    ensures
        ({
            let from_buffer = scratch.read_events(read);
            &&& activity(v, has_abs, from_buffer) == activity(v, has_abs, events)
            &&& overflows(from_buffer) == overflows(events)
            &&& v.after_all(has_abs, from_buffer) == v.after_all(has_abs, events)
            &&& v.after_all(has_abs, from_buffer).held() == v.after_all(has_abs, events).held()
            &&& times_in_range(from_buffer) == times_in_range(events)
        }),
{
    crate::scratch::law_bytes_give_back_the_events(scratch.order(), events);
}

/// Events whose times do not go back give times that go forward.
pub proof fn law_activity_goes_forward(v: AxesState, has_abs: bool, events: Seq<InputEvent>)
    requires
        times_in_range(events),
        forall|i: int, j: int|
            0 <= i < j < events.len() ==> time_us(#[trigger] events[i]) <= time_us(
                #[trigger] events[j],
            ),
    ensures
        crate::order::increasing(activity(v, has_abs, events)),
        forall|k: int|
            0 <= k < activity(v, has_abs, events).len() ==> (#[trigger] activity(
                v,
                has_abs,
                events,
            )[k]) <= last_time(events),
    decreases events.len(),
{
    if events.len() > 0 {
        let rest = events.drop_last();
        assert forall|i: int, j: int| 0 <= i < j < rest.len() implies time_us(
            #[trigger] rest[i],
        ) <= time_us(#[trigger] rest[j]) by {
            assert(rest[i] == events[i] && rest[j] == events[j]);
        }
        assert forall|i: int| 0 <= i < rest.len() implies time_in_range(#[trigger] rest[i]) by {
            assert(rest[i] == events[i]);
        }
        law_activity_goes_forward(v, has_abs, rest);
        assert(time_in_range(events[events.len() - 1]));
        if rest.len() > 0 {
            assert(rest.last() == events[rest.len() - 1]);
            assert(time_us(events[rest.len() - 1]) <= time_us(events[events.len() - 1]));
        }
    }
}

/// Every time that comes out is the time of an event that shows activity.
pub proof fn law_activity_comes_from_events(
    v: AxesState,
    has_abs: bool,
    events: Seq<InputEvent>,
    k: int,
)
    requires
        times_in_range(events),
        0 <= k < activity(v, has_abs, events).len(),
    ensures
        exists|i: int|
            0 <= i < events.len() && v.shows_activity(has_abs, #[trigger] events[i]) && time_us(
                events[i],
            ) == activity(v, has_abs, events)[k],
    decreases events.len(),
{
    let rest = events.drop_last();
    assert forall|i: int| 0 <= i < rest.len() implies time_in_range(#[trigger] rest[i]) by {
        assert(rest[i] == events[i]);
    }
    if k < activity(v, has_abs, rest).len() {
        law_activity_comes_from_events(v, has_abs, rest, k);
        let i = choose|i: int|
            0 <= i < rest.len() && v.shows_activity(has_abs, #[trigger] rest[i]) && time_us(rest[i])
                == activity(v, has_abs, rest)[k];
        assert(events[i] == rest[i]);
    } else {
        let i = events.len() - 1;
        assert(time_in_range(events[i]));
        assert(v.shows_activity(has_abs, events[i]));
    }
}

/// How events are cut into batches makes no difference to what the axes remember.
pub proof fn law_axes_do_not_depend_on_batches(
    v: AxesState,
    has_abs: bool,
    a: Seq<InputEvent>,
    b: Seq<InputEvent>,
)
    ensures
        v.after_all(has_abs, a + b) == v.after_all(has_abs, a).after_all(has_abs, b),
    decreases b.len(),
{
    if b.len() == 0 {
        assert(a + b =~= a);
    } else {
        law_axes_do_not_depend_on_batches(v, has_abs, a, b.drop_last());
        assert((a + b).drop_last() =~= a + b.drop_last());
    }
}

/// Events never change where the deadzones of the axes lie.
pub proof fn law_deadzones_are_fixed(v: AxesState, has_abs: bool, events: Seq<InputEvent>)
    ensures
        v.after_all(has_abs, events).midpoints == v.midpoints,
        v.after_all(has_abs, events).deadzones == v.deadzones,
        v.after_all(has_abs, events).is_pointer == v.is_pointer,
    decreases events.len(),
{
    if events.len() > 0 {
        law_deadzones_are_fixed(v, has_abs, events.drop_last());
    }
}

/// A pointer is never active until further notice.
pub proof fn law_pointer_is_never_held(v: AxesState, has_abs: bool, events: Seq<InputEvent>)
    requires
        v.is_pointer,
    ensures
        !v.after_all(has_abs, events).held(),
{
    law_deadzones_are_fixed(v, has_abs, events);
}

/// What a batch of events comes to can be taken in by the device's envelope, where
/// the times of the events do not go back and the count of events has room.
pub proof fn law_activity_is_accepted(
    v: AxesState,
    has_abs: bool,
    events: Seq<InputEvent>,
    device: crate::ewm::EwmState,
)
    requires
        times_in_range(events),
        forall|i: int, j: int|
            0 <= i < j < events.len() ==> time_us(#[trigger] events[i]) <= time_us(
                #[trigger] events[j],
            ),
        forall|i: int|
            0 <= i < events.len() ==> time_us(#[trigger] events[i]) >= i64::MIN
                + crate::ewm::RESOLUTION_WINDOW_US,
        device.pending + activity(v, has_abs, events).len() <= u32::MAX,
    ensures
        device.accepts(activity(v, has_abs, events)),
{
    let ts = activity(v, has_abs, events);
    law_activity_goes_forward(v, has_abs, events);
    crate::ewm::lemma_fresh_is_suffix(device.last_event, ts);
    let new = crate::ewm::fresh(device.last_event, ts);
    let from = ts.len() - new.len();
    assert(new =~= ts.skip(from));
    if new.len() > 0 {
        law_activity_comes_from_events(v, has_abs, events, ts.len() - 1);
        assert(new.last() == ts[ts.len() - 1]);
    }
}

/// Half a number is rounded towards zero.
pub proof fn law_half_is_rounded_towards_zero(n: int)
    ensures
        n >= 0 ==> 2 * half(n) == n || 2 * half(n) == n - 1,
        n <= 0 ==> 2 * half(n) == n || 2 * half(n) == n + 1,
{
}

/// A range from a lower to a higher value has a deadzone, if its span is a number of 32
/// bits; and so has one that is turned around, if its span is less than ten.
pub proof fn law_ranges_with_deadzones(min: i32, max: i32)
    ensures
        min <= max ==> (has_deadzone((min, max)) <==> max - min <= 0x7fff_ffff),
        min > max ==> (has_deadzone((min, max)) <==> min - max < 10),
{
}

/// The time of an event is a million times its seconds and its microseconds.
pub proof fn law_time_of_an_event(ev: InputEvent)
    ensures
        time_us(ev) == 1_000_000 * ev.time.tv_sec + ev.time.tv_usec,
        0 <= ev.time.tv_sec <= 9_000_000_000_000 && 0 <= ev.time.tv_usec < 1_000_000
            ==> time_in_range(ev),
        time_in_range(ev) ==> i64::MIN <= time_us(ev) <= i64::MAX,
{
}

/// Which events show activity: all but those of type 0, and, where axes are looked at, those
/// of type 3 whose value is nearer to the middle of its axis than the deadzone reaches.
pub proof fn law_which_events_show_activity(v: AxesState, has_abs: bool, ev: InputEvent)
    ensures
        v.shows_activity(has_abs, ev) <==> ev.type_ != 0 && !(has_abs && ev.type_ == 3 && ({
            let axis = ev.code as int % 64;
            &&& ev.value - v.midpoints[axis] < v.deadzones[axis]
            &&& v.midpoints[axis] - ev.value < v.deadzones[axis]
        })),
        v.outside_deadzone(axis_of(ev), ev.value) <==> ({
            let axis = ev.code as int % 64;
            ||| ev.value - v.midpoints[axis] >= v.deadzones[axis]
            ||| v.midpoints[axis] - ev.value >= v.deadzones[axis]
        }),
{
}

/// Whether event `i` of a batch has its time in the output, in terms of what it holds: it is
/// not of type 0; where axes are looked at and it is of type 3, it is as far from the middle
/// of its axis as the deadzone reaches, or farther; and its time is not that of the event
/// right before it.
pub open spec fn is_kept(v: AxesState, has_abs: bool, events: Seq<InputEvent>, i: int) -> bool {
    let ev = events[i];
    let axis = ev.code as int % 64;
    let us = 1_000_000 * ev.time.tv_sec + ev.time.tv_usec;
    let before = if i == 0 {
        i64::MIN as int
    } else {
        1_000_000 * events[i - 1].time.tv_sec + events[i - 1].time.tv_usec
    };
    &&& ev.type_ != 0
    &&& has_abs && ev.type_ == 3 ==> ev.value - v.midpoints[axis] >= v.deadzones[axis]
        || v.midpoints[axis] - ev.value >= v.deadzones[axis]
    &&& us != before
}

/// What comes out of a batch are the times of the events that are kept, in their order and
/// nothing else.
pub proof fn law_output_is_the_times_of_the_kept_events(
    v: AxesState,
    has_abs: bool,
    events: Seq<InputEvent>,
)
    ensures
        activity(v, has_abs, events) == Seq::new(events.len(), |i: int| i).filter(
            |i: int| is_kept(v, has_abs, events, i),
        ).map_values(
            |i: int| (1_000_000 * events[i].time.tv_sec + events[i].time.tv_usec) as i64,
        ),
    decreases events.len(),
{
    reveal(Seq::filter);
    let all = Seq::new(events.len(), |i: int| i);
    let kept = |i: int| is_kept(v, has_abs, events, i);
    let us = |i: int| (1_000_000 * events[i].time.tv_sec + events[i].time.tv_usec) as i64;
    if events.len() > 0 {
        let rest = events.drop_last();
        let n = rest.len() as int;
        let front = Seq::new(rest.len(), |i: int| i);
        let kept_rest = |i: int| is_kept(v, has_abs, rest, i);
        let us_rest = |i: int| (1_000_000 * rest[i].time.tv_sec + rest[i].time.tv_usec) as i64;
        law_output_is_the_times_of_the_kept_events(v, has_abs, rest);
        assert(all.drop_last() =~= front);
        assert(all.last() == n);
        crate::order::lemma_filter_agrees(front, kept, kept_rest);
        let chosen = front.filter(kept);
        assert forall|k: int| 0 <= k < chosen.len() implies us(#[trigger] chosen[k]) == us_rest(
            chosen[k],
        ) by {
            front.lemma_filter_contains_rev(kept, chosen[k]);
            let j = choose|j: int| 0 <= j < front.len() && front[j] == chosen[k];
            assert(rest[j] == events[j]);
        }
        assert(chosen.map_values(us) =~= chosen.map_values(us_rest));
        assert(events.last() == events[n]);
        if n > 0 {
            assert(rest.last() == events[n - 1]);
        }
        assert(chosen.push(n).map_values(us) =~= chosen.map_values(us).push(us(n)));
    }
    assert(activity(v, has_abs, events) =~= all.filter(kept).map_values(us));
}

/// The time of a kept event is in the output.
pub proof fn law_kept_event_has_its_time_in_the_output(
    v: AxesState,
    has_abs: bool,
    events: Seq<InputEvent>,
    i: int,
)
    requires
        0 <= i < events.len(),
        is_kept(v, has_abs, events, i),
    ensures
        activity(v, has_abs, events).contains(
            (1_000_000 * events[i].time.tv_sec + events[i].time.tv_usec) as i64,
        ),
{
    let all = Seq::new(events.len(), |i: int| i);
    let kept = |i: int| is_kept(v, has_abs, events, i);
    let us = |i: int| (1_000_000 * events[i].time.tv_sec + events[i].time.tv_usec) as i64;
    law_output_is_the_times_of_the_kept_events(v, has_abs, events);
    assert(all[i] == i && kept(all[i]));
    all.lemma_filter_contains(kept, i);
    assert(all.filter(kept).contains(i));
    let k = choose|k: int| 0 <= k < all.filter(kept).len() && all.filter(kept)[k] == i;
    assert(all.filter(kept).map_values(us)[k] == us(i));
}

/// Every event that neither separates packets nor belongs to an axis shows activity,
/// whatever its code and its value: its time is in the output, unless the event right before
/// it has the same time.
pub proof fn law_every_other_event_shows_activity(
    v: AxesState,
    has_abs: bool,
    events: Seq<InputEvent>,
    i: int,
)
    requires
        0 <= i < events.len(),
        events[i].type_ != 0,
        events[i].type_ != 3,
        i == 0 ==> 1_000_000 * events[0].time.tv_sec + events[0].time.tv_usec != i64::MIN,
        i > 0 ==> 1_000_000 * events[i].time.tv_sec + events[i].time.tv_usec != 1_000_000
            * events[i - 1].time.tv_sec + events[i - 1].time.tv_usec,
    ensures
        activity(v, has_abs, events).contains(
            (1_000_000 * events[i].time.tv_sec + events[i].time.tv_usec) as i64,
        ),
{
    law_kept_event_has_its_time_in_the_output(v, has_abs, events, i);
}

/// A batch says that events were lost if and only if it holds an event of type 0 and code 3.
pub proof fn law_lost_events_are_marked(events: Seq<InputEvent>)
    ensures
        overflows(events) <==> exists|i: int|
            0 <= i < events.len() && (#[trigger] events[i]).type_ == 0 && events[i].code == 3,
{
    if overflows(events) {
        let i = choose|i: int| 0 <= i < events.len() && is_dropped_marker(#[trigger] events[i]);
        assert(events[i].type_ == 0 && events[i].code == 3);
    }
    if exists|i: int|
        0 <= i < events.len() && (#[trigger] events[i]).type_ == 0 && events[i].code == 3 {
        let i = choose|i: int|
            0 <= i < events.len() && (#[trigger] events[i]).type_ == 0 && events[i].code == 3;
        assert(is_dropped_marker(events[i]));
    }
}

/// An axis remembers the value of the last event that belongs to it, where axes are looked
/// at.
pub proof fn law_axis_remembers_its_last_value(v: AxesState, events: Seq<InputEvent>, i: int)
    requires
        v.last_values.len() == 64,
        0 <= i < events.len(),
        events[i].type_ == 3,
        forall|j: int|
            i < j < events.len() ==> (#[trigger] events[j]).type_ != 3 || events[j].code % 64
                != events[i].code % 64,
    ensures
        v.after_all(true, events).last_values[events[i].code as int % 64] == events[i].value,
        v.after_all(true, events).last_values.len() == 64,
    decreases events.len(),
{
    let rest = events.drop_last();
    lemma_last_values_len(v, true, rest);
    if i < rest.len() {
        assert(rest[i] == events[i]);
        assert forall|j: int| i < j < rest.len() implies (#[trigger] rest[j]).type_ != 3
            || rest[j].code % 64 != rest[i].code % 64 by {
            assert(rest[j] == events[j]);
        }
        law_axis_remembers_its_last_value(v, rest, i);
        assert(events.last() == events[events.len() - 1]);
    }
}

/// The number of axes does not change.
proof fn lemma_last_values_len(v: AxesState, has_abs: bool, events: Seq<InputEvent>)
    requires
        v.last_values.len() == 64,
    ensures
        v.after_all(has_abs, events).last_values.len() == 64,
    decreases events.len(),
{
    if events.len() > 0 {
        lemma_last_values_len(v, has_abs, events.drop_last());
    }
}

/// An axis that no event belongs to keeps its last value, and where axes are not looked at
/// all of them do.
pub proof fn law_axis_without_events_keeps_its_value(
    v: AxesState,
    has_abs: bool,
    events: Seq<InputEvent>,
    axis: int,
)
    requires
        v.last_values.len() == 64,
        0 <= axis < 64,
        !has_abs || forall|j: int|
            0 <= j < events.len() ==> (#[trigger] events[j]).type_ != 3 || events[j].code as int
                % 64 != axis,
    ensures
        v.after_all(has_abs, events).last_values[axis] == v.last_values[axis],
    decreases events.len(),
{
    if events.len() > 0 {
        let rest = events.drop_last();
        lemma_last_values_len(v, has_abs, rest);
        if has_abs {
            assert forall|j: int| 0 <= j < rest.len() implies (#[trigger] rest[j]).type_ != 3
                || rest[j].code as int % 64 != axis by {
                assert(rest[j] == events[j]);
            }
            assert(events.last() == events[events.len() - 1]);
        }
        law_axis_without_events_keeps_its_value(v, has_abs, rest, axis);
    }
}

/// An event of an axis makes its value the last one of that axis, and changes nothing else.
pub proof fn law_event_moves_its_axis_alone(v: AxesState, ev: InputEvent)
    ensures
        v.moved(ev).last_values == v.last_values.update(ev.code as int % 64, ev.value),
        v.moved(ev).midpoints == v.midpoints,
        v.moved(ev).deadzones == v.deadzones,
        v.moved(ev).is_pointer == v.is_pointer,
{
}

/// A device is active until further notice if and only if it is no pointer and has an axis
/// that it has been heard of, whose last value is as far from the middle as the deadzone
/// reaches, or farther.
pub proof fn law_held_axis_keeps_a_device_active(v: AxesState)
    ensures
        v.held() <==> !v.is_pointer && exists|axis: int|
            0 <= axis < v.last_values.len() && (#[trigger] v.last_values[axis]) != -0x8000_0000 && (
            v.last_values[axis] - v.midpoints[axis] >= v.deadzones[axis] || v.midpoints[axis]
                - v.last_values[axis] >= v.deadzones[axis]),
{
    if v.held() {
        let axis = choose|axis: int|
            0 <= axis < v.last_values.len() && (#[trigger] v.last_values[axis]) != i32::MIN
                && v.outside_deadzone(axis, v.last_values[axis]);
        assert(v.last_values[axis] != -0x8000_0000);
    }
    if !v.is_pointer && exists|axis: int|
        0 <= axis < v.last_values.len() && (#[trigger] v.last_values[axis]) != -0x8000_0000 && (
        v.last_values[axis] - v.midpoints[axis] >= v.deadzones[axis] || v.midpoints[axis]
            - v.last_values[axis] >= v.deadzones[axis]) {
        let axis = choose|axis: int|
            0 <= axis < v.last_values.len() && (#[trigger] v.last_values[axis]) != -0x8000_0000 && (
            v.last_values[axis] - v.midpoints[axis] >= v.deadzones[axis] || v.midpoints[axis]
                - v.last_values[axis] >= v.deadzones[axis]);
        assert(v.outside_deadzone(axis, v.last_values[axis]));
    }
}

/// A state holds the ranges and values of its axes as they are, and knows whether it is that
/// of a pointer; one that looks at no axes has none.
pub proof fn law_state_holds_the_axes(axes: Axes, is_pointer: bool)
    ensures
        <Processor as ProcessorState<true>>::axes((axes, is_pointer)).last_values
            == axes.last_values@,
        <Processor as ProcessorState<true>>::axes((axes, is_pointer)).midpoints == axes.midpoints@,
        <Processor as ProcessorState<true>>::axes((axes, is_pointer)).deadzones == axes.deadzones@,
        <Processor as ProcessorState<true>>::axes((axes, is_pointer)).is_pointer == is_pointer,
        <Processor as ProcessorState<false>>::axes(()).last_values.len() == 0,
        !<Processor as ProcessorState<false>>::axes(()).is_pointer,
{
}

/// An event changes the axes only where they are looked at and it is of type 3.
pub proof fn law_other_events_leave_the_axes(v: AxesState, has_abs: bool, ev: InputEvent)
    ensures
        !has_abs || ev.type_ != 3 ==> v.after(has_abs, ev) == v,
        has_abs && ev.type_ == 3 ==> v.after(has_abs, ev) == v.moved(ev),
{
}

} // verus!
