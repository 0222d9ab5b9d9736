//! Per-device activity tracking.
//!
//! A device is followed by an exponential envelope with separate attack and
//! release half-lives. This module decides, in whole microseconds, how long the
//! envelope attacks and how long it releases in a tick; the level itself is a
//! floating-point number that the caller advances.

use std::collections::VecDeque;

use vstd::prelude::*;

use crate::double::through_double;
use crate::order::{is_increasing, select_nth};

verus! {

broadcast use vstd::std_specs::vecdeque::group_vec_dequeue_axioms;

/// The number of event times that an estimator remembers.
pub const RESOLUTION_BUF_CAP: usize = 1024;

/// The number of deltas below which no resolution is estimated.
pub const RESOLUTION_MIN_SAMPLES: usize = 10;

/// The age in microseconds beyond which an event time is forgotten.
pub const RESOLUTION_WINDOW_US: i64 = 60_000_000;

/// Estimates the polling interval of a device from the times of its latest events.
pub struct ResolutionEstimator {
    buf: VecDeque<i64>,
    scratch: Vec<i64>,
}

/// The event times of `s` that are no more than the window older than its last
/// one; where that leaves too many, the latest of them.
pub open spec fn recent(s: Seq<i64>) -> Seq<i64> {
    let kept = s.filter(|t: i64| t >= s.last() - RESOLUTION_WINDOW_US);
    if kept.len() > RESOLUTION_BUF_CAP {
        kept.skip(kept.len() - RESOLUTION_BUF_CAP)
    } else {
        kept
    }
}

/// The distances between neighbouring event times.
pub open spec fn deltas(s: Seq<i64>) -> Seq<i64> {
    Seq::new((s.len() - 1) as nat, |i: int| (s[i + 1] - s[i]) as i64)
}

/// The tenth percentile of the distances between the event times of `s`, once
/// there are enough of them.
pub open spec fn resolution(s: Seq<i64>) -> Option<i64> {
    if s.len() < RESOLUTION_MIN_SAMPLES + 1 {
        None
    } else {
        Some(crate::order::ascending(deltas(s))[((s.len() - 1) / 10) as int])
    }
}

/// What an estimator's memory always looks like.
pub open spec fn history_wf(s: Seq<i64>) -> bool {
    &&& crate::order::increasing(s)
    &&& s.len() <= RESOLUTION_BUF_CAP
    &&& s.len() > 0 ==> s.last() - s[0] <= RESOLUTION_WINDOW_US
}

impl View for ResolutionEstimator {
    type V = Seq<i64>;

    closed spec fn view(&self) -> Seq<i64> {
        self.buf@
    }
}

/// Remembering `more` after `s`, where the first `gone` times of `s` and the first
/// `from` times of `more` are too old: what is left, that it is well-formed, and
/// that it ends in the last time of `more`.
proof fn lemma_recent(s: Seq<i64>, more: Seq<i64>, gone: int, from: int)
    requires
        history_wf(s),
        more.len() > 0,
        crate::order::increasing(s + more),
        0 <= gone <= s.len(),
        0 <= from <= more.len(),
        forall|i: int| 0 <= i < gone ==> s[i] < more.last() - RESOLUTION_WINDOW_US,
        gone < s.len() ==> s[gone] >= more.last() - RESOLUTION_WINDOW_US,
        forall|i: int| 0 <= i < from ==> more[i] < more.last() - RESOLUTION_WINDOW_US,
        from < more.len() ==> more[from] >= more.last() - RESOLUTION_WINDOW_US,
    ensures
        gone < s.len() ==> from == 0,
        from < more.len(),
        recent(s + more) == (s + more).skip(kept_from((s.len() + more.len()) as int, gone + from)),
        history_wf(recent(s + more)),
        recent(s + more).len() > 0,
        recent(s + more).last() == more.last(),
{
    let all = s + more;
    let m = gone + from;
    let cutoff = more.last() - RESOLUTION_WINDOW_US;
    assert(all.last() == more.last());
    if gone < s.len() {
        assert(all[gone] < all[s.len() as int]);
        assert(more[0] == all[s.len() as int]);
    }
    assert forall|i: int| 0 <= i < m implies all[i] < cutoff by {
        if i >= s.len() {
            assert(all[i] == more[i - s.len()]);
        }
    }
    assert forall|i: int| m <= i < all.len() implies all[i] >= cutoff by {
        if i < s.len() {
            assert(gone < i ==> all[gone] < all[i]);
        } else {
            assert(all[i] == more[i - s.len()]);
            assert(from < i - s.len() ==> all[s.len() + from] < all[i]);
            assert(all[s.len() + from] == more[from]);
        }
    }
    let keep = |t: i64| t >= all.last() - RESOLUTION_WINDOW_US;
    crate::order::lemma_filter_suffix(all, keep, m);
    let kept = all.skip(m);
    if kept.len() > RESOLUTION_BUF_CAP {
        assert(kept.skip(kept.len() - RESOLUTION_BUF_CAP) =~= all.skip(
            all.len() - RESOLUTION_BUF_CAP,
        ));
    }
}

/// The index from which `len` times are kept when the first `old` are too old.
spec fn kept_from(len: int, old: int) -> int {
    if len - old > RESOLUTION_BUF_CAP {
        len - RESOLUTION_BUF_CAP
    } else {
        old
    }
}

impl ResolutionEstimator {
    pub open spec fn wf(self) -> bool {
        history_wf(self@)
    }

    pub fn new() -> (e: Self)
        ensures
            e.wf(),
            e@ == Seq::<i64>::empty(),
    {
        Self {
            buf: VecDeque::with_capacity(RESOLUTION_BUF_CAP),
            scratch: Vec::with_capacity(RESOLUTION_BUF_CAP),
        }
    }

    /// Remembers the times of new events.
    pub fn push_events(&mut self, ts: &[i64])
        requires
            old(self).wf(),
            ts@.len() > 0,
            crate::order::increasing(old(self)@ + ts@),
            ts@.last() - RESOLUTION_WINDOW_US >= i64::MIN,
        ensures
            final(self).wf(),
            final(self)@ == recent(old(self)@ + ts@),
            final(self)@.last() == ts@.last(),
            final(self)@.len() > 0,
    {
        let ghost before = self.buf@;
        let ghost all = before + ts@;
        let cutoff: i64 = ts[ts.len() - 1] - RESOLUTION_WINDOW_US;
        let ghost mut gone: int = 0;
        while self.buf.len() > 0 && self.buf[0] < cutoff
            invariant
                0 <= gone <= before.len(),
                self.buf@ == before.skip(gone),
                forall|i: int| 0 <= i < gone ==> before[i] < cutoff,
            ensures
                0 <= gone <= before.len(),
                self.buf@ == before.skip(gone),
                forall|i: int| 0 <= i < gone ==> before[i] < cutoff,
                gone < before.len() ==> before[gone] >= cutoff,
            decreases self.buf@.len(),
        {
            proof {
                assert(before.skip(gone)[0] == before[gone]);
                assert(before.skip(gone).subrange(1, before.len() - gone) =~= before.skip(gone + 1));
                gone = gone + 1;
            }
            let _ = self.buf.pop_front();
        }
        let mut from: usize = 0;
        while from < ts.len() && ts[from] < cutoff
            invariant
                from <= ts.len(),
                forall|i: int| 0 <= i < from ==> ts@[i] < cutoff,
            ensures
                from <= ts.len(),
                forall|i: int| 0 <= i < from ==> ts@[i] < cutoff,
                from < ts.len() ==> ts@[from as int] >= cutoff,
            decreases ts.len() - from,
        {
            from = from + 1;
        }
        proof {
            lemma_recent(before, ts@, gone, from as int);
        }
        let ghost start = kept_from((before.len() + ts@.len()) as int, gone + from);
        while self.buf.len() > 0 && ts.len() - from > RESOLUTION_BUF_CAP - self.buf.len()
            invariant
                from <= ts.len(),
                0 <= gone <= before.len(),
                before.len() <= RESOLUTION_BUF_CAP,
                self.buf@ == before.skip(gone),
                gone + from <= start,
                start <= before.len() + ts.len(),
                before.len() + ts.len() - (gone + from) > RESOLUTION_BUF_CAP ==> start
                    == before.len() + ts.len() - RESOLUTION_BUF_CAP,
                before.len() + ts.len() - (gone + from) <= RESOLUTION_BUF_CAP ==> start == gone
                    + from,
                gone < before.len() ==> from == 0,
            decreases self.buf@.len(),
        {
            proof {
                assert(before.skip(gone).subrange(1, before.len() - gone) =~= before.skip(gone + 1));
                gone = gone + 1;
            }
            let _ = self.buf.pop_front();
        }
        let spare: usize = RESOLUTION_BUF_CAP - self.buf.len();
        if ts.len() - from > spare {
            from = ts.len() - spare;
        }
        proof {
            assert(gone + from == start);
            assert(before.skip(gone) + ts@.subrange(from as int, from as int) =~= before.skip(gone));
        }
        let mut i: usize = from;
        while i < ts.len()
            invariant
                from <= i <= ts.len(),
                self.buf@ == before.skip(gone) + ts@.subrange(from as int, i as int),
            decreases ts.len() - i,
        {
            proof {
                assert(ts@.subrange(from as int, i + 1) =~= ts@.subrange(from as int, i as int).push(
                    ts@[i as int],
                ));
            }
            self.buf.push_back(ts[i]);
            i = i + 1;
        }
        proof {
            assert(before.skip(gone) + ts@.subrange(from as int, ts@.len() as int) =~= all.skip(
                start,
            ));
        }
    }

    /// The number of distances between remembered times.
    /// Another estimator with the same memory.
    fn copied(&self) -> (e: Self)
        ensures
            e@ == self@,
    {
        let mut buf: VecDeque<i64> = VecDeque::new();
        let mut i: usize = 0;
        while i < self.buf.len()
            invariant
                i <= self.buf.len(),
                buf@ == self.buf@.take(i as int),
            decreases self.buf.len() - i,
        {
            buf.push_back(self.buf[i]);
            i = i + 1;
        }
        assert(buf@ =~= self.buf@);
        ResolutionEstimator { buf, scratch: Vec::new() }
    }

    pub fn num_deltas(&self) -> (n: usize)
        ensures
            n == if self@.len() == 0 { 0 } else { self@.len() - 1 },
    {
        self.buf.len().saturating_sub(1)
    }

    /// The estimated polling interval in microseconds.
    pub fn p10(&mut self) -> (p: Option<i64>)
        requires
            old(self).wf(),
        ensures
            final(self)@ == old(self)@,
            p == resolution(old(self)@),
    {
        if self.num_deltas() < RESOLUTION_MIN_SAMPLES {
            return None;
        }
        self.scratch.clear();
        let mut prev: i64 = self.buf[0];
        let mut i: usize = 1;
        while i < self.buf.len()
            invariant
                1 <= i <= self.buf@.len(),
                self.buf@ == old(self).buf@,
                history_wf(self.buf@),
                prev == self.buf@[i - 1],
                self.scratch@ =~= deltas(self.buf@).take(i - 1),
            decreases self.buf@.len() - i,
        {
            let t: i64 = self.buf[i];
            assert(self.buf@[0] <= prev <= t <= self.buf@.last());
            self.scratch.push(t - prev);
            prev = t;
            i = i + 1;
        }
        assert(self.scratch@ =~= deltas(self.buf@));
        let k: usize = self.scratch.len() / 10;
        Some(select_nth(&mut self.scratch, k))
    }
}

/// How the envelope moves in one tick.
#[derive(Clone, Copy, PartialEq, Eq, Debug, Structural)]
pub enum EnvelopeStep {
    /// It stays where it is.
    Hold,
    /// It rises for `dt_us`.
    Attack { dt_us: i64 },
    /// It falls for `dt_us`.
    Release { dt_us: i64 },
    /// It rises for `attack_us`, then falls for `release_us`.
    Split { attack_us: i64, release_us: i64 },
}

/// What a tick found out about a device.
#[derive(Clone, Copy, PartialEq, Eq, Debug)]
pub struct FpsDetail {
    /// How the envelope moves.
    pub step: EnvelopeStep,
    /// The length of the tick.
    pub dt_us: i64,
    /// The polling interval that the tick went by. The number of events to expect
    /// in the tick is `dt_us` divided by it.
    pub input_res_us: i64,
    /// The estimated polling interval.
    pub p10: Option<i64>,
    /// The number of events since the tick before.
    pub events: u32,
}

/// Follows the activity of one device.
pub struct DeviceEwm {
    level: u64,
    pending_events: u32,
    last_tick_us: i64,
    last_event_us: i64,
    active: bool,
    resolution: ResolutionEstimator,
}

/// What a `DeviceEwm` stands for.
#[verifier::ext_equal]
pub struct EwmState {
    /// The bit pattern of the envelope's level, which is a double-precision number.
    pub level: u64,
    /// The events since the last tick.
    pub pending: int,
    /// The time of the last tick.
    pub last_tick: Option<i64>,
    /// The time of the last event.
    pub last_event: Option<i64>,
    /// Whether the device was last said to be active until further notice.
    pub active: bool,
    /// The remembered event times.
    pub history: Seq<i64>,
}

/// Reads a time off a variable in which the smallest number stands for none.
pub open spec fn time_of(us: i64) -> Option<i64> {
    if us == i64::MIN {
        None
    } else {
        Some(us)
    }
}

/// The part of `ts` that starts at the first time after `last`.
pub open spec fn fresh(last: Option<i64>, ts: Seq<i64>) -> Seq<i64>
    decreases ts.len(),
{
    if ts.len() == 0 {
        ts
    } else if ts[0] > last.unwrap_or(i64::MIN) {
        ts
    } else {
        fresh(last, ts.drop_first())
    }
}

impl EwmState {
    /// A device of which nothing has been seen.
    pub open spec fn init() -> Self {
        EwmState {
            level: 0,
            pending: 0,
            last_tick: None,
            last_event: None,
            active: false,
            history: Seq::empty(),
        }
    }

    pub open spec fn wf(self) -> bool {
        &&& history_wf(self.history)
        &&& 0 <= self.pending <= u32::MAX
        &&& self.last_tick != Some(i64::MIN)
        &&& self.last_event != Some(i64::MIN)
        &&& match self.last_event {
            None => self.history.len() == 0,
            Some(t) => self.history.len() > 0 && self.history.last() == t,
        }
    }

    /// Whether a batch can be taken in: what is new in it is in order, the window
    /// behind it is a range of times, and the count of events can hold it.
    pub open spec fn accepts(self, ts: Seq<i64>) -> bool {
        let new = fresh(self.last_event, ts);
        &&& crate::order::increasing(new)
        &&& new.len() > 0 ==> new.last() - RESOLUTION_WINDOW_US >= i64::MIN
        &&& self.pending + new.len() <= u32::MAX
    }

    /// After a batch of event times: what is new in it is counted and remembered.
    pub open spec fn observe(self, ts: Seq<i64>) -> Self {
        let new = fresh(self.last_event, ts);
        if new.len() == 0 {
            self
        } else {
            EwmState {
                pending: self.pending + new.len(),
                last_event: Some(new.last()),
                history: recent(self.history + new),
                ..self
            }
        }
    }

    /// The length of a tick at `now`: at least one, and zero where none came before.
    pub open spec fn dt(self, now: i64) -> int {
        match self.last_tick {
            None => 0,
            Some(prev) => if now - prev > 1 { now - prev } else { 1 },
        }
    }

    /// The polling interval that a tick at `now` goes by.
    pub open spec fn input_res(self, now: i64) -> int {
        match resolution(self.history) {
            Some(p) => p as int,
            None => if self.dt(now) > 1 { self.dt(now) } else { 1 },
        }
    }

    /// The time at which a device that went quiet counts as idle: two polling
    /// intervals after its last event.
    pub open spec fn transition(self, now: i64) -> int {
        self.last_event.unwrap() + 2 * crate::double::double_image(self.input_res(now))
    }

    /// Whether the times around a tick at `now` can be told apart by `i64`.
    pub open spec fn tick_in_range(self, now: i64) -> bool {
        self.last_event is Some && self.last_tick is Some ==> {
            &&& i64::MIN <= now - self.last_tick.unwrap() <= i64::MAX
            &&& 2 * crate::double::double_image(self.input_res(now)) <= i64::MAX
            &&& self.transition(now) <= i64::MAX
        }
    }

    /// How a tick at `now` moves the envelope: it rises until the transition and
    /// falls from there on.
    pub open spec fn step(self, now: i64) -> EnvelopeStep {
        if self.last_event is None || self.last_tick is None {
            EnvelopeStep::Hold
        } else if now <= self.transition(now) {
            EnvelopeStep::Attack { dt_us: self.dt(now) as i64 }
        } else if self.last_tick.unwrap() >= self.transition(now) {
            EnvelopeStep::Release { dt_us: self.dt(now) as i64 }
        } else {
            EnvelopeStep::Split {
                attack_us: (self.transition(now) - self.last_tick.unwrap()) as i64,
                release_us: (now - self.transition(now)) as i64,
            }
        }
    }

    /// What a tick at `now` finds out.
    pub open spec fn detail(self, now: i64) -> FpsDetail {
        FpsDetail {
            step: self.step(now),
            dt_us: if self.last_event is None { 0 } else { self.dt(now) as i64 },
            input_res_us: if self.last_event is None { 1 } else { self.input_res(now) as i64 },
            p10: resolution(self.history),
            events: self.pending as u32,
        }
    }

    /// After a tick at `now`.
    pub open spec fn tick(self, now: i64) -> Self {
        EwmState { pending: 0, last_tick: time_of(now), ..self }
    }
}

impl View for DeviceEwm {
    type V = EwmState;

    closed spec fn view(&self) -> EwmState {
        EwmState {
            level: self.level,
            pending: self.pending_events as int,
            last_tick: time_of(self.last_tick_us),
            last_event: time_of(self.last_event_us),
            active: self.active,
            history: self.resolution@,
        }
    }
}

/// An estimated polling interval lies within the window.
pub proof fn lemma_resolution_range(s: Seq<i64>)
    requires
        history_wf(s),
    ensures
        resolution(s) matches Some(p) ==> 1 <= p <= RESOLUTION_WINDOW_US,
{
    if s.len() >= RESOLUTION_MIN_SAMPLES + 1 {
        let k = ((s.len() - 1) / 10) as int;
        crate::order::lemma_ascending_contains(deltas(s), k);
        let p = crate::order::ascending(deltas(s))[k];
        let i = choose|i: int| 0 <= i < deltas(s).len() && deltas(s)[i] == p;
        assert(s[0] <= s[i] < s[i + 1] <= s.last());
    }
}

/// The times of a batch that are not new come before the ones that are.
pub proof fn lemma_fresh(last: Option<i64>, ts: Seq<i64>, from: int)
    requires
        0 <= from <= ts.len(),
        forall|i: int| 0 <= i < from ==> ts[i] <= last.unwrap_or(i64::MIN),
        from < ts.len() ==> ts[from] > last.unwrap_or(i64::MIN),
    ensures
        fresh(last, ts) == ts.skip(from),
    decreases ts.len(),
{
    if from == 0 {
        assert(ts.skip(0) =~= ts);
    } else {
        assert forall|i: int| 0 <= i < from - 1 implies ts.drop_first()[i] <= last.unwrap_or(
            i64::MIN,
        ) by {
            assert(ts.drop_first()[i] == ts[i + 1]);
        }
        lemma_fresh(last, ts.drop_first(), from - 1);
        assert(ts.drop_first().skip(from - 1) =~= ts.skip(from));
    }
}

/// Times in order, after times in order that end before them, are in order.
proof fn lemma_new_after_old(history: Seq<i64>, new: Seq<i64>)
    requires
        crate::order::increasing(history),
        crate::order::increasing(new),
        history.len() > 0 && new.len() > 0 ==> history.last() < new[0],
    ensures
        crate::order::increasing(history + new),
{
    let all = history + new;
    let n = history.len();
    assert forall|i: int, j: int| 0 <= i < j < all.len() implies all[i] < all[j] by {
        if i >= n {
            assert(new[i - n] < new[j - n]);
        } else if j >= n {
            assert(history[i] <= history.last());
            assert(new[0] <= new[j - n]);
        }
    }
}

/// Taking in a batch keeps a device well-formed.
pub proof fn lemma_observe_wf(v: EwmState, ts: Seq<i64>)
    requires
        v.wf(),
        v.accepts(ts),
    ensures
        v.observe(ts).wf(),
{
    let new = fresh(v.last_event, ts);
    if new.len() > 0 {
        lemma_fresh_first(v.last_event, ts);
        lemma_new_after_old(v.history, new);
        let cutoff = new.last() - RESOLUTION_WINDOW_US;
        let all = v.history + new;
        let m = lemma_cut(all, cutoff);
        let gone = if m < v.history.len() { m } else { v.history.len() as int };
        let from = m - gone;
        assert forall|i: int| 0 <= i < gone implies v.history[i] < cutoff by {
            assert(all[i] == v.history[i]);
        }
        if gone < v.history.len() {
            assert(all[gone] == v.history[gone]);
        }
        assert forall|i: int| 0 <= i < from implies new[i] < cutoff by {
            assert(all[v.history.len() + i] == new[i]);
        }
        if from < new.len() {
            assert(all[v.history.len() + from] == new[from]);
        }
        lemma_recent(v.history, new, gone, from);
    }
}

/// What is new in a batch is after what was there.
proof fn lemma_fresh_first(last: Option<i64>, ts: Seq<i64>)
    requires
        fresh(last, ts).len() > 0,
    ensures
        fresh(last, ts)[0] > last.unwrap_or(i64::MIN),
        crate::order::increasing(fresh(last, ts)) ==> fresh(last, ts).last() > last.unwrap_or(
            i64::MIN,
        ),
{
    let from = lemma_fresh_start(last, ts);
    lemma_fresh(last, ts, from);
    let new = fresh(last, ts);
    assert(new[0] == ts[from]);
    if new.len() > 1 && crate::order::increasing(new) {
        assert(new[0] < new[new.len() - 1]);
    }
}

impl DeviceEwm {
    pub open spec fn wf(self) -> bool {
        self@.wf()
    }

    pub fn new() -> (e: Self)
        ensures
            e.wf(),
            e@ == EwmState::init(),
    {
        Self {
            level: 0,
            pending_events: 0,
            last_tick_us: i64::MIN,
            last_event_us: i64::MIN,
            active: false,
            resolution: ResolutionEstimator::new(),
        }
    }

    /// The index of the first time in `ts` that is new.
    fn first_fresh(&self, ts: &[i64]) -> (from: usize)
        ensures
            from <= ts@.len(),
            fresh(self@.last_event, ts@) == ts@.skip(from as int),
            from < ts@.len() ==> ts@[from as int] > self.last_event_us,
    {
        let mut from: usize = 0;
        while from < ts.len() && ts[from] <= self.last_event_us
            invariant
                from <= ts.len(),
                forall|i: int| 0 <= i < from ==> ts@[i] <= self.last_event_us,
            ensures
                from <= ts.len(),
                forall|i: int| 0 <= i < from ==> ts@[i] <= self.last_event_us,
                from < ts.len() ==> ts@[from as int] > self.last_event_us,
            decreases ts.len() - from,
        {
            from = from + 1;
        }
        proof {
            lemma_fresh(self@.last_event, ts@, from as int);
        }
        from
    }

    /// Another device of which the same is known.
    pub(crate) fn copied(&self) -> (e: Self)
        ensures
            e@ == self@,
            self.wf() ==> e.wf(),
    {
        Self {
            level: self.level,
            pending_events: self.pending_events,
            last_tick_us: self.last_tick_us,
            last_event_us: self.last_event_us,
            active: self.active,
            resolution: self.resolution.copied(),
        }
    }

    /// The number of events since the last tick.
    pub fn pending_events(&self) -> (n: u32)
        ensures
            n == self@.pending,
    {
        self.pending_events
    }

    /// Whether what is new in a batch is in order.
    pub fn is_new_in_order(&self, timestamps_us: &[i64]) -> (yes: bool)
        ensures
            yes == crate::order::increasing(fresh(self@.last_event, timestamps_us@)),
    {
        let from: usize = self.first_fresh(timestamps_us);
        let new = vstd::slice::slice_subrange(timestamps_us, from, timestamps_us.len());
        assert(new@ =~= timestamps_us@.skip(from as int));
        is_increasing(new)
    }

    /// Whether `observe_batch` can take a batch in.
    pub fn can_observe(&self, timestamps_us: &[i64]) -> (yes: bool)
        ensures
            yes == self@.accepts(timestamps_us@),
    {
        let from: usize = self.first_fresh(timestamps_us);
        let new = vstd::slice::slice_subrange(timestamps_us, from, timestamps_us.len());
        assert(new@ =~= timestamps_us@.skip(from as int));
        if new.len() > (u32::MAX - self.pending_events) as usize {
            return false;
        }
        if new.len() > 0 && new[new.len() - 1] < i64::MIN + RESOLUTION_WINDOW_US {
            return false;
        }
        is_increasing(new)
    }

    /// Takes in the times of new events. Times at the front that are not after the
    /// last known one are passed over.
    pub fn observe_batch(&mut self, timestamps_us: &[i64])
        requires
            old(self).wf(),
            old(self)@.accepts(timestamps_us@),
        ensures
            final(self).wf(),
            final(self)@ == old(self)@.observe(timestamps_us@),
    {
        let from: usize = self.first_fresh(timestamps_us);
        let new = vstd::slice::slice_subrange(timestamps_us, from, timestamps_us.len());
        assert(new@ =~= timestamps_us@.skip(from as int));
        if new.len() > 0 {
            proof {
                assert(new@[0] > self.last_event_us);
                lemma_new_after_old(self.resolution@, new@);
            }
            self.last_event_us = new[new.len() - 1];
            self.pending_events = self.pending_events + new.len() as u32;
            self.resolution.push_events(new);
            assert(self.last_event_us > i64::MIN);
        }
    }

    /// Notes whether the device is active until further notice.
    pub fn active_indefinitely(&mut self, active: bool)
        ensures
            final(self)@ == (EwmState { active, ..old(self)@ }),
            old(self).wf() ==> final(self).wf(),
    {
        self.active = active;
    }

    /// Whether the device was last said to be active until further notice.
    pub fn is_active_indefinitely(&self) -> (active: bool)
        ensures
            active == self@.active,
    {
        self.active
    }

    /// The time of the last tick.
    pub fn last_tick_us(&self) -> (t: Option<i64>)
        ensures
            t == self@.last_tick,
    {
        if self.last_tick_us == i64::MIN {
            None
        } else {
            Some(self.last_tick_us)
        }
    }

    /// The time of the last event.
    pub fn last_event_us(&self) -> (t: Option<i64>)
        ensures
            t == self@.last_event,
    {
        if self.last_event_us == i64::MIN {
            None
        } else {
            Some(self.last_event_us)
        }
    }

    /// The bit pattern of the envelope's level.
    pub fn level(&self) -> (level: u64)
        ensures
            level == self@.level,
    {
        self.level
    }

    /// Keeps the bit pattern of the envelope's level.
    pub fn set_level(&mut self, level: u64)
        ensures
            final(self)@ == (EwmState { level, ..old(self)@ }),
            old(self).wf() ==> final(self).wf(),
    {
        self.level = level;
    }

    /// Whether a tick at `now_us` can be computed in 64 bits.
    pub fn can_compute_fps(&mut self, now_us: i64) -> (yes: bool)
        requires
            old(self).wf(),
        ensures
            final(self)@ == old(self)@,
            yes == old(self)@.tick_in_range(now_us),
    {
        if self.last_event_us == i64::MIN || self.last_tick_us == i64::MIN {
            return true;
        }
        let p10: Option<i64> = self.resolution.p10();
        proof {
            lemma_resolution_range(old(self)@.history);
        }
        let d: i128 = now_us as i128 - self.last_tick_us as i128;
        if d < i64::MIN as i128 || d > i64::MAX as i128 {
            return false;
        }
        let input_res_us: i64 = match p10 {
            Some(p) => p,
            None => if d > 1 {
                d as i64
            } else {
                1
            },
        };
        let hold: i64 = through_double(input_res_us);
        hold <= i64::MAX / 2 && hold as i128 * 2 + self.last_event_us as i128 <= i64::MAX as i128
    }

    /// Ends a tick: how the envelope moves in it.
    pub fn compute_fps(&mut self, now_us: i64) -> (step: EnvelopeStep)
        requires
            old(self).wf(),
            old(self)@.tick_in_range(now_us),
        ensures
            final(self).wf(),
            final(self)@ == old(self)@.tick(now_us),
            step == old(self)@.step(now_us),
    {
        self.compute_fps_detailed(now_us).step
    }

    /// Ends a tick: what it found out.
    pub fn compute_fps_detailed(&mut self, now_us: i64) -> (detail: FpsDetail)
        requires
            old(self).wf(),
            old(self)@.tick_in_range(now_us),
        ensures
            final(self).wf(),
            final(self)@ == old(self)@.tick(now_us),
            detail == old(self)@.detail(now_us),
    {
        let events: u32 = self.pending_events;
        self.pending_events = 0;

        let p10: Option<i64> = self.resolution.p10();

        if self.last_event_us == i64::MIN {
            self.last_tick_us = now_us;
            return FpsDetail {
                step: EnvelopeStep::Hold,
                dt_us: 0,
                input_res_us: 1,
                p10,
                events,
            };
        }
        let prev_us: i64 = self.last_tick_us;
        let dt_us: i64 = if prev_us != i64::MIN {
            let d: i64 = now_us - prev_us;
            if d > 1 {
                d
            } else {
                1
            }
        } else {
            0
        };
        self.last_tick_us = now_us;

        let input_res_us: i64 = match p10 {
            Some(p) => p,
            None => if dt_us > 1 {
                dt_us
            } else {
                1
            },
        };
        proof {
            lemma_resolution_range(old(self)@.history);
        }
        let step: EnvelopeStep = if dt_us > 0 {
            let transition: i64 = self.last_event_us + through_double(input_res_us) * 2;
            if now_us <= transition {
                EnvelopeStep::Attack { dt_us }
            } else if prev_us >= transition {
                EnvelopeStep::Release { dt_us }
            } else {
                EnvelopeStep::Split {
                    attack_us: transition - prev_us,
                    release_us: now_us - transition,
                }
            }
        } else {
            EnvelopeStep::Hold
        };
        FpsDetail { step, dt_us, input_res_us, p10, events }
    }
}

/// For how long a step lets the envelope rise.
pub open spec fn attack_us(step: EnvelopeStep) -> int {
    match step {
        EnvelopeStep::Hold => 0,
        EnvelopeStep::Attack { dt_us } => dt_us as int,
        EnvelopeStep::Release { .. } => 0,
        EnvelopeStep::Split { attack_us, .. } => attack_us as int,
    }
}

/// For how long a step lets the envelope fall.
pub open spec fn release_us(step: EnvelopeStep) -> int {
    match step {
        EnvelopeStep::Hold => 0,
        EnvelopeStep::Attack { .. } => 0,
        EnvelopeStep::Release { dt_us } => dt_us as int,
        EnvelopeStep::Split { release_us, .. } => release_us as int,
    }
}

/// The envelope is independent of the tick frequency: where the polling interval
/// is known, a tick at `now` lets it rise and fall for as long as a tick at `mid`
/// and one at `now` do together, and in the same order, the rise before the fall.
pub proof fn law_tick_frequency_independence(v: EwmState, mid: i64, now: i64)
    requires
        v.wf(),
        v.tick_in_range(now),
        v.last_tick matches Some(prev) && prev < mid < now,
        resolution(v.history) is Some,
    ensures
        ({
            let first = v.step(mid);
            let second = v.tick(mid).step(now);
            let whole = v.step(now);
            &&& attack_us(first) + attack_us(second) == attack_us(whole)
            &&& release_us(first) + release_us(second) == release_us(whole)
            &&& release_us(first) > 0 ==> attack_us(second) == 0
        }),
        v.tick(mid).tick(now) == v.tick(now),
{
}

/// A tick accounts for all of its length, as rise or as fall, once the device has
/// had an event and a tick before it.
pub proof fn law_tick_accounts_for_its_length(v: EwmState, now: i64)
    requires
        v.wf(),
        v.tick_in_range(now),
        v.last_tick is Some,
        v.last_event is Some,
    ensures
        attack_us(v.step(now)) + release_us(v.step(now)) == v.dt(now),
        attack_us(v.step(now)) >= 0,
        release_us(v.step(now)) >= 0,
{
}

/// The polling interval of a device that is polled evenly is found out, whatever it is.
pub proof fn law_even_polling_is_detected(s: Seq<i64>, interval: i64)
    requires
        history_wf(s),
        s.len() > RESOLUTION_MIN_SAMPLES,
        forall|i: int| 0 <= i < deltas(s).len() ==> #[trigger] deltas(s)[i] == interval,
    ensures
        resolution(s) == Some(interval),
{
    let k = ((s.len() - 1) / 10) as int;
    crate::order::lemma_ascending_contains(deltas(s), k);
}

/// The polling interval is known from ten gaps on. It is one of the gaps between the
/// remembered times; at most a tenth of them are smaller, and more than a tenth are no
/// larger.
pub proof fn law_estimate_is_the_tenth_percentile(s: Seq<i64>)
    requires
        history_wf(s),
    ensures
        s.len() <= 10 ==> resolution(s) is None,
        s.len() > 10 ==> ({
            let gaps = Seq::new((s.len() - 1) as nat, |i: int| (s[i + 1] - s[i]) as i64);
            &&& resolution(s) is Some
            &&& gaps.contains(resolution(s).unwrap())
            &&& gaps.filter(|g: i64| g < resolution(s).unwrap()).len() <= (s.len() - 1) / 10
            &&& gaps.filter(|g: i64| g <= resolution(s).unwrap()).len() > (s.len() - 1) / 10
        }),
{
    if s.len() > 10 {
        let gaps = Seq::new((s.len() - 1) as nat, |i: int| (s[i + 1] - s[i]) as i64);
        assert(gaps =~= deltas(s));
        let sorted = crate::order::ascending(gaps);
        let k = ((s.len() - 1) / 10) as int;
        let p = resolution(s).unwrap();
        crate::order::lemma_ascending(gaps);
        crate::order::lemma_ascending_contains(gaps, k);
        let below = |g: i64| g < p;
        let upto = |g: i64| g <= p;
        crate::order::lemma_filter_ascending(gaps, below);
        crate::order::lemma_filter_ascending(gaps, upto);
        assert forall|i: int| k <= i < sorted.len() implies !below(#[trigger] sorted[i]) by {
            assert(k < i ==> sorted[k] <= sorted[i]);
        }
        assert forall|i: int| 0 <= i < k + 1 implies upto(#[trigger] sorted[i]) by {
            assert(i < k ==> sorted[i] <= sorted[k]);
        }
        crate::order::lemma_filter_at_most(sorted, below, k);
        crate::order::lemma_filter_at_least(sorted, upto, k + 1);
    }
}

/// What is remembered of event times are the latest of them: at most 1024, none more than
/// a minute older than the last, and as many as that allows.
pub proof fn law_memory_is_the_recent_past(s: Seq<i64>)
    requires
        crate::order::increasing(s),
        s.len() > 0,
    ensures
        ({
            let gone = s.len() - recent(s).len();
            &&& 0 <= gone < s.len()
            &&& recent(s) == s.skip(gone)
            &&& recent(s).len() <= 1024
            &&& s.last() - s[gone] <= 60_000_000
            &&& gone > 0 ==> recent(s).len() == 1024 || s.last() - s[gone - 1] > 60_000_000
        }),
{
    let cutoff = s.last() - RESOLUTION_WINDOW_US;
    let m = lemma_cut(s, cutoff);
    let keep = |t: i64| t >= s.last() - RESOLUTION_WINDOW_US;
    crate::order::lemma_filter_suffix(s, keep, m);
    assert(s[s.len() - 1] >= cutoff);
    let kept = s.skip(m);
    if kept.len() > RESOLUTION_BUF_CAP {
        assert(kept.skip(kept.len() - RESOLUTION_BUF_CAP) =~= s.skip(
            s.len() - RESOLUTION_BUF_CAP,
        ));
    }
}

/// What is new in a batch starts at the first time that is after the last known one, and
/// goes on to the end of the batch.
pub proof fn law_new_starts_after_the_last_known(last: Option<i64>, ts: Seq<i64>, from: int)
    requires
        0 <= from <= ts.len(),
        forall|i: int|
            0 <= i < from ==> #[trigger] ts[i] <= (match last {
                Some(t) => t,
                None => i64::MIN,
            }),
        from < ts.len() ==> ts[from] > (match last {
            Some(t) => t,
            None => i64::MIN,
        }),
    ensures
        fresh(last, ts) == ts.skip(from),
{
    lemma_fresh(last, ts, from);
}

/// Taking a batch in counts the times from the first new one on, remembers them, and makes
/// the last of them the last known one. Nothing else changes.
pub proof fn law_batch_is_taken_in(v: EwmState, ts: Seq<i64>, from: int)
    requires
        0 <= from <= ts.len(),
        forall|i: int|
            0 <= i < from ==> #[trigger] ts[i] <= (match v.last_event {
                Some(t) => t,
                None => i64::MIN,
            }),
        from < ts.len() ==> ts[from] > (match v.last_event {
            Some(t) => t,
            None => i64::MIN,
        }),
    ensures
        v.observe(ts).pending == v.pending + ts.len() - from,
        v.observe(ts).last_event == if from < ts.len() {
            Some(ts[ts.len() - 1])
        } else {
            v.last_event
        },
        v.observe(ts).history == if from < ts.len() {
            recent(v.history + ts.skip(from))
        } else {
            v.history
        },
        v.observe(ts).last_tick == v.last_tick,
        v.observe(ts).level == v.level,
        v.observe(ts).active == v.active,
{
    lemma_fresh(v.last_event, ts, from);
}

/// A batch of times that go forward can be taken in, if they are not before the start of
/// the clock and there is room for counting them.
pub proof fn law_ordinary_batch_is_accepted(v: EwmState, ts: Seq<i64>)
    requires
        forall|i: int, j: int| 0 <= i < j < ts.len() ==> ts[i] < ts[j],
        forall|i: int| 0 <= i < ts.len() ==> #[trigger] ts[i] >= 0,
        v.pending + ts.len() <= u32::MAX,
    ensures
        v.accepts(ts),
{
    let from = lemma_fresh_start(v.last_event, ts);
    lemma_fresh(v.last_event, ts, from);
    let new = ts.skip(from);
    assert forall|i: int, j: int| 0 <= i < j < new.len() implies new[i] < new[j] by {
        assert(ts[from + i] < ts[from + j]);
    }
    if new.len() > 0 {
        assert(new.last() == ts[ts.len() - 1]);
    }
}

/// A device of which nothing has been seen has no level, no events and no ticks.
pub proof fn law_new_device_knows_nothing()
    ensures
        EwmState::init().level == 0,
        EwmState::init().pending == 0,
        EwmState::init().last_tick is None,
        EwmState::init().last_event is None,
        !EwmState::init().active,
        EwmState::init().history.len() == 0,
{
}

/// The interval that a tick goes by: the polling interval where it is known, and the length
/// of the tick otherwise.
pub open spec fn is_interval(v: EwmState, now: i64, r: int) -> bool {
    match (resolution(v.history), v.last_tick) {
        (Some(p), _) => r == p,
        (None, Some(prev)) => r == now - prev && r >= 1 || r == 1 && now - prev < 1,
        (None, None) => r == 1,
    }
}

/// While a device is busy the envelope rises: a tick that ends within two intervals of its
/// last event lets nothing fall, whether or not the polling interval is known. `hold` is
/// the interval as double precision holds it, which is the interval itself up to two to the
/// power of 53.
pub proof fn law_busy_device_rises(v: EwmState, now: i64, r: int, hold: int)
    requires
        v.wf(),
        v.last_tick is Some,
        v.last_event is Some,
        is_interval(v, now, r),
        hold == crate::double::double_image(r),
        now <= v.last_event.unwrap() + 2 * hold,
    ensures
        r <= 0x20_0000_0000_0000 ==> hold == r,
        v.step(now) == (EnvelopeStep::Attack {
            dt_us: if now - v.last_tick.unwrap() > 1 {
                (now - v.last_tick.unwrap()) as i64
            } else {
                1
            },
        }),
{
    lemma_resolution_range(v.history);
    if r <= 0x20_0000_0000_0000 {
        crate::double::lemma_double_exact(r);
    }
}

/// Once a device is idle the envelope falls: a tick that starts two intervals after its last
/// event, or later, and ends after that, lets nothing rise, whether or not the polling
/// interval is known.
pub proof fn law_idle_device_falls(v: EwmState, now: i64, r: int, hold: int)
    requires
        v.wf(),
        v.last_tick is Some,
        v.last_event is Some,
        is_interval(v, now, r),
        hold == crate::double::double_image(r),
        v.last_tick.unwrap() >= v.last_event.unwrap() + 2 * hold,
        now > v.last_event.unwrap() + 2 * hold,
    ensures
        r <= 0x20_0000_0000_0000 ==> hold == r,
        v.step(now) == (EnvelopeStep::Release {
            dt_us: if now - v.last_tick.unwrap() > 1 {
                (now - v.last_tick.unwrap()) as i64
            } else {
                1
            },
        }),
{
    lemma_resolution_range(v.history);
    if r <= 0x20_0000_0000_0000 {
        crate::double::lemma_double_exact(r);
    }
}

/// A tick in which a device goes idle rises up to two intervals after the last event, and
/// falls from there on.
pub proof fn law_tick_is_split_where_the_device_goes_idle(v: EwmState, now: i64, r: int, hold: int)
    requires
        v.wf(),
        v.last_tick is Some,
        v.last_event is Some,
        is_interval(v, now, r),
        hold == crate::double::double_image(r),
        v.last_tick.unwrap() < v.last_event.unwrap() + 2 * hold,
        now > v.last_event.unwrap() + 2 * hold,
    ensures
        r <= 0x20_0000_0000_0000 ==> hold == r,
        v.step(now) == (EnvelopeStep::Split {
            attack_us: (v.last_event.unwrap() + 2 * hold - v.last_tick.unwrap()) as i64,
            release_us: (now - (v.last_event.unwrap() + 2 * hold)) as i64,
        }),
{
    lemma_resolution_range(v.history);
    if r <= 0x20_0000_0000_0000 {
        crate::double::lemma_double_exact(r);
    }
}

/// Before the first event, and in the first tick, the envelope stays where it is.
pub proof fn law_envelope_holds_at_first(v: EwmState, now: i64)
    requires
        v.last_event is None || v.last_tick is None,
    ensures
        v.step(now) == EnvelopeStep::Hold,
{
}

/// What a tick finds out: the envelope's step, the estimate, the number of events since the
/// tick before, and, once there has been an event, its length and the interval it went by.
pub proof fn law_tick_reports_what_it_found(v: EwmState, now: i64, r: int)
    requires
        v.wf(),
        is_interval(v, now, r),
    ensures
        v.detail(now).step == v.step(now),
        v.detail(now).p10 == resolution(v.history),
        v.detail(now).events == v.pending,
        v.last_event is None ==> v.detail(now).dt_us == 0 && v.detail(now).input_res_us == 1,
        v.last_event is Some ==> v.detail(now).input_res_us == r as i64,
        v.last_event is Some && v.last_tick is None ==> v.detail(now).dt_us == 0,
        v.last_event is Some && v.last_tick is Some ==> v.detail(now).dt_us == if now
            - v.last_tick.unwrap() > 1 {
            (now - v.last_tick.unwrap()) as i64
        } else {
            1
        },
{
    lemma_resolution_range(v.history);
}

/// A tick remembers its time and starts counting events anew. Nothing else changes.
pub proof fn law_tick_starts_counting_anew(v: EwmState, now: i64)
    requires
        now > i64::MIN,
    ensures
        v.tick(now).last_tick == Some(now),
        v.tick(now).pending == 0,
        v.tick(now).last_event == v.last_event,
        v.tick(now).history == v.history,
        v.tick(now).level == v.level,
        v.tick(now).active == v.active,
{
}

/// A device can have a tick at any time up to two to the power of 53 microseconds, if what
/// it has heard of so far is of that kind.
pub proof fn law_ordinary_tick_is_in_range(v: EwmState, now: i64)
    requires
        v.wf(),
        0 < now <= 0x20_0000_0000_0000,
        v.last_tick matches Some(t) ==> 0 <= t <= 0x20_0000_0000_0000,
        v.last_event matches Some(t) ==> 0 <= t <= 0x20_0000_0000_0000,
    ensures
        v.tick_in_range(now),
{
    lemma_resolution_range(v.history);
    crate::double::lemma_double_exact(v.input_res(now));
}

/// Times that were taken in already are not counted again.
pub proof fn law_batch_counts_once(v: EwmState, ts: Seq<i64>)
    requires
        v.wf(),
        v.accepts(ts),
    ensures
        v.observe(ts).observe(ts) == v.observe(ts),
{
    let from = lemma_fresh_start(v.last_event, ts);
    lemma_fresh(v.last_event, ts, from);
    let new = ts.skip(from);
    let after = v.observe(ts);
    assert forall|i: int| 0 <= i < ts.len() implies ts[i] <= after.last_event.unwrap_or(
        i64::MIN,
    ) by {
        if new.len() > 0 {
            assert(new[0] == ts[from]);
            if i < from {
                assert(new[0] <= new.last());
            } else {
                assert(new[i - from] == ts[i]);
                assert(new[i - from] <= new.last());
            }
        }
    }
    lemma_fresh(after.last_event, ts, ts.len() as int);
}

/// Where the new part of a batch starts.
proof fn lemma_fresh_start(last: Option<i64>, ts: Seq<i64>) -> (from: int)
    ensures
        0 <= from <= ts.len(),
        forall|i: int| 0 <= i < from ==> ts[i] <= last.unwrap_or(i64::MIN),
        from < ts.len() ==> ts[from] > last.unwrap_or(i64::MIN),
    decreases ts.len(),
{
    if ts.len() == 0 || ts[0] > last.unwrap_or(i64::MIN) {
        0
    } else {
        let rest = ts.drop_first();
        let k = lemma_fresh_start(last, rest);
        assert forall|i: int| 0 <= i < k + 1 implies ts[i] <= last.unwrap_or(i64::MIN) by {
            if i > 0 {
                assert(ts[i] == rest[i - 1]);
            }
        }
        k + 1
    }
}

/// The new part of a batch is the end of the batch.
pub proof fn lemma_fresh_is_suffix(last: Option<i64>, ts: Seq<i64>)
    ensures
        fresh(last, ts).len() <= ts.len(),
        fresh(last, ts) == ts.skip(ts.len() - fresh(last, ts).len()),
{
    let from = lemma_fresh_start(last, ts);
    lemma_fresh(last, ts, from);
}

/// The new part of two batches is the new part of the first and what is new in the
/// second after it, if the second starts after the first ends.
pub proof fn lemma_fresh_append(last: Option<i64>, a: Seq<i64>, b: Seq<i64>)
    requires
        a.len() > 0 && b.len() > 0 && fresh(last, a).len() > 0 ==> b[0] > a.last(),
    ensures
        ({
            let new = fresh(last, a);
            let seen = if new.len() > 0 { Some(new.last()) } else { last };
            &&& fresh(last, a + b) == new + fresh(seen, b)
            &&& new.len() > 0 ==> fresh(seen, b) == b
        }),
{
    let from = lemma_fresh_start(last, a);
    lemma_fresh(last, a, from);
    let all = a + b;
    let new = a.skip(from);
    if from < a.len() {
        lemma_fresh(last, all, from);
        assert(new.last() == a.last());
        assert(fresh(Some(new.last()), b) == b);
        assert(all.skip(from) =~= new + b);
    } else {
        let more = lemma_fresh_start(last, b);
        lemma_fresh(last, b, more);
        assert forall|i: int| 0 <= i < from + more implies all[i] <= last.unwrap_or(i64::MIN) by {
            if i >= from {
                assert(all[i] == b[i - from]);
            }
        }
        lemma_fresh(last, all, from + more);
        assert(all.skip(from + more) =~= new + b.skip(more));
    }
}

/// Where the part of `s` that is at least `cutoff` starts.
proof fn lemma_cut(s: Seq<i64>, cutoff: int) -> (m: int)
    requires
        crate::order::increasing(s),
    ensures
        0 <= m <= s.len(),
        forall|i: int| 0 <= i < m ==> s[i] < cutoff,
        forall|i: int| m <= i < s.len() ==> s[i] >= cutoff,
    decreases s.len(),
{
    if s.len() == 0 || s.last() < cutoff {
        assert forall|i: int| 0 <= i < s.len() implies s[i] < cutoff by {
            assert(i < s.len() - 1 ==> s[i] < s[s.len() - 1]);
        }
        s.len() as int
    } else {
        let m = lemma_cut(s.drop_last(), cutoff);
        assert forall|i: int| 0 <= i < m implies s[i] < cutoff by {
            assert(s.drop_last()[i] == s[i]);
        }
        assert forall|i: int| m <= i < s.len() implies s[i] >= cutoff by {
            if i < s.len() - 1 {
                assert(s.drop_last()[i] == s[i]);
            }
        }
        m
    }
}

/// Forgetting early what will be forgotten anyway makes no difference.
proof fn lemma_recent_of_recent(s: Seq<i64>, more: Seq<i64>)
    requires
        s.len() > 0,
        more.len() > 0,
        crate::order::increasing(s + more),
    ensures
        recent(recent(s) + more) == recent(s + more),
{
    let all = s + more;
    assert forall|i: int, j: int| 0 <= i < j < s.len() implies s[i] < s[j] by {
        assert(all[i] < all[j]);
    }
    let w = RESOLUTION_WINDOW_US;
    let m1 = lemma_cut(s, s.last() - w);
    crate::order::lemma_filter_suffix(s, |t: i64| t >= s.last() - w, m1);
    let from1 = kept_from(s.len() as int, m1);
    assert(recent(s) =~= s.skip(from1));

    let m2 = lemma_cut(all, all.last() - w);
    crate::order::lemma_filter_suffix(all, |t: i64| t >= all.last() - w, m2);
    let from2 = kept_from(all.len() as int, m2);
    assert(recent(all) =~= all.skip(from2));
    assert(all[s.len() - 1] == s.last());
    assert(all[s.len() - 1] < all.last());
    if m1 > m2 {
        assert(s[m2] < s.last() - w);
        assert(all[m2] == s[m2]);
    }
    let rest = recent(s) + more;
    assert(rest =~= all.skip(from1));
    assert(rest.last() == all.last());
    let m3 = if m2 > from1 { m2 - from1 } else { 0 };
    assert forall|i: int| 0 <= i < m3 implies rest[i] < rest.last() - w by {
        assert(rest[i] == all[from1 + i]);
    }
    assert forall|i: int| m3 <= i < rest.len() implies rest[i] >= rest.last() - w by {
        assert(rest[i] == all[from1 + i]);
    }
    crate::order::lemma_filter_suffix(rest, |t: i64| t >= rest.last() - w, m3);
    let from3 = kept_from(rest.len() as int, m3);
    assert(recent(rest) =~= rest.skip(from3));
    assert(rest.skip(from3) =~= all.skip(from2));
}

/// How a run of new event times is cut into batches makes no difference.
proof fn lemma_batching_of_new(v: EwmState, a: Seq<i64>, b: Seq<i64>)
    requires
        v.wf(),
        crate::order::increasing(a + b),
        (a + b).len() > 0 ==> (a + b)[0] > v.last_event.unwrap_or(i64::MIN),
    ensures
        fresh(v.last_event, a) == a,
        v.observe(a).observe(b) == v.observe(a + b),
{
    let all = a + b;
    if a.len() == 0 {
        assert(all =~= b);
    } else if b.len() == 0 {
        assert(all =~= a);
    } else {
        assert(fresh(v.last_event, all) == all);
        assert(all[0] == a[0]);
        assert(fresh(v.last_event, a) == a);
        assert(a.last() == all[a.len() - 1]);
        assert(b[0] == all[a.len() as int]);
        assert(fresh(Some(a.last()), b) == b);
        let h = v.history + a;
        assert(v.history + all =~= h + b);
        lemma_new_after_old(v.history, all);
        lemma_recent_of_recent(h, b);
        assert(all.last() == b.last());
    }
}

/// How a run of event times is cut into batches makes no difference.
pub proof fn law_batching_makes_no_difference(v: EwmState, a: Seq<i64>, b: Seq<i64>)
    requires
        v.wf(),
        v.accepts(a + b),
    ensures
        v.observe(a).observe(b) == v.observe(a + b),
{
    let all = a + b;
    let from = lemma_fresh_start(v.last_event, a);
    lemma_fresh(v.last_event, a, from);
    if from < a.len() {
        assert(all[from] == a[from]);
        lemma_fresh(v.last_event, all, from);
        let new = a.skip(from);
        assert(all.skip(from) =~= new + b);
        assert((new + b)[0] == a[from]);
        lemma_batching_of_new(v, new, b);
        assert(fresh(v.last_event, new + b) == new + b);
        assert(v.observe(all) == v.observe(new + b));
        assert(v.observe(a) == v.observe(new));
    } else {
        lemma_fresh_append(v.last_event, a, b);
        assert(fresh(v.last_event, a) =~= Seq::<i64>::empty());
        assert(fresh(v.last_event, all) =~= fresh(v.last_event, b));
    }
}

/// After batches of event times.
pub open spec fn observe_all(v: EwmState, batches: Seq<Seq<i64>>) -> EwmState
    decreases batches.len(),
{
    if batches.len() == 0 {
        v
    } else {
        observe_all(v, batches.drop_last()).observe(batches.last())
    }
}

/// Whether every batch can be taken in, one after the other.
pub open spec fn accepts_all(v: EwmState, batches: Seq<Seq<i64>>) -> bool
    decreases batches.len(),
{
    batches.len() > 0 ==> {
        &&& accepts_all(v, batches.drop_last())
        &&& observe_all(v, batches.drop_last()).accepts(batches.last())
    }
}

/// The number of times in batches that are new when they come.
pub open spec fn new_times(v: EwmState, batches: Seq<Seq<i64>>) -> int
    decreases batches.len(),
{
    if batches.len() == 0 {
        0
    } else {
        new_times(v, batches.drop_last()) + fresh(
            observe_all(v, batches.drop_last()).last_event,
            batches.last(),
        ).len()
    }
}

/// What is pending after batches.
proof fn lemma_pending_after(v: EwmState, batches: Seq<Seq<i64>>)
    requires
        v.wf(),
        accepts_all(v, batches),
    ensures
        observe_all(v, batches).wf(),
        observe_all(v, batches).pending == v.pending + new_times(v, batches),
    decreases batches.len(),
{
    if batches.len() > 0 {
        let rest = batches.drop_last();
        lemma_pending_after(v, rest);
        lemma_observe_wf(observe_all(v, rest), batches.last());
    }
}

/// Every new time is counted in one tick: a tick reports the new times of all the batches
/// since the tick before it, or since the start, and the next one reports none of them.
pub proof fn law_every_time_counts_in_one_tick(
    v: EwmState,
    batches: Seq<Seq<i64>>,
    now: i64,
    later: i64,
)
    requires
        v.wf(),
        v.pending == 0,
        accepts_all(v, batches),
    ensures
        observe_all(v, batches).detail(now).events == new_times(v, batches),
        observe_all(v, batches).tick(now).pending == 0,
        observe_all(v, batches).tick(now).detail(later).events == 0,
        EwmState::init().pending == 0,
{
    lemma_pending_after(v, batches);
}

/// A batch can be taken in if and only if its times from the first new one on go forward, the
/// last of them is at least a minute after the smallest number, and there is room for
/// counting them.
pub proof fn law_which_batches_are_accepted(v: EwmState, ts: Seq<i64>, from: int)
    requires
        0 <= from <= ts.len(),
        forall|i: int|
            0 <= i < from ==> #[trigger] ts[i] <= (match v.last_event {
                Some(t) => t,
                None => i64::MIN,
            }),
        from < ts.len() ==> ts[from] > (match v.last_event {
            Some(t) => t,
            None => i64::MIN,
        }),
    ensures
        v.accepts(ts) <==> {
            &&& forall|i: int, j: int| from <= i < j < ts.len() ==> ts[i] < ts[j]
            &&& from < ts.len() ==> ts[ts.len() - 1] >= i64::MIN + 60_000_000
            &&& v.pending + ts.len() - from <= 4_294_967_295
        },
{
    lemma_fresh(v.last_event, ts, from);
    let new = ts.skip(from);
    if crate::order::increasing(new) {
        assert forall|i: int, j: int| from <= i < j < ts.len() implies ts[i] < ts[j] by {
            assert(new[i - from] < new[j - from]);
        }
    }
    if forall|i: int, j: int| from <= i < j < ts.len() ==> ts[i] < ts[j] {
        assert forall|i: int, j: int| 0 <= i < j < new.len() implies new[i] < new[j] by {
            assert(ts[from + i] < ts[from + j]);
        }
    }
}

/// A device can have a tick if and only if it has had no event or no tick yet, or the length
/// of the tick and the time at which it counts as idle fit 64 bits.
pub proof fn law_which_ticks_are_in_range(v: EwmState, now: i64, r: int, hold: int)
    requires
        v.wf(),
        is_interval(v, now, r),
        hold == crate::double::double_image(r),
    ensures
        v.tick_in_range(now) <==> {
            ||| v.last_event is None
            ||| v.last_tick is None
            ||| {
                &&& -0x8000_0000_0000_0000 <= now - v.last_tick.unwrap() <= 0x7fff_ffff_ffff_ffff
                &&& 2 * hold <= 0x7fff_ffff_ffff_ffff
                &&& v.last_event.unwrap() + 2 * hold <= 0x7fff_ffff_ffff_ffff
            }
        },
{
    lemma_resolution_range(v.history);
}

} // verus!
