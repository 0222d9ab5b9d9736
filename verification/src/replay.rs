//! Playing recorded event times back through a device's envelope.

use vstd::prelude::*;

use crate::ewm::{DeviceEwm, FpsDetail};
use crate::order::sort_ascending;

verus! {

/// What a tick of a replay found out.
#[derive(Clone, Copy, PartialEq, Eq, Debug)]
pub struct TickRecord {
    pub time_us: i64,
    pub detail: FpsDetail,
}

/// `s` without the elements that equal the one right before them.
pub open spec fn distinct(s: Seq<i64>) -> Seq<i64>
    decreases s.len(),
{
    if s.len() <= 1 {
        s
    } else if s[s.len() - 1] == s[s.len() - 2] {
        distinct(s.drop_last())
    } else {
        distinct(s.drop_last()).push(s.last())
    }
}

/// Recorded times in order, each once, counted from the first of them.
pub open spec fn timeline(s: Seq<i64>) -> Seq<i64> {
    let d = distinct(crate::order::ascending(s));
    d.map_values(|t: i64| (t - d[0]) as i64)
}

/// What is left of times in order when those that repeat are dropped.
proof fn lemma_distinct(s: Seq<i64>)
    requires
        forall|i: int, j: int| 0 <= i < j < s.len() ==> s[i] <= s[j],
    ensures
        crate::order::increasing(distinct(s)),
        distinct(s).len() <= s.len(),
        s.len() > 0 ==> distinct(s).len() > 0 && distinct(s)[0] == s[0] && distinct(s).last()
            == s.last(),
    decreases s.len(),
{
    if s.len() > 1 {
        lemma_distinct(s.drop_last());
        assert(s.drop_last().last() == s[s.len() - 2]);
    }
}

/// Puts recorded times in order, each once, and counts them from the first.
pub fn prepare_timestamps(recorded: Vec<i64>) -> (ts: Vec<i64>)
    requires
        forall|i: int, j: int|
            0 <= i < recorded@.len() && 0 <= j < recorded@.len() ==> recorded@[i] - recorded@[j]
                <= i64::MAX,
    ensures
        ts@ == timeline(recorded@),
        crate::order::increasing(ts@),
        ts@.len() > 0 <==> recorded@.len() > 0,
        ts@.len() > 0 ==> ts@[0] == 0,
{
    let mut sorted: Vec<i64> = recorded;
    sort_ascending(&mut sorted);
    proof {
        crate::order::lemma_ascending(recorded@);
        lemma_distinct(sorted@);
    }
    if sorted.len() == 0 {
        assert(timeline(recorded@) =~= sorted@);
        return sorted;
    }
    let ghost d = distinct(sorted@);
    let first: i64 = sorted[0];
    let mut ts: Vec<i64> = Vec::new();
    ts.push(0);
    proof {
        assert(sorted@.take(1) =~= seq![first]);
        assert(ts@ =~= distinct(sorted@.take(1)).map_values(|t: i64| (t - first) as i64));
    }
    let mut i: usize = 1;
    while i < sorted.len()
        invariant
            1 <= i <= sorted.len(),
            sorted@ == crate::order::ascending(recorded@),
            sorted@.len() == recorded@.len(),
            first == sorted@[0],
            forall|i: int, j: int| 0 <= i < j < sorted@.len() ==> sorted@[i] <= sorted@[j],
            forall|i: int, j: int|
                0 <= i < recorded@.len() && 0 <= j < recorded@.len() ==> recorded@[i] - recorded@[j]
                    <= i64::MAX,
            ts@ == distinct(sorted@.take(i as int)).map_values(|t: i64| (t - first) as i64),
        decreases sorted.len() - i,
    {
        proof {
            let whole = sorted@.take(i + 1);
            assert(whole.drop_last() =~= sorted@.take(i as int));
            assert(whole[whole.len() - 1] == sorted@[i as int]);
            assert(whole[whole.len() - 2] == sorted@[i - 1]);
        }
        if sorted[i] != sorted[i - 1] {
            proof {
                crate::order::lemma_ascending_contains(recorded@, i as int);
                crate::order::lemma_ascending_contains(recorded@, 0);
                let a = choose|a: int| 0 <= a < recorded@.len() && recorded@[a] == sorted@[i as int];
                let b = choose|b: int| 0 <= b < recorded@.len() && recorded@[b] == first;
                assert(recorded@[a] - recorded@[b] <= i64::MAX);
                assert(sorted@[0] <= sorted@[i as int]);
            }
            ts.push(sorted[i] - first);
            assert(ts@ =~= distinct(sorted@.take(i + 1)).map_values(|t: i64| (t - first) as i64));
        }
        i = i + 1;
    }
    proof {
        assert(sorted@.take(i as int) =~= sorted@);
        assert(ts@ =~= timeline(recorded@));
        assert forall|a: int, b: int| 0 <= a < b < ts@.len() implies ts@[a] < ts@[b] by {
            assert(d[a] < d[b]);
            assert(d[0] <= d[a]);
            assert(b < d.len() - 1 ==> d[b] < d[d.len() - 1]);
            crate::order::lemma_ascending_contains(recorded@, sorted@.len() - 1);
            crate::order::lemma_ascending_contains(recorded@, 0);
            let x = choose|x: int| 0 <= x < recorded@.len() && recorded@[x] == sorted@.last();
            let y = choose|y: int| 0 <= y < recorded@.len() && recorded@[y] == first;
            assert(recorded@[x] - recorded@[y] <= i64::MAX);
        }
    }
    ts
}

/// The index of the first time of `ts`, from index `from` on, that is after `t`.
pub open spec fn run_to(ts: Seq<i64>, from: int, t: int) -> int
    decreases ts.len() - from,
{
    if from < 0 || from >= ts.len() || ts[from] > t {
        from
    } else {
        run_to(ts, from + 1, t)
    }
}

/// Where playing event times back has got to.
pub struct Played {
    /// The device.
    pub device: crate::ewm::EwmState,
    /// The number of event times that have been played.
    pub from: int,
    /// The time of the next tick.
    pub next_t: int,
    /// What the ticks found out.
    pub records: Seq<TickRecord>,
}

/// Plays `ts` back from index `from` on, with ticks at `t` and every `tick` after it
/// up to `horizon`. A tick takes in the event times up to its own.
pub open spec fn play(
    device: crate::ewm::EwmState,
    ts: Seq<i64>,
    from: int,
    t: int,
    tick: int,
    horizon: int,
) -> Played
    decreases
        if t > horizon {
            0
        } else {
            horizon - t + 1
        },
{
    if tick <= 0 || t <= 0 || t > horizon {
        Played { device, from, next_t: t, records: Seq::empty() }
    } else {
        let to = run_to(ts, from, t);
        let busy = device.observe(ts.subrange(from, to));
        let rest = play(busy.tick(t as i64), ts, to, t + tick, tick, horizon);
        Played {
            records: seq![TickRecord { time_us: t as i64, detail: busy.detail(t as i64) }]
                + rest.records,
            ..rest
        }
    }
}

/// Whether 64 bits suffice for playing `ts` back, and what is new in it is in order.
pub open spec fn playable(
    device: crate::ewm::EwmState,
    ts: Seq<i64>,
    from: int,
    t: int,
    tick: int,
    horizon: int,
) -> bool
    decreases
        if t > horizon {
            0
        } else {
            horizon - t + 1
        },
{
    if tick <= 0 || t <= 0 || t > horizon {
        device.accepts(ts.skip(from))
    } else {
        let to = run_to(ts, from, t);
        let busy = device.observe(ts.subrange(from, to));
        &&& device.accepts(ts.subrange(from, to))
        &&& busy.tick_in_range(t as i64)
        &&& t + tick <= i64::MAX
        &&& playable(busy.tick(t as i64), ts, to, t + tick, tick, horizon)
    }
}

/// Plays event times back as they come in.
pub struct Replay {
    tick: i64,
    ewm: DeviceEwm,
    next_t: i64,
    records: Vec<TickRecord>,
}

/// What a replay stands for.
#[verifier::ext_equal]
pub struct ReplayState {
    /// The time between two ticks.
    pub tick: i64,
    pub device: crate::ewm::EwmState,
    /// The time of the next tick; zero before the first event.
    pub next_t: int,
    /// What the ticks have found out.
    pub records: Seq<TickRecord>,
}

impl ReplayState {
    pub open spec fn init(tick: i64) -> Self {
        ReplayState {
            tick,
            device: crate::ewm::EwmState::init(),
            next_t: 0,
            records: Seq::empty(),
        }
    }

    pub open spec fn wf(self) -> bool {
        &&& self.device.wf()
        &&& self.next_t > 0 ==> self.tick > 0
    }

    /// The time of the next tick, once there is an event: the first tick is one
    /// interval from the start.
    pub open spec fn start(self, ts: Seq<i64>) -> int {
        if self.next_t == 0 && ts.len() > 0 {
            self.tick as int
        } else {
            self.next_t
        }
    }

    /// Whether `ts` can be played up to `horizon`.
    pub open spec fn can_run(self, ts: Seq<i64>, horizon: i64) -> bool {
        playable(self.device, ts, 0, self.start(ts), self.tick as int, horizon as int)
    }

    /// After `ts` has been played up to `horizon`, and what is left of it has been
    /// taken in.
    pub open spec fn after_run(self, ts: Seq<i64>, horizon: i64) -> Self {
        let p = play(self.device, ts, 0, self.start(ts), self.tick as int, horizon as int);
        ReplayState {
            device: p.device.observe(ts.skip(p.from)),
            next_t: p.next_t,
            records: self.records + p.records,
            ..self
        }
    }
}

impl View for Replay {
    type V = ReplayState;

    closed spec fn view(&self) -> ReplayState {
        ReplayState {
            tick: self.tick,
            device: self.ewm@,
            next_t: self.next_t as int,
            records: self.records@,
        }
    }
}

impl Default for Replay {
    fn default() -> (r: Self)
        ensures
            r.wf(),
            r@ == ReplayState::init(0),
    {
        Self::new()
    }
}

impl Replay {
    pub open spec fn wf(self) -> bool {
        self@.wf()
    }

    pub fn new() -> (r: Self)
        ensures
            r.wf(),
            r@ == ReplayState::init(0),
    {
        Replay { tick: 0, ewm: DeviceEwm::new(), next_t: 0, records: Vec::new() }
    }

    /// Starts over with another time between two ticks.
    pub fn reset(&mut self, tick_us: i64)
        ensures
            final(self).wf(),
            final(self)@ == ReplayState::init(tick_us),
    {
        self.tick = tick_us;
        self.ewm = DeviceEwm::new();
        self.next_t = 0;
        self.records.clear();
    }

    /// What the ticks have found out.
    pub fn records(&self) -> (r: &Vec<TickRecord>)
        ensures
            r@ == self@.records,
    {
        &self.records
    }

    /// What the ticks have found out, for keeps.
    pub fn into_records(self) -> (r: Vec<TickRecord>)
        ensures
            r@ == self@.records,
    {
        self.records
    }

    /// Whether the device has only heard of ordinary times, and the new ones are
    /// ordinary too: then they can be played.
    pub fn is_ordinary_run(&self, new_timestamps_us: &[i64], horizon_us: i64) -> (yes: bool)
        requires
            self.wf(),
        ensures
            yes == (ordinary_device(self@.device) && ordinary_times(
                self@.device,
                new_timestamps_us@,
            ) && self@.tick <= ORDINARY_US && horizon_us <= ORDINARY_US),
            yes ==> self@.can_run(new_timestamps_us@, horizon_us),
    {
        let last_tick: i64 = match self.ewm.last_tick_us() {
            Some(t) => t,
            None => 0,
        };
        let last_event: i64 = match self.ewm.last_event_us() {
            Some(t) => t,
            None => 0,
        };
        if last_tick < 0 || last_tick > ORDINARY_US || last_event < 0 || last_event > ORDINARY_US {
            return false;
        }
        if self.tick > ORDINARY_US || horizon_us > ORDINARY_US {
            return false;
        }
        if new_timestamps_us.len() > (u32::MAX - self.ewm.pending_events()) as usize {
            return false;
        }
        let mut i: usize = 0;
        while i < new_timestamps_us.len()
            invariant
                i <= new_timestamps_us.len(),
                forall|j: int| 0 <= j < i ==> 0 <= #[trigger] new_timestamps_us@[j] <= ORDINARY_US,
            decreases new_timestamps_us.len() - i,
        {
            if new_timestamps_us[i] < 0 || new_timestamps_us[i] > ORDINARY_US {
                return false;
            }
            i = i + 1;
        }
        let yes: bool = self.ewm.is_new_in_order(new_timestamps_us);
        proof {
            if yes {
                assert(new_timestamps_us@.skip(0) =~= new_timestamps_us@);
                law_ordinary_times_are_playable(
                    self@.device,
                    new_timestamps_us@,
                    0,
                    self@.start(new_timestamps_us@),
                    self@.tick as int,
                    horizon_us as int,
                );
            }
        }
        yes
    }

    /// Whether new event times can be played up to `horizon_us`.
    pub fn can_run(&self, new_timestamps_us: &[i64], horizon_us: i64) -> (yes: bool)
        requires
            self.wf(),
        ensures
            yes == self@.can_run(new_timestamps_us@, horizon_us),
    {
        let ghost ts = new_timestamps_us@;
        let mut ewm: DeviceEwm = self.ewm.copied();
        let mut next_t: i64 = if self.next_t == 0 && new_timestamps_us.len() > 0 {
            self.tick
        } else {
            self.next_t
        };
        let mut ev_idx: usize = 0;
        while next_t > 0 && next_t <= horizon_us
            invariant
                ts == new_timestamps_us@,
                ev_idx <= ts.len(),
                ewm.wf(),
                next_t > 0 ==> self.tick > 0,
                self@.can_run(ts, horizon_us) == playable(
                    ewm@,
                    ts,
                    ev_idx as int,
                    next_t as int,
                    self.tick as int,
                    horizon_us as int,
                ),
            decreases
                if next_t > horizon_us {
                    0
                } else {
                    horizon_us - next_t + 1
                },
        {
            let to: usize = Self::end_of_batch(new_timestamps_us, ev_idx, next_t);
            let batch = vstd::slice::slice_subrange(new_timestamps_us, ev_idx, to);
            if !ewm.can_observe(batch) {
                return false;
            }
            ewm.observe_batch(batch);
            if !ewm.can_compute_fps(next_t) || next_t > i64::MAX - self.tick {
                return false;
            }
            let _ = ewm.compute_fps(next_t);
            ev_idx = to;
            next_t = next_t + self.tick;
        }
        let batch = vstd::slice::slice_subrange(
            new_timestamps_us,
            ev_idx,
            new_timestamps_us.len(),
        );
        assert(batch@ =~= ts.skip(ev_idx as int));
        ewm.can_observe(batch)
    }

    /// The index of the first event time, from index `from` on, that is after `t`.
    fn end_of_batch(ts: &[i64], from: usize, t: i64) -> (to: usize)
        requires
            from <= ts@.len(),
        ensures
            from <= to <= ts@.len(),
            to == run_to(ts@, from as int, t as int),
    {
        let mut to: usize = from;
        while to < ts.len() && ts[to] <= t
            invariant
                from <= to <= ts@.len(),
                run_to(ts@, from as int, t as int) == run_to(ts@, to as int, t as int),
            ensures
                from <= to <= ts@.len(),
                run_to(ts@, from as int, t as int) == to,
            decreases ts.len() - to,
        {
            to = to + 1;
        }
        to
    }

    /// Plays new event times up to `horizon_us`.
    pub fn run(&mut self, new_timestamps_us: &[i64], horizon_us: i64)
        requires
            old(self).wf(),
            old(self)@.can_run(new_timestamps_us@, horizon_us),
        ensures
            final(self).wf(),
            final(self)@ == old(self)@.after_run(new_timestamps_us@, horizon_us),
    {
        let ghost ts = new_timestamps_us@;
        if self.next_t == 0 && new_timestamps_us.len() > 0 {
            self.next_t = self.tick;
        }
        let ghost start = old(self)@.start(ts);
        let ghost whole = play(
            old(self)@.device,
            ts,
            0,
            start,
            self.tick as int,
            horizon_us as int,
        );
        let mut ev_idx: usize = 0;
        assert(Seq::<TickRecord>::empty() + whole.records =~= whole.records);
        assert(self.records@ + whole.records =~= old(self)@.records + whole.records);
        while self.next_t > 0 && self.next_t <= horizon_us
            invariant
                ts == new_timestamps_us@,
                ev_idx <= ts.len(),
                self@.wf(),
                self.tick == old(self)@.tick,
                playable(
                    self@.device,
                    ts,
                    ev_idx as int,
                    self.next_t as int,
                    self.tick as int,
                    horizon_us as int,
                ),
                ({
                    let rest = play(
                        self@.device,
                        ts,
                        ev_idx as int,
                        self.next_t as int,
                        self.tick as int,
                        horizon_us as int,
                    );
                    &&& whole.device == rest.device
                    &&& whole.from == rest.from
                    &&& whole.next_t == rest.next_t
                    &&& old(self)@.records + whole.records == self.records@ + rest.records
                }),
            decreases
                if self.next_t > horizon_us {
                    0
                } else {
                    horizon_us - self.next_t + 1
                },
        {
            let ghost rest = play(
                self@.device,
                ts,
                ev_idx as int,
                self.next_t as int,
                self.tick as int,
                horizon_us as int,
            );
            let from: usize = ev_idx;
            ev_idx = Self::end_of_batch(new_timestamps_us, from, self.next_t);
            let batch = vstd::slice::slice_subrange(new_timestamps_us, from, ev_idx);
            self.ewm.observe_batch(batch);
            let detail: FpsDetail = self.ewm.compute_fps_detailed(self.next_t);
            let record: TickRecord = TickRecord { time_us: self.next_t, detail };
            let ghost before = self.records@;
            self.records.push(record);
            proof {
                let tail = play(
                    self@.device,
                    ts,
                    ev_idx as int,
                    self.next_t + self.tick,
                    self.tick as int,
                    horizon_us as int,
                );
                assert(rest.records == seq![record] + tail.records);
                assert(before + rest.records =~= self.records@ + tail.records);
            }
            self.next_t = self.next_t + self.tick;
        }
        let batch = vstd::slice::slice_subrange(
            new_timestamps_us,
            ev_idx,
            new_timestamps_us.len(),
        );
        assert(batch@ =~= ts.skip(ev_idx as int));
        self.ewm.observe_batch(batch);
        assert(self.records@ + Seq::<TickRecord>::empty() =~= self.records@);
    }
}

/// Where the event times up to `t` end.
proof fn lemma_run_to(ts: Seq<i64>, from: int, t: int)
    requires
        0 <= from <= ts.len(),
    ensures
        from <= run_to(ts, from, t) <= ts.len(),
        forall|i: int| from <= i < run_to(ts, from, t) ==> ts[i] <= t,
        run_to(ts, from, t) < ts.len() ==> ts[run_to(ts, from, t)] > t,
    decreases ts.len() - from,
{
    if from < ts.len() && ts[from] <= t {
        lemma_run_to(ts, from + 1, t);
    }
}

/// The event times that are left after a tick, and what is new in them.
proof fn lemma_after_tick(last: Option<i64>, ts: Seq<i64>, from: int, t: int)
    requires
        0 <= from <= ts.len(),
    ensures
        ({
            let to = run_to(ts, from, t);
            let new = crate::ewm::fresh(last, ts.subrange(from, to));
            let seen = if new.len() > 0 { Some(new.last()) } else { last };
            let rest = crate::ewm::fresh(seen, ts.skip(to));
            &&& from <= to <= ts.len()
            &&& crate::ewm::fresh(last, ts.skip(from)) == new + rest
            &&& forall|i: int| 0 <= i < new.len() ==> new[i] <= t
        }),
{
    lemma_run_to(ts, from, t);
    let to = run_to(ts, from, t);
    let a = ts.subrange(from, to);
    let b = ts.skip(to);
    assert(a + b =~= ts.skip(from));
    if a.len() > 0 && b.len() > 0 {
        assert(a.last() == ts[to - 1]);
        assert(b[0] == ts[to]);
    }
    crate::ewm::lemma_fresh_append(last, a, b);
    crate::ewm::lemma_fresh_is_suffix(last, a);
    let new = crate::ewm::fresh(last, a);
    assert forall|i: int| 0 <= i < new.len() implies new[i] <= t by {
        assert(new[i] == a[a.len() - new.len() + i]);
        assert(new[i] == ts[from + a.len() - new.len() + i]);
    }
}

/// The number of events that a run of ticks reported.
pub open spec fn reported(records: Seq<TickRecord>) -> int
    decreases records.len(),
{
    if records.len() == 0 {
        0
    } else {
        records[0].detail.events + reported(records.drop_first())
    }
}

/// Playing loses no event and counts none twice: what the ticks report, and what is
/// pending after them, is what was pending before and what is new in the times.
proof fn lemma_play_counts(
    device: crate::ewm::EwmState,
    ts: Seq<i64>,
    from: int,
    t: int,
    tick: int,
    horizon: int,
)
    requires
        device.wf(),
        0 <= from <= ts.len(),
        horizon <= i64::MAX,
        playable(device, ts, from, t, tick, horizon),
    ensures
        ({
            let p = play(device, ts, from, t, tick, horizon);
            &&& from <= p.from <= ts.len()
            &&& p.device.wf()
            &&& p.device.accepts(ts.skip(p.from))
            &&& reported(p.records) + p.device.observe(ts.skip(p.from)).pending == device.pending
                + crate::ewm::fresh(device.last_event, ts.skip(from)).len()
        }),
    decreases
        if t > horizon {
            0
        } else {
            horizon - t + 1
        },
{
    if tick <= 0 || t <= 0 || t > horizon {
    } else {
        let to = run_to(ts, from, t);
        let slice = ts.subrange(from, to);
        let busy = device.observe(slice);
        lemma_after_tick(device.last_event, ts, from, t);
        crate::ewm::lemma_observe_wf(device, slice);
        lemma_play_counts(busy.tick(t as i64), ts, to, t + tick, tick, horizon);
        let rest = play(busy.tick(t as i64), ts, to, t + tick, tick, horizon);
        let p = play(device, ts, from, t, tick, horizon);
        assert(p.records.drop_first() =~= rest.records);
    }
}

/// A replay loses no event and counts none twice.
pub proof fn law_replay_counts_every_event_once(s: ReplayState, ts: Seq<i64>, horizon: i64)
    requires
        s.wf(),
        s.can_run(ts, horizon),
    ensures
        ({
            let after = s.after_run(ts, horizon);
            let new = after.records.skip(s.records.len() as int);
            &&& after.records.take(s.records.len() as int) == s.records
            &&& reported(new) + after.device.pending == s.device.pending + crate::ewm::fresh(
                s.device.last_event,
                ts,
            ).len()
        }),
{
    lemma_play_counts(s.device, ts, 0, s.start(ts), s.tick as int, horizon as int);
    let p = play(s.device, ts, 0, s.start(ts), s.tick as int, horizon as int);
    let after = s.after_run(ts, horizon);
    assert(after.records.skip(s.records.len() as int) =~= p.records);
    assert(after.records.take(s.records.len() as int) =~= s.records);
    assert(ts.skip(0) =~= ts);
}

/// The first tick of a run, and those after it.
proof fn lemma_play_unfold(
    device: crate::ewm::EwmState,
    ts: Seq<i64>,
    from: int,
    t: int,
    tick: int,
    horizon: int,
)
    requires
        0 < tick,
        0 < t <= horizon,
    ensures
        ({
            let to = run_to(ts, from, t);
            let busy = device.observe(ts.subrange(from, to));
            let rest = play(busy.tick(t as i64), ts, to, t + tick, tick, horizon);
            let p = play(device, ts, from, t, tick, horizon);
            &&& p.records.len() == rest.records.len() + 1
            &&& p.records[0].time_us == t as i64
            &&& forall|k: int| 1 <= k < p.records.len() ==> #[trigger] p.records[k] == rest.records[k - 1]
            &&& p.next_t == rest.next_t
        }),
{
}

/// The ticks of a run are one interval apart.
proof fn lemma_play_times(
    device: crate::ewm::EwmState,
    ts: Seq<i64>,
    from: int,
    t: int,
    tick: int,
    horizon: int,
    k: int,
)
    requires
        horizon <= i64::MAX,
        0 <= k < play(device, ts, from, t, tick, horizon).records.len(),
    ensures
        play(device, ts, from, t, tick, horizon).records[k].time_us == t + k * tick,
        t + k * tick <= horizon,
    decreases
        if t > horizon {
            0
        } else {
            horizon - t + 1
        },
{
    if tick <= 0 || t <= 0 || t > horizon {
        assert(play(device, ts, from, t, tick, horizon).records.len() == 0);
    } else {
        lemma_play_unfold(device, ts, from, t, tick, horizon);
        if k == 0 {
            assert(k * tick == 0) by (nonlinear_arith)
                requires
                    k == 0,
            ;
        } else {
            let to = run_to(ts, from, t);
            let next = device.observe(ts.subrange(from, to)).tick(t as i64);
            let rest = play(next, ts, to, t + tick, tick, horizon);
            assert(play(device, ts, from, t, tick, horizon).records[k] == rest.records[k - 1]);
            lemma_play_times(next, ts, to, t + tick, tick, horizon, k - 1);
            assert((k - 1) * tick + tick == k * tick) by (nonlinear_arith);
        }
    }
}

/// A run has a tick for every interval up to the horizon, and the next one is after it.
proof fn lemma_play_reaches(
    device: crate::ewm::EwmState,
    ts: Seq<i64>,
    from: int,
    t: int,
    tick: int,
    horizon: int,
)
    requires
        0 < tick,
        0 < t,
    ensures
        ({
            let p = play(device, ts, from, t, tick, horizon);
            &&& p.next_t == t + tick * p.records.len()
            &&& p.next_t > horizon
            &&& p.records.len() > 0 ==> p.next_t - tick <= horizon
        }),
    decreases
        if t > horizon {
            0
        } else {
            horizon - t + 1
        },
{
    let p = play(device, ts, from, t, tick, horizon);
    if t > horizon {
        assert(p.records.len() == 0);
        assert(tick * 0 == 0);
    } else {
        lemma_play_unfold(device, ts, from, t, tick, horizon);
        let to = run_to(ts, from, t);
        let next = device.observe(ts.subrange(from, to)).tick(t as i64);
        let rest = play(next, ts, to, t + tick, tick, horizon);
        lemma_play_reaches(next, ts, to, t + tick, tick, horizon);
        let n = rest.records.len() as int;
        assert(tick * (n + 1) == tick * n + tick) by (nonlinear_arith);
        if n == 0 {
            assert(tick * n == 0) by (nonlinear_arith)
                requires
                    n == 0,
            ;
        }
    }
}

/// Nothing is played without a tick or before the first event.
proof fn lemma_play_nothing(
    device: crate::ewm::EwmState,
    ts: Seq<i64>,
    from: int,
    t: int,
    tick: int,
    horizon: int,
)
    requires
        tick <= 0 || t <= 0,
    ensures
        play(device, ts, from, t, tick, horizon).records.len() == 0,
        play(device, ts, from, t, tick, horizon).next_t == t,
{
}

/// The ticks of a run are one interval apart, from where the run before it left off,
/// and none is after the horizon.
pub proof fn law_replay_ticks_are_evenly_spaced(s: ReplayState, ts: Seq<i64>, horizon: i64, k: int)
    requires
        0 <= k < s.after_run(ts, horizon).records.len() - s.records.len(),
    ensures
        s.after_run(ts, horizon).records[s.records.len() + k].time_us == s.start(ts) + k * s.tick,
        s.start(ts) + k * s.tick <= horizon,
{
    lemma_play_times(s.device, ts, 0, s.start(ts), s.tick as int, horizon as int, k);
}

/// A run that has had an event leaves no tick out: the next one is after the horizon.
pub proof fn law_replay_reaches_the_horizon(s: ReplayState, ts: Seq<i64>, horizon: i64)
    requires
        s.tick > 0,
        s.next_t >= 0,
        s.next_t > 0 || ts.len() > 0,
    ensures
        s.after_run(ts, horizon).next_t > horizon,
        s.after_run(ts, horizon).next_t == s.start(ts) + s.tick * (s.after_run(
            ts,
            horizon,
        ).records.len() - s.records.len()),
{
    lemma_play_reaches(s.device, ts, 0, s.start(ts), s.tick as int, horizon as int);
}

impl ReplayState {
    /// After several runs, each with its event times and its horizon.
    pub open spec fn after_runs(self, runs: Seq<(Seq<i64>, i64)>) -> Self
        decreases runs.len(),
    {
        if runs.len() == 0 {
            self
        } else {
            self.after_runs(runs.drop_last()).after_run(runs.last().0, runs.last().1)
        }
    }
}

/// Whether the horizons of runs are not negative and do not go back.
pub open spec fn horizons_go_forward(runs: Seq<(Seq<i64>, i64)>) -> bool {
    &&& forall|i: int| 0 <= i < runs.len() ==> 0 <= (#[trigger] runs[i]).1
    &&& forall|i: int, j: int|
        0 <= i < j < runs.len() ==> (#[trigger] runs[i]).1 <= (#[trigger] runs[j]).1
}

/// Whether one of several runs has an event.
pub open spec fn has_event(runs: Seq<(Seq<i64>, i64)>) -> bool {
    exists|i: int| 0 <= i < runs.len() && (#[trigger] runs[i]).0.len() > 0
}

/// The last of several runs has an event, or one before it has.
proof fn lemma_has_event(runs: Seq<(Seq<i64>, i64)>)
    requires
        runs.len() > 0,
    ensures
        has_event(runs) == (has_event(runs.drop_last()) || runs.last().0.len() > 0),
{
    let rest = runs.drop_last();
    if has_event(rest) {
        let i = choose|i: int| 0 <= i < rest.len() && (#[trigger] rest[i]).0.len() > 0;
        assert(runs[i].0.len() > 0);
    }
    if runs.last().0.len() > 0 {
        assert(runs[runs.len() - 1].0.len() > 0);
    }
    if has_event(runs) {
        let i = choose|i: int| 0 <= i < runs.len() && (#[trigger] runs[i]).0.len() > 0;
        if i < rest.len() {
            assert(rest[i].0.len() > 0);
        }
    }
}

/// The number of ticks after one more run.
proof fn lemma_ticks_after_run(s: ReplayState, ts: Seq<i64>, horizon: i64)
    requires
        s.tick > 0,
        0 <= horizon,
        s.next_t == 0 ==> s.records.len() == 0 && ts.len() > 0,
        s.next_t != 0 ==> s.next_t == s.tick * (s.records.len() + 1),
        s.tick * s.records.len() <= horizon,
    ensures
        s.after_run(ts, horizon).next_t == s.tick * (s.after_run(ts, horizon).records.len() + 1),
        s.after_run(ts, horizon).records.len() == horizon as int / s.tick as int,
{
    let tick = s.tick as int;
    let n = s.records.len() as int;
    let after = s.after_run(ts, horizon);
    let m = after.records.len() as int;
    assert(tick * (n + 1) > 0) by (nonlinear_arith)
        requires
            tick > 0,
            n >= 0,
    ;
    assert(s.start(ts) == tick * (n + 1)) by {
        if s.next_t == 0 {
            assert(tick * (n + 1) == tick) by (nonlinear_arith)
                requires
                    n == 0,
            ;
        }
    }
    lemma_play_reaches(s.device, ts, 0, s.start(ts), tick, horizon as int);
    let p = play(s.device, ts, 0, s.start(ts), tick, horizon as int);
    assert(m == n + p.records.len());
    assert(tick * (n + 1) + tick * (m - n) == tick * (m + 1)) by (nonlinear_arith);
    assert(tick * (m + 1) == tick * m + tick) by (nonlinear_arith);
    assert(tick * m <= horizon) by {
        if m == n {
            assert(tick * m == tick * n);
        }
    }
    assert(tick * m == m * tick) by (nonlinear_arith);
    vstd::arithmetic::div_mod::lemma_fundamental_div_mod_converse(
        horizon as int,
        tick,
        m,
        horizon - tick * m,
    );
}

/// After a reset there is one tick for every whole interval up to the horizon, once there
/// has been an event: the horizon divided by the interval. Without an event, or without an
/// interval, there is none.
pub proof fn law_replay_has_a_tick_per_interval(tick: i64, runs: Seq<(Seq<i64>, i64)>)
    requires
        horizons_go_forward(runs),
    ensures
        ({
            let after = ReplayState::init(tick).after_runs(runs);
            &&& after.tick == tick
            &&& tick > 0 && has_event(runs) ==> after.records.len() == runs.last().1 as int
                / tick as int && after.next_t == tick * (after.records.len() + 1)
            &&& tick <= 0 || !has_event(runs) ==> after.records.len() == 0 && after.next_t <= 0
            &&& !has_event(runs) ==> after.next_t == 0
        }),
    decreases runs.len(),
{
    if runs.len() > 0 {
        let rest = runs.drop_last();
        let (ts, horizon) = runs.last();
        let s = ReplayState::init(tick).after_runs(rest);
        assert forall|i: int| 0 <= i < rest.len() implies 0 <= (#[trigger] rest[i]).1 by {
            assert(rest[i] == runs[i]);
        }
        assert forall|i: int, j: int| 0 <= i < j < rest.len() implies (#[trigger] rest[i]).1 <= (
        #[trigger] rest[j]).1 by {
            assert(rest[i] == runs[i] && rest[j] == runs[j]);
        }
        law_replay_has_a_tick_per_interval(tick, rest);
        lemma_has_event(runs);
        assert(0 <= runs[runs.len() - 1].1);
        if tick > 0 && has_event(runs) {
            let n = s.records.len() as int;
            if has_event(rest) {
                assert(runs[rest.len() - 1].1 <= runs[runs.len() - 1].1);
                assert(rest.last() == runs[rest.len() - 1]);
                vstd::arithmetic::div_mod::lemma_fundamental_div_mod(
                    rest.last().1 as int,
                    tick as int,
                );
                vstd::arithmetic::div_mod::lemma_mod_bound(rest.last().1 as int, tick as int);
                assert(tick * n <= horizon);
                assert(tick * (n + 1) > 0) by (nonlinear_arith)
                    requires
                        tick > 0,
                        n >= 0,
                ;
            } else {
                assert(tick * n == 0) by (nonlinear_arith)
                    requires
                        n == 0,
                ;
            }
            lemma_ticks_after_run(s, ts, horizon);
        } else {
            lemma_play_nothing(s.device, ts, 0, s.start(ts), tick as int, horizon as int);
        }
    }
}

/// What several runs of ticks reported is what each of them did.
proof fn lemma_reported_append(a: Seq<TickRecord>, b: Seq<TickRecord>)
    ensures
        reported(a + b) == reported(a) + reported(b),
    decreases a.len(),
{
    if a.len() == 0 {
        assert(a + b =~= b);
    } else {
        lemma_reported_append(a.drop_first(), b);
        assert((a + b).drop_first() =~= a.drop_first() + b);
    }
}

/// The last event that a device has heard of when all the times have been taken in.
proof fn lemma_play_last_event(
    device: crate::ewm::EwmState,
    ts: Seq<i64>,
    from: int,
    t: int,
    tick: int,
    horizon: int,
)
    requires
        0 <= from <= ts.len(),
    ensures
        ({
            let p = play(device, ts, from, t, tick, horizon);
            let new = crate::ewm::fresh(device.last_event, ts.skip(from));
            p.device.observe(ts.skip(p.from)).last_event == if new.len() > 0 {
                Some(new.last())
            } else {
                device.last_event
            }
        }),
    decreases
        if t > horizon {
            0
        } else {
            horizon - t + 1
        },
{
    if tick <= 0 || t <= 0 || t > horizon {
    } else {
        lemma_after_tick(device.last_event, ts, from, t);
        let to = run_to(ts, from, t);
        let slice = ts.subrange(from, to);
        let next = device.observe(slice).tick(t as i64);
        lemma_play_last_event(next, ts, to, t + tick, tick, horizon);
        let new = crate::ewm::fresh(device.last_event, slice);
        let rest = crate::ewm::fresh(next.last_event, ts.skip(to));
        assert(crate::ewm::fresh(device.last_event, ts.skip(from)) == new + rest);
        if rest.len() > 0 {
            assert((new + rest).last() == rest.last());
        } else {
            assert(new + rest =~= new);
        }
    }
}

/// Whether several runs can be played one after the other.
pub open spec fn can_run_all(s: ReplayState, runs: Seq<(Seq<i64>, i64)>) -> bool
    decreases runs.len(),
{
    runs.len() > 0 ==> {
        &&& can_run_all(s, runs.drop_last())
        &&& s.after_runs(runs.drop_last()).can_run(runs.last().0, runs.last().1)
    }
}

/// The event times of several runs.
pub open spec fn all_times(runs: Seq<(Seq<i64>, i64)>) -> Seq<i64>
    decreases runs.len(),
{
    if runs.len() == 0 {
        Seq::empty()
    } else {
        all_times(runs.drop_last()) + runs.last().0
    }
}

/// After a reset several runs count every event time once, the ticks with what is pending
/// after them, where the times go forward over all the runs; and one more run keeps what
/// the ticks before it found out.
pub proof fn law_replay_counts_over_runs(tick: i64, runs: Seq<(Seq<i64>, i64)>)
    requires
        can_run_all(ReplayState::init(tick), runs),
        crate::order::increasing(all_times(runs)),
        all_times(runs).len() > 0 ==> all_times(runs)[0] > i64::MIN,
    ensures
        ({
            let after = ReplayState::init(tick).after_runs(runs);
            &&& after.wf()
            &&& reported(after.records) + after.device.pending == all_times(runs).len()
            &&& after.device.last_event == if all_times(runs).len() > 0 {
                Some(all_times(runs).last())
            } else {
                None
            }
            &&& runs.len() > 0 ==> ReplayState::init(tick).after_runs(
                runs.drop_last(),
            ).records.is_prefix_of(after.records)
        }),
    decreases runs.len(),
{
    if runs.len() > 0 {
        let rest = runs.drop_last();
        let (ts, horizon) = runs.last();
        let s = ReplayState::init(tick).after_runs(rest);
        let after = s.after_run(ts, horizon);
        let old = all_times(rest);
        let all = all_times(runs);
        assert forall|i: int, j: int| 0 <= i < j < old.len() implies old[i] < old[j] by {
            assert(all[i] == old[i] && all[j] == old[j]);
        }
        if old.len() > 0 {
            assert(all[0] == old[0]);
        }
        law_replay_counts_over_runs(tick, rest);
        law_replay_counts_every_event_once(s, ts, horizon);
        lemma_play_counts(s.device, ts, 0, s.start(ts), s.tick as int, horizon as int);
        lemma_play_last_event(s.device, ts, 0, s.start(ts), s.tick as int, horizon as int);
        lemma_play_next(s.device, ts, 0, s.start(ts), s.tick as int, horizon as int);
        let p = play(s.device, ts, 0, s.start(ts), s.tick as int, horizon as int);
        crate::ewm::lemma_observe_wf(p.device, ts.skip(p.from));
        assert(ts.skip(0) =~= ts);
        if ts.len() > 0 {
            assert(all[old.len() as int] == ts[0]);
            if old.len() > 0 {
                assert(all[old.len() - 1] == old.last());
            }
            assert(ts[0] > s.device.last_event.unwrap_or(i64::MIN));
            assert(all.last() == ts.last());
        } else {
            assert(all =~= old);
        }
        assert(crate::ewm::fresh(s.device.last_event, ts) == ts);
        lemma_reported_append(s.records, p.records);
        assert(after.records.skip(s.records.len() as int) =~= p.records);
        assert(after.records.subrange(0, s.records.len() as int) =~= s.records);
    }
}

/// Ticks that come have an interval between them.
proof fn lemma_play_next(
    device: crate::ewm::EwmState,
    ts: Seq<i64>,
    from: int,
    t: int,
    tick: int,
    horizon: int,
)
    requires
        t > 0 ==> tick > 0,
    ensures
        play(device, ts, from, t, tick, horizon).next_t > 0 ==> tick > 0,
{
    if tick <= 0 {
        lemma_play_nothing(device, ts, from, t, tick, horizon);
    }
}

/// The largest time that a double-precision number tells from the ones next to it.
pub const ORDINARY_US: i64 = 0x20_0000_0000_0000;

/// Whether a device has only heard of ordinary times.
pub open spec fn ordinary_device(device: crate::ewm::EwmState) -> bool {
    &&& device.wf()
    &&& device.last_tick matches Some(t) ==> 0 <= t <= ORDINARY_US
    &&& device.last_event matches Some(t) ==> 0 <= t <= ORDINARY_US
}

/// Whether times are ordinary, what is new in them is in order, and there is room for
/// counting them.
pub open spec fn ordinary_times(device: crate::ewm::EwmState, ts: Seq<i64>) -> bool {
    &&& forall|i: int| 0 <= i < ts.len() ==> 0 <= #[trigger] ts[i] <= ORDINARY_US
    &&& crate::order::increasing(crate::ewm::fresh(device.last_event, ts))
    &&& device.pending + ts.len() <= u32::MAX
}

/// An ordinary device can have a tick at an ordinary time.
proof fn lemma_ordinary_tick(device: crate::ewm::EwmState, now: i64)
    requires
        ordinary_device(device),
        0 < now <= ORDINARY_US,
    ensures
        device.tick_in_range(now),
        ordinary_device(device.tick(now)),
{
    crate::ewm::lemma_resolution_range(device.history);
    crate::double::lemma_double_exact(device.input_res(now));
}

/// An ordinary device can take in ordinary times.
proof fn lemma_ordinary_batch(device: crate::ewm::EwmState, ts: Seq<i64>)
    requires
        ordinary_device(device),
        ordinary_times(device, ts),
    ensures
        device.accepts(ts),
        ordinary_device(device.observe(ts)),
{
    crate::ewm::lemma_fresh_is_suffix(device.last_event, ts);
    let new = crate::ewm::fresh(device.last_event, ts);
    if new.len() > 0 {
        assert(new.last() == ts[ts.len() - 1]);
    }
    crate::ewm::lemma_observe_wf(device, ts);
}

/// Ordinary times that are cut at a tick are ordinary on both sides of it.
proof fn lemma_ordinary_cut(device: crate::ewm::EwmState, ts: Seq<i64>, from: int, t: int)
    requires
        0 <= from <= ts.len(),
        ordinary_device(device),
        ordinary_times(device, ts.skip(from)),
    ensures
        ({
            let to = run_to(ts, from, t);
            let slice = ts.subrange(from, to);
            &&& from <= to <= ts.len()
            &&& ordinary_times(device, slice)
            &&& ordinary_times(device.observe(slice).tick(t as i64), ts.skip(to))
        }),
{
    lemma_after_tick(device.last_event, ts, from, t);
    let to = run_to(ts, from, t);
    let slice = ts.subrange(from, to);
    let rest = ts.skip(to);
    let left = ts.skip(from);
    let new = crate::ewm::fresh(device.last_event, slice);
    let all = crate::ewm::fresh(device.last_event, left);
    let next = device.observe(slice).tick(t as i64);
    let later = crate::ewm::fresh(next.last_event, rest);
    assert forall|i: int, j: int| 0 <= i < j < new.len() implies new[i] < new[j] by {
        assert(all[i] == new[i] && all[j] == new[j]);
    }
    assert forall|i: int, j: int| 0 <= i < j < later.len() implies later[i] < later[j] by {
        assert(all[new.len() + i] == later[i] && all[new.len() + j] == later[j]);
    }
    assert forall|i: int| 0 <= i < slice.len() implies 0 <= #[trigger] slice[i] <= ORDINARY_US by {
        assert(slice[i] == left[i]);
    }
    assert forall|i: int| 0 <= i < rest.len() implies 0 <= #[trigger] rest[i] <= ORDINARY_US by {
        assert(rest[i] == left[to - from + i]);
    }
}

/// Ordinary times are playable.
pub proof fn law_ordinary_times_are_playable(
    device: crate::ewm::EwmState,
    ts: Seq<i64>,
    from: int,
    t: int,
    tick: int,
    horizon: int,
)
    requires
        0 <= from <= ts.len(),
        ordinary_device(device),
        ordinary_times(device, ts.skip(from)),
        tick <= ORDINARY_US,
        horizon <= ORDINARY_US,
    ensures
        playable(device, ts, from, t, tick, horizon),
    decreases
        if t > horizon {
            0
        } else {
            horizon - t + 1
        },
{
    if tick <= 0 || t <= 0 || t > horizon {
        lemma_ordinary_batch(device, ts.skip(from));
    } else {
        let to = run_to(ts, from, t);
        let slice = ts.subrange(from, to);
        lemma_ordinary_cut(device, ts, from, t);
        lemma_ordinary_batch(device, slice);
        let busy = device.observe(slice);
        lemma_ordinary_tick(busy, t as i64);
        law_ordinary_times_are_playable(busy.tick(t as i64), ts, to, t + tick, tick, horizon);
    }
}

/// Whether a recording spans little enough for its times, counted from the first of
/// them, and those of all the ticks to be ordinary.
pub open spec fn ordinary_recording(recorded: Seq<i64>, tick: int) -> bool {
    &&& 0 < tick <= ORDINARY_US
    &&& recorded.len() <= u32::MAX
    &&& forall|i: int, j: int|
        0 <= i < recorded.len() && 0 <= j < recorded.len() ==> recorded[i] - recorded[j]
            <= ORDINARY_US - tick
}

/// Whether a recording spans little enough to be played back.
pub fn is_ordinary_recording(recorded: &[i64], tick_us: i64) -> (yes: bool)
    ensures
        yes == ordinary_recording(recorded@, tick_us as int),
{
    if tick_us <= 0 || tick_us > ORDINARY_US || recorded.len() > u32::MAX as usize {
        return false;
    }
    if recorded.len() == 0 {
        return true;
    }
    let mut lo: usize = 0;
    let mut hi: usize = 0;
    let mut i: usize = 1;
    while i < recorded.len()
        invariant
            lo < recorded.len(),
            hi < recorded.len(),
            1 <= i <= recorded.len(),
            forall|j: int|
                0 <= j < i ==> recorded@[lo as int] <= #[trigger] recorded@[j]
                    <= recorded@[hi as int],
        decreases recorded.len() - i,
    {
        if recorded[i] < recorded[lo] {
            lo = i;
        }
        if recorded[i] > recorded[hi] {
            hi = i;
        }
        i = i + 1;
    }
    recorded[hi] as i128 - recorded[lo] as i128 <= ORDINARY_US as i128 - tick_us as i128
}

/// A recording that spans little enough can be played back.
pub proof fn law_ordinary_recording_is_playable(recorded: Seq<i64>, tick: int)
    requires
        ordinary_recording(recorded, tick),
        recorded.len() > 0,
    ensures
        timeline(recorded).last() + tick <= ORDINARY_US,
        playable(
            crate::ewm::EwmState::init(),
            timeline(recorded),
            0,
            tick,
            tick,
            timeline(recorded).last() + tick,
        ),
{
    let sorted = crate::order::ascending(recorded);
    let d = distinct(sorted);
    let ts = timeline(recorded);
    crate::order::lemma_ascending(recorded);
    lemma_distinct(sorted);
    crate::order::lemma_ascending_contains(recorded, sorted.len() - 1);
    crate::order::lemma_ascending_contains(recorded, 0);
    let x = choose|x: int| 0 <= x < recorded.len() && recorded[x] == sorted.last();
    let y = choose|y: int| 0 <= y < recorded.len() && recorded[y] == sorted[0];
    assert(recorded[x] - recorded[y] <= ORDINARY_US - tick);
    assert forall|k: int| 0 <= k < ts.len() implies 0 <= #[trigger] ts[k] <= ORDINARY_US - tick
        && ts[k] == d[k] - d[0] by {
        assert(k > 0 ==> d[0] < d[k]);
        assert(k < d.len() - 1 ==> d[k] < d[d.len() - 1]);
    }
    assert forall|i: int, j: int| 0 <= i < j < ts.len() implies ts[i] < ts[j] by {
        assert(d[i] < d[j]);
    }
    assert(ts.skip(0) =~= ts);
    law_ordinary_times_are_playable(
        crate::ewm::EwmState::init(),
        ts,
        0,
        tick,
        tick,
        ts.last() + tick,
    );
}

/// Plays all of a recording back, with a tick every `tick_us` until one is past the
/// last event. A recording without events has nothing to play.
pub fn replay_recorded(recorded: Vec<i64>, tick_us: i64) -> (r: Option<Vec<TickRecord>>)
    requires
        tick_us > 0,
        forall|i: int, j: int|
            0 <= i < recorded@.len() && 0 <= j < recorded@.len() ==> recorded@[i] - recorded@[j]
                <= i64::MAX,
        recorded@.len() > 0 ==> {
            let ts = timeline(recorded@);
            &&& ts.last() + tick_us <= i64::MAX
            &&& playable(
                crate::ewm::EwmState::init(),
                ts,
                0,
                tick_us as int,
                tick_us as int,
                ts.last() + tick_us,
            )
        },
    ensures
        r is None <==> recorded@.len() == 0,
        r matches Some(records) ==> {
            let ts = timeline(recorded@);
            records@ == play(
                crate::ewm::EwmState::init(),
                ts,
                0,
                tick_us as int,
                tick_us as int,
                ts.last() + tick_us,
            ).records
        },
{
    let ts: Vec<i64> = prepare_timestamps(recorded);
    if ts.len() == 0 {
        return None;
    }
    let mut replay: Replay = Replay::new();
    replay.reset(tick_us);
    let horizon_us: i64 = ts[ts.len() - 1] + tick_us;
    let ghost before = replay@;
    replay.run(ts.as_slice(), horizon_us);
    let records: Vec<TickRecord> = replay.into_records();
    proof {
        let p = play(before.device, ts@, 0, tick_us as int, tick_us as int, horizon_us as int);
        assert(before.records + p.records =~= p.records);
    }
    Some(records)
}

/// Dropping repeated elements loses none.
proof fn lemma_distinct_contains(s: Seq<i64>, x: i64)
    ensures
        distinct(s).contains(x) <==> s.contains(x),
    decreases s.len(),
{
    if s.len() > 1 {
        let rest = s.drop_last();
        lemma_distinct_contains(rest, x);
        assert(s =~= rest.push(s.last()));
        if rest.contains(x) {
            let i = choose|i: int| 0 <= i < rest.len() && rest[i] == x;
            assert(s[i] == x);
        }
        if s.contains(x) && x != s.last() {
            let i = choose|i: int| 0 <= i < s.len() && s[i] == x;
            assert(rest[i] == x);
        }
        if x == s.last() {
            assert(s[s.len() - 1] == x);
            if s[s.len() - 1] == s[s.len() - 2] {
                assert(rest[s.len() - 2] == x);
            }
        }
        let d = distinct(rest);
        if s[s.len() - 1] != s[s.len() - 2] {
            assert(distinct(s) == d.push(s.last()));
            assert(d.push(s.last())[d.len() as int] == s.last());
            if d.contains(x) {
                let i = choose|i: int| 0 <= i < d.len() && d[i] == x;
                assert(d.push(s.last())[i] == x);
            }
            if distinct(s).contains(x) && x != s.last() {
                let i = choose|i: int| 0 <= i < distinct(s).len() && distinct(s)[i] == x;
                assert(d[i] == x);
            }
        }
    }
}

/// A timeline goes forward, and holds, counted from the earliest recorded time, every
/// recorded time and nothing else.
pub proof fn law_timeline_holds_every_recorded_time(s: Seq<i64>, first: int)
    requires
        0 <= first < s.len(),
        forall|i: int| 0 <= i < s.len() ==> s[first] <= #[trigger] s[i],
        forall|i: int| 0 <= i < s.len() ==> #[trigger] s[i] - s[first] <= i64::MAX,
    ensures
        forall|i: int, j: int| 0 <= i < j < timeline(s).len() ==> timeline(s)[i] < timeline(s)[j],
        forall|i: int|
            0 <= i < s.len() ==> timeline(s).contains((#[trigger] s[i] - s[first]) as i64),
        forall|k: int|
            0 <= k < timeline(s).len() ==> s.contains((#[trigger] timeline(s)[k] + s[first]) as i64),
        timeline(s).len() > 0,
        timeline(s)[0] == 0,
{
    let sorted = crate::order::ascending(s);
    let d = distinct(sorted);
    let ts = timeline(s);
    crate::order::lemma_ascending(s);
    lemma_distinct(sorted);
    s.to_multiset_ensures();
    sorted.to_multiset_ensures();
    assert(s.contains(s[first]));
    assert(sorted.to_multiset().count(s[first]) > 0);
    assert(sorted.contains(s[first]));
    crate::order::lemma_ascending_contains(s, 0);
    let at = choose|i: int| 0 <= i < sorted.len() && sorted[i] == s[first];
    assert(at > 0 ==> sorted[0] <= sorted[at]);
    let lo = choose|i: int| 0 <= i < s.len() && s[i] == sorted[0];
    assert(s[first] <= s[lo]);
    assert(d[0] == s[first]);
    assert forall|k: int| 0 <= k < d.len() implies s.contains(#[trigger] d[k]) && ts[k] == d[k]
        - s[first] by {
        assert(d.contains(d[k]));
        lemma_distinct_contains(sorted, d[k]);
        let i = choose|i: int| 0 <= i < sorted.len() && sorted[i] == d[k];
        crate::order::lemma_ascending_contains(s, i);
        let j = choose|j: int| 0 <= j < s.len() && s[j] == d[k];
        assert(s[first] <= s[j] && s[j] - s[first] <= i64::MAX);
    }
    assert forall|i: int, j: int| 0 <= i < j < ts.len() implies ts[i] < ts[j] by {
        assert(d[i] < d[j]);
        assert(ts[i] == d[i] - s[first] && ts[j] == d[j] - s[first]);
    }
    assert forall|i: int| 0 <= i < s.len() implies ts.contains(
        (#[trigger] s[i] - s[first]) as i64,
    ) by {
        assert(s.contains(s[i]));
        assert(sorted.to_multiset().count(s[i]) > 0);
        assert(sorted.contains(s[i]));
        lemma_distinct_contains(sorted, s[i]);
        let k = choose|k: int| 0 <= k < d.len() && d[k] == s[i];
        assert(ts[k] == d[k] - s[first]);
    }
    assert forall|k: int| 0 <= k < ts.len() implies s.contains(
        (#[trigger] ts[k] + s[first]) as i64,
    ) by {
        assert(s.contains(d[k]) && ts[k] == d[k] - s[first]);
    }
}

/// The event times that a tick takes in end at the first that is after it.
pub proof fn law_tick_takes_in_the_times_up_to_its_own(ts: Seq<i64>, from: int, t: int, to: int)
    requires
        0 <= from <= to <= ts.len(),
        forall|i: int| from <= i < to ==> #[trigger] ts[i] <= t,
        to < ts.len() ==> ts[to] > t,
    ensures
        run_to(ts, from, t) == to,
    decreases to - from,
{
    if from < to {
        assert(ts[from] <= t);
        law_tick_takes_in_the_times_up_to_its_own(ts, from + 1, t, to);
    }
}

/// A tick takes in the event times up to its own, records what it finds out, and the next
/// one comes an interval later.
pub proof fn law_playing_goes_tick_by_tick(
    device: crate::ewm::EwmState,
    ts: Seq<i64>,
    from: int,
    t: int,
    tick: int,
    horizon: int,
    to: int,
)
    requires
        0 < tick,
        0 < t <= horizon,
        0 <= from <= to <= ts.len(),
        forall|i: int| from <= i < to ==> #[trigger] ts[i] <= t,
        to < ts.len() ==> ts[to] > t,
    ensures
        ({
            let busy = device.observe(ts.subrange(from, to));
            let p = play(device, ts, from, t, tick, horizon);
            let rest = play(busy.tick(t as i64), ts, to, t + tick, tick, horizon);
            &&& p.records.len() == rest.records.len() + 1
            &&& p.records[0].time_us == t as i64
            &&& p.records[0].detail == busy.detail(t as i64)
            &&& p.records.skip(1) == rest.records
            &&& p.device == rest.device
            &&& p.from == rest.from
            &&& p.next_t == rest.next_t
        }),
{
    law_tick_takes_in_the_times_up_to_its_own(ts, from, t, to);
    let busy = device.observe(ts.subrange(from, to));
    let p = play(device, ts, from, t, tick, horizon);
    let rest = play(busy.tick(t as i64), ts, to, t + tick, tick, horizon);
    assert(p.records.skip(1) =~= rest.records);
}

/// After the horizon, and where there is no tick to come, nothing is played.
pub proof fn law_nothing_is_played_after_the_horizon(
    device: crate::ewm::EwmState,
    ts: Seq<i64>,
    from: int,
    t: int,
    tick: int,
    horizon: int,
)
    requires
        t > horizon || t <= 0 || tick <= 0,
    ensures
        ({
            let p = play(device, ts, from, t, tick, horizon);
            &&& p.records.len() == 0
            &&& p.device == device
            &&& p.from == from
            &&& p.next_t == t
        }),
{
}

/// A replay starts without events, ticks and records; its first tick comes an interval after
/// the start once there is an event; and a run takes in the event times that are left over
/// after its last tick.
pub proof fn law_how_a_run_goes(s: ReplayState, ts: Seq<i64>, horizon: i64, tick: i64)
    ensures
        ReplayState::init(tick).tick == tick,
        ReplayState::init(tick).next_t == 0,
        ReplayState::init(tick).records.len() == 0,
        ReplayState::init(tick).device == crate::ewm::EwmState::init(),
        s.next_t == 0 && ts.len() > 0 ==> s.start(ts) == s.tick,
        s.next_t != 0 || ts.len() == 0 ==> s.start(ts) == s.next_t,
        ({
            let p = play(s.device, ts, 0, s.start(ts), s.tick as int, horizon as int);
            let after = s.after_run(ts, horizon);
            &&& after.tick == s.tick
            &&& after.next_t == p.next_t
            &&& after.records == s.records + p.records
            &&& after.device == p.device.observe(ts.skip(p.from))
        }),
{
}

/// Over several runs after a reset the ticks are at the multiples of the interval.
pub proof fn law_replay_ticks_at_the_multiples(
    tick: i64,
    runs: Seq<(Seq<i64>, i64)>,
    k: int,
)
    requires
        horizons_go_forward(runs),
        0 <= k < ReplayState::init(tick).after_runs(runs).records.len(),
    ensures
        ReplayState::init(tick).after_runs(runs).records[k].time_us == tick * (k + 1),
    decreases runs.len(),
{
    if runs.len() > 0 {
        let rest = runs.drop_last();
        let (ts, horizon) = runs.last();
        let s = ReplayState::init(tick).after_runs(rest);
        assert forall|i: int| 0 <= i < rest.len() implies 0 <= (#[trigger] rest[i]).1 by {
            assert(rest[i] == runs[i]);
        }
        assert forall|i: int, j: int| 0 <= i < j < rest.len() implies (#[trigger] rest[i]).1 <= (
        #[trigger] rest[j]).1 by {
            assert(rest[i] == runs[i] && rest[j] == runs[j]);
        }
        law_replay_has_a_tick_per_interval(tick, rest);
        law_replay_has_a_tick_per_interval(tick, runs);
        let n = s.records.len() as int;
        let after = s.after_run(ts, horizon);
        if k < n {
            law_replay_ticks_at_the_multiples(tick, rest, k);
            assert(after.records[k] == s.records[k]);
        } else {
            law_replay_ticks_are_evenly_spaced(s, ts, horizon, k - n);
            assert(tick > 0);
            if s.next_t == 0 {
                assert(n == 0) by {
                    if has_event(rest) {
                        assert(tick * (n + 1) > 0) by (nonlinear_arith)
                            requires
                                tick > 0,
                                n >= 0,
                        ;
                    }
                }
                assert(tick + (k - n) * tick == tick * (k + 1)) by (nonlinear_arith)
                    requires
                        n == 0,
                ;
            } else {
                assert(tick * (n + 1) + (k - n) * tick == tick * (k + 1)) by (nonlinear_arith);
            }
        }
    }
}

/// What is left when a run of ticks is over: no event is pending, and the times that were not
/// played are after the last tick.
proof fn lemma_play_leaves(
    device: crate::ewm::EwmState,
    ts: Seq<i64>,
    from: int,
    t: int,
    tick: int,
    horizon: int,
)
    requires
        0 < tick,
        0 < t,
        0 <= from <= ts.len(),
    ensures
        ({
            let p = play(device, ts, from, t, tick, horizon);
            &&& p.records.len() > 0 ==> p.device.pending == 0
            &&& p.records.len() > 0 && p.from < ts.len() ==> ts[p.from] > p.next_t - tick
            &&& from <= p.from <= ts.len()
        }),
    decreases
        if t > horizon {
            0
        } else {
            horizon - t + 1
        },
{
    if t <= horizon {
        lemma_run_to(ts, from, t);
        lemma_play_unfold(device, ts, from, t, tick, horizon);
        let to = run_to(ts, from, t);
        let next = device.observe(ts.subrange(from, to)).tick(t as i64);
        lemma_play_leaves(next, ts, to, t + tick, tick, horizon);
        let rest = play(next, ts, to, t + tick, tick, horizon);
        if rest.records.len() == 0 {
            lemma_play_reaches(next, ts, to, t + tick, tick, horizon);
            assert(t + tick > horizon);
        }
    }
}

/// Playing a recording back counts each of its times once, and takes as many ticks as there
/// are intervals up to one past the last time.
pub proof fn law_recording_is_played_in_full(recorded: Seq<i64>, tick: int)
    requires
        ordinary_recording(recorded, tick),
        recorded.len() > 0,
    ensures
        ({
            let ts = timeline(recorded);
            let records = play(
                crate::ewm::EwmState::init(),
                ts,
                0,
                tick,
                tick,
                ts.last() + tick,
            ).records;
            &&& reported(records) == ts.len()
            &&& records.len() == (ts.last() + tick) / tick
        }),
{
    let ts = timeline(recorded);
    let init = crate::ewm::EwmState::init();
    let horizon = ts.last() + tick;
    let p = play(init, ts, 0, tick, tick, horizon);
    law_ordinary_recording_is_playable(recorded, tick);
    let sorted = crate::order::ascending(recorded);
    crate::order::lemma_ascending(recorded);
    let d = distinct(sorted);
    lemma_distinct(sorted);
    crate::order::lemma_ascending_contains(recorded, sorted.len() - 1);
    crate::order::lemma_ascending_contains(recorded, 0);
    let x = choose|x: int| 0 <= x < recorded.len() && recorded[x] == sorted.last();
    let y = choose|y: int| 0 <= y < recorded.len() && recorded[y] == sorted[0];
    assert(recorded[x] - recorded[y] <= ORDINARY_US - tick);
    assert forall|k: int| 0 <= k < ts.len() implies 0 <= #[trigger] ts[k] <= ts.last() by {
        assert(k > 0 ==> d[0] < d[k]);
        assert(k < d.len() - 1 ==> d[k] < d[d.len() - 1]);
        assert(d[0] <= d[d.len() - 1]);
    }
    assert(ts[0] == 0);
    lemma_play_counts(init, ts, 0, tick, tick, horizon);
    lemma_play_reaches(init, ts, 0, tick, tick, horizon);
    lemma_play_leaves(init, ts, 0, tick, tick, horizon);
    assert(0 <= ts[ts.len() - 1]);
    assert(ts.skip(0) =~= ts);
    let n = p.records.len() as int;
    if n == 0 {
        assert(tick * n == 0) by (nonlinear_arith)
            requires
                n == 0,
        ;
    }
    if p.from < ts.len() {
        assert(ts[p.from] <= ts.last());
    }
    assert(ts.skip(p.from) =~= Seq::<i64>::empty());
    assert(crate::ewm::fresh(init.last_event, ts) == ts);
    assert(crate::ewm::fresh(p.device.last_event, Seq::<i64>::empty()) == Seq::<i64>::empty());
    assert(tick * n == n * tick) by (nonlinear_arith);
    vstd::arithmetic::div_mod::lemma_fundamental_div_mod_converse(
        horizon,
        tick,
        n,
        horizon - tick * n,
    );
}

/// A recording is ordinary if and only if the interval and the span of its times together
/// are no more than two to the power of 53 microseconds, and its times can be counted.
pub proof fn law_which_recordings_are_ordinary(recorded: Seq<i64>, tick: int)
    ensures
        ordinary_recording(recorded, tick) <==> {
            &&& 0 < tick <= 9_007_199_254_740_992
            &&& recorded.len() <= 4_294_967_295
            &&& forall|i: int, j: int|
                0 <= i < recorded.len() && 0 <= j < recorded.len() ==> recorded[i] - recorded[j]
                    + tick <= 9_007_199_254_740_992
        },
{
}

/// Event times can be played if and only if each tick can take in its share of them, can be
/// had, and leaves room for the next one, and what is left can be taken in at the end.
pub proof fn law_what_can_be_played(
    device: crate::ewm::EwmState,
    ts: Seq<i64>,
    from: int,
    t: int,
    tick: int,
    horizon: int,
    to: int,
)
    requires
        0 <= from <= to <= ts.len(),
        forall|i: int| from <= i < to ==> #[trigger] ts[i] <= t,
        to < ts.len() ==> ts[to] > t,
    ensures
        tick <= 0 || t <= 0 || t > horizon ==> (playable(device, ts, from, t, tick, horizon)
            <==> device.accepts(ts.skip(from))),
        0 < tick && 0 < t <= horizon ==> (playable(device, ts, from, t, tick, horizon) <==> {
            let busy = device.observe(ts.subrange(from, to));
            &&& device.accepts(ts.subrange(from, to))
            &&& busy.tick_in_range(t as i64)
            &&& t + tick <= 0x7fff_ffff_ffff_ffff
            &&& playable(busy.tick(t as i64), ts, to, t + tick, tick, horizon)
        }),
{
    law_tick_takes_in_the_times_up_to_its_own(ts, from, t, to);
}

/// What ticks report together is the sum of what each of them does.
pub proof fn law_reports_add_up(records: Seq<TickRecord>, more: TickRecord)
    ensures
        reported(Seq::<TickRecord>::empty()) == 0,
        reported(records.push(more)) == reported(records) + more.detail.events,
{
    assert(records.push(more) =~= records + seq![more]);
    lemma_reported_append(records, seq![more]);
    assert(seq![more].drop_first() =~= Seq::<TickRecord>::empty());
    assert(reported(seq![more]) == more.detail.events + reported(Seq::<TickRecord>::empty()));
}

} // verus!
