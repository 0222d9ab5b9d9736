use std::f64::consts::LN_2;

use mangochill::double::through_double;
use mangochill::ewm::{DeviceEwm, EnvelopeStep, FpsDetail, ResolutionEstimator};

const MIN: f64 = 30.0;
const MAX: f64 = 144.0;
const TICK: i64 = 1000; // 1ms ticks (1kHz)

/// The envelope of a device, in double precision.
struct Follower {
    ewm: DeviceEwm,
    attack_hl_us: f64,
    release_hl_us: f64,
}

struct Limit {
    fps_limit: f64,
    y: f64,
    expected: f64,
    detail: FpsDetail,
}

fn moved(y: f64, goal: f64, dt_us: i64, half_life_us: f64) -> f64 {
    let alpha = 1.0 - (-LN_2 * dt_us as f64 / half_life_us).exp();
    y + alpha * (goal - y)
}

impl Follower {
    fn new(attack_hl_us: f64, release_hl_us: f64) -> Self {
        Follower {
            ewm: DeviceEwm::new(),
            attack_hl_us,
            release_hl_us,
        }
    }

    fn observe_batch(&mut self, ts: &[i64]) {
        assert!(self.ewm.can_observe(ts));
        self.ewm.observe_batch(ts);
    }

    fn compute_fps_detailed(&mut self, now_us: i64, min_fps: f64, max_fps: f64) -> Limit {
        assert!(self.ewm.can_compute_fps(now_us));
        let detail = self.ewm.compute_fps_detailed(now_us);
        let y = f64::from_bits(self.ewm.level());
        let y = match detail.step {
            EnvelopeStep::Hold => y,
            EnvelopeStep::Attack { dt_us } => moved(y, 1.0, dt_us, self.attack_hl_us),
            EnvelopeStep::Release { dt_us } => moved(y, 0.0, dt_us, self.release_hl_us),
            EnvelopeStep::Split {
                attack_us,
                release_us,
            } => {
                let y = moved(y, 1.0, attack_us, self.attack_hl_us);
                moved(y, 0.0, release_us, self.release_hl_us)
            }
        };
        self.ewm.set_level(y.to_bits());
        Limit {
            fps_limit: y * (max_fps - min_fps) + min_fps,
            y,
            expected: detail.dt_us as f64 / detail.input_res_us as f64,
            detail,
        }
    }

    fn compute_fps(&mut self, now_us: i64, min_fps: f64, max_fps: f64) -> f64 {
        self.compute_fps_detailed(now_us, min_fps, max_fps).fps_limit
    }
}

/// Simulate a tick loop: feed events that fall within each tick interval,
/// then call compute_fps. Ticks are at TICK, 2*TICK, ...
fn simulate(
    ewm: &mut Follower,
    tick_us: i64,
    num_ticks: usize,
    events: &[i64],
    min_fps: f64,
    max_fps: f64,
) -> f64 {
    let mut last = min_fps;
    let mut ev_idx: usize = 0;
    for i in 0..num_ticks {
        let t = (i as i64 + 1) * tick_us;
        let start = ev_idx;
        while ev_idx < events.len() && events[ev_idx] <= t {
            ev_idx += 1;
        }
        if start < ev_idx {
            ewm.observe_batch(&events[start..ev_idx]);
        }
        last = ewm.compute_fps(t, min_fps, max_fps);
    }
    last
}

#[test]
fn steady_state_convergence_125hz() {
    // Key property: with p10-based normalization, a low polling-rate device
    // (125Hz = 8000µs deltas) ramps to the same limit as a 1kHz device.
    let mut ewm = Follower::new(10_000.0, 100_000.0);
    let events: Vec<i64> = (1..=10_000).map(|i| i * 8000).collect();
    let last = simulate(&mut ewm, TICK, 80_000, &events, MIN, MAX);
    assert!(
        (last - MAX).abs() < 0.5,
        "125Hz steady state: expected ~{MAX}, got {last}"
    );
}

#[test]
fn half_life_accuracy() {
    // Use 100ms HL so the 2ms in-rhythm grace period is negligible.
    let hl = 100_000.0;
    let mut ewm = Follower::new(hl, hl);
    // 5s warm-up at 1kHz, then 100 idle ticks = 100ms = 1 half-life
    let events: Vec<i64> = (1..=5_000).map(|i| i * 1000).collect();
    let last = simulate(&mut ewm, TICK, 5_100, &events, MIN, MAX);
    let expected = 0.5 * (MAX - MIN) + MIN;
    assert!(
        (last - expected).abs() < 2.0,
        "after 1 half-life: expected ~{expected}, got {last}"
    );
}

#[test]
fn leading_stale_timestamps_skipped() {
    let mut ewm = Follower::new(10_000.0, 100_000.0);
    ewm.observe_batch(&[1000, 2000, 3000]);
    ewm.observe_batch(&[1000, 2000, 4000, 5000]);
    let detail = ewm.compute_fps_detailed(6000, MIN, MAX);
    assert_eq!(
        detail.detail.events, 5,
        "stale leading timestamps should be skipped"
    );
}

#[test]
fn split_tick_matches_separate_ticks() {
    // A single tick spanning the hold->idle transition (split path) must
    // produce the same y as two ticks landing exactly on each side.
    let hl_a = 50_000.0;
    let hl_r = 100_000.0;

    // 20 events at 1kHz — enough for p10, short enough that y stays near 0.
    // p10 = 1000µs
    let events: Vec<i64> = (1..=20).map(|i| i * 1000).collect();

    let mut a = Follower::new(hl_a, hl_r);
    let mut b = Follower::new(hl_a, hl_r);

    a.observe_batch(&events);
    b.observe_batch(&events);
    a.compute_fps(20_000, MIN, MAX);
    b.compute_fps(20_000, MIN, MAX);

    // one coarse tick spanning the transition (split path)
    let da = a.compute_fps_detailed(30_000, MIN, MAX);

    // EWM b: pure attack up to transition, then pure release to same endpoint
    b.compute_fps(22_000, MIN, MAX);
    let db = b.compute_fps_detailed(30_000, MIN, MAX);

    assert!(
        (da.y - db.y).abs() < 1e-10,
        "split tick y={} != separate ticks y={}",
        da.y, db.y
    );
}

#[test]
fn tick_is_split_at_the_transition() {
    let events: Vec<i64> = (1..=20).map(|i| i * 1000).collect();
    let mut ewm = DeviceEwm::new();
    ewm.observe_batch(&events);
    assert_eq!(ewm.compute_fps(20_000), EnvelopeStep::Hold);
    let detail = ewm.compute_fps_detailed(30_000);
    assert_eq!(
        detail,
        FpsDetail {
            step: EnvelopeStep::Split {
                attack_us: 2_000,
                release_us: 8_000,
            },
            dt_us: 10_000,
            input_res_us: 1_000,
            p10: Some(1_000),
            events: 0,
        }
    );
}

#[test]
fn busy_rises_and_idle_falls() {
    let events: Vec<i64> = (1..=20).map(|i| i * 1000).collect();
    let mut ewm = DeviceEwm::new();
    ewm.observe_batch(&events);
    ewm.compute_fps(20_000);
    assert_eq!(ewm.compute_fps(21_000), EnvelopeStep::Attack { dt_us: 1_000 });
    assert_eq!(ewm.compute_fps(22_000), EnvelopeStep::Attack { dt_us: 1_000 });
    assert_eq!(ewm.compute_fps(22_500), EnvelopeStep::Release { dt_us: 500 });
    assert_eq!(ewm.compute_fps(99_000), EnvelopeStep::Release { dt_us: 76_500 });
    // a clock that stands still counts for one microsecond
    assert_eq!(ewm.compute_fps(99_000), EnvelopeStep::Release { dt_us: 1 });
}

#[test]
fn device_without_events_holds() {
    let mut ewm = DeviceEwm::new();
    assert_eq!(ewm.last_event_us(), None);
    let detail = ewm.compute_fps_detailed(5_000);
    assert_eq!(
        detail,
        FpsDetail {
            step: EnvelopeStep::Hold,
            dt_us: 0,
            input_res_us: 1,
            p10: None,
            events: 0,
        }
    );
    assert_eq!(ewm.last_tick_us(), Some(5_000));
}

#[test]
fn unknown_interval_is_the_tick() {
    let mut ewm = DeviceEwm::new();
    ewm.observe_batch(&[1_000]);
    ewm.compute_fps(2_000);
    // 4ms since the tick before: the transition is at 1_000 + 2 * 4_000
    let detail = ewm.compute_fps_detailed(6_000);
    assert_eq!(detail.step, EnvelopeStep::Attack { dt_us: 4_000 });
    assert_eq!(detail.input_res_us, 4_000);
    assert_eq!(detail.p10, None);
}

#[test]
fn batches_can_be_cut_anywhere() {
    let events: Vec<i64> = (1..=40).map(|i| i * i * 10).collect();
    let mut whole = DeviceEwm::new();
    whole.observe_batch(&events);
    let expected = whole.compute_fps_detailed(20_000);
    for cut in 0..=events.len() {
        let mut parts = DeviceEwm::new();
        parts.observe_batch(&events[..cut]);
        parts.observe_batch(&events[cut..]);
        assert_eq!(parts.last_event_us(), Some(16_000));
        assert_eq!(parts.compute_fps_detailed(20_000), expected);
    }
}

#[test]
fn repeated_batch_is_not_counted() {
    let mut ewm = DeviceEwm::new();
    ewm.observe_batch(&[10, 20, 30]);
    ewm.observe_batch(&[10, 20, 30]);
    assert_eq!(ewm.pending_events(), 3);
    ewm.observe_batch(&[]);
    assert_eq!(ewm.pending_events(), 3);
}

#[test]
fn disorder_is_not_observable() {
    let ewm = DeviceEwm::new();
    assert!(!ewm.can_observe(&[20, 10]));
    assert!(!ewm.can_observe(&[10, 10]));
    assert!(!ewm.is_new_in_order(&[10, 10]));
    assert!(!ewm.can_observe(&[i64::MIN + 1]));
    assert!(ewm.can_observe(&[10, 20]));
}

#[test]
fn tick_out_of_range_is_noticed() {
    let mut ewm = DeviceEwm::new();
    ewm.observe_batch(&[0]);
    assert!(ewm.can_compute_fps(i64::MIN + 5));
    ewm.compute_fps(i64::MIN + 5);
    assert!(!ewm.can_compute_fps(i64::MAX));
    assert!(!ewm.can_compute_fps(100));
    assert!(ewm.can_compute_fps(i64::MIN + 10));
}

#[test]
fn polling_interval_is_the_tenth_percentile() {
    let mut r = ResolutionEstimator::new();
    assert_eq!(r.p10(), None);
    // nine gaps are too few
    r.push_events(&[0, 100, 300, 600, 1_000, 1_500, 2_100, 2_800, 3_600, 4_500]);
    assert_eq!(r.num_deltas(), 9);
    assert_eq!(r.p10(), None);
    // gaps of 100, 200, ... 1000: index 1 in ascending order
    r.push_events(&[5_500]);
    assert_eq!(r.num_deltas(), 10);
    assert_eq!(r.p10(), Some(200));
    // asking again finds the same
    assert_eq!(r.p10(), Some(200));
}

#[test]
fn gaps_need_not_come_in_order() {
    let mut r = ResolutionEstimator::new();
    // gaps of 900, 7, 800, 50, 700, 600, 500, 400, 300, 200
    r.push_events(&[
        0, 900, 907, 1_707, 1_757, 2_457, 3_057, 3_557, 3_957, 4_257, 4_457,
    ]);
    assert_eq!(r.p10(), Some(50));
}

#[test]
fn history_is_a_minute_at_most() {
    let mut r = ResolutionEstimator::new();
    let early: Vec<i64> = (0..20).collect();
    r.push_events(&early);
    assert_eq!(r.num_deltas(), 19);
    r.push_events(&[60_000_010]);
    // 10 to 19 are within the window, and the new one
    assert_eq!(r.num_deltas(), 10);
    r.push_events(&[200_000_000]);
    assert_eq!(r.num_deltas(), 0);
}

#[test]
fn history_is_a_thousand_times_at_most() {
    let mut r = ResolutionEstimator::new();
    let ts: Vec<i64> = (0..1_500).map(|i| i * 10).collect();
    r.push_events(&ts);
    assert_eq!(r.num_deltas(), 1_023);
    r.push_events(&[15_000, 15_001]);
    assert_eq!(r.num_deltas(), 1_023);
}

#[test]
fn whole_numbers_through_a_double() {
    let around: [i64; 12] = [
        0,
        1,
        1_000,
        (1 << 53) - 1,
        1 << 53,
        (1 << 53) + 1,
        (1 << 53) + 2,
        (1 << 53) + 3,
        (1 << 60) + 129,
        (1 << 62) + 257,
        i64::MAX - 1,
        i64::MAX,
    ];
    for n in around {
        assert_eq!(through_double(n), n as f64 as i64, "{n}");
    }
    assert_eq!(through_double(9_007_199_254_740_993), 9_007_199_254_740_992);
}

#[test]
fn activity_flag_is_kept() {
    let mut ewm = DeviceEwm::new();
    assert!(!ewm.is_active_indefinitely());
    ewm.active_indefinitely(true);
    assert!(ewm.is_active_indefinitely());
    ewm.active_indefinitely(false);
    assert!(!ewm.is_active_indefinitely());
}

#[test]
fn expected_events_of_a_tick() {
    let mut ewm = Follower::new(10_000.0, 100_000.0);
    let events: Vec<i64> = (1..=20).map(|i| i * 1000).collect();
    ewm.observe_batch(&events);
    ewm.compute_fps(20_000, MIN, MAX);
    let limit = ewm.compute_fps_detailed(25_000, MIN, MAX);
    assert_eq!(limit.expected, 5.0);
}

#[test]
fn one_half_life_is_half_the_way() {
    let mut ewm = Follower::new(1_000.0, 1_000.0);
    let events: Vec<i64> = (1..=20).map(|i| i * 1000).collect();
    ewm.observe_batch(&events);
    ewm.compute_fps(20_000, 0.0, 100.0);
    assert!((ewm.compute_fps(21_000, 0.0, 100.0) - 50.0).abs() < 1e-9);
    assert!((ewm.compute_fps(22_000, 0.0, 100.0) - 75.0).abs() < 1e-9);
    assert!((ewm.compute_fps(23_000, 0.0, 100.0) - 37.5).abs() < 1e-9);
}

#[test]
fn stale_front_makes_no_difference_to_batches() {
    let ts = [10, 20, 30, 40, 50, 60];
    for cut in 0..=ts.len() {
        let mut whole = DeviceEwm::new();
        whole.observe_batch(&[5, 30]);
        whole.observe_batch(&ts);
        let mut parts = DeviceEwm::new();
        parts.observe_batch(&[5, 30]);
        parts.observe_batch(&ts[..cut]);
        parts.observe_batch(&ts[cut..]);
        assert_eq!(parts.pending_events(), 5);
        assert_eq!(parts.compute_fps_detailed(70), whole.compute_fps_detailed(70));
    }
}

#[test]
fn every_time_counts_in_one_tick() {
    let mut ewm = DeviceEwm::new();
    ewm.observe_batch(&[10, 20]);
    ewm.observe_batch(&[10, 20, 30]);
    ewm.observe_batch(&[]);
    assert_eq!(ewm.compute_fps_detailed(40).events, 3);
    assert_eq!(ewm.compute_fps_detailed(50).events, 0);
    ewm.observe_batch(&[30, 45]);
    assert_eq!(ewm.compute_fps_detailed(60).events, 1);
}
