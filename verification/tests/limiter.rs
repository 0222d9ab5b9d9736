use mangochill::ewm::EnvelopeStep;
use mangochill::fps_limiter::{
    DeviceLevel, FpsLimiterImpl, FpsSubscribers, ParamError, RegisterError, RegisterParams,
    TickOutcome, feed_events, round_halves, snap_to_divider, tick_period_us,
};

fn params() -> RegisterParams {
    RegisterParams {
        frequency_hz: 10,
        min_fps: 30,
        max_fps: 144,
        attack_half_life_us: 500_000,
        release_half_life_us: 5_000_000,
        snap_to_divider: false,
    }
}

fn level(device_id: u16, halves: u32) -> DeviceLevel {
    DeviceLevel {
        device_id,
        level: 0,
        halves,
    }
}

#[test]
fn parameters_are_checked_in_order() {
    let p = params();
    assert_eq!(p.validate(), Ok(()));
    let bad = RegisterParams {
        frequency_hz: 0,
        min_fps: 144,
        ..p
    };
    assert_eq!(bad.validate(), Err(ParamError::Frequency));
    let bad = RegisterParams {
        frequency_hz: 1001,
        ..p
    };
    assert_eq!(bad.validate(), Err(ParamError::Frequency));
    let bad = RegisterParams {
        min_fps: 144,
        attack_half_life_us: 0,
        ..p
    };
    assert_eq!(bad.validate(), Err(ParamError::FpsRange));
    let bad = RegisterParams {
        min_fps: 0,
        max_fps: 0,
        ..p
    };
    assert_eq!(bad.validate(), Err(ParamError::FpsRange));
    let bad = RegisterParams {
        attack_half_life_us: 0,
        ..p
    };
    assert_eq!(bad.validate(), Err(ParamError::HalfLife));
    let bad = RegisterParams {
        release_half_life_us: 0,
        ..p
    };
    assert_eq!(bad.validate(), Err(ParamError::HalfLife));
    for hz in [1, 1000] {
        let good = RegisterParams {
            frequency_hz: hz,
            ..p
        };
        assert_eq!(good.validate(), Ok(()));
    }
}

#[test]
fn refusals_have_words() {
    assert_eq!(
        ParamError::Frequency.message(),
        "frequencyHz must be within 1-1000"
    );
    assert_eq!(ParamError::FpsRange.message(), "invalid fps range");
    assert_eq!(ParamError::HalfLife.message(), "half-lives must be > 0");
}

#[test]
fn registration_counts_up_and_removal_undoes_it() {
    let mut limiter = FpsLimiterImpl::new();
    let mut subs: FpsSubscribers<char> = FpsSubscribers::new();
    assert!(subs.is_empty());
    assert!(limiter.has_next());
    assert_eq!(
        limiter.register::<char, ()>(&mut subs, params(), Ok('a')),
        Ok(0)
    );
    assert_eq!(
        limiter.register::<char, ()>(&mut subs, params(), Ok('b')),
        Ok(1)
    );
    assert!(!subs.is_empty());
    assert_eq!(subs.handle(0), Some(&'a'));
    assert_eq!(subs.handle(1), Some(&'b'));
    assert_eq!(subs.handle(2), None);
    assert_eq!(subs.fps_range(1), Some((30, 144)));
    assert_eq!(subs.half_lives_us(1), Some((500_000, 5_000_000)));
    subs.remove(0);
    assert_eq!(subs.handle(0), None);
    assert!(!subs.is_empty());
    subs.remove(1);
    assert!(subs.is_empty());
    // numbers are not handed out twice
    assert_eq!(
        limiter.register::<char, ()>(&mut subs, params(), Ok('c')),
        Ok(2)
    );
}

#[test]
fn refused_registration_leaves_no_trace() {
    let mut limiter = FpsLimiterImpl::new();
    let mut subs: FpsSubscribers<char> = FpsSubscribers::default();
    let bad = RegisterParams {
        frequency_hz: 0,
        ..params()
    };
    assert_eq!(
        limiter.register(&mut subs, bad, Err("gone")),
        Err(RegisterError::Params(ParamError::Frequency))
    );
    assert_eq!(
        limiter.register(&mut subs, params(), Err("gone")),
        Err(RegisterError::Receiver("gone"))
    );
    assert!(subs.is_empty());
    assert_eq!(
        limiter.register::<char, ()>(&mut subs, params(), Ok('a')),
        Ok(0)
    );
}

#[test]
fn period_of_a_frequency() {
    assert_eq!(tick_period_us(1), 1_000_000);
    assert_eq!(tick_period_us(3), 333_333);
    assert_eq!(tick_period_us(10), 100_000);
    assert_eq!(tick_period_us(1000), 1_000);
}

#[test]
fn snapping_to_dividers() {
    // whole-number division: 90, 45, 30, 22, 18, ...
    assert_eq!(snap_to_divider(90, 10, 180), 90);
    assert_eq!(snap_to_divider(90, 10, 140), 90);
    assert_eq!(snap_to_divider(90, 10, 120), 45);
    assert_eq!(snap_to_divider(90, 10, 60), 30);
    assert_eq!(snap_to_divider(90, 10, 48), 22);
    // halfway between 45 and 90: the larger
    assert_eq!(snap_to_divider(90, 10, 134), 45);
    assert_eq!(snap_to_divider(90, 10, 135), 90);
    assert_eq!(snap_to_divider(144, 30, 60), 28);
    assert_eq!(snap_to_divider(144, 30, 66), 36);
    assert_eq!(snap_to_divider(60, 59, 118), 60);
    assert_eq!(snap_to_divider(1, 0, 2), 1);
    assert_eq!(snap_to_divider(0, 0, 0), 0);
}

#[test]
fn snapping_goes_past_repeated_dividers() {
    // 240 / 19 and 240 / 20 are both 12, and 240 / 24 is 10
    assert_eq!(snap_to_divider(240, 10, 20), 10);
    assert_eq!(snap_to_divider(240, 10, 22), 11);
}

#[test]
fn snapping_is_to_the_nearest() {
    for max in [30u16, 60, 90, 120, 144, 165, 240] {
        for min in [1u16, 10, 24, 29] {
            for halves in 2 * u32::from(min)..=2 * u32::from(max) {
                let best = snap_to_divider(max, min, halves);
                let off = |d: u16| (4 * i64::from(d) - 2 * i64::from(halves) - 1).abs();
                for n in 1..=max {
                    assert!(off(best) <= off(max / n), "{max} {min} {halves} {n}");
                }
                assert!((1..=max).any(|n| max / n == best));
            }
        }
    }
}

#[test]
fn rounding_halves() {
    assert_eq!(round_halves(0), 0);
    assert_eq!(round_halves(1), 1);
    assert_eq!(round_halves(2), 1);
    assert_eq!(round_halves(3), 2);
    assert_eq!(round_halves(119), 60);
    assert_eq!(round_halves(131_070), 65_535);
    assert_eq!(round_halves(131_069), 65_535);
    assert_eq!(round_halves(u32::MAX), 65_535);
}

#[test]
fn ticks_of_a_subscriber() {
    let mut limiter = FpsLimiterImpl::new();
    let mut subs: FpsSubscribers<()> = FpsSubscribers::new();
    let id = limiter
        .register::<(), ()>(&mut subs, params(), Ok(()))
        .unwrap();

    // no device: the lower bound is sent, once
    assert_eq!(subs.begin_tick(id, 1_000).unwrap(), vec![]);
    assert_eq!(subs.finish_tick(id, &[]), TickOutcome::Send);
    assert_eq!(subs.begin_tick(id, 2_000).unwrap(), vec![]);
    assert_eq!(subs.finish_tick(id, &[]), TickOutcome::Unchanged);

    let ts: Vec<i64> = (1..=20).map(|i| i * 1000).collect();
    assert!(subs.can_feed(7, &ts));
    feed_events(&mut subs, 7, &ts, false);
    assert!(subs.can_tick(id, 20_000));
    let report = subs.begin_tick(id, 20_000).unwrap();
    assert_eq!(report.len(), 1);
    assert_eq!(report[0].device_id, 7);
    assert_eq!(report[0].detail.events, 20);
    assert_eq!(report[0].detail.step, EnvelopeStep::Hold);
    let level = DeviceLevel {
        device_id: 7,
        level: 0.5f64.to_bits(),
        halves: 174,
    };
    assert_eq!(subs.finish_tick(id, &[level]), TickOutcome::Send);

    let report = subs.begin_tick(id, 21_000).unwrap();
    assert_eq!(f64::from_bits(report[0].level), 0.5);
    assert_eq!(report[0].detail.events, 0);
    assert_eq!(
        report[0].detail.step,
        EnvelopeStep::Attack { dt_us: 1_000 }
    );
    // 173 halves are 87 frames when rounded, as 174 are
    let level = DeviceLevel {
        halves: 173,
        ..level
    };
    assert_eq!(subs.finish_tick(id, &[level]), TickOutcome::Unchanged);

    subs.remove(id);
    assert!(subs.begin_tick(id, 22_000).is_none());
    assert_eq!(subs.finish_tick(id, &[]), TickOutcome::Stopped);
}

#[test]
fn highest_limit_wins() {
    let mut limiter = FpsLimiterImpl::new();
    let mut subs: FpsSubscribers<()> = FpsSubscribers::new();
    let snapping = RegisterParams {
        snap_to_divider: true,
        ..params()
    };
    let id = limiter
        .register::<(), ()>(&mut subs, snapping, Ok(()))
        .unwrap();
    assert_eq!(
        subs.finish_tick(id, &[level(1, 70), level(2, 150), level(3, 20)]),
        TickOutcome::SendSnapped(72)
    );
    assert_eq!(subs.finish_tick(id, &[level(1, 140)]), TickOutcome::Unchanged);
    assert_eq!(
        subs.finish_tick(id, &[level(1, 288)]),
        TickOutcome::SendSnapped(144)
    );
}

#[test]
fn devices_do_not_disturb_each_other() {
    let mut limiter = FpsLimiterImpl::new();
    let mut subs: FpsSubscribers<()> = FpsSubscribers::new();
    let a = limiter
        .register::<(), ()>(&mut subs, params(), Ok(()))
        .unwrap();
    let b = limiter
        .register::<(), ()>(&mut subs, params(), Ok(()))
        .unwrap();
    feed_events(&mut subs, 1, &[10, 20], false);
    feed_events(&mut subs, 2, &[15], true);
    for id in [a, b] {
        let mut report = subs.begin_tick(id, 100).unwrap();
        report.sort_by_key(|t| t.device_id);
        let counts: Vec<(u16, u32)> = report.iter().map(|t| (t.device_id, t.detail.events)).collect();
        assert_eq!(counts, vec![(1, 2), (2, 1)]);
    }
    assert!(!subs.can_feed(1, &[40, 30]));
}

#[test]
fn no_limit_is_sent_twice_in_a_row() {
    let mut limiter = FpsLimiterImpl::new();
    let mut subs: FpsSubscribers<()> = FpsSubscribers::new();
    let from_zero = RegisterParams {
        min_fps: 0,
        ..params()
    };
    let id = limiter
        .register::<(), ()>(&mut subs, from_zero, Ok(()))
        .unwrap();
    let mut sent = Vec::new();
    for halves in [0, 0, 119, 120, 121, 121, 60, 0, 1, 2, 0] {
        if subs.finish_tick(id, &[level(1, halves)]) != TickOutcome::Unchanged {
            sent.push(round_halves(halves));
        }
    }
    assert_eq!(sent, vec![60, 61, 30, 0, 1, 0]);
}

#[test]
fn unreachable_subscriber_is_forgotten() {
    let mut limiter = FpsLimiterImpl::new();
    let mut subs: FpsSubscribers<char> = FpsSubscribers::new();
    let a = limiter
        .register::<char, ()>(&mut subs, params(), Ok('a'))
        .unwrap();
    let b = limiter
        .register::<char, ()>(&mut subs, params(), Ok('b'))
        .unwrap();
    assert!(subs.sent(a, true));
    assert_eq!(subs.handle(a), Some(&'a'));
    assert!(!subs.sent(a, false));
    assert_eq!(subs.handle(a), None);
    assert_eq!(subs.handle(b), Some(&'b'));
    assert_eq!(subs.finish_tick(a, &[]), TickOutcome::Stopped);
}
