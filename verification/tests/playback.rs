use mangochill::ewm::EnvelopeStep;
use mangochill::replay::{
    ORDINARY_US, Replay, is_ordinary_recording, prepare_timestamps, replay_recorded,
};

#[test]
fn recordings_are_put_in_order() {
    assert_eq!(
        prepare_timestamps(vec![500, 300, 500, 400, 300]),
        vec![0, 100, 200]
    );
    assert_eq!(prepare_timestamps(vec![-5]), vec![0]);
    assert_eq!(prepare_timestamps(vec![]), Vec::<i64>::new());
}

#[test]
fn recording_is_played_past_its_end() {
    let recorded: Vec<i64> = (0..20).map(|i| 7_000_000 + i * 1_000).rev().collect();
    assert!(is_ordinary_recording(&recorded, 10_000));
    let records = replay_recorded(recorded, 10_000).unwrap();
    let times: Vec<i64> = records.iter().map(|r| r.time_us).collect();
    // the last event is at 19ms, so the last tick is at or before 29ms
    assert_eq!(times, vec![10_000, 20_000]);
    assert_eq!(records[0].detail.events, 11);
    assert_eq!(records[1].detail.events, 9);
    assert_eq!(records[0].detail.step, EnvelopeStep::Hold);
    assert_eq!(
        records[1].detail.step,
        EnvelopeStep::Attack { dt_us: 10_000 }
    );
}

#[test]
fn empty_recording_has_nothing_to_play() {
    assert!(replay_recorded(vec![], 1_000).is_none());
}

#[test]
fn extraordinary_recordings() {
    assert!(!is_ordinary_recording(&[1], 0));
    assert!(!is_ordinary_recording(&[1], -1));
    assert!(!is_ordinary_recording(&[0, ORDINARY_US], 1));
    assert!(is_ordinary_recording(&[1, ORDINARY_US], 1));
    assert!(!is_ordinary_recording(&[i64::MIN, i64::MAX], 1));
    assert!(is_ordinary_recording(&[], 1));
}

#[test]
fn replay_as_times_come_in() {
    let mut replay = Replay::new();
    replay.reset(1_000);
    // nothing happens before the first event
    assert!(replay.is_ordinary_run(&[], 5_000));
    replay.run(&[], 5_000);
    assert!(replay.records().is_empty());

    assert!(replay.is_ordinary_run(&[500, 1_500, 1_600, 9_000], 2_500));
    replay.run(&[500, 1_500, 1_600, 9_000], 2_500);
    let seen: Vec<(i64, u32)> = replay
        .records()
        .iter()
        .map(|r| (r.time_us, r.detail.events))
        .collect();
    assert_eq!(seen, vec![(1_000, 1), (2_000, 2)]);

    // the time that was left over counts for the next tick
    replay.run(&[], 4_000);
    let seen: Vec<(i64, u32)> = replay
        .records()
        .iter()
        .map(|r| (r.time_us, r.detail.events))
        .collect();
    assert_eq!(seen, vec![(1_000, 1), (2_000, 2), (3_000, 1), (4_000, 0)]);
    assert_eq!(replay.into_records().len(), 4);
}

#[test]
fn reset_starts_over() {
    let mut replay = Replay::default();
    replay.reset(1_000);
    replay.run(&[100], 3_000);
    assert_eq!(replay.records().len(), 3);
    replay.reset(500);
    assert!(replay.records().is_empty());
    replay.run(&[100], 1_000);
    let times: Vec<i64> = replay.records().iter().map(|r| r.time_us).collect();
    assert_eq!(times, vec![500, 1_000]);
}

#[test]
fn replay_counts_every_event_once() {
    let ts: Vec<i64> = (1..200).map(|i| i * 37).collect();
    let mut replay = Replay::new();
    replay.reset(100);
    for chunk in ts.chunks(13) {
        let now = chunk[chunk.len() - 1];
        assert!(replay.is_ordinary_run(chunk, now));
        replay.run(chunk, now);
    }
    replay.run(&[], 8_000);
    let total: u32 = replay.records().iter().map(|r| r.detail.events).sum();
    assert_eq!(total as usize, ts.len());
}

#[test]
fn unordinary_runs_are_noticed() {
    let mut replay = Replay::new();
    replay.reset(1_000);
    assert!(!replay.is_ordinary_run(&[-1], 1_000));
    assert!(!replay.is_ordinary_run(&[5, 4], 1_000));
    assert!(!replay.is_ordinary_run(&[5], ORDINARY_US + 1));
    assert!(!replay.is_ordinary_run(&[ORDINARY_US + 1], 1_000));
}

#[test]
fn one_tick_per_interval() {
    for tick in [1, 7, 100, 333, 5_000] {
        let mut replay = Replay::new();
        replay.reset(tick);
        replay.run(&[], 250);
        assert_eq!(replay.records().len(), 0);
        for (ts, horizon) in [(vec![3], 400), (vec![401, 402], 400), (vec![], 1_000)] {
            assert!(replay.can_run(&ts, horizon));
            replay.run(&ts, horizon);
            assert_eq!(replay.records().len() as i64, horizon / tick);
        }
        let total: u32 = replay.records().iter().map(|r| r.detail.events).sum();
        assert_eq!(total, if tick > 1_000 { 0 } else { 3 });
    }
    let mut replay = Replay::new();
    replay.reset(0);
    replay.run(&[3], 400);
    replay.reset(-5);
    replay.run(&[3], 400);
    assert!(replay.records().is_empty());
}

#[test]
fn what_can_be_played() {
    let mut replay = Replay::new();
    replay.reset(1_000);
    assert!(replay.can_run(&[-2_000, -1_000, 500], 3_000));
    replay.run(&[-2_000, -1_000, 500], 3_000);
    assert_eq!(replay.records()[0].detail.events, 3);
    assert!(!replay.can_run(&[700, 600], 4_000));
    assert!(replay.can_run(&[400, 600], 4_000));
    assert!(!replay.can_run(&[700, 700], 4_000));
    let mut replay = Replay::new();
    replay.reset(i64::MAX);
    assert!(!replay.can_run(&[1], i64::MAX));
    assert!(replay.can_run(&[1], i64::MAX - 1));
}
