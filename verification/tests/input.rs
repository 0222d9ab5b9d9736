use mangochill::input_parsing::{
    AXIS_COUNT, Axes, EV_ABS, EV_KEY, EV_SYN, Processor, ProcessorState, SYN_DROPPED,
    read_times_in_range,
};
use mangochill::scratch::{
    ByteOrder, EVENT_SIZE, InputEvent, SCRATCH_INITIAL_SIZE, Scratch, TimeVal, order_of_one,
};

fn event(ts_us: i64, type_: u16, code: u16, value: i32) -> InputEvent {
    InputEvent {
        time: TimeVal {
            tv_sec: ts_us / 1_000_000,
            tv_usec: ts_us % 1_000_000,
        },
        type_,
        code,
        value,
    }
}

fn bytes_of(ev: &InputEvent) -> Vec<u8> {
    let mut b = Vec::new();
    b.extend(ev.time.tv_sec.to_ne_bytes());
    b.extend(ev.time.tv_usec.to_ne_bytes());
    b.extend(ev.type_.to_ne_bytes());
    b.extend(ev.code.to_ne_bytes());
    b.extend(ev.value.to_ne_bytes());
    b
}

fn input_event(ts: i64) -> Vec<u8> {
    bytes_of(&event(ts, 0, 0, 0))
}

fn ensure_scratch_event_len(scratch: &mut Scratch, events: usize) {
    while scratch.read_buffer_len() / EVENT_SIZE < events {
        let n = scratch.read_buffer_len();
        scratch.process(n, |_| (false, 0));
    }
}

#[test]
fn scratch_full_flow() {
    let mut scratch = Scratch::new();
    let mut evdev = vec![];
    evdev.extend(input_event(1234));
    evdev.extend(input_event(1234));
    evdev.extend(input_event(1235));
    evdev.extend(input_event(9999));
    evdev.extend(input_event(9998));
    let mut ix: i64 = 0;
    scratch.read_buffer_mut()[..24].copy_from_slice(&evdev[..24]);
    let ts = scratch.process(24, |ts| {
        assert_eq!(1234, ts.time.tv_usec, "{ix}");
        ix += 1;
        (true, ix * 100)
    });
    assert_eq!(1, ix);
    assert_eq!(ts, &[100]);
    scratch.read_buffer_mut()[..48].copy_from_slice(&evdev[24..72]);
    let ts = scratch.process(48, |ts| {
        assert_eq!(if ix == 1 { 1234 } else { 1235 }, ts.time.tv_usec, "{ix}");
        ix += 1;
        (ix == 3, ix * 10)
    });
    assert_eq!(3, ix);
    assert_eq!(ts, &[30]);
    scratch.read_buffer_mut()[..48].copy_from_slice(&evdev[72..][..2 * 24]);
    let ts = scratch.process(48, |ts| {
        assert_eq!(if ix == 3 { 9999 } else { 9998 }, ts.time.tv_usec, "{ix}");
        ix += 1;
        (ix == 4, ts.time.tv_usec)
    });
    assert_eq!(5, ix);
    assert_eq!(ts, &[9999]);
    assert_eq!(1, 1);
}

#[test]
fn events_apart_from_the_buffer_are_judged() {
    let mut scratch = Scratch::new();
    let events = vec![event(5, 1, 30, 1), event(6, 1, 30, 0), event(7, 1, 31, 1)];
    let ts = scratch.process_input_events(&events, |ev| (ev.value == 1, ev.time.tv_usec * 2));
    assert_eq!(ts, &[10, 14]);
    assert_eq!(scratch.process_input_events(&[], |_| (true, 1)), &[] as &[i64]);
}

#[test]
fn torn_read_cannot_be_processed() {
    let mut scratch = Scratch::new();
    let evdev = input_event(1234);
    // an event is 24 bytes, let's cut off at 15
    scratch.read_buffer_mut()[..15].copy_from_slice(&evdev[..15]);
    assert!(!scratch.can_process(15));
    assert!(scratch.can_process(24));
    assert!(!scratch.can_process(scratch.read_buffer_len() + 24));
}

#[test]
fn full_read_doubles_the_buffer() {
    let mut scratch = Scratch::new();
    assert_eq!(scratch.read_buffer_len(), SCRATCH_INITIAL_SIZE * EVENT_SIZE);
    let n = scratch.read_buffer_len();
    scratch.process(n - EVENT_SIZE, |_| (false, 0));
    assert_eq!(scratch.read_buffer_len(), n);
    let kept = scratch.process(n, |_| (true, 7)).len();
    assert_eq!(kept, SCRATCH_INITIAL_SIZE);
    assert_eq!(scratch.read_buffer_len(), 2 * n);
    scratch.process(n, |_| (true, 7));
    assert_eq!(scratch.read_buffer_len(), 2 * n);
}

#[test]
fn events_are_laid_out_as_the_kernel_does() {
    assert_eq!(EVENT_SIZE, std::mem::size_of::<libc::input_event>());
    assert_eq!(AXIS_COUNT, libc::ABS_CNT);
    let mut scratch = Scratch::new();
    let ev = InputEvent {
        time: TimeVal {
            tv_sec: -3,
            tv_usec: 0x0102_0304_0506_0708,
        },
        type_: 0xfedc,
        code: 0x1234,
        value: -2,
    };
    scratch.read_buffer_mut()[..EVENT_SIZE].copy_from_slice(&bytes_of(&ev));
    let mut seen = Vec::new();
    scratch.process(EVENT_SIZE, |e| {
        seen.push(*e);
        (false, 0)
    });
    assert_eq!(seen, vec![ev]);
}

#[test]
fn process_filled_read_without_abs_reports_overflow_only() {
    let mut scratch = Scratch::new();
    let events = vec![
        event(100, EV_SYN, SYN_DROPPED, 0),
        event(101, 1, 30, 1),
    ];
    ensure_scratch_event_len(&mut scratch, events.len());

    let mut state = ();
    let outcome =
        <Processor as ProcessorState<false>>::process_events(&mut scratch, &events, &mut state);

    assert_eq!(outcome.timestamps_us, &[101]);
    assert!(outcome.overflowed);
    assert!(!outcome.is_active_indefinitely);
}

#[test]
fn process_filled_read_with_abs_reports_activity() {
    let mut scratch = Scratch::new();
    let events = vec![event(200, EV_ABS, 0, 10)];
    ensure_scratch_event_len(&mut scratch, events.len());

    let min_max = [(-10, 10); AXIS_COUNT];
    let mut state = (Axes::from_min_max(&min_max), false);
    let outcome =
        <Processor as ProcessorState<true>>::process_events(&mut scratch, &events, &mut state);

    assert_eq!(outcome.timestamps_us, &[200]);
    assert!(!outcome.overflowed);
    assert!(outcome.is_active_indefinitely);
}

#[test]
fn process_filled_read_dedups_equal_timestamps() {
    let mut scratch = Scratch::new();
    let events = vec![event(300, 1, 31, 1), event(300, 1, 31, 0)];
    ensure_scratch_event_len(&mut scratch, events.len());

    let mut state = ();
    let outcome =
        <Processor as ProcessorState<false>>::process_events(&mut scratch, &events, &mut state);

    assert_eq!(outcome.timestamps_us, &[300]);
    assert!(!outcome.overflowed);
    assert!(!outcome.is_active_indefinitely);
}

#[test]
fn batch_is_read_from_the_buffer() {
    let mut scratch = Scratch::new();
    let events = [
        event(1_000_500, EV_KEY, 30, 1),
        event(1_000_500, EV_SYN, 0, 0),
        event(1_000_700, EV_ABS, 1, 50),
        event(1_000_700, EV_SYN, 0, 0),
        event(1_000_900, EV_ABS, 1, 90),
    ];
    let mut read: usize = 0;
    for ev in &events {
        scratch.read_buffer_mut()[read..read + EVENT_SIZE].copy_from_slice(&bytes_of(ev));
        read += EVENT_SIZE;
    }
    assert!(scratch.can_process(read));
    assert!(read_times_in_range(&scratch, read));

    let mut state = (Axes::from_min_max(&[(0, 100); AXIS_COUNT]), false);
    let outcome =
        <Processor as ProcessorState<true>>::process_batch(&mut scratch, read, &mut state);
    // 50 is in the middle of the deadzone, 90 is not
    assert_eq!(outcome.timestamps_us, &[1_000_500, 1_000_900]);
    assert!(!outcome.overflowed);
    assert!(outcome.is_active_indefinitely);
    assert_eq!(state.0.last_values[1], 90);
    assert_eq!(state.0.last_values[0], i32::MIN);
}

#[test]
fn separator_hides_an_event_of_the_same_time() {
    let mut scratch = Scratch::new();
    let events = vec![event(400, EV_SYN, 0, 0), event(400, EV_KEY, 30, 1)];
    let mut state = ();
    let outcome =
        <Processor as ProcessorState<false>>::process_events(&mut scratch, &events, &mut state);
    assert_eq!(outcome.timestamps_us, &[] as &[i64]);
    assert!(!outcome.overflowed);
}

#[test]
fn pointer_is_not_held() {
    let mut scratch = Scratch::new();
    let events = vec![event(500, EV_ABS, 0, 10)];
    let mut state = (Axes::from_min_max(&[(-10, 10); AXIS_COUNT]), true);
    let outcome =
        <Processor as ProcessorState<true>>::process_events(&mut scratch, &events, &mut state);
    assert_eq!(outcome.timestamps_us, &[500]);
    assert!(!outcome.is_active_indefinitely);
}

#[test]
fn released_axis_is_not_held() {
    let mut scratch = Scratch::new();
    let mut state = (Axes::from_min_max(&[(-100, 100); AXIS_COUNT]), false);
    let away = vec![event(600, EV_ABS, 2, 20)];
    let outcome =
        <Processor as ProcessorState<true>>::process_events(&mut scratch, &away, &mut state);
    assert!(outcome.is_active_indefinitely);
    let back = vec![event(700, EV_ABS, 2, 19)];
    let outcome =
        <Processor as ProcessorState<true>>::process_events(&mut scratch, &back, &mut state);
    assert_eq!(outcome.timestamps_us, &[] as &[i64]);
    assert!(!outcome.is_active_indefinitely);
}

#[test]
fn axes_depend_on_events_alone() {
    let events: Vec<InputEvent> = (0..20)
        .map(|i| event(i * 10, EV_ABS, (i % 3) as u16, i as i32 * 7 - 50))
        .collect();
    let ranges = [(-100, 100); AXIS_COUNT];
    let mut scratch = Scratch::new();
    let mut whole = (Axes::from_min_max(&ranges), false);
    <Processor as ProcessorState<true>>::process_events(&mut scratch, &events, &mut whole);
    let mut parts = (Axes::from_min_max(&ranges), false);
    <Processor as ProcessorState<true>>::process_events(&mut scratch, &events[..7], &mut parts);
    <Processor as ProcessorState<true>>::process_events(&mut scratch, &events[7..], &mut parts);
    assert_eq!(whole.0.last_values, parts.0.last_values);
    assert_eq!(whole.0.midpoints, Axes::from_min_max(&ranges).midpoints);
    assert_eq!(whole.0.deadzones, Axes::from_min_max(&ranges).deadzones);
}

#[test]
fn midpoints_and_deadzones() {
    let mut ranges = [(0, 0); AXIS_COUNT];
    ranges[0] = (0, 255);
    ranges[1] = (-32768, 32767);
    ranges[2] = (5, 0);
    ranges[3] = (i32::MIN, -1);
    assert!(Axes::ranges_have_deadzones(&ranges));
    let axes = Axes::from_min_max(&ranges);
    assert_eq!(axes.midpoints[0], 127);
    assert_eq!(axes.deadzones[0], 25);
    assert_eq!(axes.midpoints[1], -1);
    assert_eq!(axes.deadzones[1], 6553);
    // a span of -5 is halved to -2
    assert_eq!(axes.midpoints[2], 3);
    assert_eq!(axes.deadzones[2], 0);
    assert_eq!(axes.midpoints[3], i32::MIN + i32::MAX / 2);
    assert_eq!(axes.deadzones[3], 214_748_364);
    assert_eq!(axes.midpoints[4], 0);
    assert_eq!(axes.deadzones[4], 0);
    assert!(axes.last_values.iter().all(|&v| v == i32::MIN));
}

#[test]
fn ranges_without_deadzones() {
    let mut ranges = [(0, 0); AXIS_COUNT];
    ranges[63] = (10, 0);
    assert!(!Axes::ranges_have_deadzones(&ranges));
    ranges[63] = (9, 0);
    assert!(Axes::ranges_have_deadzones(&ranges));
    ranges[63] = (i32::MIN, 0);
    assert!(!Axes::ranges_have_deadzones(&ranges));
}

#[test]
fn time_that_does_not_fit_is_noticed() {
    let mut scratch = Scratch::new();
    let ev = InputEvent {
        time: TimeVal {
            tv_sec: i64::MAX / 1_000_000 + 1,
            tv_usec: 0,
        },
        type_: EV_KEY,
        code: 30,
        value: 1,
    };
    scratch.read_buffer_mut()[..EVENT_SIZE].copy_from_slice(&bytes_of(&ev));
    assert!(!read_times_in_range(&scratch, EVENT_SIZE));
}

#[test]
fn bytes_can_come_in_either_order() {
    let ev = InputEvent {
        time: TimeVal {
            tv_sec: -3,
            tv_usec: 0x0102_0304_0506_0708,
        },
        type_: 0xfedc,
        code: 0x1234,
        value: -2,
    };
    let mut high = Vec::new();
    high.extend(ev.time.tv_sec.to_be_bytes());
    high.extend(ev.time.tv_usec.to_be_bytes());
    high.extend(ev.type_.to_be_bytes());
    high.extend(ev.code.to_be_bytes());
    high.extend(ev.value.to_be_bytes());
    let mut low = Vec::new();
    low.extend(ev.time.tv_sec.to_le_bytes());
    low.extend(ev.time.tv_usec.to_le_bytes());
    low.extend(ev.type_.to_le_bytes());
    low.extend(ev.code.to_le_bytes());
    low.extend(ev.value.to_le_bytes());
    for (order, bytes) in [(ByteOrder::HighestFirst, high), (ByteOrder::LowestFirst, low)] {
        let mut scratch = Scratch::with_order(order);
        scratch.read_buffer_mut()[..EVENT_SIZE].copy_from_slice(&bytes);
        let mut seen = Vec::new();
        scratch.process(EVENT_SIZE, |e| {
            seen.push(*e);
            (false, 0)
        });
        assert_eq!(seen, vec![ev]);
    }
    assert_eq!(order_of_one(1u16.to_le_bytes()), ByteOrder::LowestFirst);
    assert_eq!(order_of_one(1u16.to_be_bytes()), ByteOrder::HighestFirst);
}

#[test]
fn bytes_behind_a_read_stay() {
    let mut scratch = Scratch::new();
    let n = scratch.read_buffer_len();
    for (i, b) in scratch.read_buffer_mut().iter_mut().enumerate() {
        *b = i as u8;
    }
    let before = scratch.read_buffer_mut().to_vec();
    scratch.process(EVENT_SIZE, |_| (true, 5));
    assert_eq!(scratch.read_buffer_mut().to_vec(), before);
    scratch.process(n, |_| (true, 5));
    assert_eq!(scratch.read_buffer_mut()[..n].to_vec(), before);
}

#[test]
fn buffer_makes_no_difference() {
    let events: Vec<InputEvent> = (0..32)
        .map(|i| event(1_000_000 + i / 2 * 10, (i % 4) as u16, i as u16, i as i32 * 9 - 90))
        .collect();
    let ranges = [(-100, 100); AXIS_COUNT];

    let mut apart = Scratch::new();
    let mut state_apart = (Axes::from_min_max(&ranges), false);
    let outcome =
        <Processor as ProcessorState<true>>::process_events(&mut apart, &events, &mut state_apart);
    let expected = (
        outcome.timestamps_us.to_vec(),
        outcome.overflowed,
        outcome.is_active_indefinitely,
    );

    let mut buffered = Scratch::new();
    let bytes: Vec<u8> = events.iter().flat_map(bytes_of).collect();
    buffered.read_buffer_mut().copy_from_slice(&bytes);
    let mut state_buffered = (Axes::from_min_max(&ranges), false);
    let outcome = <Processor as ProcessorState<true>>::process_batch(
        &mut buffered,
        bytes.len(),
        &mut state_buffered,
    );
    let seen = (
        outcome.timestamps_us.to_vec(),
        outcome.overflowed,
        outcome.is_active_indefinitely,
    );
    assert_eq!(seen, expected);
    assert!(!seen.0.is_empty());
    assert_eq!(state_buffered.0.last_values, state_apart.0.last_values);
    assert_eq!(apart.read_buffer_len(), bytes.len());
    assert_eq!(buffered.read_buffer_len(), 2 * bytes.len());
}
