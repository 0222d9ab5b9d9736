use mangochill::bootstrap::{MangoChillImpl, ServiceError};
use mangochill::debounce::{Debounce, MAX_NS};
use mangochill::input_parsing::AXIS_COUNT;
use mangochill::raw_export::{
    END_US, FIRST_US, can_record, log_record, mono_to_real, to_real,
};
use mangochill::server::{
    DeviceReport, INPUT_PROP_ACCELEROMETER, INPUT_PROP_POINTER, RawServerImpl, RawSubscribers,
    SetupDecision, Stamp, Wakeup, WatchAction, WatchLoop, axis_ranges, has_bit, raw_message,
    set_up, split_us,
};
use mangochill::supervisor::{Assignment, Supervisor, SupervisorAction, is_event_node, same_bytes};

fn paths(names: &[&str]) -> Vec<Vec<u8>> {
    names.iter().map(|n| n.as_bytes().to_vec()).collect()
}

fn assigned(list: &[Assignment]) -> Vec<(String, u16)> {
    list.iter()
        .map(|a| (String::from_utf8(a.path.clone()).unwrap(), a.device_id))
        .collect()
}

fn watch(action: SupervisorAction) -> Vec<(String, u16)> {
    match action {
        SupervisorAction::Watch(list) => assigned(&list),
        _ => panic!("not a list of devices"),
    }
}

#[test]
fn services_of_a_connection() {
    let without: MangoChillImpl<u8, u16> = MangoChillImpl::new(3, None);
    assert_eq!(*without.fps_limiter(), 3);
    assert_eq!(without.raw_events(), Err(ServiceError::RawEventsDisabled));
    assert_eq!(
        ServiceError::RawEventsDisabled.message(),
        "raw events not enabled (server needs --raw flag)"
    );
    let with: MangoChillImpl<u8, u16> = MangoChillImpl::new(3, Some(4));
    assert_eq!(with.raw_events(), Ok(&4));
}

#[test]
fn delay_doubles_and_shrinks() {
    let mut d = Debounce::new(1_000_000);
    assert_eq!(d.period_ns(), 1_000_000);
    assert_eq!(d.expand(), Some(2_000_000));
    assert_eq!(d.expand(), Some(4_000_000));
    assert_eq!(d.shrink(), Some(3_200_000));
    // it does not grow again
    assert_eq!(d.expand(), None);
    assert_eq!(d.period_ns(), 3_200_000);
    assert_eq!(d.shrink(), Some(2_560_000));
    assert_eq!(d.expand(), None);
}

#[test]
fn delay_at_the_edges() {
    let d = Debounce::new(1);
    assert!(!d.can_shrink());
    assert!(d.can_expand());
    let mut d = Debounce::new(2);
    assert!(d.can_shrink());
    assert_eq!(d.shrink(), Some(1));
    let d = Debounce::new(MAX_NS);
    assert!(!d.can_expand());
    assert!(!d.can_shrink());
    assert_eq!(MAX_NS, std::time::Duration::MAX.as_nanos());
}

#[test]
fn bits_of_a_field() {
    assert!(has_bit(&[0b0000_1000], 3));
    assert!(!has_bit(&[0b1111_0111], 3));
    assert!(has_bit(&[0, 0x80], 15));
    assert!(!has_bit(&[0, 0x80], 16));
    assert!(!has_bit(&[], 0));
}

#[test]
fn device_properties_have_the_kernel_numbers() {
    assert_eq!(i32::from(INPUT_PROP_POINTER), libc::INPUT_PROP_POINTER as i32);
    assert_eq!(
        i32::from(INPUT_PROP_ACCELEROMETER),
        libc::INPUT_PROP_ACCELEROMETER as i32
    );
}

#[test]
fn devices_that_cannot_be_set_up() {
    assert!(matches!(
        set_up(&DeviceReport::OpenFailed),
        SetupDecision::Forget
    ));
    for report in [
        DeviceReport::ClockFailed,
        DeviceReport::PropertiesFailed,
        DeviceReport::EventBitsFailed,
    ] {
        assert!(matches!(set_up(&report), SetupDecision::Abandon));
    }
    // an accelerometer is left alone
    let report = DeviceReport::Described {
        properties: vec![0x41],
        event_bits: vec![0x0b, 0, 0, 0],
    };
    assert!(matches!(set_up(&report), SetupDecision::Abandon));
}

#[test]
fn device_is_described_by_its_bits() {
    let described = |properties: u8, events: u8| {
        let report = DeviceReport::Described {
            properties: vec![properties],
            event_bits: vec![events, 0, 0, 0],
        };
        match set_up(&report) {
            SetupDecision::Watch(d) => (d.caps.is_pointer, d.caps.has_abs, d.has_key),
            _ => panic!("device is not watched"),
        }
    };
    assert_eq!(described(0x01, 0x0b), (true, true, true));
    assert_eq!(described(0x00, 0x03), (false, false, true));
    assert_eq!(described(0x02, 0x09), (false, true, false));
    assert_eq!(described(0x00, 0x01), (false, false, false));
}

#[test]
fn missing_ranges_are_empty() {
    let ranges = axis_ranges(&[(1, 2), (3, 4)]);
    assert_eq!(ranges[0], (1, 2));
    assert_eq!(ranges[1], (3, 4));
    assert!(ranges[2..].iter().all(|r| *r == (0, 0)));
    let many = vec![(5, 6); AXIS_COUNT + 3];
    assert!(axis_ranges(&many).iter().all(|r| *r == (5, 6)));
}

#[test]
fn watching_goes_on_until_there_is_nothing() {
    let mut w = WatchLoop::new();
    assert_eq!(
        w.next(),
        WatchAction::Wait {
            delay_ns: 1_000_000
        }
    );
    w.woken(Wakeup::Slept);
    assert_eq!(w.next(), WatchAction::Read);
    assert!(w.can_adapt(24, 768, false));
    assert_eq!(w.after_read(24, 768, false), Some(2_000_000));
    assert_eq!(w.next(), WatchAction::Read);
    w.would_block();
    assert_eq!(
        w.next(),
        WatchAction::Wait {
            delay_ns: 2_000_000
        }
    );
}

#[test]
fn full_and_early_reads_keep_the_delay() {
    let mut w = WatchLoop::new();
    w.woken(Wakeup::Slept);
    assert_eq!(w.after_read(768, 768, false), None);
    w.would_block();
    w.woken(Wakeup::Interrupted);
    assert_eq!(w.after_read(24, 768, false), None);
    w.would_block();
    w.woken(Wakeup::InterruptFailed);
    assert_eq!(w.after_read(24, 768, false), Some(2_000_000));
}

#[test]
fn lost_events_shorten_the_delay_for_good() {
    let mut w = WatchLoop::new();
    w.woken(Wakeup::Interrupted);
    assert_eq!(w.after_read(768, 768, true), Some(800_000));
    for _ in 0..5 {
        w.would_block();
        w.woken(Wakeup::Slept);
        assert_eq!(w.after_read(24, 768, false), None);
        assert_eq!(w.next(), WatchAction::Read);
    }
}

#[test]
fn times_are_split_into_seconds() {
    let stamp = |seconds: i64, microseconds: u32| Stamp {
        seconds,
        microseconds,
    };
    assert_eq!(split_us(0), stamp(0, 0));
    assert_eq!(split_us(1_234_567), stamp(1, 234_567));
    assert_eq!(split_us(-1), stamp(0, u32::MAX));
    assert_eq!(split_us(-2_000_000), stamp(-2, 0));
    for us in [i64::MIN, i64::MIN + 1, -1_000_001, -999_999, 999_999, i64::MAX] {
        assert_eq!(
            split_us(us),
            stamp(us / 1_000_000, (us % 1_000_000) as u32),
            "{us}"
        );
    }
}

#[test]
fn raw_message_has_all_the_times() {
    let m = raw_message(3_000_001, &[1_000_002, 2_000_003]);
    assert_eq!(m.collected_at, split_us(3_000_001));
    assert_eq!(m.readings, vec![split_us(1_000_002), split_us(2_000_003)]);
    assert!(raw_message(0, &[]).readings.is_empty());
}

#[test]
fn raw_subscribers_come_and_go() {
    let mut server = RawServerImpl::new();
    let mut subs: RawSubscribers<char> = RawSubscribers::new();
    assert!(subs.is_empty());
    assert!(server.has_next());
    assert_eq!(server.register::<char, ()>(&mut subs, Ok('a')), Ok(0));
    assert_eq!(server.register(&mut subs, Err("gone")), Err("gone"));
    assert_eq!(server.register::<char, ()>(&mut subs, Ok('b')), Ok(1));
    let mut ids = subs.ids();
    ids.sort();
    assert_eq!(ids, vec![0, 1]);
    assert_eq!(subs.handle(0), Some(&'a'));
    assert_eq!(subs.handle(1), Some(&'b'));
    subs.remove(0);
    assert_eq!(subs.handle(0), None);
    assert_eq!(subs.ids(), vec![1]);
    subs.remove(1);
    assert!(subs.is_empty());
}

#[test]
fn event_nodes_by_name() {
    assert!(is_event_node(b"event0"));
    assert!(is_event_node(b"event"));
    assert!(is_event_node(b"eventful"));
    assert!(!is_event_node(b"even"));
    assert!(!is_event_node(b"mouse0"));
    assert!(!is_event_node(b"js0event"));
    assert!(!is_event_node(b""));
    assert!(same_bytes(b"abc", b"abc"));
    assert!(!same_bytes(b"abc", b"abd"));
    assert!(!same_bytes(b"abc", b"ab"));
}

#[test]
fn supervisor_watches_new_devices() {
    let mut s = Supervisor::new();
    assert!(matches!(s.step(false, &[]), SupervisorAction::Idle));
    let found = paths(&["/dev/input/event0", "/dev/input/event1", "/dev/input/event0"]);
    assert_eq!(
        watch(s.step(true, &found)),
        vec![
            ("/dev/input/event0".to_string(), 0),
            ("/dev/input/event1".to_string(), 1)
        ]
    );
    assert!(s.is_watched(b"/dev/input/event0"));
    assert_eq!(watch(s.step(true, &found)), vec![]);
    s.forget(b"/dev/input/event0");
    assert!(!s.is_watched(b"/dev/input/event0"));
    assert!(s.is_watched(b"/dev/input/event1"));
    assert_eq!(
        watch(s.step(true, &found)),
        vec![("/dev/input/event0".to_string(), 2)]
    );
    s.forget(b"/dev/input/event9");
    assert!(s.is_watched(b"/dev/input/event0"));
}

#[test]
fn supervisor_closes_without_subscribers() {
    let mut s = Supervisor::new();
    let found = paths(&["/dev/input/event0"]);
    assert_eq!(watch(s.step(true, &found)).len(), 1);
    assert!(matches!(s.step(false, &[]), SupervisorAction::CloseAll));
    assert!(!s.is_watched(b"/dev/input/event0"));
    assert!(matches!(s.step(false, &[]), SupervisorAction::Idle));
    // numbers go on
    assert_eq!(
        watch(s.step(true, &found)),
        vec![("/dev/input/event0".to_string(), 1)]
    );
    assert!(matches!(s.step(false, &found), SupervisorAction::CloseAll));
    assert!(matches!(s.step(false, &found), SupervisorAction::Idle));
}

#[test]
fn device_numbers_start_over() {
    let mut s = Supervisor::new();
    let found = paths(&["a"]);
    for i in 0..=u16::MAX {
        assert_eq!(watch(s.step(true, &found)), vec![("a".to_string(), i)]);
        s.forget(b"a");
    }
    assert_eq!(watch(s.step(true, &found)), vec![("a".to_string(), 0)]);
}

#[test]
fn records_are_in_wall_clock_time() {
    let at = split_us(5_000_000);
    let readings = [split_us(4_000_000), split_us(4_500_000)];
    assert!(can_record(at, 1_700_000_005_100_000, 5_100_000, &readings));
    let r = log_record(at, 1_700_000_005_100_000, 5_100_000, &readings);
    assert_eq!(r.collected_at_us, 1_700_000_005_000_000);
    assert_eq!(r.rpc_at_us, 1_700_000_005_100_000);
    assert_eq!(
        r.readings_us,
        vec![1_700_000_004_000_000, 1_700_000_004_500_000]
    );
    assert_eq!(mono_to_real(-7, split_us(10)), 3);
}

#[test]
fn dates_have_bounds() {
    assert_eq!(to_real(FIRST_US, split_us(0)), Some(FIRST_US));
    assert_eq!(to_real(FIRST_US - 1, split_us(0)), None);
    assert_eq!(to_real(END_US - 1, split_us(0)), Some(END_US - 1));
    assert_eq!(to_real(END_US, split_us(0)), None);
    assert_eq!(to_real(i64::MAX, split_us(1)), None);
    assert_eq!(to_real(-1, split_us(0)), Some(-1));
    let far = Stamp {
        seconds: i64::MAX,
        microseconds: 0,
    };
    assert_eq!(to_real(0, far), None);
    assert!(!can_record(far, 0, 0, &[]));
    assert!(!can_record(split_us(0), 0, 0, &[far]));
    assert!(!can_record(split_us(0), i64::MIN, 1, &[]));
}
