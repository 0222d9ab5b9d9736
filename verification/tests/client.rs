use mangochill::client::{FpsSink, Link, Search, SinkAction, mangohud_socket, pick_socket, receive};
use mangochill::decimal::decimal_text;
use mangochill::gamescope::{MIN_VERSION, socket_path, version_to_bind};

const SOCKETS: &str = "Num       RefCount Protocol Flags    Type St Inode Path\n\
    0000000000000000: 00000002 00000000 00010000 0001 01 40321 @/tmp/.X11-unix/X0\n\
    0000000000000000: 00000002 00000000 00010000 0001 01 40322 @mangohud-\n\
    0000000000000000: 00000002 00000000 00010000 0001 01 40323 @mangohud-4711\n\
    0000000000000000: 00000002 00000000 00010000 0001 01 40324 @mangohud-99\n";

#[test]
fn first_socket_is_found() {
    assert_eq!(
        mangohud_socket(SOCKETS, None),
        Some("mangohud-4711".to_string())
    );
    assert_eq!(
        mangohud_socket("@mangohud-12x@mangohud-3", None),
        Some("mangohud-12".to_string())
    );
    assert_eq!(mangohud_socket("mangohud-12", None), None);
    assert_eq!(mangohud_socket("@mangohud-x", None), None);
    assert_eq!(mangohud_socket("", None), None);
}

#[test]
fn socket_of_the_child_is_found() {
    assert_eq!(
        mangohud_socket(SOCKETS, Some(99)),
        Some("mangohud-99".to_string())
    );
    // the start of a name will do
    assert_eq!(
        mangohud_socket(SOCKETS, Some(47)),
        Some("mangohud-47".to_string())
    );
    assert_eq!(mangohud_socket(SOCKETS, Some(12)), None);
    assert_eq!(mangohud_socket("mangohud-12", Some(12)), None);
}

#[test]
fn child_goes_before_what_was_found() {
    let found = Some("mangohud-1".to_string());
    assert_eq!(pick_socket(SOCKETS, None, found.clone()), found);
    assert_eq!(pick_socket(SOCKETS, None, None), None);
    assert_eq!(
        pick_socket(SOCKETS, Some(99), found.clone()),
        Some("mangohud-99".to_string())
    );
    assert_eq!(pick_socket(SOCKETS, Some(5), found), None);
}

#[test]
fn numbers_as_text() {
    for n in [0, 7, 10, 99, 100, 65_535, 4_294_967_295] {
        assert_eq!(decimal_text(n), format!("{n}"));
    }
}

fn text(action: SinkAction) -> String {
    match action {
        SinkAction::Write(t) => t,
        SinkAction::SetFps(_) => panic!("nothing to write"),
    }
}

fn fps(action: SinkAction) -> u16 {
    match action {
        SinkAction::SetFps(f) => f,
        SinkAction::Write(_) => panic!("nothing to set"),
    }
}

#[test]
fn limits_are_passed_on() {
    assert_eq!(
        text(receive(FpsSink::MangoHud, 120, 30, 144)),
        ":set_fps_limit=60;\n"
    );
    assert_eq!(fps(receive(FpsSink::Gamescope, 120, 30, 144)), 60);
    assert_eq!(fps(receive(FpsSink::Gamescope, 121, 30, 144)), 61);
    assert_eq!(fps(receive(FpsSink::Gamescope, 10, 30, 144)), 30);
    assert_eq!(fps(receive(FpsSink::Gamescope, 1_000, 30, 144)), 144);
    assert_eq!(fps(receive(FpsSink::Gamescope, u32::MAX, 30, 65_535)), 65_535);
    assert_eq!(fps(receive(FpsSink::Gamescope, 0, 60, 60)), 60);
    assert_eq!(
        text(receive(FpsSink::MangoHud, 0, 0, 144)),
        ":set_fps_limit=0;\n"
    );
}

#[test]
fn search_prefers_gamescope() {
    assert_eq!(Search::new().step(true), Search::UseGamescope);
    assert_eq!(Search::new().step(false).step(true), Search::UseMangoHud);
    // no child: over at once
    assert_eq!(
        Search::new().step(false).step(false).step(false),
        Search::NoBackend
    );
    let waiting = Search::new().step(false).step(false).step(true);
    assert_eq!(waiting, Search::AskDeadline);
    assert_eq!(waiting.step(true), Search::TimedOut);
    assert_eq!(waiting.step(false), Search::AskExit);
    assert_eq!(waiting.step(false).step(true), Search::ChildExited);
    assert_eq!(waiting.step(false).step(false), Search::new());
    for over in [
        Search::UseGamescope,
        Search::UseMangoHud,
        Search::NoBackend,
        Search::TimedOut,
        Search::ChildExited,
    ] {
        assert_eq!(over.step(true), over);
        assert_eq!(over.step(false), over);
    }
}

#[test]
fn control_interface_is_bound() {
    let name = "gamescope_control".to_string();
    assert_eq!(MIN_VERSION, 2);
    assert_eq!(version_to_bind(&name, 1, 3), None);
    assert_eq!(version_to_bind(&name, 2, 3), Some(2));
    assert_eq!(version_to_bind(&name, 3, 3), Some(3));
    assert_eq!(version_to_bind(&name, 7, 3), Some(3));
    assert_eq!(version_to_bind(&"wl_compositor".to_string(), 7, 3), None);
}

#[test]
fn path_of_the_gamescope_socket() {
    let bytes = |s: &str| Some(s.as_bytes().to_vec());
    assert_eq!(
        socket_path(None, bytes("/run/user/1000")),
        bytes("/run/user/1000/gamescope-0")
    );
    assert_eq!(
        socket_path(bytes("gamescope-3"), bytes("/run/user/1000/")),
        bytes("/run/user/1000/gamescope-3")
    );
    assert_eq!(socket_path(bytes("/tmp/g"), None), bytes("/tmp/g"));
    assert_eq!(socket_path(None, None), None);
    assert_eq!(socket_path(None, bytes("run")), None);
    assert_eq!(socket_path(None, bytes("")), None);
    assert_eq!(socket_path(bytes(""), bytes("/run")), bytes("/run/"));
    for (name, dir) in [("g", "/run"), ("g", "/run/"), ("a/b", "/"), ("", "/x")] {
        let mut p = std::path::PathBuf::from(dir);
        p.push(name);
        assert_eq!(
            socket_path(bytes(name), bytes(dir)),
            bytes(p.to_str().unwrap())
        );
    }
}

#[test]
fn connection_goes_well() {
    let mut seen = vec![Link::new()];
    for _ in 0..7 {
        seen.push(seen[seen.len() - 1].step(true));
    }
    assert_eq!(
        seen,
        vec![
            Link::Pause,
            Link::Connect,
            Link::AskLimiter,
            Link::Register,
            Link::Serve,
            Link::Rest,
            Link::Pause,
            Link::Connect,
        ]
    );
}

#[test]
fn connection_is_closed_after_a_failure() {
    assert_eq!(Link::Connect.step(false), Link::Rest);
    assert_eq!(Link::AskLimiter.step(false), Link::CloseUnanswered);
    assert_eq!(Link::CloseUnanswered.step(true), Link::Pause);
    assert_eq!(Link::Register.step(false), Link::CloseUnregistered);
    assert_eq!(Link::CloseUnregistered.step(true), Link::Rest);
    assert_eq!(Link::Serve.step(false), Link::Rest);
}

#[test]
fn server_is_tried_again() {
    for answers in 0..64u32 {
        let mut link = Link::Connect;
        let mut tries = 0;
        for i in 0..6 {
            link = link.step(answers >> i & 1 == 1);
            if link == Link::Connect {
                tries += 1;
            }
        }
        assert!(tries > 0);
    }
}
