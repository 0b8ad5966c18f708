use volctl::error::VolumeError;
use volctl::machine::{step, Action, Event, State};

#[test]
fn test_no_arguments_is_silent_noop() {
    let (state, action) = step(State::Ready, Event::Invoked { arg: None });
    assert_eq!(state, State::Finished { code: 0 });
    assert_eq!(action, Action::Exit { code: 0, error: None });
}

#[test]
fn test_malformed_argument_exits_before_os_calls() {
    let (state, action) = step(
        State::Ready,
        Event::Invoked {
            arg: Some("abc".to_string()),
        },
    );
    assert_eq!(state, State::Finished { code: 1 });
    match action {
        Action::Exit { code, error } => {
            assert_eq!(code, 1);
            assert!(matches!(error, Some(VolumeError::InvalidInput(_))));
        }
        other => panic!("expected an exit, got {:?}", other),
    }
}

#[test]
fn test_out_of_range_argument_message() {
    let (state, action) = step(
        State::Ready,
        Event::Invoked {
            arg: Some("150".to_string()),
        },
    );
    assert_eq!(state, State::Finished { code: 1 });
    match action {
        Action::Exit { code, error } => {
            assert_eq!(code, 1);
            assert_eq!(error.unwrap().message(), "Volume must be 0-100");
        }
        other => panic!("expected an exit, got {:?}", other),
    }
}

#[test]
fn test_half_volume_full_run() {
    let (s1, a1) = step(
        State::Ready,
        Event::Invoked {
            arg: Some("50".to_string()),
        },
    );
    assert_eq!(a1, Action::QueryDefaultDevice);

    let (s2, a2) = step(s1, Event::DeviceResult { status: 0, id: 42 });
    match a2 {
        Action::WriteVolume { device, volume } => {
            assert_eq!(device, 42);
            assert_eq!(volume.scaled(), 500_000_000);
        }
        other => panic!("expected a volume write, got {:?}", other),
    }

    let (s3, a3) = step(s2, Event::WriteResult { status: 0 });
    assert_eq!(
        a3,
        Action::WriteMute {
            device: 42,
            muted: false,
        }
    );

    let (s4, a4) = step(s3, Event::WriteResult { status: 0 });
    assert_eq!(s4, State::Finished { code: 0 });
    assert_eq!(a4, Action::Exit { code: 0, error: None });
}

#[test]
fn test_zero_volume_full_run_mutes() {
    let (s1, a1) = step(
        State::Ready,
        Event::Invoked {
            arg: Some("0".to_string()),
        },
    );
    assert_eq!(a1, Action::QueryDefaultDevice);

    let (s2, a2) = step(s1, Event::DeviceResult { status: 0, id: 42 });
    match a2 {
        Action::WriteVolume { device, volume } => {
            assert_eq!(device, 42);
            assert_eq!(volume.scaled(), 0);
        }
        other => panic!("expected a volume write, got {:?}", other),
    }

    let (s3, a3) = step(s2, Event::WriteResult { status: 0 });
    assert_eq!(
        a3,
        Action::WriteMute {
            device: 42,
            muted: true,
        }
    );

    let (s4, a4) = step(s3, Event::WriteResult { status: 0 });
    assert_eq!(s4, State::Finished { code: 0 });
    assert_eq!(a4, Action::Exit { code: 0, error: None });
}

#[test]
fn test_device_lookup_failure_surfaces_code() {
    let (s1, _) = step(
        State::Ready,
        Event::Invoked {
            arg: Some("30".to_string()),
        },
    );
    let (s2, a2) = step(s1, Event::DeviceResult { status: -1, id: 0 });
    assert_eq!(s2, State::Finished { code: 1 });
    match a2 {
        Action::Exit { code, error } => {
            assert_eq!(code, 1);
            let message = error.unwrap().message();
            assert!(message.contains("-1"), "message was {:?}", message);
        }
        other => panic!("expected an exit, got {:?}", other),
    }
}

#[test]
fn test_volume_write_failure_skips_mute() {
    let (s1, _) = step(
        State::Ready,
        Event::Invoked {
            arg: Some("30".to_string()),
        },
    );
    let (s2, _) = step(s1, Event::DeviceResult { status: 0, id: 42 });
    let (s3, a3) = step(s2, Event::WriteResult { status: -50 });
    // The invocation is over: no mute write is ever requested.
    assert_eq!(s3, State::Finished { code: 1 });
    match a3 {
        Action::Exit { code, error } => {
            assert_eq!(code, 1);
            assert_eq!(error, Some(VolumeError::SetError(-50)));
            let message = error.unwrap().message();
            assert!(message.contains("-50"), "message was {:?}", message);
        }
        other => panic!("expected an exit, got {:?}", other),
    }
}

#[test]
fn test_mute_write_failure_surfaces_code() {
    let (s1, _) = step(
        State::Ready,
        Event::Invoked {
            arg: Some("0".to_string()),
        },
    );
    let (s2, _) = step(s1, Event::DeviceResult { status: 0, id: 7 });
    let (s3, _) = step(s2, Event::WriteResult { status: 0 });
    let (s4, a4) = step(s3, Event::WriteResult { status: -9 });
    assert_eq!(s4, State::Finished { code: 1 });
    assert_eq!(
        a4,
        Action::Exit {
            code: 1,
            error: Some(VolumeError::SetError(-9)),
        }
    );
}

#[test]
fn test_one_percent_unmutes() {
    let (s1, _) = step(
        State::Ready,
        Event::Invoked {
            arg: Some("1".to_string()),
        },
    );
    let (s2, _) = step(s1, Event::DeviceResult { status: 0, id: 3 });
    let (_, a3) = step(s2, Event::WriteResult { status: 0 });
    assert_eq!(
        a3,
        Action::WriteMute {
            device: 3,
            muted: false,
        }
    );
}
