use muzzman_daemon::client::RequestIds;
use muzzman_daemon::facade::{
    client_version_text, daemon_version_text, push_decimal, refusal, set_enabled_call, settle,
    settle_row, start, CallError, LocalOnly, RowKind,
};

#[test]
fn register_action_is_refused_without_a_request() {
    let mut ids = RequestIds::new();
    let r: Result<u128, CallError<()>> = start(&mut ids, Some(LocalOnly::RegisterAction));
    match r {
        Err(CallError::Custom(m)) => assert!(m.starts_with("cannot register action over the network")),
        _ => panic!("expected a refusal"),
    }
    // no request id was used up, so nothing went out
    assert_eq!(ids.generate(), Some(1));
}

#[test]
fn every_local_only_call_is_refused() {
    for op in [
        LocalOnly::RegisterAction,
        LocalOnly::RemoveAction,
        LocalOnly::ModuleStepElement,
        LocalOnly::ModuleStepLocation,
        LocalOnly::SetEnabledWithStorage,
    ] {
        let mut ids = RequestIds::new();
        let r: Result<u128, CallError<()>> = start(&mut ids, Some(op));
        match r {
            Err(CallError::Custom(m)) => assert_eq!(m, refusal(op)),
            _ => panic!("expected a refusal"),
        }
        assert_eq!(ids.generate(), Some(1));
    }
}

#[test]
fn set_enabled_with_storage_is_local_only() {
    assert_eq!(set_enabled_call(true), Some(LocalOnly::SetEnabledWithStorage));
    assert_eq!(set_enabled_call(false), None);
    let mut ids = RequestIds::new();
    let r: Result<u128, CallError<()>> = start(&mut ids, set_enabled_call(false));
    assert!(matches!(r, Ok(1)));
}

#[test]
fn settle_maps_each_reply() {
    assert!(matches!(settle::<u8, u8>(None), Err(CallError::ServerTimeOut)));
    assert!(matches!(settle::<u8, u8>(Some(Ok(4))), Ok(4)));
    assert!(matches!(settle::<u8, u8>(Some(Err(2))), Err(CallError::Session(2))));
}

#[test]
fn destroyed_row_is_reported_as_not_transferable() {
    match settle_row::<u8>(Some(Ok(())), RowKind::Element) {
        CallError::Custom(m) => assert_eq!(m, "Cannot Transfer ERow"),
        _ => panic!("expected Custom"),
    }
    match settle_row::<u8>(Some(Ok(())), RowKind::Location) {
        CallError::Custom(m) => assert_eq!(m, "LRow Cannot be transfered!"),
        _ => panic!("expected Custom"),
    }
    assert!(matches!(settle_row::<u8>(None, RowKind::Module), CallError::ServerTimeOut));
    assert!(matches!(settle_row::<u8>(Some(Err(3)), RowKind::Module), CallError::Session(3)));
}

#[test]
fn version_texts() {
    assert_eq!(daemon_version_text(3), "3, Daemon: 1");
    assert_eq!(client_version_text("3, Daemon: 1"), "3, Daemon: 1, DaemonClient: 1");
    assert_eq!(daemon_version_text(1207), "1207, Daemon: 1");
}

#[test]
fn decimal_digits() {
    let mut s = String::new();
    push_decimal(&mut s, 0);
    assert_eq!(s, "0");
    let mut s = String::from("x");
    push_decimal(&mut s, u64::MAX);
    assert_eq!(s, format!("x{}", u64::MAX));
}
