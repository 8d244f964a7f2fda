use muzzman_daemon::client::{ClientCore, Incoming, PendingResponses, RequestIds, WaitOutcome};
use muzzman_daemon::ids::LocationId;
use muzzman_daemon::registry::SessionEvent;
use muzzman_daemon::TIMEOUT_MS;

#[test]
fn request_ids_start_at_one_and_increase() {
    let mut ids = RequestIds::new();
    assert_eq!(ids.generate(), Some(1));
    assert_eq!(ids.generate(), Some(2));
    assert_eq!(ids.generate(), Some(3));
}

#[test]
fn each_caller_gets_its_own_response() {
    let mut p: PendingResponses<&str> = PendingResponses::new();
    p.push(2, "second");
    p.push(1, "first");
    assert_eq!(p.take(1), Some("first"));
    assert_eq!(p.take(2), Some("second"));
    assert_eq!(p.take(1), None);
    assert_eq!(p.len(), 0);
}

#[test]
fn take_claims_the_first_of_equal_ids() {
    let mut p: PendingResponses<u8> = PendingResponses::new();
    p.push(5, 1);
    p.push(5, 2);
    assert_eq!(p.take(5), Some(1));
    assert_eq!(p.take(5), Some(2));
}

#[test]
fn poll_times_out_not_before_deadline() {
    let mut p: PendingResponses<u8> = PendingResponses::new();
    assert!(matches!(p.poll(1, 0, TIMEOUT_MS), WaitOutcome::Pending));
    assert!(matches!(p.poll(1, TIMEOUT_MS - 1, TIMEOUT_MS), WaitOutcome::Pending));
    assert!(matches!(p.poll(1, TIMEOUT_MS, TIMEOUT_MS), WaitOutcome::TimedOut));
}

#[test]
fn dropped_request_times_out_and_next_succeeds() {
    let mut core: ClientCore<u64> = ClientCore::new();
    let first = core.begin::<()>(None).ok().unwrap();
    // the daemon drops the first request
    assert!(matches!(core.poll(first, 2999, TIMEOUT_MS), WaitOutcome::Pending));
    assert!(matches!(core.poll(first, 3000, TIMEOUT_MS), WaitOutcome::TimedOut));
    let second = core.begin::<()>(None).ok().unwrap();
    assert_ne!(first, second);
    core.receive(Incoming::Response(second, 42));
    match core.poll(second, 10, TIMEOUT_MS) {
        WaitOutcome::Ready(v) => assert_eq!(v, 42),
        _ => panic!("response not found"),
    }
}

#[test]
fn late_response_is_dropped() {
    let mut core: ClientCore<u64> = ClientCore::new();
    let id = core.begin::<()>(None).ok().unwrap();
    assert!(matches!(core.poll(id, 3500, TIMEOUT_MS), WaitOutcome::TimedOut));
    core.receive(Incoming::Response(id, 7));
    assert_eq!(core.pending.len(), 0);
}

#[test]
fn repeated_response_is_dropped() {
    let mut core: ClientCore<u64> = ClientCore::new();
    let id = core.begin::<()>(None).ok().unwrap();
    core.receive(Incoming::Response(id, 1));
    assert!(matches!(core.poll(id, 0, TIMEOUT_MS), WaitOutcome::Ready(1)));
    core.receive(Incoming::Response(id, 1));
    assert_eq!(core.pending.len(), 0);
}

#[test]
fn unsolicited_response_is_dropped() {
    let mut core: ClientCore<u64> = ClientCore::new();
    core.receive(Incoming::Response(99, 1));
    assert_eq!(core.pending.len(), 0);
    assert!(!core.waiting.contains(99));
}

#[test]
fn ready_response_wins_over_deadline() {
    let mut p: PendingResponses<u8> = PendingResponses::new();
    p.push(3, 9);
    assert!(matches!(p.poll(3, 10_000, TIMEOUT_MS), WaitOutcome::Ready(9)));
}

#[test]
fn default_location_round_trip() {
    let mut core: ClientCore<Result<LocationId, ()>> = ClientCore::new();
    let id = core.begin::<()>(None).ok().unwrap();
    assert_eq!(id, 1);
    assert!(core.waiting.contains(1));
    core.receive(Incoming::Response(1, Ok(LocationId::new(vec![0]))));
    let got = match core.poll(1, 0, TIMEOUT_MS) {
        WaitOutcome::Ready(Ok(l)) => l,
        _ => panic!("no default location"),
    };
    let h = core.registry.locations.get_or_intern(got);
    assert_eq!(core.registry.locations.id_of(h).unwrap().path, vec![0]);
}

#[test]
fn events_go_to_registry_not_pending() {
    let mut core: ClientCore<u8> = ClientCore::new();
    let h = core.registry.locations.get_or_intern(LocationId::new(vec![0, 3]));
    core.receive(Incoming::Event(SessionEvent::LocationIdChanged(
        LocationId::new(vec![0, 3]),
        LocationId::new(vec![0, 1]),
    )));
    assert_eq!(core.pending.len(), 0);
    assert_eq!(core.registry.locations.id_of(h).unwrap().path, vec![0, 1]);
}
