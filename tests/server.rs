use muzzman_daemon::server::{ClientTable, PeerAddr};

const LOOPBACK: u32 = 0x7f00_0001;

fn peer(port: u16) -> PeerAddr {
    PeerAddr { ip: LOOPBACK, port }
}

#[test]
fn every_recent_client_gets_one_event() {
    let mut t = ClientTable::new();
    t.touch(peer(5000), 1_000);
    t.touch(peer(5001), 1_500);
    t.touch(peer(5000), 2_000);
    t.touch(peer(5002), 2_500);
    let targets = t.event_targets(3_000);
    assert_eq!(targets, vec![peer(5000), peer(5001), peer(5002)]);
}

#[test]
fn silent_client_gets_no_event() {
    let mut t = ClientTable::new();
    t.touch(peer(5000), 1_000);
    t.touch(peer(5001), 2_000);
    // 5000 was last heard 3001 ms ago, 5001 exactly 3000 ms ago
    let targets = t.event_targets(4_001);
    assert_eq!(targets, vec![peer(5001)]);
    assert_eq!(t.len(), 1);
}

#[test]
fn refreshed_client_stays_subscribed() {
    let mut t = ClientTable::new();
    t.touch(peer(6000), 0);
    t.touch(peer(6000), 5_000);
    assert_eq!(t.event_targets(7_000), vec![peer(6000)]);
}

#[test]
fn clock_going_back_keeps_client() {
    let mut t = ClientTable::new();
    t.touch(peer(6001), 9_000);
    assert_eq!(t.event_targets(1_000), vec![peer(6001)]);
}

#[test]
fn no_clients_no_events() {
    let mut t = ClientTable::new();
    assert!(t.event_targets(0).is_empty());
}
