use muzzman_daemon::server::PeerAddr;
use muzzman_daemon::wire::{chunks, reverse, to_datagrams, PeerBuffers};
use muzzman_daemon::CHUNK_SIZE;

#[test]
fn datagrams_are_reversed_and_cut() {
    let encoded: Vec<u8> = (0..5000u32).map(|i| (i % 251) as u8).collect();
    let d = to_datagrams(&encoded);
    assert_eq!(d.len(), 2);
    assert_eq!(d[0].len(), CHUNK_SIZE);
    assert_eq!(d[1].len(), 5000 - CHUNK_SIZE);
    let joined: Vec<u8> = d.concat();
    let mut expected = encoded.clone();
    expected.reverse();
    assert_eq!(joined, expected);
    assert_eq!(d[0][0], encoded[4999]);
}

#[test]
fn small_frame_is_one_datagram() {
    let d = to_datagrams(&vec![1, 2, 3]);
    assert_eq!(d, vec![vec![3, 2, 1]]);
}

#[test]
fn exact_multiple_has_no_empty_tail() {
    let bytes = vec![7u8; 2 * CHUNK_SIZE];
    let c = chunks(&bytes);
    assert_eq!(c.len(), 2);
    assert!(c.iter().all(|p| p.len() == CHUNK_SIZE));
}

#[test]
fn empty_frame_sends_nothing() {
    assert!(to_datagrams(&Vec::new()).is_empty());
    assert!(reverse(&Vec::new()).is_empty());
}

#[test]
fn pieces_from_one_peer_are_joined() {
    let a = PeerAddr { ip: 0x7f00_0001, port: 4000 };
    let b = PeerAddr { ip: 0x7f00_0001, port: 4001 };
    let mut bufs = PeerBuffers::new();
    bufs.add(a, &vec![1, 2]);
    bufs.add(b, &vec![9]);
    bufs.add(a, &vec![3]);
    let out = bufs.into_buffers();
    assert_eq!(out, vec![(a, vec![1, 2, 3]), (b, vec![9])]);
}
