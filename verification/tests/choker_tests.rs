use std::cmp::Ordering;

use bitdrift::{Choker, PeerConnection};

fn make_peer(is_interested: bool, last_unchoke_at: Option<u64>) -> PeerConnection {
    let mut peer = PeerConnection::new(30);
    peer.is_peer_interesting = is_interested;
    peer.last_unchoked_at = last_unchoke_at;
    peer
}

#[test]
fn test_sort_by_unchoke_basic() {
    let now: u64 = 100_000;
    let mut peers = vec![
        make_peer(true, Some(now + 10_000)),
        make_peer(true, Some(now + 5_000)),
        make_peer(false, Some(now + 1_000)),
    ];
    let choker = Choker::new(2);
    let upload_slot = choker.sort_by_unchoke(&mut peers);

    assert_eq!(upload_slot, 2);
    assert!(peers[0].is_peer_interesting);
    assert!(peers[1].is_peer_interesting);
    assert!(!peers[2].is_peer_interesting);
    assert!(peers[0].last_unchoked_at <= peers[1].last_unchoked_at);
}

#[test]
fn test_sort_by_unchoke_all_not_interested() {
    let now: u64 = 100_000;
    let mut peers = vec![
        make_peer(false, Some(now + 1_000)),
        make_peer(false, Some(now + 2_000)),
    ];
    let choker = Choker::new(1);
    let upload_slot = choker.sort_by_unchoke(&mut peers);

    assert_eq!(upload_slot, 1);
    assert!(!peers[0].is_peer_interesting);
    assert!(!peers[1].is_peer_interesting);
}

#[test]
fn test_sort_by_unchoke_upload_slot_greater_than_peers() {
    let now: u64 = 100_000;
    let mut peers = vec![
        make_peer(true, Some(now + 3_000)),
        make_peer(true, Some(now + 1_000)),
    ];
    let choker = Choker::new(5);
    let upload_slot = choker.sort_by_unchoke(&mut peers);

    assert_eq!(upload_slot, 2);
    assert!(peers[0].last_unchoked_at <= peers[1].last_unchoked_at);
}

#[test]
fn test_unchoke_compare_round_robin_ordering() {
    let now: u64 = 100_000;
    let a = make_peer(true, Some(now + 1_000));
    let b = make_peer(true, Some(now + 2_000));
    assert_eq!(Choker::unchoke_compare_round_robin(&a, &b), Ordering::Less);
    assert_eq!(Choker::unchoke_compare_round_robin(&b, &a), Ordering::Greater);
    let c = make_peer(false, Some(now));
    assert_eq!(Choker::unchoke_compare_round_robin(&a, &c), Ordering::Less);
    assert_eq!(Choker::unchoke_compare_round_robin(&c, &a), Ordering::Greater);
}

#[test]
fn test_sort_by_unchoke_with_none_last_unchoke_at() {
    let now: u64 = 100_000;
    let mut peers = vec![
        make_peer(true, None),
        make_peer(true, Some(now + 5_000)),
        make_peer(false, None),
        make_peer(false, Some(now + 2_000)),
    ];
    let choker = Choker::new(2);
    let upload_slot = choker.sort_by_unchoke(&mut peers);

    assert_eq!(upload_slot, 2);
    assert!(peers[0].is_peer_interesting);
    assert!(peers[1].is_peer_interesting);
    assert!(peers[0].last_unchoked_at.is_none());
}

#[test]
fn test_unchoke_compare_round_robin_with_none_last_unchoke_at() {
    let now: u64 = 100_000;
    let a = make_peer(true, None);
    let b = make_peer(true, Some(now));
    assert_eq!(Choker::unchoke_compare_round_robin(&a, &b), Ordering::Less);
    assert_eq!(Choker::unchoke_compare_round_robin(&b, &a), Ordering::Greater);

    let c = make_peer(false, None);
    let d = make_peer(false, Some(now));
    assert_eq!(Choker::unchoke_compare_round_robin(&c, &d), Ordering::Less);
    assert_eq!(Choker::unchoke_compare_round_robin(&d, &c), Ordering::Greater);

    let e = make_peer(true, None);
    let f = make_peer(true, None);
    assert_eq!(Choker::unchoke_compare_round_robin(&e, &f), Ordering::Equal);
}

#[test]
fn unchoke_prefix_prefers_interested_then_oldest() {
    // one never-unchoked interested peer, one recently unchoked interested
    // peer, one uninterested peer; two slots
    let t: u64 = 1_000_000;
    let mut peers = vec![
        make_peer(false, None),
        make_peer(true, Some(t + 5_000)),
        make_peer(true, None),
    ];
    let choker = Choker::new(2);
    let slots = choker.sort_by_unchoke(&mut peers);

    assert_eq!(slots, 2);
    assert!(peers[0].is_peer_interesting);
    assert!(peers[0].last_unchoked_at.is_none());
    assert!(peers[1].is_peer_interesting);
    assert_eq!(peers[1].last_unchoked_at, Some(t + 5_000));
    assert!(!peers[2].is_peer_interesting);
}
