use bitdrift::{
    parse_ipv4, parse_tracker_response, Peer, PeerAddr, PeerItem, RequestParams, Tracker,
    TrackerError, TrackerEvent,
};

#[test]
fn test_compact_peer_to_vec() {
    // 2 peers: 192.168.1.1:6881 and 10.0.0.2:51413
    let compact_bytes = vec![
        192, 168, 1, 1, 26, 225, // 192.168.1.1:6881
        10, 0, 0, 2, 200, 213, // 10.0.0.2:51413
    ];
    let compact = Peer::Compact(compact_bytes);

    let peers = compact.to_vec();
    assert!(peers.is_ok());
    let peers = peers.unwrap();
    assert_eq!(peers.len(), 2);

    let expected_addrs = vec![
        PeerAddr { ip: [192, 168, 1, 1], port: 6881 },
        PeerAddr { ip: [10, 0, 0, 2], port: 51413 },
    ];

    for (peer, expected_addr) in peers.iter().zip(expected_addrs.iter()) {
        assert_eq!(peer, expected_addr);
    }
}

#[test]
fn compact_payload_ignores_a_trailing_fragment() {
    let compact = Peer::Compact(vec![127, 0, 0, 1, 0x1a, 0xe1, 9, 9]);
    let peers = compact.to_vec().unwrap();
    assert_eq!(peers, vec![PeerAddr { ip: [127, 0, 0, 1], port: 6881 }]);
}

#[test]
fn list_peers_parse_their_addresses() {
    let items = vec![
        PeerItem { peer_id: None, ip: "192.168.1.1".to_string(), port: 6881 },
        PeerItem { peer_id: None, ip: "10.0.0.2".to_string(), port: 51413 },
    ];
    let peers = Peer::List(items).to_vec().unwrap();
    assert_eq!(
        peers,
        vec![
            PeerAddr { ip: [192, 168, 1, 1], port: 6881 },
            PeerAddr { ip: [10, 0, 0, 2], port: 51413 },
        ]
    );

    let bad = vec![PeerItem { peer_id: None, ip: "not an ip".to_string(), port: 1 }];
    assert_eq!(Peer::List(bad).to_vec().err(), Some(TrackerError::InvalidIpAddr));
}

#[test]
fn ipv4_text_parses_strictly() {
    assert_eq!(parse_ipv4(b"1.2.3.4"), Some([1, 2, 3, 4]));
    assert_eq!(parse_ipv4(b"255.255.255.255"), Some([255, 255, 255, 255]));
    assert_eq!(parse_ipv4(b"0.0.0.0"), Some([0, 0, 0, 0]));
    assert_eq!(parse_ipv4(b"256.0.0.1"), None);
    assert_eq!(parse_ipv4(b"01.2.3.4"), None);
    assert_eq!(parse_ipv4(b"1.2.3"), None);
    assert_eq!(parse_ipv4(b"1.2.3.4.5"), None);
    assert_eq!(parse_ipv4(b"1.2.3.4x"), None);
    assert_eq!(parse_ipv4(b".1.2.3.4"), None);
    assert_eq!(parse_ipv4(b""), None);
}

#[test]
fn announce_url_carries_every_parameter() {
    let tracker = Tracker::new("http://example.com/ann".to_string());
    let params = RequestParams {
        info_hash: [0xffu8; 20],
        peer_id: [b'a'; 20],
        ip: None,
        port: 6881,
        uploaded: 1000,
        downloaded: 2000,
        left: 3000,
        event: Some(TrackerEvent::Started),
        compact: true,
    };
    let url = String::from_utf8(tracker.announce_url_bytes(&params)).unwrap();
    let mut expected = String::from("http://example.com/ann?info_hash=");
    for _ in 0..20 {
        expected.push_str("%FF");
    }
    expected.push_str("&peer_id=");
    for _ in 0..20 {
        expected.push('a');
    }
    expected.push_str("&port=6881&uploaded=1000&downloaded=2000&left=3000&compact=1");
    expected.push_str("&event=started");
    assert_eq!(url, expected);
}

#[test]
fn announce_url_omits_absent_event_and_ip() {
    let tracker = Tracker::new("http://t/a".to_string());
    let params = RequestParams {
        info_hash: [b'A'; 20],
        peer_id: [b'b'; 20],
        ip: Some("1.2.3.4".to_string()),
        port: 1,
        uploaded: 0,
        downloaded: 0,
        left: 0,
        event: None,
        compact: false,
    };
    let url = String::from_utf8(tracker.announce_url_bytes(&params)).unwrap();
    assert!(url.ends_with("&compact=0&ip=1.2.3.4"));
    assert!(!url.contains("&event="));
}

#[test]
fn empty_event_is_omitted_from_the_query() {
    let tracker = Tracker::new("http://t/a".to_string());
    let params = RequestParams {
        info_hash: [b'A'; 20],
        peer_id: [b'b'; 20],
        ip: None,
        port: 1,
        uploaded: 0,
        downloaded: 0,
        left: 0,
        event: Some(TrackerEvent::Empty),
        compact: true,
    };
    let url = String::from_utf8(tracker.announce_url_bytes(&params)).unwrap();
    assert!(url.ends_with("&compact=1"));
    assert!(!url.contains("&event"));
}

#[test]
fn compact_response_parses() {
    let mut data: Vec<u8> = Vec::new();
    data.extend_from_slice(b"d8:intervali1800e5:peers12:");
    data.extend_from_slice(&[192, 168, 1, 1, 26, 225, 10, 0, 0, 2, 200, 213]);
    data.extend_from_slice(b"e");

    let resp = parse_tracker_response(&data).unwrap();
    assert_eq!(resp.interval, 1800);
    assert_eq!(
        resp.peers,
        vec![
            PeerAddr { ip: [192, 168, 1, 1], port: 6881 },
            PeerAddr { ip: [10, 0, 0, 2], port: 51413 },
        ]
    );
}

#[test]
fn list_response_parses() {
    let data =
        b"d8:intervali900e5:peersld2:ip9:127.0.0.14:porti6881eeee".to_vec();
    let resp = parse_tracker_response(&data).unwrap();
    assert_eq!(resp.interval, 900);
    assert_eq!(resp.peers, vec![PeerAddr { ip: [127, 0, 0, 1], port: 6881 }]);
}

#[test]
fn failure_reason_is_surfaced() {
    let data = b"d14:failure reason4:oopse".to_vec();
    match parse_tracker_response(&data) {
        Err(TrackerError::QueryPeers(reason)) => assert_eq!(reason, "oops"),
        other => panic!("expected a tracker failure, got {:?}", other),
    }
}

#[test]
fn garbage_response_is_a_bencode_error() {
    let data = b"this is not bencode".to_vec();
    assert_eq!(parse_tracker_response(&data).err(), Some(TrackerError::Bencode));
}
