use bitdrift::{
    BitField, CodecError, HandShake, HandshakeOutcome, Message, Session,
};

#[test]
fn flags_follow_choke_and_interest_messages() {
    let mut s = Session::new(4);
    assert!(s.peer_connection.is_peer_choked);
    assert!(!s.peer_connection.is_peer_interesting);

    s.receive_msg(0, Message::Unchoke);
    assert!(!s.peer_connection.is_peer_choked);
    s.receive_msg(0, Message::Choke);
    assert!(s.peer_connection.is_peer_choked);

    s.receive_msg(0, Message::Interested);
    assert!(s.peer_connection.is_peer_interesting);
    s.receive_msg(0, Message::NotInterested);
    assert!(!s.peer_connection.is_peer_interesting);
}

#[test]
fn have_sets_the_named_bit_and_ignores_out_of_range() {
    let mut s = Session::new(4);
    s.receive_msg(0, Message::Have { piece_index: 2 });
    assert!(s.peer_connection.peer_bitfield.get(2));
    assert!(!s.peer_connection.peer_bitfield.get(0));
    // out of range: dropped without effect
    s.receive_msg(0, Message::Have { piece_index: 9 });
    assert_eq!(s.peer_connection.peer_bitfield.len(), 4);
}

#[test]
fn second_bitfield_is_ignored() {
    let mut s = Session::new(8);
    let first = BitField::from_vec(vec![0b1100_0000]);
    let second = BitField::from_vec(vec![0b0000_0011]);

    s.receive_msg(0, Message::Bitfield { bitfield: first.clone() });
    assert!(s.bitfield_exchanged);
    assert_eq!(s.peer_connection.peer_bitfield, first);

    // the repeat is ignored quietly: no error, no change
    s.receive_msg(0, Message::Bitfield { bitfield: second });
    assert_eq!(s.peer_connection.peer_bitfield, first);
}

#[test]
fn requests_queue_only_while_the_peer_is_unchoked() {
    let mut s = Session::new(4);
    s.peer_connection.is_choked = true;
    s.receive_msg(0, Message::Request { piece_index: 0, begin: 0, length: 16384 });
    assert_eq!(s.request_queue.len(), 0);

    s.peer_connection.is_choked = false;
    s.receive_msg(0, Message::Request { piece_index: 0, begin: 0, length: 16384 });
    assert_eq!(s.request_queue.len(), 1);
    assert_eq!(s.request_queue[0].piece_index, 0);
    assert_eq!(s.request_queue[0].begin, 0);
    assert_eq!(s.request_queue[0].length, 16384);
}

#[test]
fn cancel_drops_matching_queue_entries() {
    let mut s = Session::new(4);
    s.peer_connection.is_choked = false;
    s.receive_msg(0, Message::Request { piece_index: 0, begin: 0, length: 16384 });
    s.receive_msg(0, Message::Request { piece_index: 1, begin: 0, length: 16384 });
    s.receive_msg(0, Message::Cancel { piece_index: 0, begin: 0, length: 16384 });
    assert_eq!(s.request_queue.len(), 1);
    assert_eq!(s.request_queue[0].piece_index, 1);

    // a cancel with a different triple removes nothing
    s.receive_msg(0, Message::Cancel { piece_index: 1, begin: 0, length: 999 });
    assert_eq!(s.request_queue.len(), 1);
}

#[test]
fn piece_messages_hand_back_the_block_and_count_download() {
    let mut s = Session::new(4);
    let out = s.receive_msg(1_000, Message::Piece {
        piece_index: 2,
        begin: 16384,
        piece: vec![5; 2000],
    });
    let block = out.expect("a piece message yields a block");
    assert_eq!(block.piece_index, 2);
    assert_eq!(block.begin, 16384);
    assert_eq!(block.data, vec![5; 2000]);
    // 2000 bytes over the default 20-second window
    assert_eq!(s.stats.download_rate(1_000), 100);
}

#[test]
fn keep_alive_changes_nothing() {
    let mut s = Session::new(4);
    let out = s.receive_msg(0, Message::KeepAlive);
    assert!(out.is_none());
    assert!(s.request_queue.is_empty());
    assert!(!s.bitfield_exchanged);
}

#[test]
fn handshake_reply_decides_the_next_state() {
    let expected = [3u8; 20];
    let good = Some(Ok(HandShake::new([3u8; 20], [1u8; 20])));
    let wrong = Some(Ok(HandShake::new([4u8; 20], [1u8; 20])));
    let broken: Option<Result<HandShake, CodecError>> = Some(Err(CodecError::InvalidProtocol));
    let silent: Option<Result<HandShake, CodecError>> = None;

    assert_eq!(bitdrift::on_handshake_reply(&expected, &good), HandshakeOutcome::Proceed);
    assert_eq!(bitdrift::on_handshake_reply(&expected, &wrong), HandshakeOutcome::Disconnect);
    assert_eq!(bitdrift::on_handshake_reply(&expected, &broken), HandshakeOutcome::ProtocolError);
    assert_eq!(bitdrift::on_handshake_reply(&expected, &silent), HandshakeOutcome::Disconnect);
}

#[test]
fn tick_decides_keep_alive_and_disconnect() {
    let t0: u64 = 1_000_000;
    let quiet = bitdrift::on_tick(t0 + 1_000, t0, t0);
    assert!(!quiet.send_keep_alive);
    assert!(!quiet.disconnect);

    let idle_send = bitdrift::on_tick(t0 + 120_000, t0, t0 + 100_000);
    assert!(idle_send.send_keep_alive);
    assert!(!idle_send.disconnect);

    let dead = bitdrift::on_tick(t0 + 120_001, t0 + 100_000, t0);
    assert!(!dead.send_keep_alive);
    assert!(dead.disconnect);
}
