use bitdrift::{BitField, CodecError, HandShake, HandShakeCodec, Message, MessageCodec, MessageId};

fn round_trip(m: Message) -> Message {
    let codec = MessageCodec;
    let mut buf: Vec<u8> = Vec::new();
    codec.encode(&m, &mut buf);
    let decoded = codec.decode(&mut buf).expect("frame should decode");
    assert!(buf.is_empty(), "a whole frame consumes the whole buffer");
    decoded.expect("a whole frame yields a message")
}

#[test]
fn encode_request_is_bit_exact() {
    let codec = MessageCodec;
    let mut buf: Vec<u8> = Vec::new();
    codec.encode(
        &Message::Request { piece_index: 0, begin: 0, length: 16384 },
        &mut buf,
    );
    assert_eq!(
        buf,
        vec![
            0x00, 0x00, 0x00, 0x0d, 0x06, 0x00, 0x00, 0x00, 0x00, 0x00, 0x00, 0x00, 0x00, 0x00,
            0x00, 0x40, 0x00
        ]
    );
}

#[test]
fn message_round_trips() {
    assert_eq!(round_trip(Message::KeepAlive), Message::KeepAlive);
    assert_eq!(round_trip(Message::Choke), Message::Choke);
    assert_eq!(round_trip(Message::Unchoke), Message::Unchoke);
    assert_eq!(round_trip(Message::Interested), Message::Interested);
    assert_eq!(round_trip(Message::NotInterested), Message::NotInterested);
    assert_eq!(
        round_trip(Message::Have { piece_index: 42 }),
        Message::Have { piece_index: 42 }
    );
    let bits = BitField::from_vec(vec![0b1010_0001, 0xff]);
    assert_eq!(
        round_trip(Message::Bitfield { bitfield: bits.clone() }),
        Message::Bitfield { bitfield: bits }
    );
    let req = Message::Request { piece_index: 1, begin: 16384, length: 16384 };
    assert_eq!(round_trip(req.clone()), req);
    let piece = Message::Piece { piece_index: 3, begin: 32768, piece: vec![1, 2, 3, 4, 5] };
    assert_eq!(round_trip(piece.clone()), piece);
    let cancel = Message::Cancel { piece_index: 9, begin: 0, length: 1024 };
    assert_eq!(round_trip(cancel.clone()), cancel);
}

#[test]
fn partial_input_yields_nothing_and_keeps_bytes() {
    let codec = MessageCodec;
    let mut buf: Vec<u8> = vec![0x00, 0x00, 0x00];
    assert_eq!(codec.decode(&mut buf), Ok(None));
    assert_eq!(buf, vec![0x00, 0x00, 0x00]);

    // a full prefix announcing 13 bytes, but only the id present
    let mut buf2: Vec<u8> = vec![0x00, 0x00, 0x00, 0x0d, 0x06];
    assert_eq!(codec.decode(&mut buf2), Ok(None));
    assert_eq!(buf2, vec![0x00, 0x00, 0x00, 0x0d, 0x06]);
}

#[test]
fn unknown_message_id_is_an_error() {
    let codec = MessageCodec;
    let mut buf: Vec<u8> = vec![0x00, 0x00, 0x00, 0x01, 0x09];
    assert_eq!(codec.decode(&mut buf), Err(CodecError::UnknownMessageId));
}

#[test]
fn contradictory_length_is_an_error() {
    let codec = MessageCodec;
    // Choke with a payload it cannot have
    let mut buf: Vec<u8> = vec![0x00, 0x00, 0x00, 0x02, 0x00, 0x00];
    assert_eq!(codec.decode(&mut buf), Err(CodecError::InvalidLength));
}

#[test]
fn message_ids_match_the_wire() {
    assert_eq!(MessageId::from_byte(0), Ok(MessageId::Choke));
    assert_eq!(MessageId::from_byte(4), Ok(MessageId::Have));
    assert_eq!(MessageId::from_byte(8), Ok(MessageId::Cancel));
    assert_eq!(MessageId::from_byte(9), Err(CodecError::UnknownMessageId));
    assert_eq!(MessageId::Piece.as_byte(), 7);
}

#[test]
fn handshake_round_trips() {
    let codec = HandShakeCodec;
    let h = HandShake::new([7u8; 20], [9u8; 20]);
    let mut buf: Vec<u8> = Vec::new();
    codec.encode(&h, &mut buf);
    assert_eq!(buf.len(), 68);
    assert_eq!(buf[0], 19);
    assert_eq!(&buf[1..20], b"BitTorrent protocol");

    let decoded = codec.decode(&mut buf).expect("valid header").expect("whole handshake");
    assert_eq!(decoded.info_hash, [7u8; 20]);
    assert_eq!(decoded.peer_id, [9u8; 20]);
    assert!(buf.is_empty());
}

#[test]
fn handshake_wrong_pstrlen_is_invalid_protocol() {
    let codec = HandShakeCodec;
    let h = HandShake::new([0u8; 20], [0u8; 20]);
    let mut buf: Vec<u8> = Vec::new();
    codec.encode(&h, &mut buf);
    buf[0] = 18;
    assert_eq!(codec.decode(&mut buf), Err(CodecError::InvalidProtocol));
}

#[test]
fn handshake_wrong_protocol_string_is_invalid_protocol() {
    let codec = HandShakeCodec;
    let h = HandShake::new([0u8; 20], [0u8; 20]);
    let mut buf: Vec<u8> = Vec::new();
    codec.encode(&h, &mut buf);
    buf[1] = b'b';
    assert_eq!(codec.decode(&mut buf), Err(CodecError::InvalidProtocol));
}

#[test]
fn handshake_short_buffer_yields_nothing() {
    let codec = HandShakeCodec;
    let mut buf: Vec<u8> = vec![19; 67];
    assert_eq!(codec.decode(&mut buf), Ok(None));
    assert_eq!(buf.len(), 67);
}

#[test]
fn bitfield_payload_travels_msb_first() {
    let codec = MessageCodec;
    let mut bits = BitField::repeat(false, 8);
    bits.set(0, true);
    bits.set(7, true);
    let mut buf: Vec<u8> = Vec::new();
    codec.encode(&Message::Bitfield { bitfield: bits }, &mut buf);
    assert_eq!(buf, vec![0x00, 0x00, 0x00, 0x02, 0x05, 0b1000_0001]);
}

#[test]
fn message_length_counts_id_and_payload() {
    assert_eq!(Message::KeepAlive.message_length(), 0);
    assert_eq!(Message::Choke.message_length(), 1);
    assert_eq!(Message::Have { piece_index: 0 }.message_length(), 5);
    assert_eq!(
        Message::Piece { piece_index: 0, begin: 0, piece: vec![0; 100] }.message_length(),
        109
    );
    let bits = BitField::repeat(true, 9);
    assert_eq!(Message::Bitfield { bitfield: bits }.message_length(), 3);
}
