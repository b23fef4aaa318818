//! The peer wire codec: the fixed 68-byte handshake and the
//! length-prefixed messages that follow it, both bit-exact.

use vstd::prelude::*;

use crate::types::{bits_of_bytes, bytes_of_bits, lemma_pack_unpack, BitField, PeerId, Sha1Hash};

verus! {

broadcast use vstd::std_specs::vec::group_vec_axioms;

/// Why a frame was rejected.
#[derive(Debug, Clone, PartialEq, Eq)]
pub enum CodecError {
    /// The handshake does not begin with the BitTorrent protocol header.
    InvalidProtocol,
    /// A message carried an identifier outside the protocol.
    UnknownMessageId,
    /// A message's length prefix contradicts its identifier.
    InvalidLength,
}

/// The four bytes of `x`, most significant first.
pub open spec fn spec_u32_be(x: u32) -> Seq<u8> {
    seq![
        ((x >> 24) & 0xff) as u8,
        ((x >> 16) & 0xff) as u8,
        ((x >> 8) & 0xff) as u8,
        (x & 0xff) as u8,
    ]
}

/// The big-endian value of a four-byte sequence.
pub open spec fn spec_u32_from_be(s: Seq<u8>) -> u32
    recommends
        s.len() == 4,
{
    ((s[0] as u32) << 24) | ((s[1] as u32) << 16) | ((s[2] as u32) << 8) | (s[3] as u32)
}

/// Big-endian encoding and decoding of `u32` invert each other.
pub proof fn lemma_u32_be_round_trip()
    ensures
        forall|x: u32|
            (#[trigger] spec_u32_be(x)).len() == 4 && spec_u32_from_be(spec_u32_be(x)) == x,
        forall|s: Seq<u8>| s.len() == 4 ==> #[trigger] spec_u32_be(spec_u32_from_be(s)) == s,
{
    assert forall|x: u32|
        (#[trigger] spec_u32_be(x)).len() == 4 && spec_u32_from_be(spec_u32_be(x)) == x by {
        let s = spec_u32_be(x);
        assert((((((x >> 24) & 0xff) as u8) as u32) << 24) | (((((x >> 16) & 0xff) as u8) as u32)
            << 16) | (((((x >> 8) & 0xff) as u8) as u32) << 8) | (((x & 0xff) as u8) as u32)
            == x) by (bit_vector);
    }
    assert forall|s: Seq<u8>| s.len() == 4 implies #[trigger] spec_u32_be(spec_u32_from_be(s))
        == s by {
        let x = spec_u32_from_be(s);
        let b0 = s[0];
        let b1 = s[1];
        let b2 = s[2];
        let b3 = s[3];
        assert(x == ((b0 as u32) << 24) | ((b1 as u32) << 16) | ((b2 as u32) << 8) | (b3 as u32));
        assert((((((b0 as u32) << 24) | ((b1 as u32) << 16) | ((b2 as u32) << 8) | (b3 as u32))
            >> 24) & 0xff) as u8 == b0 && (((((b0 as u32) << 24) | ((b1 as u32) << 16) | ((
        b2 as u32) << 8) | (b3 as u32)) >> 16) & 0xff) as u8 == b1 && (((((b0 as u32) << 24) | ((
        b1 as u32) << 16) | ((b2 as u32) << 8) | (b3 as u32)) >> 8) & 0xff) as u8 == b2 && ((((
        b0 as u32) << 24) | ((b1 as u32) << 16) | ((b2 as u32) << 8) | (b3 as u32)) & 0xff) as u8
            == b3) by (bit_vector);
        assert(spec_u32_be(x) =~= s);
    }
}

/// Appends the four big-endian bytes of `x`.
fn push_u32_be(x: u32, out: &mut Vec<u8>)
    ensures
        final(out)@ == old(out)@ + spec_u32_be(x),
{
    out.push(((x >> 24) & 0xff) as u8);
    out.push(((x >> 16) & 0xff) as u8);
    out.push(((x >> 8) & 0xff) as u8);
    out.push((x & 0xff) as u8);
    proof {
        assert(final(out)@ =~= old(out)@ + spec_u32_be(x));
    }
}

/// Reads a big-endian `u32` at `pos`.
fn read_u32_be(src: &Vec<u8>, pos: usize) -> (r: u32)
    requires
        pos + 4 <= src@.len(),
    ensures
        r == spec_u32_from_be(src@.subrange(pos as int, pos + 4)),
{
    let n = src.len();
    proof {
        assert(n == src@.len());
    }
    let b0 = src[pos];
    let b1 = src[pos + 1];
    let b2 = src[pos + 2];
    let b3 = src[pos + 3];
    let r = ((b0 as u32) << 24) | ((b1 as u32) << 16) | ((b2 as u32) << 8) | (b3 as u32);
    proof {
        let s = src@.subrange(pos as int, pos + 4);
        assert(s[0] == b0 && s[1] == b1 && s[2] == b2 && s[3] == b3);
    }
    r
}

/// The 19 bytes of the protocol header text.
pub open spec fn protocol_bytes() -> Seq<u8> {
    seq![
        66u8,
        105,
        116,
        84,
        111,
        114,
        114,
        101,
        110,
        116,
        32,
        112,
        114,
        111,
        116,
        111,
        99,
        111,
        108,
    ]
}

fn protocol_vec() -> (r: Vec<u8>)
    ensures
        r@ == protocol_bytes(),
{
    let a: [u8; 19] = [
        66,
        105,
        116,
        84,
        111,
        114,
        114,
        101,
        110,
        116,
        32,
        112,
        114,
        111,
        116,
        111,
        99,
        111,
        108,
    ];
    let v = vstd::slice::slice_to_vec(a.as_slice());
    proof {
        assert(v@ =~= protocol_bytes());
    }
    v
}

/// The opening exchange: each side names the torrent and itself.
#[derive(Debug, Clone, PartialEq, Eq)]
pub struct HandShake {
    /// SHA-1 identity of the torrent being joined.
    pub info_hash: Sha1Hash,
    /// The sender's 20-byte identity.
    pub peer_id: PeerId,
}

impl HandShake {
    pub fn new(info_hash: Sha1Hash, peer_id: PeerId) -> (r: Self)
        ensures
            r.info_hash == info_hash,
            r.peer_id == peer_id,
    {
        HandShake { info_hash, peer_id }
    }
}

/// The 68-byte wire form of a handshake.
pub open spec fn spec_encode_handshake(h: HandShake) -> Seq<u8> {
    seq![19u8] + protocol_bytes() + seq![0u8, 0, 0, 0, 0, 0, 0, 0] + h.info_hash@ + h.peer_id@
}

/// Copies 20 bytes at `pos` into a fixed array.
pub(crate) fn read_20(src: &Vec<u8>, pos: usize) -> (r: [u8; 20])
    requires
        pos + 20 <= src@.len(),
    ensures
        r@ == src@.subrange(pos as int, pos + 20),
{
    let n = src.len();
    proof {
        assert(n == src@.len());
    }
    let mut out: [u8; 20] = [0; 20];
    let mut i: usize = 0;
    while i < 20
        invariant
            i <= 20,
            pos + 20 <= src@.len(),
            src@.len() <= usize::MAX,
            out@.len() == 20,
            forall|j: int| 0 <= j < i ==> out@[j] == src@[pos + j],
        decreases 20 - i,
    {
        vstd::array::ArrayAdditionalExecFns::set(&mut out, i, src[pos + i]);
        i = i + 1;
    }
    proof {
        assert(out@ =~= src@.subrange(pos as int, pos + 20));
    }
    out
}

/// Frames and deframes the fixed 68-byte handshake.
pub struct HandShakeCodec;

impl HandShakeCodec {
    /// Appends the 68-byte wire form of `item`.
    pub fn encode(&self, item: &HandShake, dst: &mut Vec<u8>)
        ensures
            final(dst)@ == old(dst)@ + spec_encode_handshake(*item),
    {
        dst.push(19);
        let mut proto = protocol_vec();
        dst.append(&mut proto);
        let mut i: usize = 0;
        while i < 8
            invariant
                i <= 8,
                dst@ == old(dst)@ + seq![19u8] + protocol_bytes() + Seq::new(
                    i as nat,
                    |j: int| 0u8,
                ),
            decreases 8 - i,
        {
            dst.push(0);
            i = i + 1;
            proof {
                assert(dst@ =~= old(dst)@ + seq![19u8] + protocol_bytes() + Seq::new(
                    i as nat,
                    |j: int| 0u8,
                ));
            }
        }
        let mut k: usize = 0;
        while k < 20
            invariant
                k <= 20,
                dst@ == old(dst)@ + seq![19u8] + protocol_bytes() + Seq::new(8, |j: int| 0u8)
                    + item.info_hash@.take(k as int),
            decreases 20 - k,
        {
            dst.push(item.info_hash[k]);
            k = k + 1;
            proof {
                assert(dst@ =~= old(dst)@ + seq![19u8] + protocol_bytes() + Seq::new(
                    8,
                    |j: int| 0u8,
                ) + item.info_hash@.take(k as int));
            }
        }
        let mut k2: usize = 0;
        while k2 < 20
            invariant
                k2 <= 20,
                dst@ == old(dst)@ + seq![19u8] + protocol_bytes() + Seq::new(8, |j: int| 0u8)
                    + item.info_hash@ + item.peer_id@.take(k2 as int),
            decreases 20 - k2,
        {
            dst.push(item.peer_id[k2]);
            k2 = k2 + 1;
            proof {
                assert(dst@ =~= old(dst)@ + seq![19u8] + protocol_bytes() + Seq::new(
                    8,
                    |j: int| 0u8,
                ) + item.info_hash@ + item.peer_id@.take(k2 as int));
            }
        }
        proof {
            assert(item.info_hash@.take(20) =~= item.info_hash@);
            assert(item.peer_id@.take(20) =~= item.peer_id@);
            assert(Seq::new(8, |j: int| 0u8) =~= seq![0u8, 0, 0, 0, 0, 0, 0, 0]);
            assert(final(dst)@ =~= old(dst)@ + spec_encode_handshake(*item));
        }
    }

    /// Deframes one handshake from the front of `src`.
    ///
    /// Returns nothing on fewer than 68 buffered bytes, the handshake
    /// fields when the protocol header matches, and the protocol error
    /// exactly when it does not; only a returned handshake consumes bytes.
    pub fn decode(&self, src: &mut Vec<u8>) -> (r: Result<Option<HandShake>, CodecError>)
        ensures
            match r {
                Ok(None) => old(src)@.len() < 68 && final(src)@ == old(src)@,
                Ok(Some(h)) => {
                    &&& old(src)@.len() >= 68
                    &&& old(src)@[0] == 19
                    &&& old(src)@.subrange(1, 20) == protocol_bytes()
                    &&& h.info_hash@ == old(src)@.subrange(28, 48)
                    &&& h.peer_id@ == old(src)@.subrange(48, 68)
                    &&& final(src)@ == old(src)@.skip(68)
                },
                Err(e) => {
                    &&& e == CodecError::InvalidProtocol
                    &&& old(src)@.len() >= 68
                    &&& (old(src)@[0] != 19 || old(src)@.subrange(1, 20) != protocol_bytes())
                    &&& final(src)@ == old(src)@
                },
            },
    {
        if src.len() < 68 {
            return Ok(None);
        }
        let proto = protocol_vec();
        let head_ok = src[0] == 19 && crate::bencode::bytes_eq(
            vstd::slice::slice_subrange(src.as_slice(), 1, 20),
            proto.as_slice(),
        );
        if !head_ok {
            return Err(CodecError::InvalidProtocol);
        }
        let info_hash = read_20(src, 28);
        let peer_id = read_20(src, 48);
        let tail = src.split_off(68);
        *src = tail;
        Ok(Some(HandShake { info_hash, peer_id }))
    }
}

/// The identifier byte of each non-empty message.
#[derive(Debug, Clone, Copy, PartialEq, Eq, Structural)]
pub enum MessageId {
    Choke,
    Unchoke,
    Interested,
    NotInterested,
    Have,
    Bitfield,
    Request,
    Piece,
    Cancel,
}

/// The wire byte of a message identifier.
pub open spec fn spec_id_byte(id: MessageId) -> u8 {
    match id {
        MessageId::Choke => 0,
        MessageId::Unchoke => 1,
        MessageId::Interested => 2,
        MessageId::NotInterested => 3,
        MessageId::Have => 4,
        MessageId::Bitfield => 5,
        MessageId::Request => 6,
        MessageId::Piece => 7,
        MessageId::Cancel => 8,
    }
}

impl MessageId {
    /// The identifier as it travels on the wire.
    pub fn as_byte(&self) -> (r: u8)
        ensures
            r == spec_id_byte(*self),
    {
        match self {
            MessageId::Choke => 0,
            MessageId::Unchoke => 1,
            MessageId::Interested => 2,
            MessageId::NotInterested => 3,
            MessageId::Have => 4,
            MessageId::Bitfield => 5,
            MessageId::Request => 6,
            MessageId::Piece => 7,
            MessageId::Cancel => 8,
        }
    }

    /// Reads an identifier byte; bytes past the protocol are unknown.
    pub fn from_byte(b: u8) -> (r: Result<MessageId, CodecError>)
        ensures
            match r {
                Ok(id) => spec_id_byte(id) == b,
                Err(e) => e == CodecError::UnknownMessageId && b > 8,
            },
    {
        match b {
            0 => Ok(MessageId::Choke),
            1 => Ok(MessageId::Unchoke),
            2 => Ok(MessageId::Interested),
            3 => Ok(MessageId::NotInterested),
            4 => Ok(MessageId::Have),
            5 => Ok(MessageId::Bitfield),
            6 => Ok(MessageId::Request),
            7 => Ok(MessageId::Piece),
            8 => Ok(MessageId::Cancel),
            _ => Err(CodecError::UnknownMessageId),
        }
    }
}

/// One peer wire message.
#[derive(Debug, Clone, PartialEq)]
pub enum Message {
    KeepAlive,
    Choke,
    Unchoke,
    Interested,
    NotInterested,
    Have { piece_index: u32 },
    Bitfield { bitfield: BitField },
    Request { piece_index: u32, begin: u32, length: u32 },
    Piece { piece_index: u32, begin: u32, piece: Vec<u8> },
    Cancel { piece_index: u32, begin: u32, length: u32 },
}

/// The sizes a message's frame must respect: its length field is a `u32`
/// and its bitfield packs into addressable memory.
pub open spec fn msg_wf(m: Message) -> bool {
    match m {
        Message::Bitfield { bitfield } => bitfield@.len() + 7 <= usize::MAX && 1 + (bitfield@.len()
            + 7) / 8 <= u32::MAX,
        Message::Piece { piece, .. } => 9 + piece@.len() <= u32::MAX,
        _ => true,
    }
}

/// The payload bytes of a message, after the identifier.
pub open spec fn spec_payload(m: Message) -> Seq<u8> {
    match m {
        Message::KeepAlive => Seq::empty(),
        Message::Choke => Seq::empty(),
        Message::Unchoke => Seq::empty(),
        Message::Interested => Seq::empty(),
        Message::NotInterested => Seq::empty(),
        Message::Have { piece_index } => spec_u32_be(piece_index),
        Message::Bitfield { bitfield } => bytes_of_bits(bitfield@),
        Message::Request { piece_index, begin, length } => spec_u32_be(piece_index) + spec_u32_be(
            begin,
        ) + spec_u32_be(length),
        Message::Piece { piece_index, begin, piece } => spec_u32_be(piece_index) + spec_u32_be(
            begin,
        ) + piece@,
        Message::Cancel { piece_index, begin, length } => spec_u32_be(piece_index) + spec_u32_be(
            begin,
        ) + spec_u32_be(length),
    }
}

/// The identifier of a message, if it has one.
pub open spec fn spec_msg_id(m: Message) -> Option<MessageId> {
    match m {
        Message::KeepAlive => None,
        Message::Choke => Some(MessageId::Choke),
        Message::Unchoke => Some(MessageId::Unchoke),
        Message::Interested => Some(MessageId::Interested),
        Message::NotInterested => Some(MessageId::NotInterested),
        Message::Have { .. } => Some(MessageId::Have),
        Message::Bitfield { .. } => Some(MessageId::Bitfield),
        Message::Request { .. } => Some(MessageId::Request),
        Message::Piece { .. } => Some(MessageId::Piece),
        Message::Cancel { .. } => Some(MessageId::Cancel),
    }
}

/// The value of the length prefix: identifier plus payload.
pub open spec fn spec_msg_len(m: Message) -> int {
    if m is KeepAlive {
        0
    } else {
        1 + spec_payload(m).len() as int
    }
}

/// The full frame: big-endian length prefix, identifier, payload.
pub open spec fn spec_encode_msg(m: Message) -> Seq<u8> {
    if m is KeepAlive {
        spec_u32_be(0)
    } else {
        spec_u32_be(spec_msg_len(m) as u32) + seq![spec_id_byte(spec_msg_id(m)->0)] + spec_payload(
            m,
        )
    }
}

impl Message {
    /// The value the frame's length prefix will carry.
    pub fn message_length(&self) -> (r: usize)
        requires
            msg_wf(*self),
        ensures
            r == spec_msg_len(*self),
    {
        match self {
            Message::KeepAlive => 0,
            Message::Choke => 1,
            Message::Unchoke => 1,
            Message::Interested => 1,
            Message::NotInterested => 1,
            Message::Have { .. } => 5,
            Message::Bitfield { bitfield } => 1 + (bitfield.len() + 7) / 8,
            Message::Request { .. } => 13,
            Message::Piece { piece, .. } => 9 + piece.len(),
            Message::Cancel { .. } => 13,
        }
    }

    /// The message's identifier, absent only for keep-alives.
    pub fn message_id(&self) -> (r: Option<MessageId>)
        ensures
            r == spec_msg_id(*self),
    {
        match self {
            Message::KeepAlive => None,
            Message::Choke => Some(MessageId::Choke),
            Message::Unchoke => Some(MessageId::Unchoke),
            Message::Interested => Some(MessageId::Interested),
            Message::NotInterested => Some(MessageId::NotInterested),
            Message::Have { .. } => Some(MessageId::Have),
            Message::Bitfield { .. } => Some(MessageId::Bitfield),
            Message::Request { .. } => Some(MessageId::Request),
            Message::Piece { .. } => Some(MessageId::Piece),
            Message::Cancel { .. } => Some(MessageId::Cancel),
        }
    }

    /// The payload bytes, absent for messages that carry none.
    pub fn payload(&self) -> (r: Option<Vec<u8>>)
        requires
            msg_wf(*self),
        ensures
            match r {
                Some(p) => p@ == spec_payload(*self) && spec_payload(*self).len() > 0,
                None => spec_payload(*self).len() == 0,
            },
    {
        match self {
            Message::KeepAlive => None,
            Message::Choke => None,
            Message::Unchoke => None,
            Message::Interested => None,
            Message::NotInterested => None,
            Message::Have { piece_index } => {
                let mut out: Vec<u8> = Vec::new();
                push_u32_be(*piece_index, &mut out);
                Some(out)
            },
            Message::Bitfield { bitfield } => {
                let out = bitfield.as_bytes();
                proof {
                    assert(out@.len() == (bitfield@.len() + 7) / 8);
                    assert(out@.len() > 0 || bitfield@.len() == 0);
                    if bitfield@.len() == 0 {
                        assert(bytes_of_bits(bitfield@) =~= Seq::<u8>::empty());
                    }
                }
                if out.len() == 0 {
                    None
                } else {
                    Some(out)
                }
            },
            Message::Request { piece_index, begin, length } => {
                let mut out: Vec<u8> = Vec::new();
                push_u32_be(*piece_index, &mut out);
                push_u32_be(*begin, &mut out);
                push_u32_be(*length, &mut out);
                Some(out)
            },
            Message::Piece { piece_index, begin, piece } => {
                let mut out: Vec<u8> = Vec::new();
                push_u32_be(*piece_index, &mut out);
                push_u32_be(*begin, &mut out);
                let mut j: usize = 0;
                while j < piece.len()
                    invariant
                        j <= piece@.len(),
                        out@ == spec_u32_be(*piece_index) + spec_u32_be(*begin) + piece@.take(
                            j as int,
                        ),
                    decreases piece@.len() - j,
                {
                    out.push(piece[j]);
                    j = j + 1;
                    proof {
                        assert(out@ =~= spec_u32_be(*piece_index) + spec_u32_be(*begin)
                            + piece@.take(j as int));
                    }
                }
                proof {
                    assert(piece@.take(piece@.len() as int) =~= piece@);
                }
                Some(out)
            },
            Message::Cancel { piece_index, begin, length } => {
                let mut out: Vec<u8> = Vec::new();
                push_u32_be(*piece_index, &mut out);
                push_u32_be(*begin, &mut out);
                push_u32_be(*length, &mut out);
                Some(out)
            },
        }
    }
}

/// Same message content: equal variants and fields, with byte strings and
/// bitfields compared by their sequences.
pub open spec fn msg_view_eq(m1: Message, m2: Message) -> bool {
    match (m1, m2) {
        (Message::KeepAlive, Message::KeepAlive) => true,
        (Message::Choke, Message::Choke) => true,
        (Message::Unchoke, Message::Unchoke) => true,
        (Message::Interested, Message::Interested) => true,
        (Message::NotInterested, Message::NotInterested) => true,
        (Message::Have { piece_index: a }, Message::Have { piece_index: b }) => a == b,
        (Message::Bitfield { bitfield: a }, Message::Bitfield { bitfield: b }) => a@ == b@,
        (
            Message::Request { piece_index: a, begin: ab, length: al },
            Message::Request { piece_index: b, begin: bb, length: bl },
        ) => a == b && ab == bb && al == bl,
        (
            Message::Piece { piece_index: a, begin: ab, piece: ap },
            Message::Piece { piece_index: b, begin: bb, piece: bp },
        ) => a == b && ab == bb && ap@ == bp@,
        (
            Message::Cancel { piece_index: a, begin: ab, length: al },
            Message::Cancel { piece_index: b, begin: bb, length: bl },
        ) => a == b && ab == bb && al == bl,
        _ => false,
    }
}

/// A bitfield message whose bit count is a whole number of bytes, as every
/// decoded one is; other messages unconditionally.
pub open spec fn msg_aligned(m: Message) -> bool {
    m matches Message::Bitfield { bitfield } ==> bitfield@.len() % 8 == 0
}

/// Law: the message codec loses nothing. Two well-formed, byte-aligned
/// messages with the same frame are the same message; hence decoding a
/// message's own frame can yield only that message.
pub proof fn lemma_encode_msg_injective(m1: Message, m2: Message)
    requires
        msg_wf(m1),
        msg_wf(m2),
        msg_aligned(m1),
        msg_aligned(m2),
        spec_encode_msg(m1) == spec_encode_msg(m2),
    ensures
        msg_view_eq(m1, m2),
{
    lemma_u32_be_round_trip();
    let e1 = spec_encode_msg(m1);
    let e2 = spec_encode_msg(m2);
    if m1 is KeepAlive || m2 is KeepAlive {
        if !(m1 is KeepAlive) || !(m2 is KeepAlive) {
            assert(spec_u32_from_be(e1.subrange(0, 4)) == spec_u32_from_be(e2.subrange(0, 4)));
            assert(e1.subrange(0, 4) =~= spec_u32_be(spec_msg_len(m1) as u32));
            assert(e2.subrange(0, 4) =~= spec_u32_be(spec_msg_len(m2) as u32));
            assert(false);
        }
    } else {
        assert(e1.subrange(0, 4) =~= spec_u32_be(spec_msg_len(m1) as u32));
        assert(e2.subrange(0, 4) =~= spec_u32_be(spec_msg_len(m2) as u32));
        assert(spec_msg_len(m1) <= u32::MAX && spec_msg_len(m2) <= u32::MAX);
        assert(spec_msg_len(m1) == spec_msg_len(m2));
        assert(e1[4] == spec_id_byte(spec_msg_id(m1)->0));
        assert(e2[4] == spec_id_byte(spec_msg_id(m2)->0));
        assert(spec_msg_id(m1) == spec_msg_id(m2));
        let p1 = spec_payload(m1);
        let p2 = spec_payload(m2);
        assert(p1 =~= e1.subrange(5, e1.len() as int));
        assert(p2 =~= e2.subrange(5, e2.len() as int));
        assert(p1 == p2);
        match (m1, m2) {
            (Message::Have { piece_index: a }, Message::Have { piece_index: b }) => {
                assert(spec_u32_from_be(spec_u32_be(a)) == spec_u32_from_be(spec_u32_be(b)));
            },
            (Message::Bitfield { bitfield: a }, Message::Bitfield { bitfield: b }) => {
                crate::types::lemma_unpack_pack(a@);
                crate::types::lemma_unpack_pack(b@);
            },
            (
                Message::Request { piece_index: a, begin: ab, length: al },
                Message::Request { piece_index: b, begin: bb, length: bl },
            ) => {
                assert(p1.subrange(0, 4) =~= spec_u32_be(a));
                assert(p1.subrange(4, 8) =~= spec_u32_be(ab));
                assert(p1.subrange(8, 12) =~= spec_u32_be(al));
                assert(p2.subrange(0, 4) =~= spec_u32_be(b));
                assert(p2.subrange(4, 8) =~= spec_u32_be(bb));
                assert(p2.subrange(8, 12) =~= spec_u32_be(bl));
                assert(spec_u32_from_be(spec_u32_be(a)) == spec_u32_from_be(spec_u32_be(b)));
                assert(spec_u32_from_be(spec_u32_be(ab)) == spec_u32_from_be(spec_u32_be(bb)));
                assert(spec_u32_from_be(spec_u32_be(al)) == spec_u32_from_be(spec_u32_be(bl)));
            },
            (
                Message::Cancel { piece_index: a, begin: ab, length: al },
                Message::Cancel { piece_index: b, begin: bb, length: bl },
            ) => {
                assert(p1.subrange(0, 4) =~= spec_u32_be(a));
                assert(p1.subrange(4, 8) =~= spec_u32_be(ab));
                assert(p1.subrange(8, 12) =~= spec_u32_be(al));
                assert(p2.subrange(0, 4) =~= spec_u32_be(b));
                assert(p2.subrange(4, 8) =~= spec_u32_be(bb));
                assert(p2.subrange(8, 12) =~= spec_u32_be(bl));
                assert(spec_u32_from_be(spec_u32_be(a)) == spec_u32_from_be(spec_u32_be(b)));
                assert(spec_u32_from_be(spec_u32_be(ab)) == spec_u32_from_be(spec_u32_be(bb)));
                assert(spec_u32_from_be(spec_u32_be(al)) == spec_u32_from_be(spec_u32_be(bl)));
            },
            (
                Message::Piece { piece_index: a, begin: ab, piece: ap },
                Message::Piece { piece_index: b, begin: bb, piece: bp },
            ) => {
                assert(p1.subrange(0, 4) =~= spec_u32_be(a));
                assert(p1.subrange(4, 8) =~= spec_u32_be(ab));
                assert(p2.subrange(0, 4) =~= spec_u32_be(b));
                assert(p2.subrange(4, 8) =~= spec_u32_be(bb));
                assert(spec_u32_from_be(spec_u32_be(a)) == spec_u32_from_be(spec_u32_be(b)));
                assert(spec_u32_from_be(spec_u32_be(ab)) == spec_u32_from_be(spec_u32_be(bb)));
                assert(ap@ =~= p1.subrange(8, p1.len() as int));
                assert(bp@ =~= p2.subrange(8, p2.len() as int));
            },
            _ => {},
        }
    }
}

/// Frames and deframes length-prefixed wire messages.
pub struct MessageCodec;

/// The length prefix a well-formed frame must carry for identifier `id`.
pub open spec fn frame_len_ok(id: u8, mlen: int) -> bool {
    if id <= 3 {
        mlen == 1
    } else if id == 4 {
        mlen == 5
    } else if id == 5 {
        mlen >= 1
    } else if id == 6 || id == 8 {
        mlen == 13
    } else if id == 7 {
        mlen >= 9
    } else {
        true
    }
}

impl MessageCodec {
    /// Appends the frame of `item`: length prefix, identifier, payload.
    pub fn encode(&self, item: &Message, dst: &mut Vec<u8>)
        requires
            msg_wf(*item),
        ensures
            final(dst)@ == old(dst)@ + spec_encode_msg(*item),
    {
        let mlen = item.message_length();
        proof {
            if !(*item is KeepAlive) {
                assert(spec_msg_len(*item) <= u32::MAX);
            }
        }
        push_u32_be(mlen as u32, dst);
        match item.message_id() {
            Some(id) => {
                dst.push(id.as_byte());
            },
            None => {},
        }
        match item.payload() {
            Some(mut p) => {
                dst.append(&mut p);
            },
            None => {},
        }
        proof {
            if *item is KeepAlive {
                assert(final(dst)@ =~= old(dst)@ + spec_encode_msg(*item));
            } else {
                assert(final(dst)@ =~= old(dst)@ + spec_encode_msg(*item));
            }
        }
    }

    /// Deframes one message from the front of `src`.
    ///
    /// With fewer bytes than one whole frame nothing is returned and the
    /// buffer is untouched. A decoded message consumes exactly its frame,
    /// and that frame is the message's own encoding. Unknown identifiers
    /// and contradictory length prefixes are errors and consume nothing.
    #[verifier::rlimit(60)]
    #[verifier::spinoff_prover]
    pub fn decode(&self, src: &mut Vec<u8>) -> (r: Result<Option<Message>, CodecError>)
        ensures
            match r {
                Ok(None) => final(src)@ == old(src)@ && (old(src)@.len() < 4 || old(src)@.len() < 4
                    + spec_u32_from_be(old(src)@.subrange(0, 4)) as int),
                Ok(Some(m)) => {
                    let mlen = spec_u32_from_be(old(src)@.subrange(0, 4)) as int;
                    &&& old(src)@.len() >= 4 + mlen
                    &&& msg_wf(m)
                    &&& spec_encode_msg(m) == old(src)@.subrange(0, 4 + mlen)
                    &&& final(src)@ == old(src)@.skip(4 + mlen)
                    &&& (m matches Message::Bitfield { bitfield } ==> bitfield@.len() == 8 * (mlen
                        - 1))
                },
                Err(e) => {
                    let mlen = spec_u32_from_be(old(src)@.subrange(0, 4)) as int;
                    &&& final(src)@ == old(src)@
                    &&& old(src)@.len() >= 4 + mlen
                    &&& mlen > 0
                    &&& (e == CodecError::UnknownMessageId ==> old(src)@[4] > 8)
                    &&& (e == CodecError::InvalidLength ==> old(src)@[4] <= 8 && (!frame_len_ok(
                        old(src)@[4],
                        mlen,
                    ) || (old(src)@[4] == 5 && mlen - 1 > usize::MAX as int / 8)))
                    &&& (e == CodecError::UnknownMessageId || e == CodecError::InvalidLength)
                },
            },
    {
        let n = src.len();
        if n < 4 {
            return Ok(None);
        }
        let mlen32 = read_u32_be(src, 0);
        let mlen = mlen32 as usize;
        if n - 4 < mlen {
            return Ok(None);
        }
        let flen = 4 + mlen;
        proof {
            lemma_u32_be_round_trip();
        }
        if mlen == 0 {
            let tail = src.split_off(4);
            let ghost olds = src@;
            *src = tail;
            proof {
                assert(spec_encode_msg(Message::KeepAlive) == spec_u32_be(0));
                assert(spec_u32_be(spec_u32_from_be(olds.subrange(0, 4))) == olds.subrange(0, 4));
            }
            return Ok(Some(Message::KeepAlive));
        }
        let idb = src[4];
        let id = match MessageId::from_byte(idb) {
            Ok(id) => id,
            Err(e) => {
                return Err(e);
            },
        };
        let m: Message = match id {
            MessageId::Choke => {
                if mlen != 1 {
                    return Err(CodecError::InvalidLength);
                }
                Message::Choke
            },
            MessageId::Unchoke => {
                if mlen != 1 {
                    return Err(CodecError::InvalidLength);
                }
                Message::Unchoke
            },
            MessageId::Interested => {
                if mlen != 1 {
                    return Err(CodecError::InvalidLength);
                }
                Message::Interested
            },
            MessageId::NotInterested => {
                if mlen != 1 {
                    return Err(CodecError::InvalidLength);
                }
                Message::NotInterested
            },
            MessageId::Have => {
                if mlen != 5 {
                    return Err(CodecError::InvalidLength);
                }
                let piece_index = read_u32_be(src, 5);
                Message::Have { piece_index }
            },
            MessageId::Bitfield => {
                if mlen - 1 > usize::MAX / 8 {
                    return Err(CodecError::InvalidLength);
                }
                let payload = vstd::slice::slice_to_vec(vstd::slice::slice_subrange(
                    src.as_slice(),
                    5,
                    flen,
                ));
                proof {
                    assert(payload@.len() * 8 + 7 <= usize::MAX) by (nonlinear_arith)
                        requires
                            payload@.len() <= usize::MAX / 8,
                    ;
                }
                let bitfield = BitField::from_vec(payload);
                proof {
                    assert(bitfield@.len() == (mlen - 1) * 8);
                    assert((bitfield@.len() + 7) / 8 == mlen - 1) by (nonlinear_arith)
                        requires
                            bitfield@.len() == (mlen - 1) * 8,
                            mlen >= 1,
                    ;
                }
                Message::Bitfield { bitfield }
            },
            MessageId::Request => {
                if mlen != 13 {
                    return Err(CodecError::InvalidLength);
                }
                let piece_index = read_u32_be(src, 5);
                let begin = read_u32_be(src, 9);
                let length = read_u32_be(src, 13);
                Message::Request { piece_index, begin, length }
            },
            MessageId::Piece => {
                if mlen < 9 {
                    return Err(CodecError::InvalidLength);
                }
                let piece_index = read_u32_be(src, 5);
                let begin = read_u32_be(src, 9);
                let piece = vstd::slice::slice_to_vec(vstd::slice::slice_subrange(
                    src.as_slice(),
                    13,
                    flen,
                ));
                Message::Piece { piece_index, begin, piece }
            },
            MessageId::Cancel => {
                if mlen != 13 {
                    return Err(CodecError::InvalidLength);
                }
                let piece_index = read_u32_be(src, 5);
                let begin = read_u32_be(src, 9);
                let length = read_u32_be(src, 13);
                Message::Cancel { piece_index, begin, length }
            },
        };
        proof {
            let olds = src@;
            let frame = olds.subrange(0, flen as int);
            assert(spec_u32_be(spec_u32_from_be(olds.subrange(0, 4))) == olds.subrange(0, 4));
            if m is Bitfield {
                lemma_pack_unpack(olds.subrange(5, flen as int));
            }
            assert(spec_encode_msg(m) =~= frame);
        }
        let tail = src.split_off(flen);
        *src = tail;
        Ok(Some(m))
    }
}

} // verus!
