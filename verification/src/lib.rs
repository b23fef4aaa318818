//! Core of a BitTorrent client: metainfo parsing, the wire-message codec,
//! piece assembly and verification, the piece picker, the choker, peer
//! session bookkeeping, tracker request building and response parsing, and
//! the disk placement rules.

mod bencode;
mod choker;
mod disk;
mod hash;
mod message;
mod metainfo;
mod peer_connection;
mod peer_stats;
mod piece;
mod piece_picker;
mod session;
mod torrent;
mod tracker;
mod types;

pub use bencode::BValue;
pub use choker::Choker;
pub use disk::{initial_bitfield, write_placements, WriteOp};
pub use hash::calculate_sha1_hash;
pub use message::{CodecError, HandShake, HandShakeCodec, Message, MessageCodec, MessageId};
pub use metainfo::{File, Info, MetaInfo, MetaInfoError};
pub use peer_connection::PeerConnection;
pub use peer_stats::{PeerStats, ThroughputRate};
pub use piece::{Block, Piece, PieceError, PieceStatus};
pub use piece_picker::{BlockInfo, BlockState, PiecePicker, BLOCK_SIZE};
pub use session::{on_handshake_reply, on_tick, HandshakeOutcome, Session, TickAction};
pub use torrent::{Torrent, TorrentError};
pub use tracker::{
    decode_compact_peers, parse_ipv4, parse_tracker_response, ErrorResponse, Peer, PeerAddr,
    PeerItem, RequestParams, Response, SuccessResponse, Tracker, TrackerError, TrackerEvent,
};
pub use types::BitField;
