//! Per-peer connection state: the remote bitfield, the four choke and
//! interest flags, and when the peer was last unchoked.

use vstd::prelude::*;

use crate::types::BitField;

verus! {

/// Mutable state kept for one remote peer.
///
/// Times are milliseconds on the caller's monotonic clock; an absent
/// `last_unchoked_at` means the peer was never unchoked.
#[derive(Debug)]
pub struct PeerConnection {
    /// Which pieces the peer claims to have.
    pub peer_bitfield: BitField,
    /// We are choking the peer.
    pub is_choked: bool,
    /// We are interested in the peer.
    pub is_interesting: bool,
    /// The peer is choking us.
    pub is_peer_choked: bool,
    /// The peer is interested in us.
    pub is_peer_interesting: bool,
    /// When we last unchoked the peer, if ever.
    pub last_unchoked_at: Option<u64>,
}

impl PeerConnection {
    /// A fresh connection: both sides choked, neither interested, an empty
    /// bitfield of one bit per piece.
    pub fn new(bitfield_len: usize) -> (r: Self)
        ensures
            r.peer_bitfield@ == Seq::new(bitfield_len as nat, |i: int| false),
            r.is_choked && !r.is_interesting && r.is_peer_choked && !r.is_peer_interesting,
            r.last_unchoked_at is None,
    {
        PeerConnection {
            peer_bitfield: BitField::repeat(false, bitfield_len),
            is_choked: true,
            is_interesting: false,
            is_peer_choked: true,
            is_peer_interesting: false,
            last_unchoked_at: None,
        }
    }
}

} // verus!
