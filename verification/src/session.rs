//! Per-peer session bookkeeping: what each inbound message does to the
//! connection state, and the decisions the session loop acts on.

use vstd::prelude::*;

use crate::message::{CodecError, HandShake, Message};
use crate::peer_connection::PeerConnection;
use crate::peer_stats::PeerStats;
use crate::piece::Block;
use crate::piece_picker::{BlockInfo, BlockState};
use crate::types::Sha1Hash;

verus! {

broadcast use vstd::std_specs::vec::group_vec_axioms;

/// What the session loop should do after the handshake reply.
#[derive(Debug, Clone, Copy, PartialEq, Eq, Structural)]
pub enum HandshakeOutcome {
    /// The peer answered for the right torrent: switch to messages.
    Proceed,
    /// No reply, or a reply for another torrent: close quietly.
    Disconnect,
    /// The reply broke the protocol: close with an error.
    ProtocolError,
}

/// Decides what follows the handshake exchange: a missing reply or a
/// mismatched info hash disconnects, a framing error is a protocol error,
/// and only a matching reply proceeds.
pub fn on_handshake_reply(expected: &Sha1Hash, reply: &Option<Result<HandShake, CodecError>>) -> (r:
    HandshakeOutcome)
    ensures
        r == HandshakeOutcome::Proceed <==> (reply matches Some(Ok(h)) && h.info_hash@
            == expected@),
        r == HandshakeOutcome::ProtocolError <==> reply matches Some(Err(_)),
        r == HandshakeOutcome::Disconnect <==> (reply is None || (reply matches Some(Ok(h))
            && h.info_hash@ != expected@)),
{
    match reply {
        None => HandshakeOutcome::Disconnect,
        Some(Err(_)) => HandshakeOutcome::ProtocolError,
        Some(Ok(h)) => {
            if crate::bencode::bytes_eq(h.info_hash.as_slice(), expected.as_slice()) {
                HandshakeOutcome::Proceed
            } else {
                HandshakeOutcome::Disconnect
            }
        },
    }
}

/// What the periodic tick asks the session loop to do.
#[derive(Debug, Clone, Copy, PartialEq, Eq, Structural)]
pub struct TickAction {
    /// Two minutes passed since the last outbound frame: keep the
    /// connection alive.
    pub send_keep_alive: bool,
    /// Two minutes passed with nothing inbound: the peer is dead.
    pub disconnect: bool,
}

/// The idle spans, in milliseconds, after which a keep-alive goes out and
/// after which a silent peer is dropped.
pub const IDLE_SEND_MS: u64 = 120000;

pub const IDLE_RECV_MS: u64 = 120000;

/// Decides the periodic actions from the last send and receive times.
pub fn on_tick(now_ms: u64, last_sent_ms: u64, last_received_ms: u64) -> (r: TickAction)
    ensures
        r.send_keep_alive == (now_ms >= last_sent_ms && now_ms - last_sent_ms
            >= IDLE_SEND_MS as int),
        r.disconnect == (now_ms >= last_received_ms && now_ms - last_received_ms
            > IDLE_RECV_MS as int),
{
    TickAction {
        send_keep_alive: now_ms >= last_sent_ms && now_ms - last_sent_ms >= IDLE_SEND_MS,
        disconnect: now_ms >= last_received_ms && now_ms - last_received_ms > IDLE_RECV_MS,
    }
}

/// A queued or cancelled outbound request matches by its block triple.
pub open spec fn queue_entry_matches(e: BlockInfo, piece_index: u32, begin: u32, length: u32) -> bool {
    e.piece_index == piece_index && e.begin == begin && e.length == length
}

/// One peer's message-stage state: connection flags, the outbound request
/// queue, throughput counters, and whether the one allowed bitfield
/// arrived yet.
pub struct Session {
    /// Flags and the peer's bitfield.
    pub peer_connection: PeerConnection,
    /// Requests the peer made and we still owe.
    pub request_queue: Vec<BlockInfo>,
    /// Upload and download byte counters.
    pub stats: PeerStats,
    /// Whether the peer's one bitfield message arrived.
    pub bitfield_exchanged: bool,
}

impl Session {
    pub open spec fn wf(&self) -> bool {
        self.stats.wf()
    }

    /// A fresh session around a new connection: both sides choked, nothing
    /// queued, no bitfield seen, counters over the default 20-second
    /// window.
    pub fn new(num_pieces: usize) -> (r: Self)
        ensures
            r.wf(),
            r.peer_connection.peer_bitfield@ == Seq::new(num_pieces as nat, |i: int| false),
            r.peer_connection.is_choked && !r.peer_connection.is_interesting
                && r.peer_connection.is_peer_choked && !r.peer_connection.is_peer_interesting,
            r.peer_connection.last_unchoked_at is None,
            r.request_queue@ == Seq::<BlockInfo>::empty(),
            !r.bitfield_exchanged,
            r.stats.spec_download().spec_log().len() == 0,
            r.stats.spec_upload().spec_log().len() == 0,
    {
        Session {
            peer_connection: PeerConnection::new(num_pieces),
            request_queue: Vec::new(),
            stats: PeerStats::new(20),
            bitfield_exchanged: false,
        }
    }

    /// Applies one inbound message.
    ///
    /// Choke, unchoke, interested and not-interested flip their flag; Have
    /// sets the named bit when it is in range; the first Bitfield replaces
    /// the peer's bitfield and later ones are ignored without error; a
    /// Request is queued only while the peer is unchoked; a Cancel drops
    /// the queue entries with the same triple; a Piece is counted against
    /// the download rate and handed back as the block to store; keep-alive
    /// does nothing.
    pub fn receive_msg(&mut self, now_ms: u64, msg: Message) -> (r: Option<Block>)
        requires
            old(self).wf(),
            old(self).stats.spec_download().spec_log().len() > 0 ==> old(
                self,
            ).stats.spec_download().spec_log().last().0 <= now_ms,
        ensures
            final(self).wf(),
            match msg {
                Message::KeepAlive => *final(self) == *old(self) && r is None,
                Message::Choke => *final(self) == (Session {
                    peer_connection: PeerConnection {
                        is_peer_choked: true,
                        ..old(self).peer_connection
                    },
                    ..*old(self)
                }) && r is None,
                Message::Unchoke => *final(self) == (Session {
                    peer_connection: PeerConnection {
                        is_peer_choked: false,
                        ..old(self).peer_connection
                    },
                    ..*old(self)
                }) && r is None,
                Message::Interested => *final(self) == (Session {
                    peer_connection: PeerConnection {
                        is_peer_interesting: true,
                        ..old(self).peer_connection
                    },
                    ..*old(self)
                }) && r is None,
                Message::NotInterested => *final(self) == (Session {
                    peer_connection: PeerConnection {
                        is_peer_interesting: false,
                        ..old(self).peer_connection
                    },
                    ..*old(self)
                }) && r is None,
                Message::Have { piece_index } => {
                    &&& r is None
                    &&& final(self).request_queue == old(self).request_queue
                    &&& final(self).stats == old(self).stats
                    &&& final(self).bitfield_exchanged == old(self).bitfield_exchanged
                    &&& final(self).peer_connection.is_choked == old(
                        self,
                    ).peer_connection.is_choked
                    &&& final(self).peer_connection.is_interesting == old(
                        self,
                    ).peer_connection.is_interesting
                    &&& final(self).peer_connection.is_peer_choked == old(
                        self,
                    ).peer_connection.is_peer_choked
                    &&& final(self).peer_connection.is_peer_interesting == old(
                        self,
                    ).peer_connection.is_peer_interesting
                    &&& final(self).peer_connection.last_unchoked_at == old(
                        self,
                    ).peer_connection.last_unchoked_at
                    &&& final(self).peer_connection.peer_bitfield@ == if (piece_index as int) < old(
                        self,
                    ).peer_connection.peer_bitfield@.len() {
                        old(self).peer_connection.peer_bitfield@.update(piece_index as int, true)
                    } else {
                        old(self).peer_connection.peer_bitfield@
                    }
                },
                Message::Bitfield { bitfield } => {
                    &&& r is None
                    &&& final(self).request_queue == old(self).request_queue
                    &&& final(self).stats == old(self).stats
                    &&& final(self).peer_connection.is_choked == old(
                        self,
                    ).peer_connection.is_choked
                    &&& final(self).peer_connection.is_interesting == old(
                        self,
                    ).peer_connection.is_interesting
                    &&& final(self).peer_connection.is_peer_choked == old(
                        self,
                    ).peer_connection.is_peer_choked
                    &&& final(self).peer_connection.is_peer_interesting == old(
                        self,
                    ).peer_connection.is_peer_interesting
                    &&& final(self).peer_connection.last_unchoked_at == old(
                        self,
                    ).peer_connection.last_unchoked_at
                    &&& final(self).bitfield_exchanged
                    &&& final(self).peer_connection.peer_bitfield@ == if old(
                        self,
                    ).bitfield_exchanged {
                        old(self).peer_connection.peer_bitfield@
                    } else {
                        bitfield@
                    }
                },
                Message::Request { piece_index, begin, length } => {
                    &&& r is None
                    &&& final(self).peer_connection == old(self).peer_connection
                    &&& final(self).stats == old(self).stats
                    &&& final(self).bitfield_exchanged == old(self).bitfield_exchanged
                    &&& final(self).request_queue@ == if !old(self).peer_connection.is_choked {
                        old(self).request_queue@.push(
                            BlockInfo {
                                piece_index,
                                begin,
                                length,
                                state: BlockState::NotRequested,
                            },
                        )
                    } else {
                        old(self).request_queue@
                    }
                },
                Message::Piece { piece_index, begin, piece } => {
                    &&& (r matches Some(b) && b.piece_index == piece_index && b.begin == begin
                        && b.data@ == piece@)
                    &&& final(self).peer_connection == old(self).peer_connection
                    &&& final(self).request_queue == old(self).request_queue
                    &&& final(self).bitfield_exchanged == old(self).bitfield_exchanged
                    &&& final(self).stats.spec_upload() == old(self).stats.spec_upload()
                    &&& final(self).stats.spec_download().spec_log()
                        == crate::peer_stats::evicted(
                        crate::peer_stats::coalesced(
                            old(self).stats.spec_download().spec_log(),
                            now_ms,
                            piece@.len() as usize,
                        ),
                        now_ms as int,
                        old(self).stats.spec_download().spec_window_ms(),
                    )
                },
                Message::Cancel { piece_index, begin, length } => {
                    &&& r is None
                    &&& final(self).peer_connection == old(self).peer_connection
                    &&& final(self).stats == old(self).stats
                    &&& final(self).bitfield_exchanged == old(self).bitfield_exchanged
                    &&& final(self).request_queue@ == old(self).request_queue@.filter(
                        |e: BlockInfo| !queue_entry_matches(e, piece_index, begin, length),
                    )
                },
            },
    {
        match msg {
            Message::KeepAlive => None,
            Message::Choke => {
                self.peer_connection.is_peer_choked = true;
                None
            },
            Message::Unchoke => {
                self.peer_connection.is_peer_choked = false;
                None
            },
            Message::Interested => {
                self.peer_connection.is_peer_interesting = true;
                None
            },
            Message::NotInterested => {
                self.peer_connection.is_peer_interesting = false;
                None
            },
            Message::Have { piece_index } => {
                let len = self.peer_connection.peer_bitfield.len();
                if (piece_index as usize) < len {
                    self.peer_connection.peer_bitfield.set(piece_index as usize, true);
                }
                None
            },
            Message::Bitfield { bitfield } => {
                if !self.bitfield_exchanged {
                    self.peer_connection.peer_bitfield = bitfield;
                }
                self.bitfield_exchanged = true;
                None
            },
            Message::Request { piece_index, begin, length } => {
                if !self.peer_connection.is_choked {
                    self.request_queue.push(BlockInfo::new(piece_index, begin, length));
                }
                None
            },
            Message::Piece { piece_index, begin, piece } => {
                self.stats.record_download(now_ms, piece.len());
                Some(Block { piece_index, begin, data: piece })
            },
            Message::Cancel { piece_index, begin, length } => {
                let n = self.request_queue.len();
                let mut kept: Vec<BlockInfo> = Vec::new();
                let mut i: usize = 0;
                proof {
                    assert(kept@ =~= old(self).request_queue@.take(0).filter(
                        |e: BlockInfo| !queue_entry_matches(e, piece_index, begin, length),
                    ));
                }
                while i < n
                    invariant
                        self == old(self),
                        n == self.request_queue@.len(),
                        i <= n,
                        kept@ == self.request_queue@.take(i as int).filter(
                            |e: BlockInfo| !queue_entry_matches(e, piece_index, begin, length),
                        ),
                    decreases n - i,
                {
                    let e = self.request_queue[i];
                    proof {
                        assert(self.request_queue@.take(i + 1).drop_last()
                            =~= self.request_queue@.take(i as int));
                        assert(self.request_queue@.take(i + 1).last() == e);
                    }
                    if !(e.piece_index == piece_index && e.begin == begin && e.length == length) {
                        kept.push(e);
                    }
                    i = i + 1;
                    proof {
                        self.request_queue@.take(i - 1).lemma_filter_push(
                            e,
                            |x: BlockInfo| !queue_entry_matches(x, piece_index, begin, length),
                        );
                        assert(self.request_queue@.take(i - 1).push(e) =~= self.request_queue@.take(i as int));
                    }
                }
                proof {
                    assert(self.request_queue@.take(n as int) =~= self.request_queue@);
                }
                self.request_queue = kept;
                None
            },
        }
    }
}

} // verus!
