//! The per-torrent aggregate: the pieces, the picker, and the owned
//! bitfield, driven by the blocks the sessions hand in.

use vstd::prelude::*;

use crate::metainfo::MetaInfo;
use crate::message::read_20;
use crate::piece::{Block, Piece, PieceError};
use crate::piece::{assembled, blocks_ok, received_total};
use crate::piece_picker::{
    marked_received, spec_initial_pool, spec_num_pieces, spec_piece_len, BlockInfo, BlockState,
    PiecePicker,
};
use crate::types::BitField;

verus! {

broadcast use vstd::std_specs::vec::group_vec_axioms;

/// Why a block could not be taken in.
#[derive(Debug, Clone, Copy, PartialEq, Eq, Structural)]
pub enum TorrentError {
    /// The block names a piece the torrent does not have.
    InvalidPieceIndex,
    /// The named piece refused the block or failed verification.
    Piece(PieceError),
}

/// One torrent's download state.
pub struct Torrent {
    /// One piece per index, each carrying its expected digest and length.
    pub pieces: Vec<Piece>,
    /// The pool of blocks still missing.
    pub piece_picker: PiecePicker,
}

impl Torrent {
    /// The pieces line up with the picker: one per index, well formed,
    /// sized as the description prescribes.
    pub open spec fn wf(&self) -> bool {
        &&& self.piece_picker.wf()
        &&& self.pieces@.len() == self.piece_picker.spec_bitfield().len()
        &&& forall|i: int|
            0 <= i < self.pieces@.len() ==> (#[trigger] self.pieces@[i]).wf()
                && self.pieces@[i].index == i && self.pieces@[i].length == spec_piece_len(
                self.piece_picker.spec_total() as int,
                self.piece_picker.spec_piece_length() as int,
                i,
            )
    }

    /// Builds the aggregate from a parsed description: one unverified
    /// piece per digest, and a picker over an empty bitfield.
    pub fn from_metainfo(metainfo: &MetaInfo) -> (r: Torrent)
        requires
            metainfo.info.wf(),
            metainfo.info.spec_total_bytes() <= u32::MAX,
        ensures
            r.wf(),
            r.pieces@.len() == metainfo.info.spec_num_pieces(),
            forall|i: int|
                0 <= i < r.pieces@.len() ==> (#[trigger] r.pieces@[i]).status is UnVerified
                    && r.pieces@[i].spec_blocks().len() == 0 && r.pieces@[i].hash@
                    == metainfo.info.pieces@.subrange(20 * i, 20 * i + 20),
            r.piece_picker.spec_bitfield() == Seq::new(
                metainfo.info.spec_num_pieces() as nat,
                |i: int| false,
            ),
            r.piece_picker.spec_missing() == spec_initial_pool(
                Seq::new(metainfo.info.spec_num_pieces() as nat, |i: int| false),
                metainfo.info.spec_total_bytes(),
                metainfo.info.piece_length as int,
            ),
    {
        let total = metainfo.total_bytes() as u32;
        let plen = metainfo.info.piece_length;
        let np = metainfo.num_pieces();
        proof {
            assert(np == spec_num_pieces(total as int, plen as int)) by {
                assert(metainfo.info.spec_num_pieces() == (metainfo.info.spec_total_bytes()
                    + plen - 1) / (plen as int));
            }
            assert(np <= u32::MAX) by (nonlinear_arith)
                requires
                    np == (total as int + plen - 1) / (plen as int),
                    1 <= plen,
                    0 <= total <= u32::MAX,
            ;
        }
        let mut pieces: Vec<Piece> = Vec::new();
        let mut i: usize = 0;
        while i < np
            invariant
                metainfo.info.wf(),
                np == spec_num_pieces(total as int, plen as int),
                np <= u32::MAX,
                total == metainfo.info.spec_total_bytes(),
                plen == metainfo.info.piece_length,
                np * 20 <= metainfo.info.pieces@.len(),
                pieces@.len() == i,
                i <= np,
                forall|j: int|
                    0 <= j < i ==> (#[trigger] pieces@[j]).status is UnVerified
                        && pieces@[j].spec_blocks().len() == 0 && pieces@[j].hash@
                        == metainfo.info.pieces@.subrange(20 * j, 20 * j + 20) && pieces@[j].wf()
                        && pieces@[j].index == j && pieces@[j].length == spec_piece_len(
                        total as int,
                        plen as int,
                        j,
                    ),
            decreases np - i,
        {
            let pieces_len = metainfo.info.pieces.len();
            proof {
                assert(pieces_len == metainfo.info.pieces@.len());
                assert(20 * (i as int) + 20 <= 20 * (np as int)) by (nonlinear_arith)
                    requires
                        0 <= i < np,
                ;
                assert(20 * (np as int) == (np as int) * 20);
                assert((i as int) * (plen as int) <= u64::MAX) by (nonlinear_arith)
                    requires
                        0 <= i <= u32::MAX,
                        0 <= plen <= u32::MAX,
                ;
            }
            let hash = read_20(&metainfo.info.pieces, 20 * i);
            let offset64 = (i as u64) * (plen as u64);
            proof {
                assert(offset64 == (i as int) * (plen as int) && (i as int) * (plen as int)
                    < total) by (nonlinear_arith)
                    requires
                        offset64 == (i as u64) * (plen as u64),
                        0 <= i < np,
                        i <= u32::MAX,
                        0 <= plen <= u32::MAX,
                        1 <= plen,
                        np == (total as int + plen - 1) / (plen as int),
                        0 <= total,
                ;
            }
            let rem = (total as u64) - offset64;
            let piece_len: u32 = if rem < plen as u64 {
                rem as u32
            } else {
                plen
            };
            proof {
                assert(piece_len == spec_piece_len(total as int, plen as int, i as int));
            }
            pieces.push(Piece::new_unverified(i, hash, piece_len));
            i = i + 1;
        }
        let picker = PiecePicker::new(BitField::repeat(false, np), total, plen);
        Torrent { pieces, piece_picker: picker }
    }

    /// Whether the block is one its piece can still take: a known piece,
    /// still gathering blocks.
    pub open spec fn block_accepted(&self, block: Block) -> bool {
        &&& (block.piece_index as int) < self.pieces@.len()
        &&& self.pieces@[block.piece_index as int].status is UnVerified
    }

    /// The record `add_block` reports to the picker.
    pub open spec fn block_triple(block: Block) -> BlockInfo {
        BlockInfo {
            piece_index: block.piece_index,
            begin: block.begin,
            length: block.data@.len() as u32,
            state: BlockState::NotRequested,
        }
    }

    /// Takes in one received block: the picker marks it received, the
    /// piece collects it, and a piece whose bytes are all in is assembled
    /// and checked against its digest.
    pub fn add_block(&mut self, block: Block) -> (r: Result<(), TorrentError>)
        requires
            old(self).wf(),
        ensures
            final(self).wf(),
            final(self).pieces@.len() == old(self).pieces@.len(),
            forall|j: int|
                0 <= j < old(self).pieces@.len() && j != block.piece_index as int
                    ==> final(self).pieces@[j] == old(self).pieces@[j],
            r == Err::<(), TorrentError>(TorrentError::InvalidPieceIndex)
                <==> block.piece_index as int >= old(self).pieces@.len(),
            block.piece_index as int >= old(self).pieces@.len() ==> *final(self) == *old(self),
            r == Err::<(), TorrentError>(TorrentError::Piece(PieceError::InvalidBlock))
                <==> (block.piece_index as int) < old(self).pieces@.len() && (!old(
                self,
            ).block_accepted(block) || ({
                let pre = old(self).pieces@[block.piece_index as int];
                let pushed = pre.spec_blocks().push(block);
                let complete = pushed.len() > 0 && pre.length - received_total(pushed)
                    < pushed[0].data@.len();
                old(self).block_accepted(block) && complete && !blocks_ok(pushed, pre.length)
            })),
            r != Err::<(), TorrentError>(TorrentError::Piece(PieceError::IncompleteBlocks)),
            // the picker hears of every block of a known piece, unless the
            // data cannot even be sized as a record
            (block.piece_index as int) < old(self).pieces@.len() ==> if block.data@.len()
                <= u32::MAX {
                marked_received(
                    old(self).piece_picker,
                    final(self).piece_picker,
                    Self::block_triple(block),
                )
            } else {
                final(self).piece_picker == old(self).piece_picker
            },
            (block.piece_index as int) < old(self).pieces@.len() && !old(self).block_accepted(
                block,
            ) ==> final(self).pieces@[block.piece_index as int] == old(self).pieces@[
                block.piece_index as int],
            // an accepted block is appended; a piece thereby complete is
            // assembled and checked against its digest
            old(self).block_accepted(block) ==> ({
                let pre = old(self).pieces@[block.piece_index as int];
                let post = final(self).pieces@[block.piece_index as int];
                let pushed = pre.spec_blocks().push(block);
                let complete = pushed.len() > 0 && pre.length - received_total(pushed)
                    < pushed[0].data@.len();
                let buf = assembled(pushed, pre.length as nat);
                &&& post.index == pre.index && post.hash == pre.hash && post.length == pre.length
                &&& if !complete {
                    &&& r is Ok
                    &&& post.status is UnVerified
                    &&& post.spec_blocks() == pushed
                } else if !blocks_ok(pushed, pre.length) {
                    &&& r == Err::<(), TorrentError>(TorrentError::Piece(PieceError::InvalidBlock))
                    &&& post.status is UnVerified
                    &&& post.spec_blocks() == pushed
                } else if crate::hash::sha1_of(buf) == pre.hash@ {
                    &&& r is Ok
                    &&& post.status is Verified
                    &&& post.spec_data() == buf
                } else {
                    &&& r == Err::<(), TorrentError>(TorrentError::Piece(PieceError::InvalidHash))
                    &&& post.status is UnVerified
                    &&& post.spec_blocks() == pushed
                }
            }),
            r is Ok <==> old(self).block_accepted(block) && ({
                let pre = old(self).pieces@[block.piece_index as int];
                let pushed = pre.spec_blocks().push(block);
                let complete = pushed.len() > 0 && pre.length - received_total(pushed)
                    < pushed[0].data@.len();
                !complete || (blocks_ok(pushed, pre.length) && crate::hash::sha1_of(
                    assembled(pushed, pre.length as nat),
                ) == pre.hash@)
            }),
    {
        let pi = block.piece_index as usize;
        if pi >= self.pieces.len() {
            return Err(TorrentError::InvalidPieceIndex);
        }
        if block.data.len() <= u32::MAX as usize {
            let info = BlockInfo::new(block.piece_index, block.begin, block.data.len() as u32);
            self.piece_picker.mark_received(&info);
        }
        let result = self.pieces[pi].add_block(block);
        match result {
            Err(e) => {
                return Err(TorrentError::Piece(e));
            },
            Ok(_) => {},
        }
        if self.pieces[pi].is_all_blocks_received() {
            match self.pieces[pi].verify() {
                Ok(_) => Ok(()),
                Err(e) => Err(TorrentError::Piece(e)),
            }
        } else {
            Ok(())
        }
    }

    /// The bitfield of pieces whose blocks have all been received.
    pub fn owned_bitfield(&self) -> (r: BitField)
        ensures
            r@ == self.piece_picker.spec_bitfield(),
    {
        self.piece_picker.owned_bitfield()
    }
}

} // verus!
