//! Piece assembly: blocks accumulate until the piece is complete, then the
//! assembled buffer is checked against the expected SHA-1 digest.

use vstd::prelude::*;

use crate::hash::{calculate_sha1_hash, sha1_of};
use crate::types::Sha1Hash;

verus! {

broadcast use vstd::std_specs::vec::group_vec_axioms;

/// Why a piece operation failed.
#[derive(Debug, Clone, Copy, PartialEq, Eq, Structural)]
pub enum PieceError {
    /// The assembled buffer does not hash to the expected digest.
    InvalidHash,
    /// The piece is not yet complete enough to verify.
    IncompleteBlocks,
    /// The block cannot be accepted: the piece is already verified, or the
    /// block does not fit inside it.
    InvalidBlock,
}

/// A fragment of a piece, received from a peer.
#[derive(Debug, Clone)]
pub struct Block {
    /// Which piece the fragment belongs to.
    pub piece_index: u32,
    /// Byte offset of the fragment within its piece.
    pub begin: u32,
    /// The fragment's bytes.
    pub data: Vec<u8>,
}

/// Whether a piece still gathers blocks or holds its verified bytes.
pub enum PieceStatus {
    /// The full buffer, whose digest equals the expected hash.
    Verified(Vec<u8>),
    /// The blocks received so far.
    UnVerified(Vec<Block>),
}

/// One piece of the torrent.
pub struct Piece {
    /// The piece index within the torrent.
    pub index: usize,
    /// The digest the assembled bytes must have.
    pub hash: Sha1Hash,
    /// Collected blocks, or the verified buffer.
    pub status: PieceStatus,
    /// The piece's size in bytes.
    pub length: u32,
}

/// Every block lies within a piece of size `length`.
pub open spec fn blocks_ok(blocks: Seq<Block>, length: u32) -> bool {
    forall|i: int|
        0 <= i < blocks.len() ==> (#[trigger] blocks[i]).begin + blocks[i].data@.len() <= length
}

/// Sum of the block sizes received so far.
pub open spec fn received_total(blocks: Seq<Block>) -> int
    decreases blocks.len(),
{
    if blocks.len() == 0 {
        0
    } else {
        received_total(blocks.drop_last()) + blocks.last().data@.len()
    }
}

/// Overwrites `data` into `buf` at offset `begin`.
pub open spec fn write_block(buf: Seq<u8>, begin: int, data: Seq<u8>) -> Seq<u8> {
    Seq::new(
        buf.len(),
        |i: int|
            if begin <= i < begin + data.len() {
                data[i - begin]
            } else {
                buf[i]
            },
    )
}

/// The piece buffer built by writing each block at its offset, in order;
/// overlapping blocks overwrite.
pub open spec fn assembled(blocks: Seq<Block>, length: nat) -> Seq<u8>
    decreases blocks.len(),
{
    if blocks.len() == 0 {
        Seq::new(length, |i: int| 0u8)
    } else {
        write_block(
            assembled(blocks.drop_last(), length),
            blocks.last().begin as int,
            blocks.last().data@,
        )
    }
}

impl Piece {
    /// The blocks gathered so far; meaningful while unverified.
    pub open spec fn spec_blocks(&self) -> Seq<Block> {
        self.status->UnVerified_0@
    }

    /// The verified buffer; meaningful once verified.
    pub open spec fn spec_data(&self) -> Seq<u8> {
        self.status->Verified_0@
    }

    /// A verified piece holds a full buffer with the expected digest; an
    /// unverified one may hold any blocks, placeable or not.
    pub open spec fn wf(&self) -> bool {
        match self.status {
            PieceStatus::Verified(d) => d@.len() == self.length && sha1_of(d@) == self.hash@,
            PieceStatus::UnVerified(_) => true,
        }
    }

    /// Whether the received block sizes come within one block of the piece
    /// size, so that assembly may be attempted (the last block of the last
    /// piece may be short).
    pub open spec fn spec_is_complete(&self) -> bool {
        match self.status {
            PieceStatus::Verified(_) => true,
            PieceStatus::UnVerified(blocks) => blocks@.len() > 0 && self.length
                - received_total(blocks@) < blocks@[0].data@.len(),
        }
    }

    /// A fresh piece with no blocks yet.
    pub fn new_unverified(index: usize, hash: Sha1Hash, length: u32) -> (r: Self)
        ensures
            r.index == index && r.hash == hash && r.length == length,
            r.status is UnVerified && r.spec_blocks() == Seq::<Block>::empty(),
            r.wf(),
    {
        Piece { index, hash, length, status: PieceStatus::UnVerified(Vec::new()) }
    }

    /// A piece restored directly from verified bytes.
    pub fn new_verified(index: usize, hash: Sha1Hash, length: u32, data: Vec<u8>) -> (r: Self)
        requires
            data@.len() == length,
            sha1_of(data@) == hash@,
        ensures
            r.index == index && r.hash == hash && r.length == length,
            r.status is Verified && r.spec_data() == data@,
            r.wf(),
    {
        Piece { index, hash, length, status: PieceStatus::Verified(data) }
    }

    /// Restores a piece from bytes that claim to be verified: the claim
    /// is checked by hashing them, and rejected bytes give no piece.
    pub fn try_new_verified(index: usize, hash: Sha1Hash, length: u32, data: Vec<u8>) -> (r:
        Option<Self>)
        ensures
            match r {
                Some(p) => {
                    &&& p.index == index && p.hash == hash && p.length == length
                    &&& p.status is Verified && p.spec_data() == data@
                    &&& p.wf()
                },
                None => data@.len() != length || sha1_of(data@) != hash@,
            },
    {
        if data.len() != length as usize {
            return None;
        }
        let digest = calculate_sha1_hash(data.as_slice());
        if !crate::bencode::bytes_eq(digest.as_slice(), hash.as_slice()) {
            return None;
        }
        Some(Piece::new_verified(index, hash, length, data))
    }

    /// Appends one more block while the piece still gathers; only a piece
    /// already verified refuses it. A block reaching past the piece's end
    /// is kept too, and fails later at `verify`.
    pub fn add_block(&mut self, block: Block) -> (r: Result<(), PieceError>)
        requires
            old(self).wf(),
        ensures
            final(self).wf(),
            final(self).index == old(self).index && final(self).hash == old(self).hash,
            final(self).length == old(self).length,
            r is Ok <==> old(self).status is UnVerified,
            r is Err ==> r == Err::<(), PieceError>(PieceError::InvalidBlock) && *final(self)
                == *old(self),
            r is Ok ==> final(self).status is UnVerified && final(self).spec_blocks()
                == old(self).spec_blocks().push(block),
    {
        match &mut self.status {
            PieceStatus::Verified(_) => Err(PieceError::InvalidBlock),
            PieceStatus::UnVerified(blocks) => {
                blocks.push(block);
                Ok(())
            },
        }
    }

    /// Whether enough bytes arrived: the gap left is smaller than the first
    /// block, so only a short final block can be outstanding.
    pub fn is_all_blocks_received(&self) -> (r: bool)
        requires
            self.wf(),
        ensures
            r == self.spec_is_complete(),
    {
        match &self.status {
            PieceStatus::Verified(_) => true,
            PieceStatus::UnVerified(blocks) => {
                if blocks.len() == 0 {
                    return false;
                }
                let total = blocks_total(blocks);
                let first_len = blocks[0].data.len() as u128;
                proof {
                    assert(first_len <= usize::MAX);
                    assert(total + first_len <= u128::MAX) by (nonlinear_arith)
                        requires
                            total <= blocks@.len() * (usize::MAX as int),
                            blocks@.len() <= usize::MAX,
                            first_len <= usize::MAX,
                            total >= 0,
                    ;
                }
                (self.length as u128) < total + first_len
            },
        }
    }

    /// Assembles the buffer, hashes it, and keeps it when the digest
    /// matches; a mismatch leaves the piece gathering blocks so they can be
    /// fetched again, as does a block that reaches past the piece's end.
    pub fn verify(&mut self) -> (r: Result<Vec<u8>, PieceError>)
        requires
            old(self).wf(),
        ensures
            final(self).wf(),
            final(self).index == old(self).index && final(self).hash == old(self).hash,
            final(self).length == old(self).length,
            old(self).status is Verified ==> *final(self) == *old(self) && (r matches Ok(d)
                && d@ == old(self).spec_data()),
            old(self).status is UnVerified && !old(self).spec_is_complete() ==> *final(self)
                == *old(self) && r == Err::<Vec<u8>, PieceError>(PieceError::IncompleteBlocks),
            old(self).status is UnVerified && old(self).spec_is_complete() && !blocks_ok(
                old(self).spec_blocks(),
                old(self).length,
            ) ==> *final(self) == *old(self) && r == Err::<
                Vec<u8>,
                PieceError,
            >(PieceError::InvalidBlock),
            old(self).status is UnVerified && old(self).spec_is_complete() && blocks_ok(
                old(self).spec_blocks(),
                old(self).length,
            ) ==> {
                let buf = assembled(old(self).spec_blocks(), old(self).length as nat);
                if sha1_of(buf) == old(self).hash@ {
                    &&& (r matches Ok(d) && d@ == buf)
                    &&& final(self).status is Verified
                    &&& final(self).spec_data() == buf
                } else {
                    &&& r == Err::<Vec<u8>, PieceError>(PieceError::InvalidHash)
                    &&& *final(self) == *old(self)
                }
            },
    {
        match &self.status {
            PieceStatus::Verified(d) => {
                let out = vstd::slice::slice_to_vec(d.as_slice());
                Ok(out)
            },
            PieceStatus::UnVerified(blocks) => {
                if !self.is_all_blocks_received() {
                    return Err(PieceError::IncompleteBlocks);
                }
                let blocks = match &self.status {
                    PieceStatus::UnVerified(blocks) => blocks,
                    PieceStatus::Verified(_) => {
                        return Err(PieceError::IncompleteBlocks);  // unreachable
                    },
                };
                if !blocks_fit(blocks, self.length) {
                    return Err(PieceError::InvalidBlock);
                }
                let mut buf: Vec<u8> = Vec::new();
                let mut z: usize = 0;
                let length = self.length as usize;
                while z < length
                    invariant
                        z <= length,
                        buf@ == Seq::new(z as nat, |i: int| 0u8),
                    decreases length - z,
                {
                    buf.push(0);
                    z = z + 1;
                    proof {
                        assert(buf@ =~= Seq::new(z as nat, |i: int| 0u8));
                    }
                }
                proof {
                    assert(assembled(blocks@.take(0), self.length as nat) =~= buf@) by {
                        assert(blocks@.take(0) =~= Seq::<Block>::empty());
                    }
                }
                let mut bi: usize = 0;
                while bi < blocks.len()
                    invariant
                        bi <= blocks@.len(),
                        blocks_ok(blocks@, self.length),
                        length == self.length,
                        buf@.len() == length,
                        buf@ == assembled(blocks@.take(bi as int), self.length as nat),
                    decreases blocks@.len() - bi,
                {
                    let begin = blocks[bi].begin as usize;
                    let blen = blocks[bi].data.len();
                    let ghost pre = buf@;
                    let mut k: usize = 0;
                    while k < blen
                        invariant
                            k <= blen,
                            bi < blocks@.len(),
                            blen == blocks@[bi as int].data@.len(),
                            begin == blocks@[bi as int].begin,
                            begin + blen <= length,
                            buf@.len() == length,
                            forall|i: int|
                                0 <= i < length ==> buf@[i] == (if begin <= i < begin + k {
                                    blocks@[bi as int].data@[i - begin]
                                } else {
                                    pre[i]
                                }),
                        decreases blen - k,
                    {
                        let ghost mid = buf@;
                        buf.set(begin + k, blocks[bi].data[k]);
                        k = k + 1;
                        proof {
                            assert(buf@ == mid.update(begin + k - 1, blocks@[bi as int].data@[k
                                - 1]));
                            assert forall|i: int|
                                0 <= i < length implies buf@[i] == (if begin <= i < begin + k {
                                blocks@[bi as int].data@[i - begin]
                            } else {
                                pre[i]
                            }) by {
                                if i != begin + k - 1 {
                                    assert(buf@[i] == mid[i]);
                                }
                            }
                        }
                    }
                    bi = bi + 1;
                    proof {
                        assert(blocks@.take(bi as int).drop_last() =~= blocks@.take(bi - 1));
                        assert(blocks@.take(bi as int).last() == blocks@[bi - 1]);
                        assert(buf@ =~= write_block(
                            pre,
                            blocks@[bi - 1].begin as int,
                            blocks@[bi - 1].data@,
                        ));
                        assert(buf@ =~= assembled(blocks@.take(bi as int), self.length as nat));
                    }
                }
                proof {
                    assert(blocks@.take(blocks@.len() as int) =~= blocks@);
                }
                let digest = calculate_sha1_hash(buf.as_slice());
                if crate::bencode::bytes_eq(digest.as_slice(), self.hash.as_slice()) {
                    proof {
                        assert(digest@ == self.hash@);
                    }
                    let out = vstd::slice::slice_to_vec(buf.as_slice());
                    self.status = PieceStatus::Verified(buf);
                    Ok(out)
                } else {
                    Err(PieceError::InvalidHash)
                }
            },
        }
    }

    /// Bytes `begin .. begin + length` of a verified piece.
    pub fn request(&self, begin: usize, length: usize) -> (r: Vec<u8>)
        requires
            self.wf(),
            self.status is Verified,
            begin + length <= self.spec_data().len(),
        ensures
            r@ == self.spec_data().subrange(begin as int, begin + length),
    {
        match &self.status {
            PieceStatus::Verified(d) => vstd::slice::slice_to_vec(
                vstd::slice::slice_subrange(d.as_slice(), begin, begin + length),
            ),
            PieceStatus::UnVerified(_) => Vec::new(),  // unreachable: requires Verified
        }
    }
}

/// Sums the block sizes.
fn blocks_total(blocks: &Vec<Block>) -> (r: u128)
    ensures
        r == received_total(blocks@),
        r <= blocks@.len() * (usize::MAX as int),
{
    let mut acc: u128 = 0;
    let mut i: usize = 0;
    proof {
        assert(blocks@.take(0) =~= Seq::<Block>::empty());
    }
    while i < blocks.len()
        invariant
            i <= blocks@.len(),
            acc == received_total(blocks@.take(i as int)),
            acc <= (i as int) * (usize::MAX as int),
        decreases blocks@.len() - i,
    {
        let b_len = blocks[i].data.len();
        proof {
            assert(blocks@.take(i + 1).drop_last() =~= blocks@.take(i as int));
            assert(blocks@.take(i + 1).last() == blocks@[i as int]);
            assert(b_len == blocks@[i as int].data@.len());
            assert(acc + b_len <= (i as int) * (usize::MAX as int) + usize::MAX);
            assert((i as int) * (usize::MAX as int) + usize::MAX == (i + 1) * (usize::MAX as int))
                by (nonlinear_arith);
            assert((i + 1) * (usize::MAX as int) <= u128::MAX) by (nonlinear_arith)
                requires
                    0 <= i + 1 <= usize::MAX,
                    usize::MAX <= u64::MAX,
            ;
        }
        acc = acc + (b_len as u128);
        i = i + 1;
    }
    proof {
        assert(blocks@.take(blocks@.len() as int) =~= blocks@);
    }
    acc
}

/// Whether every block lies inside a piece of size `length`.
fn blocks_fit(blocks: &Vec<Block>, length: u32) -> (r: bool)
    ensures
        r == blocks_ok(blocks@, length),
{
    let mut i: usize = 0;
    while i < blocks.len()
        invariant
            i <= blocks@.len(),
            forall|k: int|
                0 <= k < i ==> (#[trigger] blocks@[k]).begin + blocks@[k].data@.len() <= length,
        decreases blocks@.len() - i,
    {
        let b_len = blocks[i].data.len();
        if b_len > length as usize || blocks[i].begin > length - b_len as u32 {
            proof {
                assert(blocks@[i as int].begin + blocks@[i as int].data@.len() > length);
            }
            return false;
        }
        i = i + 1;
    }
    true
}

} // verus!
