//! The piece picker: one record per missing block, handed out in piece
//! then offset order.

use vstd::prelude::*;

use crate::types::BitField;

verus! {

broadcast use vstd::std_specs::vec::group_vec_axioms;

/// The block size requests are cut to; the last block of the last piece
/// may be shorter.
pub const BLOCK_SIZE: u32 = 16384;

/// Where a missing block stands in its request lifecycle.
#[derive(Debug, Clone, Copy, PartialEq, Eq, Structural)]
pub enum BlockState {
    NotRequested,
    Requested,
    Received,
}

/// The picker's record of one not-yet-completed block.
#[derive(Debug, Clone, Copy, PartialEq, Eq, Structural)]
pub struct BlockInfo {
    /// The piece this block belongs to.
    pub piece_index: u32,
    /// Byte offset of the block within its piece.
    pub begin: u32,
    /// The block's size in bytes.
    pub length: u32,
    /// Whether the block was requested or received yet.
    pub state: BlockState,
}

impl BlockInfo {
    /// A fresh record: not yet requested.
    pub fn new(piece_index: u32, begin: u32, length: u32) -> (r: Self)
        ensures
            r == (BlockInfo { piece_index, begin, length, state: BlockState::NotRequested }),
    {
        BlockInfo { piece_index, begin, length, state: BlockState::NotRequested }
    }

    /// The block's index within its piece, at `BLOCK_SIZE` stride.
    pub fn index(&self) -> (r: u32)
        ensures
            r == self.begin / BLOCK_SIZE,
    {
        self.begin / BLOCK_SIZE
    }

    /// Whether two records describe the same block of the same piece.
    pub fn is_same_block(&self, block: &BlockInfo) -> (r: bool)
        ensures
            r == (self.piece_index == block.piece_index && self.begin == block.begin
                && self.length == block.length),
    {
        self.piece_index == block.piece_index && self.begin == block.begin && self.length
            == block.length
    }
}

/// How many pieces cover `total` bytes at `piece_length` each: the
/// quotient rounded up.
pub open spec fn spec_num_pieces(total: int, piece_length: int) -> int {
    (total + piece_length - 1) / piece_length
}

/// The size of piece `p`: a full piece length, except that the last piece
/// only reaches the end of the content.
pub open spec fn spec_piece_len(total: int, piece_length: int, p: int) -> int {
    if total - p * piece_length < piece_length {
        total - p * piece_length
    } else {
        piece_length
    }
}

/// How many blocks cover a piece of `piece_len` bytes, rounded up.
pub open spec fn spec_block_count(piece_len: int) -> int {
    (piece_len + BLOCK_SIZE - 1) / (BLOCK_SIZE as int)
}

/// The size of block `b` in a piece of `piece_len` bytes: a full block,
/// except that the last one only reaches the end of the piece.
pub open spec fn spec_block_len(piece_len: int, b: int) -> int {
    if piece_len - b * BLOCK_SIZE < BLOCK_SIZE {
        piece_len - b * BLOCK_SIZE
    } else {
        BLOCK_SIZE as int
    }
}

/// The fresh record for block `b` of piece `p`.
pub open spec fn spec_block_at(total: int, piece_length: int, p: int, b: int) -> BlockInfo {
    BlockInfo {
        piece_index: p as u32,
        begin: (b * BLOCK_SIZE) as u32,
        length: spec_block_len(spec_piece_len(total, piece_length, p), b) as u32,
        state: BlockState::NotRequested,
    }
}

/// All fresh records for piece `p`, offset ascending.
pub open spec fn spec_piece_blocks(total: int, piece_length: int, p: int) -> Seq<BlockInfo> {
    Seq::new(
        spec_block_count(spec_piece_len(total, piece_length, p)) as nat,
        |b: int| spec_block_at(total, piece_length, p, b),
    )
}

/// The records of all pieces below `n` that the bitfield does not own,
/// piece then offset ascending.
pub open spec fn spec_missing_up_to(bf: Seq<bool>, total: int, piece_length: int, n: int) -> Seq<
    BlockInfo,
>
    decreases n,
{
    if n <= 0 {
        Seq::empty()
    } else {
        spec_missing_up_to(bf, total, piece_length, n - 1) + (if bf[n - 1] {
            Seq::empty()
        } else {
            spec_piece_blocks(total, piece_length, n - 1)
        })
    }
}

/// The full pool the picker starts from.
pub open spec fn spec_initial_pool(bf: Seq<bool>, total: int, piece_length: int) -> Seq<
    BlockInfo,
> {
    spec_missing_up_to(bf, total, piece_length, bf.len() as int)
}

/// Two records describe the same block of the same piece.
pub open spec fn same_triple(a: BlockInfo, b: BlockInfo) -> bool {
    a.piece_index == b.piece_index && a.begin == b.begin && a.length == b.length
}

/// The index of the first record describing the same block, scanning
/// from `i`.
pub open spec fn spec_first_match(s: Seq<BlockInfo>, b: BlockInfo, i: int) -> Option<int>
    decreases s.len() - i,
{
    if 0 <= i < s.len() {
        if same_triple(s[i], b) {
            Some(i)
        } else {
            spec_first_match(s, b, i + 1)
        }
    } else {
        None
    }
}

/// How `mark_received` moves a picker: the first record of the block's
/// triple turns received, and when that completes its piece the owned bit
/// for the piece is set; a triple matching nothing changes nothing.
pub open spec fn marked_received(pre: PiecePicker, post: PiecePicker, block: BlockInfo) -> bool {
    &&& post.spec_total() == pre.spec_total()
    &&& post.spec_piece_length() == pre.spec_piece_length()
    &&& match spec_first_match(pre.spec_missing(), block, 0) {
        Some(i) => {
            let updated = pre.spec_missing().update(
                i,
                BlockInfo { state: BlockState::Received, ..pre.spec_missing()[i] },
            );
            &&& post.spec_missing() == updated
            &&& post.spec_bitfield() == if piece_all_received(updated, block.piece_index) {
                pre.spec_bitfield().update(block.piece_index as int, true)
            } else {
                pre.spec_bitfield()
            }
        },
        None => {
            &&& post.spec_missing() == pre.spec_missing()
            &&& post.spec_bitfield() == pre.spec_bitfield()
        },
    }
}

/// Every record of the piece is received.
pub open spec fn piece_all_received(s: Seq<BlockInfo>, piece: u32) -> bool {
    forall|k: int|
        0 <= k < s.len() && (#[trigger] s[k]).piece_index == piece ==> s[k].state
            == BlockState::Received
}

/// Chooses the next block to request for a peer, and remembers which
/// blocks were handed out.
pub struct PiecePicker {
    own_bitfield: BitField,
    total_length: u32,
    piece_length: u32,
    missing_blocks: Vec<BlockInfo>,
    initial_bitfield: Ghost<Seq<bool>>,
}

/// The index of the first block the peer can serve that was not yet
/// requested, scanning from `i`.
pub open spec fn spec_first_pickable(s: Seq<BlockInfo>, peer: Seq<bool>, i: int) -> Option<int>
    decreases s.len() - i,
{
    if 0 <= i < s.len() {
        if peer[s[i].piece_index as int] && s[i].state == BlockState::NotRequested {
            Some(i)
        } else {
            spec_first_pickable(s, peer, i + 1)
        }
    } else {
        None
    }
}

proof fn lemma_pool_membership(bf: Seq<bool>, total: int, plen: int, n: int)
    requires
        0 <= n <= bf.len(),
    ensures
        forall|p: int, b: int|
            0 <= p < n && !bf[p] && 0 <= b < spec_block_count(spec_piece_len(total, plen, p))
                ==> spec_missing_up_to(bf, total, plen, n).contains(
                #[trigger] spec_block_at(total, plen, p, b),
            ),
    decreases n,
{
    if n > 0 {
        lemma_pool_membership(bf, total, plen, n - 1);
        let pre = spec_missing_up_to(bf, total, plen, n - 1);
        let cur = spec_missing_up_to(bf, total, plen, n);
        assert forall|p: int, b: int|
            0 <= p < n && !bf[p] && 0 <= b < spec_block_count(
                spec_piece_len(total, plen, p),
            ) implies cur.contains(#[trigger] spec_block_at(total, plen, p, b)) by {
            if p < n - 1 {
                let i = choose|i: int|
                    0 <= i < pre.len() && pre[i] == spec_block_at(total, plen, p, b);
                assert(cur[i] == spec_block_at(total, plen, p, b));
            } else {
                assert(!bf[n - 1]);
                assert(cur[pre.len() + b] == spec_piece_blocks(total, plen, n - 1)[b]);
            }
        }
    }
}

proof fn lemma_pool_soundness(bf: Seq<bool>, total: int, plen: int, n: int)
    requires
        plen >= 1,
        0 <= total,
        bf.len() == spec_num_pieces(total, plen),
        0 <= n <= bf.len(),
    ensures
        forall|i: int|
            0 <= i < spec_missing_up_to(bf, total, plen, n).len() ==> exists|p: int, b: int|
                0 <= p < n && !bf[p] && 0 <= b < spec_block_count(spec_piece_len(total, plen, p))
                    && #[trigger] spec_missing_up_to(bf, total, plen, n)[i] == spec_block_at(
                    total,
                    plen,
                    p,
                    b,
                ),
    decreases n,
{
    if n > 0 {
        lemma_pool_soundness(bf, total, plen, n - 1);
        let pre = spec_missing_up_to(bf, total, plen, n - 1);
        let cur = spec_missing_up_to(bf, total, plen, n);
        assert forall|i: int| 0 <= i < cur.len() implies exists|p: int, b: int|
            0 <= p < n && !bf[p] && 0 <= b < spec_block_count(spec_piece_len(total, plen, p))
                && #[trigger] cur[i] == spec_block_at(total, plen, p, b) by {
            if i < pre.len() {
                assert(cur[i] == pre[i]);
                let (p, b) = choose|p: int, b: int|
                    0 <= p < n - 1 && !bf[p] && 0 <= b < spec_block_count(
                        spec_piece_len(total, plen, p),
                    ) && #[trigger] spec_missing_up_to(bf, total, plen, n - 1)[i]
                        == spec_block_at(total, plen, p, b);
                assert(0 <= p < n && !bf[p] && 0 <= b < spec_block_count(
                    spec_piece_len(total, plen, p),
                ) && cur[i] == spec_block_at(total, plen, p, b));
            } else {
                let b = i - pre.len();
                assert(!bf[n - 1]);
                assert(cur[i] == spec_piece_blocks(total, plen, n - 1)[b]);
                assert(0 <= b < spec_piece_blocks(total, plen, n - 1).len());
                let c = spec_block_count(spec_piece_len(total, plen, n - 1));
                lemma_piece_len_bounds(total, plen, n - 1);
                assert(c >= 1) by (nonlinear_arith)
                    requires
                        c == (spec_piece_len(total, plen, n - 1) + BLOCK_SIZE - 1) / (
                        BLOCK_SIZE as int),
                        spec_piece_len(total, plen, n - 1) >= 1,
                ;
                assert(spec_piece_blocks(total, plen, n - 1).len() == c as nat);
                assert(0 <= b < c);
                assert(0 <= n - 1 < n && !bf[n - 1] && cur[i] == spec_block_at(
                    total,
                    plen,
                    n - 1,
                    b,
                ));
            }
        }
    }
}

/// Distinct valid block coordinates give distinct records.
proof fn lemma_block_at_injective(total: int, plen: int, p1: int, b1: int, p2: int, b2: int)
    requires
        plen >= 1,
        0 <= p1 <= u32::MAX,
        0 <= p2 <= u32::MAX,
        0 <= b1 < spec_block_count(spec_piece_len(total, plen, p1)),
        0 <= b2 < spec_block_count(spec_piece_len(total, plen, p2)),
        1 <= spec_piece_len(total, plen, p1) <= u32::MAX,
        1 <= spec_piece_len(total, plen, p2) <= u32::MAX,
        (p1, b1) != (p2, b2),
    ensures
        spec_block_at(total, plen, p1, b1) != spec_block_at(total, plen, p2, b2),
{
    if p1 == p2 {
        let pl = spec_piece_len(total, plen, p1);
        assert(b1 * BLOCK_SIZE < pl && b2 * BLOCK_SIZE < pl && b1 * BLOCK_SIZE != b2 * BLOCK_SIZE)
            by (nonlinear_arith)
            requires
                0 <= b1 < (pl + BLOCK_SIZE - 1) / (BLOCK_SIZE as int),
                0 <= b2 < (pl + BLOCK_SIZE - 1) / (BLOCK_SIZE as int),
                b1 != b2,
                1 <= pl,
        ;
    }
}

/// Law: the picker's starting pool covers every block of every piece the
/// owner lacks exactly once, at `BLOCK_SIZE` stride, block sizes truncated
/// to the data covered; and it holds nothing else.
pub proof fn lemma_picker_coverage(bf: Seq<bool>, total: int, plen: int)
    requires
        1 <= plen <= u32::MAX,
        0 <= total,
        bf.len() == spec_num_pieces(total, plen),
        bf.len() <= u32::MAX,
    ensures
        forall|p: int, b: int|
            0 <= p < bf.len() && !bf[p] && 0 <= b < spec_block_count(spec_piece_len(total, plen, p))
                ==> spec_initial_pool(bf, total, plen).contains(
                #[trigger] spec_block_at(total, plen, p, b),
            ),
        forall|i: int|
            0 <= i < spec_initial_pool(bf, total, plen).len() ==> exists|p: int, b: int|
                0 <= p < bf.len() && !bf[p] && 0 <= b < spec_block_count(
                    spec_piece_len(total, plen, p),
                ) && #[trigger] spec_initial_pool(bf, total, plen)[i] == spec_block_at(
                    total,
                    plen,
                    p,
                    b,
                ),
        forall|i: int, j: int|
            0 <= i < j < spec_initial_pool(bf, total, plen).len() ==> spec_initial_pool(
                bf,
                total,
                plen,
            )[i] != spec_initial_pool(bf, total, plen)[j],
{
    let pool = spec_initial_pool(bf, total, plen);
    let n = bf.len() as int;
    lemma_pool_membership(bf, total, plen, n);
    lemma_pool_soundness(bf, total, plen, n);
    lemma_ceil_bounds(total, plen);
    assert forall|p: int| 0 <= p < n implies 1 <= #[trigger] spec_piece_len(total, plen, p)
        <= u32::MAX by {
        lemma_piece_len_bounds(total, plen, p);
    }
    lemma_pool_distinct(bf, total, plen, n);
}

/// Each piece covers at least one byte and at most a full piece length.
proof fn lemma_piece_len_bounds(total: int, plen: int, p: int)
    requires
        plen >= 1,
        0 <= total,
        0 <= p < spec_num_pieces(total, plen),
    ensures
        1 <= spec_piece_len(total, plen, p) <= plen,
{
    let np = spec_num_pieces(total, plen);
    assert(p * plen + plen <= np * plen) by (nonlinear_arith)
        requires
            p + 1 <= np,
            plen >= 1,
    ;
    assert((np - 1) * plen < total && total <= np * plen) by (nonlinear_arith)
        requires
            plen >= 1,
            total >= 0,
            np == (total + plen - 1) / plen,
            np >= 1,
    ;
    assert(p * plen <= (np - 1) * plen) by (nonlinear_arith)
        requires
            p <= np - 1,
            plen >= 1,
    ;
}

proof fn lemma_pool_distinct(bf: Seq<bool>, total: int, plen: int, n: int)
    requires
        1 <= plen <= u32::MAX,
        0 <= total,
        0 <= n <= bf.len(),
        bf.len() <= u32::MAX,
        bf.len() == spec_num_pieces(total, plen),
    ensures
        forall|i: int, j: int|
            0 <= i < j < spec_missing_up_to(bf, total, plen, n).len() ==> spec_missing_up_to(
                bf,
                total,
                plen,
                n,
            )[i] != spec_missing_up_to(bf, total, plen, n)[j],
    decreases n,
{
    if n > 0 {
        lemma_pool_distinct(bf, total, plen, n - 1);
        lemma_pool_piece_bounds(bf, total, plen, n - 1);
        let pre = spec_missing_up_to(bf, total, plen, n - 1);
        let cur = spec_missing_up_to(bf, total, plen, n);
        assert forall|i: int, j: int| 0 <= i < j < cur.len() implies cur[i] != cur[j] by {
            if j < pre.len() {
                assert(cur[i] == pre[i] && cur[j] == pre[j]);
            } else if i >= pre.len() {
                assert(!bf[n - 1]);
                assert(cur[i] == spec_block_at(total, plen, n - 1, i - pre.len()));
                assert(cur[j] == spec_block_at(total, plen, n - 1, j - pre.len()));
                lemma_piece_len_bounds(total, plen, n - 1);
                lemma_block_at_injective(
                    total,
                    plen,
                    n - 1,
                    i - pre.len(),
                    n - 1,
                    j - pre.len(),
                );
            } else {
                assert(cur[i] == pre[i]);
                assert(pre[i].piece_index < n - 1);
                assert(cur[j] == spec_block_at(total, plen, n - 1, j - pre.len()));
                assert(cur[j].piece_index == n - 1);
            }
        }
    }
}

/// Bounds of the rounded-up quotient: `np` piece lengths cover the total,
/// and one fewer does not.
proof fn lemma_ceil_bounds(total: int, plen: int)
    requires
        plen >= 1,
        total >= 0,
    ensures
        spec_num_pieces(total, plen) >= 0,
        total <= spec_num_pieces(total, plen) * plen,
        total >= 1 ==> (spec_num_pieces(total, plen) - 1) * plen < total,
        total <= plen ==> spec_num_pieces(total, plen) <= 1,
        spec_num_pieces(total, plen) <= total,
{
    let np = (total + plen - 1) / plen;
    assert(np >= 0 && total <= np * plen && (total >= 1 ==> (np - 1) * plen < total) && (total
        <= plen ==> np <= 1) && np <= total) by (nonlinear_arith)
        requires
            plen >= 1,
            total >= 0,
            np == (total + plen - 1) / plen,
    ;
}

/// Every record in the pool below `n` names a piece below `n`.
proof fn lemma_pool_piece_bounds(bf: Seq<bool>, total: int, plen: int, n: int)
    requires
        plen >= 1,
        0 <= n <= bf.len(),
        n <= u32::MAX,
    ensures
        forall|i: int|
            0 <= i < spec_missing_up_to(bf, total, plen, n).len() ==> (
            #[trigger] spec_missing_up_to(bf, total, plen, n)[i]).piece_index < n,
    decreases n,
{
    if n > 0 {
        lemma_pool_piece_bounds(bf, total, plen, n - 1);
        let pre = spec_missing_up_to(bf, total, plen, n - 1);
        let cur = spec_missing_up_to(bf, total, plen, n);
        assert forall|i: int| 0 <= i < cur.len() implies (#[trigger] cur[i]).piece_index < n by {
            if i < pre.len() {
                assert(cur[i] == pre[i]);
            } else {
                assert(cur[i] == spec_piece_blocks(total, plen, n - 1)[i - pre.len()]);
            }
        }
    }
}

impl PiecePicker {
    /// Builds the pool: every block of every piece the bitfield does not
    /// own, piece then offset ascending, block sizes rounded to the data
    /// actually covered.
    pub fn new(own_bitfield: BitField, total_length: u32, piece_length: u32) -> (r: Self)
        requires
            1 <= piece_length,
            own_bitfield@.len() == spec_num_pieces(total_length as int, piece_length as int),
        ensures
            r.wf(),
            r.spec_bitfield() == own_bitfield@,
            r.spec_total() == total_length,
            r.spec_piece_length() == piece_length,
            r.spec_missing() == spec_initial_pool(
                own_bitfield@,
                total_length as int,
                piece_length as int,
            ),
    {
        let ghost total = total_length as int;
        let ghost plen = piece_length as int;
        proof {
            lemma_ceil_bounds(total, plen);
        }
        let np = own_bitfield.len();
        let mut missing: Vec<BlockInfo> = Vec::new();
        let mut p: usize = 0;
        proof {
            assert(missing@ =~= spec_missing_up_to(own_bitfield@, total, plen, 0));
        }
        while p < np
            invariant
                p <= np,
                np == own_bitfield@.len(),
                np == spec_num_pieces(total, plen),
                np <= u32::MAX,
                total == total_length as int,
                plen == piece_length as int,
                1 <= piece_length,
                missing@ == spec_missing_up_to(own_bitfield@, total, plen, p as int),
            decreases np - p,
        {
            if !own_bitfield.get(p) {
                proof {
                    assert((p as int) * (piece_length as int) <= u64::MAX) by (nonlinear_arith)
                        requires
                            0 <= p <= u32::MAX,
                            0 <= piece_length <= u32::MAX,
                    ;
                }
                let offset = (p as u64) * (piece_length as u64);
                proof {
                    assert((p as int) * plen < total) by (nonlinear_arith)
                        requires
                            0 <= p < np,
                            plen >= 1,
                            np == (total + plen - 1) / plen,
                            total >= 0,
                    ;
                    assert(offset == (p as int) * plen) by (nonlinear_arith)
                        requires
                            offset == (p as u64) * (piece_length as u64),
                            p <= u32::MAX,
                            piece_length <= u32::MAX,
                            plen == piece_length as int,
                    ;
                }
                let rem = (total_length as u64) - offset;
                let plen_p: u32 = if rem < piece_length as u64 {
                    rem as u32
                } else {
                    piece_length
                };
                proof {
                    assert(plen_p == spec_piece_len(total, plen, p as int));
                    assert(1 <= plen_p <= piece_length);
                }
                let nb64 = ((plen_p as u64) + (BLOCK_SIZE as u64) - 1) / (BLOCK_SIZE as u64);
                let nb = nb64 as u32;
                proof {
                    assert(nb == spec_block_count(plen_p as int));
                    assert(nb64 <= plen_p) by (nonlinear_arith)
                        requires
                            nb64 as int == ((plen_p as int) + BLOCK_SIZE - 1) / (
                            BLOCK_SIZE as int),
                            1 <= plen_p,
                    ;
                }
                let ghost upto = spec_missing_up_to(own_bitfield@, total, plen, p as int);
                let ghost pblocks = spec_piece_blocks(total, plen, p as int);
                let mut b: u32 = 0;
                proof {
                    assert(missing@ =~= upto + pblocks.take(0));
                }
                while b < nb
                    invariant
                        b <= nb,
                        nb == spec_block_count(plen_p as int),
                        plen_p == spec_piece_len(total, plen, p as int),
                        1 <= plen_p <= piece_length,
                        piece_length <= u32::MAX,
                        p < np,
                        np <= u32::MAX,
                        pblocks == spec_piece_blocks(total, plen, p as int),
                        upto == spec_missing_up_to(own_bitfield@, total, plen, p as int),
                        missing@ == upto + pblocks.take(b as int),
                    decreases nb - b,
                {
                    proof {
                        assert((b as int) * BLOCK_SIZE < plen_p) by (nonlinear_arith)
                            requires
                                0 <= b < nb,
                                nb == (plen_p + BLOCK_SIZE - 1) / (BLOCK_SIZE as int),
                                1 <= plen_p,
                        ;
                    }
                    let begin: u32 = b * BLOCK_SIZE;
                    let blen: u32 = if plen_p - begin < BLOCK_SIZE {
                        plen_p - begin
                    } else {
                        BLOCK_SIZE
                    };
                    missing.push(BlockInfo::new(p as u32, begin, blen));
                    b = b + 1;
                    proof {
                        assert(blen == spec_block_len(plen_p as int, b - 1));
                        assert(pblocks[b - 1] == spec_block_at(total, plen, p as int, b - 1));
                        assert(pblocks.take(b as int) =~= pblocks.take(b - 1).push(
                            pblocks[b - 1],
                        ));
                        assert(missing@ =~= upto + pblocks.take(b as int));
                    }
                }
                proof {
                    assert(pblocks.take(nb as int) =~= pblocks);
                }
            }
            p = p + 1;
            proof {
                assert(missing@ =~= spec_missing_up_to(own_bitfield@, total, plen, p as int));
            }
        }
        let ghost initial = own_bitfield@;
        let r = PiecePicker {
            own_bitfield,
            total_length,
            piece_length,
            missing_blocks: missing,
            initial_bitfield: Ghost(initial),
        };
        proof {
            lemma_pool_piece_bounds(r.spec_initial_bitfield(), total, plen, np as int);
            assert forall|i: int| 0 <= i < r.spec_missing().len() implies same_triple(
                #[trigger] r.spec_missing()[i],
                spec_initial_pool(r.spec_initial_bitfield(), total, plen)[i],
            ) by {}
        }
        r
    }

    pub closed spec fn spec_bitfield(&self) -> Seq<bool> {
        self.own_bitfield@
    }

    /// A copy of the owned bitfield: the pieces fully received so far.
    pub fn owned_bitfield(&self) -> (r: BitField)
        ensures
            r@ == self.spec_bitfield(),
    {
        self.own_bitfield.clone()
    }

    pub closed spec fn spec_total(&self) -> u32 {
        self.total_length
    }

    pub closed spec fn spec_piece_length(&self) -> u32 {
        self.piece_length
    }

    pub closed spec fn spec_missing(&self) -> Seq<BlockInfo> {
        self.missing_blocks@
    }

    /// The bitfield the picker was built from.
    pub closed spec fn spec_initial_bitfield(&self) -> Seq<bool> {
        self.initial_bitfield@
    }

    /// Hands out the first block the peer can serve that was not yet
    /// requested, piece ascending and then offset ascending, and remembers
    /// it as requested; nothing is pickable for a peer with nothing new.
    pub fn pick_block(&mut self, peer_bitfield: &BitField) -> (r: Option<BlockInfo>)
        requires
            old(self).wf(),
            peer_bitfield@.len() == old(self).spec_bitfield().len(),
        ensures
            final(self).wf(),
            final(self).spec_bitfield() == old(self).spec_bitfield(),
            final(self).spec_total() == old(self).spec_total(),
            final(self).spec_piece_length() == old(self).spec_piece_length(),
            match r {
                Some(b) => {
                    let found = spec_first_pickable(old(self).spec_missing(), peer_bitfield@, 0);
                    &&& found matches Some(i)
                    &&& b == (BlockInfo { state: BlockState::Requested, ..old(
                        self,
                    ).spec_missing()[found->0] })
                    &&& final(self).spec_missing() == old(self).spec_missing().update(found->0, b)
                },
                None => {
                    &&& spec_first_pickable(old(self).spec_missing(), peer_bitfield@, 0) is None
                    &&& final(self).spec_missing() == old(self).spec_missing()
                },
            },
    {
        let n = self.missing_blocks.len();
        let mut i: usize = 0;
        while i < n
            invariant
                self == old(self),
                self.wf(),
                peer_bitfield@.len() == self.spec_bitfield().len(),
                n == self.spec_missing().len(),
                i <= n,
                spec_first_pickable(self.spec_missing(), peer_bitfield@, 0)
                    == spec_first_pickable(self.spec_missing(), peer_bitfield@, i as int),
            decreases n - i,
        {
            let candidate = &self.missing_blocks[i];
            let pi = candidate.piece_index as usize;
            let pickable = peer_bitfield.get(pi) && matches!(candidate.state, BlockState::NotRequested);
            if pickable {
                let picked = BlockInfo {
                    piece_index: candidate.piece_index,
                    begin: candidate.begin,
                    length: candidate.length,
                    state: BlockState::Requested,
                };
                self.missing_blocks.set(i, picked);
                proof {
                    let oldm = old(self).spec_missing();
                    assert(self.spec_missing() =~= oldm.update(i as int, picked));
                    assert forall|k: int| 0 <= k < self.spec_missing().len() implies same_triple(
                        #[trigger] self.spec_missing()[k],
                        spec_initial_pool(
                            self.spec_initial_bitfield(),
                            self.spec_total() as int,
                            self.spec_piece_length() as int,
                        )[k],
                    ) by {
                        if k != i {
                            assert(self.spec_missing()[k] == oldm[k]);
                        }
                    }
                }
                return Some(picked);
            }
            i = i + 1;
        }
        None
    }

    /// Marks the matching record received; when that completes its piece,
    /// sets the piece's bit in the owned bitfield.
    pub fn mark_received(&mut self, block: &BlockInfo)
        requires
            old(self).wf(),
        ensures
            final(self).wf(),
            marked_received(*old(self), *final(self), *block),
    {
        let n = self.missing_blocks.len();
        let mut i: usize = 0;
        while i < n
            invariant
                self == old(self),
                self.wf(),
                n == self.spec_missing().len(),
                i <= n,
                spec_first_match(self.spec_missing(), *block, 0) == spec_first_match(
                    self.spec_missing(),
                    *block,
                    i as int,
                ),
            decreases n - i,
        {
            if self.missing_blocks[i].is_same_block(block) {
                let updated = BlockInfo {
                    piece_index: self.missing_blocks[i].piece_index,
                    begin: self.missing_blocks[i].begin,
                    length: self.missing_blocks[i].length,
                    state: BlockState::Received,
                };
                self.missing_blocks.set(i, updated);
                proof {
                    let oldm = old(self).spec_missing();
                    assert(self.spec_missing() =~= oldm.update(i as int, updated));
                    assert forall|k: int| 0 <= k < self.spec_missing().len() implies same_triple(
                        #[trigger] self.spec_missing()[k],
                        spec_initial_pool(
                            self.spec_initial_bitfield(),
                            self.spec_total() as int,
                            self.spec_piece_length() as int,
                        )[k],
                    ) by {
                        if k != i {
                            assert(self.spec_missing()[k] == oldm[k]);
                        }
                    }
                }
                if self.piece_received(block.piece_index) {
                    self.own_bitfield.set(block.piece_index as usize, true);
                }
                return ;
            }
            i = i + 1;
        }
    }

    /// Whether every record of `piece_index` is received.
    fn piece_received(&self, piece_index: u32) -> (r: bool)
        requires
            self.wf(),
            piece_index < self.spec_bitfield().len(),
        ensures
            r == piece_all_received(self.spec_missing(), piece_index),
    {
        let n = self.missing_blocks.len();
        let mut i: usize = 0;
        while i < n
            invariant
                self.wf(),
                n == self.spec_missing().len(),
                i <= n,
                forall|k: int|
                    0 <= k < i && (#[trigger] self.spec_missing()[k]).piece_index == piece_index
                        ==> self.spec_missing()[k].state == BlockState::Received,
            decreases n - i,
        {
            let e = &self.missing_blocks[i];
            if e.piece_index == piece_index && !matches!(e.state, BlockState::Received) {
                return false;
            }
            i = i + 1;
        }
        true
    }

    /// The bitfields cover the pieces; every record names a piece and
    /// agrees with the pool the picker was built from in everything but
    /// its state.
    pub open spec fn wf(&self) -> bool {
        let pool = spec_initial_pool(
            self.spec_initial_bitfield(),
            self.spec_total() as int,
            self.spec_piece_length() as int,
        );
        &&& 1 <= self.spec_piece_length()
        &&& self.spec_bitfield().len() == spec_num_pieces(
            self.spec_total() as int,
            self.spec_piece_length() as int,
        )
        &&& self.spec_initial_bitfield().len() == self.spec_bitfield().len()
        &&& self.spec_missing().len() == pool.len()
        &&& forall|i: int|
            0 <= i < pool.len() ==> same_triple(#[trigger] self.spec_missing()[i], pool[i])
        &&& forall|i: int|
            0 <= i < self.spec_missing().len() ==> (#[trigger] self.spec_missing()[i]).piece_index
                < self.spec_bitfield().len()
    }
}

} // verus!
