//! Disk placement: where a piece's bytes land in the torrent's files.

use vstd::prelude::*;

use crate::metainfo::{spec_files_total, File, MetaInfo};
use crate::types::BitField;

verus! {

broadcast use vstd::std_specs::vec::group_vec_axioms;

/// Byte offset where file `k` starts in the torrent's flat content map.
pub open spec fn spec_file_start(fs: Seq<File>, k: int) -> int {
    spec_files_total(fs.take(k))
}

/// One write of a contiguous run of piece bytes into one file.
#[derive(Debug, Clone, Copy, PartialEq, Eq, Structural)]
pub struct WriteOp {
    /// Which file of the torrent's list receives the run.
    pub file_index: usize,
    /// Byte offset inside that file.
    pub file_offset: u64,
    /// Where the run starts inside the piece data.
    pub data_start: usize,
    /// How many bytes the run covers.
    pub len: usize,
}

/// The write plan is exact: the runs partition the data in order, each
/// stays inside its file, each lands at the global offset the piece
/// prescribes, each ends at a file boundary or at the data's end, and the
/// files are visited in order.
pub open spec fn placement_ok(
    fs: Seq<File>,
    global_start: int,
    data_len: int,
    ops: Seq<WriteOp>,
) -> bool {
    &&& (data_len == 0 ==> ops.len() == 0)
    &&& (data_len > 0 ==> ops.len() > 0 && ops[0].data_start == 0 && ops.last().data_start
        + ops.last().len == data_len)
    &&& forall|k: int|
        0 <= k < ops.len() - 1 ==> (#[trigger] ops[k + 1]).data_start == ops[k].data_start
            + ops[k].len
    &&& forall|k: int|
        0 <= k < ops.len() ==> {
            let op = #[trigger] ops[k];
            &&& op.len > 0
            &&& op.file_index < fs.len()
            &&& op.file_offset + op.len <= fs[op.file_index as int].length
            &&& spec_file_start(fs, op.file_index as int) + op.file_offset == global_start
                + op.data_start
            &&& (op.file_offset + op.len == fs[op.file_index as int].length || op.data_start
                + op.len == data_len)
        }
    &&& forall|k: int|
        0 <= k < ops.len() - 1 ==> (#[trigger] ops[k + 1]).file_index > ops[k].file_index
}

/// Plans the writes that place `data_len` bytes of piece `piece_index`
/// across the files whose ranges they overlap, in file-list order; a
/// single-file torrent gets one write into its one file.
///
/// Nothing is planned when the piece would reach past the content's end.
pub fn write_placements(metainfo: &MetaInfo, piece_index: u32, data_len: usize) -> (r: Option<
    Vec<WriteOp>,
>)
    requires
        metainfo.info.wf(),
    ensures
        r is Some <==> (piece_index as int) * (metainfo.info.piece_length as int) + data_len
            <= metainfo.info.spec_total_bytes() && (data_len > 0 || metainfo.info.files is Some),
        r matches Some(ops) ==> {
            let global_start = (piece_index as int) * (metainfo.info.piece_length as int);
            &&& global_start + data_len <= metainfo.info.spec_total_bytes()
            &&& match metainfo.info.files {
                Some(fs) => placement_ok(fs@, global_start, data_len as int, ops@),
                None => ops@.len() == 1 && ops@[0] == (WriteOp {
                    file_index: 0,
                    file_offset: global_start as u64,
                    data_start: 0,
                    len: data_len,
                }) && data_len > 0,
            }
        },
{
    let plen = metainfo.info.piece_length;
    proof {
        assert((piece_index as int) * (plen as int) <= u32::MAX * (u32::MAX as int))
            by (nonlinear_arith)
            requires
                0 <= piece_index <= u32::MAX,
                0 <= plen <= u32::MAX,
        ;
    }
    let global_start: u64 = (piece_index as u64) * (plen as u64);
    let total = metainfo.total_bytes();
    if data_len as u64 > total || global_start > total - data_len as u64 {
        return None;
    }
    match &metainfo.info.files {
        None => {
            if data_len == 0 {
                return None;
            }
            Some(
                vec![
                    WriteOp {
                        file_index: 0,
                        file_offset: global_start,
                        data_start: 0,
                        len: data_len,
                    },
                ],
            )
        },
        Some(fs) => {
            let mut ops: Vec<WriteOp> = Vec::new();
            let mut file_index: usize = 0;
            let mut file_start: u64 = 0;
            let mut done: usize = 0;
            proof {
                assert(fs@.take(0) =~= Seq::<File>::empty());
            }
            // find the file holding the first byte, then emit runs in order
            while done < data_len
                invariant
                    metainfo.info.wf(),
                    metainfo.info.files matches Some(f) && f == *fs,
                    global_start == (piece_index as int) * (metainfo.info.piece_length as int),
                    total == metainfo.info.spec_total_bytes(),
                    global_start + data_len <= total,
                    done <= data_len,
                    file_index <= fs@.len(),
                    file_start == spec_file_start(fs@, file_index as int),
                    done < data_len ==> file_start <= global_start + done,
                    placement_ok(fs@, global_start as int, done as int, ops@),
                    done > 0 ==> ops@.len() > 0,
                    ops@.len() > 0 ==> ops@.last().file_index < file_index,
                    ops@.len() > 0 ==> ops@.last().data_start + ops@.last().len == done,
                    done < data_len && ops@.len() > 0 ==> ops@.last().file_offset
                        + ops@.last().len == fs@[ops@.last().file_index as int].length,
                    forall|k: int|
                        0 <= k < ops@.len() - 1 ==> (#[trigger] ops@[k]).file_offset + ops@[k].len
                            == fs@[ops@[k].file_index as int].length,
                decreases data_len - done, fs@.len() - file_index,
            {
                let nfiles = fs.len();
                proof {
                    assert(nfiles == fs@.len());
                    // the position lies inside the content, so a file holds it
                    if file_index >= fs@.len() {
                        assert(fs@.take(fs@.len() as int) =~= fs@);
                        assert(file_start == spec_files_total(fs@));
                        assert(false);
                    }
                }
                let flen = fs[file_index].length;
                proof {
                    assert(fs@.take(file_index + 1).drop_last() =~= fs@.take(file_index as int));
                    assert(fs@.take(file_index + 1).last() == fs@[file_index as int]);
                    crate::metainfo::lemma_files_total_take_bounds(fs@, file_index + 1);
                }
                let next_start = file_start + flen;
                let pos = global_start + done as u64;
                if pos >= next_start {
                    // the current position lies past this file
                    file_index = file_index + 1;
                    file_start = next_start;
                    continue ;
                }
                let file_offset = pos - file_start;
                let room = flen - file_offset;
                let want = (data_len - done) as u64;
                let run: u64 = if want < room {
                    want
                } else {
                    room
                };
                let op = WriteOp {
                    file_index,
                    file_offset,
                    data_start: done,
                    len: run as usize,
                };
                let ghost preops = ops@;
                ops.push(op);
                done = done + run as usize;
                file_index = file_index + 1;
                file_start = next_start;
                proof {
                    assert(ops@ =~= preops.push(op));
                    assert(ops@.last() == op);
                    assert forall|k: int| 0 <= k < ops@.len() - 1 implies (#[trigger] ops@[k
                        + 1]).data_start == ops@[k].data_start + ops@[k].len by {
                        if k < preops.len() - 1 {
                            assert(ops@[k] == preops[k] && ops@[k + 1] == preops[k + 1]);
                        } else {
                            assert(ops@[k] == preops.last() && ops@[k + 1] == op);
                        }
                    }
                    assert forall|k: int| 0 <= k < ops@.len() - 1 implies (#[trigger] ops@[k
                        + 1]).file_index > ops@[k].file_index by {
                        if k < preops.len() - 1 {
                            assert(ops@[k] == preops[k] && ops@[k + 1] == preops[k + 1]);
                        } else {
                            assert(ops@[k] == preops.last() && ops@[k + 1] == op);
                        }
                    }
                    assert forall|k: int| 0 <= k < ops@.len() implies {
                        let o = #[trigger] ops@[k];
                        &&& o.len > 0
                        &&& o.file_index < fs@.len()
                        &&& o.file_offset + o.len <= fs@[o.file_index as int].length
                        &&& spec_file_start(fs@, o.file_index as int) + o.file_offset
                            == global_start + o.data_start
                        &&& (o.file_offset + o.len == fs@[o.file_index as int].length
                            || o.data_start + o.len == done)
                    } by {
                        if k < preops.len() {
                            assert(ops@[k] == preops[k]);
                            let po = preops[k];
                            assert(po.file_offset + po.len == fs@[po.file_index as int].length);
                        } else {
                            assert(ops@[k] == op);
                            assert(op.len > 0);
                            assert(op.file_index < fs@.len());
                            assert(op.file_offset + op.len <= fs@[op.file_index as int].length);
                            assert(spec_file_start(fs@, op.file_index as int) + op.file_offset
                                == global_start + op.data_start);
                            assert(op.file_offset + op.len == fs@[op.file_index as int].length
                                || op.data_start + op.len == done);
                        }
                    }
                    assert forall|k: int| 0 <= k < ops@.len() - 1 implies (
                    #[trigger] ops@[k]).file_offset + ops@[k].len == fs@[(ops@[k]).file_index as int].length by {
                        assert(ops@[k] == preops[k]);
                        let po = preops[k];
                        assert(po.file_offset + po.len == fs@[po.file_index as int].length);
                    }
                }
            }
            proof {
                if data_len > 0 {
                    assert(ops@.last().data_start + ops@.last().len == data_len);
                }
            }
            Some(ops)
        },
    }
}

/// The bitfield a fresh torrent starts from: one cleared bit per piece.
pub fn initial_bitfield(metainfo: &MetaInfo) -> (r: BitField)
    ensures
        r@ == Seq::new(metainfo.info.spec_num_pieces() as nat, |i: int| false),
{
    let np = metainfo.num_pieces();
    BitField::repeat(false, np)
}

} // verus!
