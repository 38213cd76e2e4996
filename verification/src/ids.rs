use vstd::prelude::*;

use crate::codec::{
    lemma_varint_round_trip, read_varint, varint_bytes, varint_decode, write_varint, VarintDecode,
    VarintError,
};
use crate::error::GfmError;
use crate::postings::{ids_sorted, insert_id};
use crate::types::{file_id_less, FileId, VolumeId};

verus! {

/// How many ids a block of the blocked id format holds at most.
pub const ID_BLOCK_SIZE: u64 = 128;

/// How the ids of one block are encoded.
#[derive(Debug, Clone, Copy, PartialEq, Eq, Structural)]
pub enum IdBlockCodec {
    /// Each id as its distance from the one before.
    Delta,
    /// Runs of consecutive nodes, each as its start and length.
    Run,
}

/// The number that codes a block codec.
pub open spec fn codec_code(c: IdBlockCodec) -> u64 {
    match c {
        IdBlockCodec::Delta => 0,
        IdBlockCodec::Run => 1,
    }
}

/// Ids that do not go down.
pub open spec fn ids_nondecreasing(s: Seq<FileId>) -> bool {
    forall|i: int, j: int| 0 <= i < j < s.len() ==> !file_id_less(#[trigger] s[j], #[trigger] s[i])
}

/// The id that encodings start from.
pub open spec fn zero_id() -> FileId {
    FileId { volume: VolumeId(0), node: 0 }
}

/// `a - b`, or zero where that is negative.
pub open spec fn sat_sub(a: u64, b: u64) -> u64 {
    if a >= b {
        (a - b) as u64
    } else {
        0
    }
}

/// `a + b`, or `u64::MAX` where that overflows.
pub open spec fn sat_add64(a: u64, b: u64) -> u64 {
    if a + b > u64::MAX {
        u64::MAX
    } else {
        (a + b) as u64
    }
}

/// The two numbers that encode `id` after `prev`: the volume's distance,
/// and the node's distance within the same volume or the node itself.
pub open spec fn id_delta(prev: FileId, id: FileId) -> (u64, u64) {
    (
        sat_sub(id.volume.0, prev.volume.0),
        if id.volume == prev.volume {
            sat_sub(id.node, prev.node)
        } else {
            id.node
        },
    )
}

/// The id before entry `k` of `ids`, or the zero id before the first.
pub open spec fn prev_id(ids: Seq<FileId>, k: int) -> FileId {
    if k <= 0 {
        zero_id()
    } else {
        ids[k - 1]
    }
}

/// The bytes of `id` after `prev` in the delta encoding.
pub open spec fn delta_pair_bytes(prev: FileId, id: FileId) -> Seq<u8> {
    varint_bytes(id_delta(prev, id).0) + varint_bytes(id_delta(prev, id).1)
}

/// The delta encoding of the first `k` of `ids`.
pub open spec fn delta_bytes_upto(ids: Seq<FileId>, k: int) -> Seq<u8>
    decreases k,
{
    if k <= 0 {
        Seq::empty()
    } else {
        delta_bytes_upto(ids, k - 1) + delta_pair_bytes(prev_id(ids, k - 1), ids[k - 1])
    }
}

/// The delta encoding of `ids`.
pub open spec fn delta_bytes(ids: Seq<FileId>) -> Seq<u8> {
    delta_bytes_upto(ids, ids.len() as int)
}

/// The runs of consecutive nodes of the first `k` of `ids`: each its first
/// id and its length.
pub open spec fn runs_upto(ids: Seq<FileId>, k: int) -> Seq<(FileId, u64)>
    decreases k,
{
    if k <= 0 {
        Seq::empty()
    } else {
        let r = runs_upto(ids, k - 1);
        if k >= 2 && ids[k - 1].volume == ids[k - 2].volume && ids[k - 1].node == sat_add64(ids[k - 2].node, 1)
            && r.len() > 0 {
            r.update(r.len() - 1, (r.last().0, (r.last().1 + 1) as u64))
        } else {
            r.push((ids[k - 1], 1u64))
        }
    }
}

/// The runs of `ids`.
pub open spec fn id_runs(ids: Seq<FileId>) -> Seq<(FileId, u64)> {
    runs_upto(ids, ids.len() as int)
}

/// The last id of a run.
pub open spec fn run_end(run: (FileId, u64)) -> FileId {
    FileId { volume: run.0.volume, node: sat_add64(run.0.node, sat_sub(run.1, 1)) }
}

/// The id before run `k`: the end of the run before, or the zero id.
pub open spec fn prev_run_end(runs: Seq<(FileId, u64)>, k: int) -> FileId {
    if k <= 0 {
        zero_id()
    } else {
        run_end(runs[k - 1])
    }
}

/// The bytes of a run after `prev`: the start as a delta, then the length.
pub open spec fn run_item_bytes(prev: FileId, run: (FileId, u64)) -> Seq<u8> {
    delta_pair_bytes(prev, run.0) + varint_bytes(run.1)
}

/// The encoding of the first `k` runs.
pub open spec fn runs_bytes_upto(runs: Seq<(FileId, u64)>, k: int) -> Seq<u8>
    decreases k,
{
    if k <= 0 {
        Seq::empty()
    } else {
        runs_bytes_upto(runs, k - 1) + run_item_bytes(prev_run_end(runs, k - 1), runs[k - 1])
    }
}

/// The run encoding of `ids`: the number of runs, then each run.
pub open spec fn run_bytes(ids: Seq<FileId>) -> Seq<u8> {
    varint_bytes(id_runs(ids).len() as u64) + runs_bytes_upto(id_runs(ids), id_runs(ids).len() as int)
}

/// The codec and bytes of a block: runs where they are shorter, else
/// deltas.
pub open spec fn block_encoding(ids: Seq<FileId>) -> (IdBlockCodec, Seq<u8>) {
    if run_bytes(ids).len() < delta_bytes(ids).len() {
        (IdBlockCodec::Run, run_bytes(ids))
    } else {
        (IdBlockCodec::Delta, delta_bytes(ids))
    }
}

/// The number of blocks of `n` ids.
pub open spec fn block_count(n: int) -> int {
    (n + 127) / 128
}

/// The ids of block `b` of `ids`.
pub open spec fn block_ids(ids: Seq<FileId>, b: int) -> Seq<FileId> {
    let hi = if (b + 1) * 128 <= ids.len() { (b + 1) * 128 } else { ids.len() as int };
    ids.subrange(b * 128, hi)
}

/// The directory entry of a block: its first id, its length in ids, its
/// codec and its length in bytes.
pub open spec fn dir_entry_bytes(block: Seq<FileId>) -> Seq<u8> {
    varint_bytes(block[0].volume.0) + varint_bytes(block[0].node) + varint_bytes(block.len() as u64)
        + varint_bytes(codec_code(block_encoding(block).0)) + varint_bytes(
        block_encoding(block).1.len() as u64,
    )
}

/// The directory entries of the first `b` blocks.
pub open spec fn dir_bytes_upto(ids: Seq<FileId>, b: int) -> Seq<u8>
    decreases b,
{
    if b <= 0 {
        Seq::empty()
    } else {
        dir_bytes_upto(ids, b - 1) + dir_entry_bytes(block_ids(ids, b - 1))
    }
}

/// The encodings of the first `b` blocks.
pub open spec fn payload_upto(ids: Seq<FileId>, b: int) -> Seq<u8>
    decreases b,
{
    if b <= 0 {
        Seq::empty()
    } else {
        payload_upto(ids, b - 1) + block_encoding(block_ids(ids, b - 1)).1
    }
}

/// The blocked encoding of the sorted `ids`: their number, the version
/// marker, the version and the block size, the number of blocks, the
/// directory, then the blocks.
pub open spec fn blocked_bytes(ids: Seq<FileId>) -> Seq<u8> {
    let nb = block_count(ids.len() as int);
    varint_bytes(ids.len() as u64) + varint_bytes(0) + varint_bytes(2) + varint_bytes(128) + varint_bytes(
        nb as u64,
    ) + dir_bytes_upto(ids, nb) + payload_upto(ids, nb)
}

/// Appends the delta encoding of `ids[lo..hi]`.
pub(crate) fn write_delta_range(out: &mut Vec<u8>, ids: &Vec<FileId>, lo: usize, hi: usize)
    requires
        lo <= hi <= ids@.len(),
    ensures
        final(out)@ == old(out)@ + delta_bytes(ids@.subrange(lo as int, hi as int)),
{
    let ghost start = out@;
    let ghost s = ids@.subrange(lo as int, hi as int);
    let mut prev = FileId { volume: VolumeId(0), node: 0 };
    let mut i: usize = lo;
    while i < hi
        invariant
            lo <= i <= hi <= ids@.len(),
            s == ids@.subrange(lo as int, hi as int),
            prev == prev_id(s, i - lo),
            out@ == start + delta_bytes_upto(s, i - lo),
        decreases hi - i,
    {
        let id = ids[i];
        proof {
            assert(s[i - lo] == id);
        }
        let vd = if id.volume.0 >= prev.volume.0 { id.volume.0 - prev.volume.0 } else { 0 };
        let nd = if id.volume.0 == prev.volume.0 {
            if id.node >= prev.node { id.node - prev.node } else { 0 }
        } else {
            id.node
        };
        write_varint(out, vd);
        write_varint(out, nd);
        proof {
            assert(out@ =~= start + delta_bytes_upto(s, i - lo + 1));
        }
        prev = id;
        i = i + 1;
    }
}


/// The delta numbers of `id` after `prev`.
fn delta_of(prev: FileId, id: FileId) -> (d: (u64, u64))
    ensures
        d == id_delta(prev, id),
{
    let vd = if id.volume.0 >= prev.volume.0 { id.volume.0 - prev.volume.0 } else { 0 };
    let nd = if id.volume.0 == prev.volume.0 {
        if id.node >= prev.node { id.node - prev.node } else { 0 }
    } else {
        id.node
    };
    (vd, nd)
}

/// The runs of `ids[lo..hi]`.
fn runs_of(ids: &Vec<FileId>, lo: usize, hi: usize) -> (r: Vec<(FileId, u64)>)
    requires
        lo <= hi <= ids@.len(),
    ensures
        r@ == id_runs(ids@.subrange(lo as int, hi as int)),
{
    let ghost s = ids@.subrange(lo as int, hi as int);
    let mut r: Vec<(FileId, u64)> = Vec::new();
    let mut i: usize = lo;
    while i < hi
        invariant
            lo <= i <= hi <= ids@.len(),
            s == ids@.subrange(lo as int, hi as int),
            r@ == runs_upto(s, i - lo),
            i > lo ==> r@.len() > 0,
            forall|k: int| 0 <= k < r@.len() ==> (#[trigger] r@[k]).1 <= i - lo,
        decreases hi - i,
    {
        let id = ids[i];
        proof {
            assert(s[i - lo] == id);
            if i > lo {
                assert(s[i - lo - 1] == ids@[i - 1]);
            }
        }
        if i > lo && id.volume.0 == ids[i - 1].volume.0 && id.node == ids[i - 1].node.saturating_add(1) {
            let last = r.len() - 1;
            let (st, e) = r[last];
            r.set(last, (st, e + 1));
        } else {
            r.push((id, 1u64));
        }
        proof {
            assert(r@ =~= runs_upto(s, i - lo + 1));
        }
        i = i + 1;
    }
    proof {
        assert(hi - lo == s.len());
    }
    r
}

/// Appends the run encoding of `ids[lo..hi]`.
fn write_run_range(out: &mut Vec<u8>, ids: &Vec<FileId>, lo: usize, hi: usize)
    requires
        lo <= hi <= ids@.len(),
    ensures
        final(out)@ == old(out)@ + run_bytes(ids@.subrange(lo as int, hi as int)),
{
    let ghost start = out@;
    let runs = runs_of(ids, lo, hi);
    write_varint(out, runs.len() as u64);
    let ghost mid = out@;
    let mut prev = FileId { volume: VolumeId(0), node: 0 };
    let mut k: usize = 0;
    while k < runs.len()
        invariant
            k <= runs@.len(),
            prev == prev_run_end(runs@, k as int),
            out@ == mid + runs_bytes_upto(runs@, k as int),
        decreases runs@.len() - k,
    {
        let (st, e) = runs[k];
        let d = delta_of(prev, st);
        write_varint(out, d.0);
        write_varint(out, d.1);
        write_varint(out, e);
        proof {
            assert(out@ =~= mid + runs_bytes_upto(runs@, k as int + 1));
        }
        let last = st.node.saturating_add(if e >= 1 { e - 1 } else { 0 });
        prev = FileId { volume: st.volume, node: last };
        k = k + 1;
    }
    proof {
        assert(out@ =~= start + run_bytes(ids@.subrange(lo as int, hi as int)));
    }
}


/// `ids` in strictly ascending order, each once.
pub fn sorted_unique_ids(ids: &Vec<FileId>) -> (s: Vec<FileId>)
    ensures
        ids_sorted(s@),
        s@.to_set() == ids@.to_set(),
{
    let mut s: Vec<FileId> = Vec::new();
    let mut i: usize = 0;
    proof {
        assert(s@.to_set() =~= ids@.take(0).to_set());
    }
    while i < ids.len()
        invariant
            i <= ids@.len(),
            ids_sorted(s@),
            s@.to_set() == ids@.take(i as int).to_set(),
        decreases ids@.len() - i,
    {
        insert_id(&mut s, ids[i]);
        proof {
            assert(ids@.take(i as int + 1) =~= ids@.take(i as int).push(ids@[i as int]));
            ids@.take(i as int).lemma_push_to_set_commute(ids@[i as int]);
        }
        i = i + 1;
    }
    proof {
        assert(ids@.take(i as int) =~= ids@);
    }
    s
}

/// The codec and bytes of the block `ids[lo..hi]`.
fn encode_block(ids: &Vec<FileId>, lo: usize, hi: usize) -> (r: (IdBlockCodec, Vec<u8>))
    requires
        lo <= hi <= ids@.len(),
    ensures
        (r.0, r.1@) == block_encoding(ids@.subrange(lo as int, hi as int)),
{
    let mut delta: Vec<u8> = Vec::new();
    write_delta_range(&mut delta, ids, lo, hi);
    let mut run: Vec<u8> = Vec::new();
    write_run_range(&mut run, ids, lo, hi);
    proof {
        assert(delta@ =~= delta_bytes(ids@.subrange(lo as int, hi as int)));
        assert(run@ =~= run_bytes(ids@.subrange(lo as int, hi as int)));
    }
    if run.len() < delta.len() {
        (IdBlockCodec::Run, run)
    } else {
        (IdBlockCodec::Delta, delta)
    }
}

/// The number that codes a block codec.
fn codec_number(c: IdBlockCodec) -> (n: u64)
    ensures
        n == codec_code(c),
{
    match c {
        IdBlockCodec::Delta => 0,
        IdBlockCodec::Run => 1,
    }
}

/// Appends block `b` of the sorted `ids` to the directory and the payload.
#[verifier::rlimit(40)]
fn write_block(dir: &mut Vec<u8>, payload: &mut Vec<u8>, ids: &Vec<FileId>, b: usize)
    requires
        b < block_count(ids@.len() as int),
    ensures
        final(dir)@ == old(dir)@ + dir_entry_bytes(block_ids(ids@, b as int)),
        final(payload)@ == old(payload)@ + block_encoding(block_ids(ids@, b as int)).1,
{
    let n = ids.len();
    let lo = b * 128;
    let hi = if n - lo >= 128 { lo + 128 } else { n };
    proof {
        assert(ids@.subrange(lo as int, hi as int) == block_ids(ids@, b as int));
    }
    let (codec, mut bytes) = encode_block(ids, lo, hi);
    let first = ids[lo];
    proof {
        assert(block_ids(ids@, b as int)[0] == first);
    }
    write_varint(dir, first.volume.0);
    write_varint(dir, first.node);
    write_varint(dir, (hi - lo) as u64);
    write_varint(dir, codec_number(codec));
    write_varint(dir, bytes.len() as u64);
    payload.append(&mut bytes);
    proof {
        assert(dir@ =~= old(dir)@ + dir_entry_bytes(block_ids(ids@, b as int)));
    }
}

/// Appends the blocked encoding of the sorted `ids`.
fn write_blocked_sorted(out: &mut Vec<u8>, ids: &Vec<FileId>)
    ensures
        final(out)@ == old(out)@ + blocked_bytes(ids@),
{
    let ghost start = out@;
    let n = ids.len();
    let nb = n / 128 + if n % 128 == 0 { 0 } else { 1 };
    proof {
        assert(nb as int == block_count(n as int));
    }
    let mut dir: Vec<u8> = Vec::new();
    let mut payload: Vec<u8> = Vec::new();
    let mut b: usize = 0;
    while b < nb
        invariant
            n == ids@.len(),
            nb == block_count(n as int),
            b <= nb,
            dir@ == dir_bytes_upto(ids@, b as int),
            payload@ == payload_upto(ids@, b as int),
        decreases nb - b,
    {
        write_block(&mut dir, &mut payload, ids, b);
        b = b + 1;
    }
    write_varint(out, n as u64);
    write_varint(out, 0);
    write_varint(out, 2);
    write_varint(out, 128);
    write_varint(out, nb as u64);
    out.append(&mut dir);
    out.append(&mut payload);
    proof {
        assert(out@ =~= start + blocked_bytes(ids@));
    }
}

/// Appends the blocked encoding of `ids`: sorted, each once, in blocks of
/// up to 128, each block in whichever of the delta and run encodings is
/// shorter.
pub fn write_blocked_file_ids(out: &mut Vec<u8>, ids: &Vec<FileId>)
    ensures
        final(out)@ == old(out)@ + blocked_bytes(sort_ids(ids@)),
{
    let s = sorted_unique_ids(ids);
    proof {
        lemma_sort_ids(ids@);
        lemma_sorted_unique(s@, sort_ids(ids@));
    }
    write_blocked_sorted(out, &s);
}


/// Why blocked ids could not be read.
#[derive(Debug, Clone, Copy, PartialEq, Eq, Structural)]
pub enum IdsError {
    /// The bytes ended early.
    UnexpectedEof,
    /// A varint ran past ten bytes.
    VarintOverflow,
    /// A volume id passed `u64::MAX`.
    VolumeOverflow,
    /// A node id passed `u64::MAX`.
    NodeOverflow,
    /// A run held no ids.
    EmptyRun,
    /// The runs of a block held another number of ids than the block.
    RunCountMismatch,
    /// The blocks held another number of ids than the header.
    CountMismatch,
    /// The version is not one this reader knows.
    UnsupportedVersion,
    /// The block size is zero.
    ZeroBlockSize,
    /// A block names an unknown codec.
    UnsupportedCodec,
    /// A block's length does not fit in memory.
    LengthOverflow,
    /// The blocks' lengths together do not fit in memory.
    RangeOverflow,
    /// No block has the index asked for.
    IndexOutOfBounds,
    /// A block lies past the end of the bytes.
    OutOfBounds,
}

/// The varint at `pos` of `bytes`: its value and the position after it.
pub open spec fn varint_at(bytes: Seq<u8>, pos: int) -> Result<(u64, int), IdsError> {
    match varint_decode(bytes.skip(pos), 0) {
        VarintDecode::Done(v, n) => Ok((v, pos + n)),
        VarintDecode::Truncated => Err(IdsError::UnexpectedEof),
        VarintDecode::Overflow => Err(IdsError::VarintOverflow),
    }
}

proof fn lemma_varint_decode_len(bytes: Seq<u8>, depth: nat)
    ensures
        varint_decode(bytes, depth) matches VarintDecode::Done(_, n) ==> 1 <= n <= bytes.len(),
    decreases bytes.len(),
{
    if bytes.len() > 0 && bytes[0] & 0x80 != 0 && depth < 9 {
        lemma_varint_decode_len(bytes.drop_first(), depth + 1);
    }
}

/// Reads the varint at `pos`: its value and the position after it.
pub fn read_varint_at(bytes: &[u8], pos: usize) -> (r: Result<(u64, usize), IdsError>)
    requires
        pos <= bytes@.len(),
    ensures
        match r {
            Ok((v, p)) => varint_at(bytes@, pos as int) == Ok::<(u64, int), IdsError>((v, p as int)) && pos < p
                <= bytes@.len(),
            Err(e) => varint_at(bytes@, pos as int) == Err::<(u64, int), IdsError>(e),
        },
{
    varint_in(bytes, pos)
}

/// Reads the varint at `pos`.
fn varint_in(bytes: &[u8], pos: usize) -> (r: Result<(u64, usize), IdsError>)
    requires
        pos <= bytes@.len(),
    ensures
        match r {
            Ok((v, p)) => varint_at(bytes@, pos as int) == Ok::<(u64, int), IdsError>((v, p as int)) && pos < p
                <= bytes@.len(),
            Err(e) => varint_at(bytes@, pos as int) == Err::<(u64, int), IdsError>(e),
        },
{
    proof {
        lemma_varint_decode_len(bytes@.skip(pos as int), 0);
    }
    let len = bytes.len();
    let r = read_varint(bytes, pos);
    proof {
        assert(len == bytes@.len());
        assert(bytes@.skip(pos as int).len() == bytes@.len() - pos);
        match varint_decode(bytes@.skip(pos as int), 0) {
            VarintDecode::Done(v, n) => {
                assert(1 <= n <= bytes@.len() - pos);
                assert(((pos + n) as usize) as int == pos + n);
            },
            _ => {},
        }
    }
    match r {
        Ok((v, p)) => Ok((v, p)),
        Err(VarintError::UnexpectedEof) => Err(IdsError::UnexpectedEof),
        Err(VarintError::Overflow) => Err(IdsError::VarintOverflow),
    }
}

/// One more delta-encoded id, read at `p` after `ids`.
pub open spec fn delta_step(bytes: Seq<u8>, ids: Seq<FileId>, p: int) -> Result<(Seq<FileId>, int), IdsError> {
    let prev = if ids.len() == 0 { zero_id() } else { ids.last() };
    match varint_at(bytes, p) {
        Err(e) => Err(e),
        Ok((vd, p1)) => if prev.volume.0 + vd > u64::MAX {
            Err(IdsError::VolumeOverflow)
        } else {
            let vol = (prev.volume.0 + vd) as u64;
            match varint_at(bytes, p1) {
                Err(e) => Err(e),
                Ok((nd, p2)) => if vol == prev.volume.0 {
                    if prev.node + nd > u64::MAX {
                        Err(IdsError::NodeOverflow)
                    } else {
                        Ok((ids.push(FileId { volume: VolumeId(vol), node: (prev.node + nd) as u64 }), p2))
                    }
                } else {
                    Ok((ids.push(FileId { volume: VolumeId(vol), node: nd }), p2))
                },
            }
        },
    }
}

/// The first `k` delta-encoded ids of `bytes`, and the position after them.
pub open spec fn delta_decode(bytes: Seq<u8>, k: int) -> Result<(Seq<FileId>, int), IdsError>
    decreases k,
{
    if k <= 0 {
        Ok((Seq::empty(), 0))
    } else {
        match delta_decode(bytes, k - 1) {
            Err(e) => Err(e),
            Ok((ids, p)) => delta_step(bytes, ids, p),
        }
    }
}

proof fn lemma_delta_decode_err(bytes: Seq<u8>, k: int, n: int)
    requires
        0 <= k <= n,
        delta_decode(bytes, k) is Err,
    ensures
        delta_decode(bytes, n) == delta_decode(bytes, k),
    decreases n - k,
{
    if k < n {
        lemma_delta_decode_err(bytes, k + 1, n);
    }
}

/// Reads `count` delta-encoded ids from the front of `bytes`, and where
/// they end.
pub(crate) fn read_delta_ids(bytes: &[u8], count: u64) -> (r: Result<(Vec<FileId>, usize), IdsError>)
    ensures
        match delta_decode(bytes@, count as int) {
            Ok((ids, e)) => r matches Ok((v, q)) && v@ == ids && q as int == e && e <= bytes@.len(),
            Err(e) => r == Err::<(Vec<FileId>, usize), IdsError>(e),
        },
{
    let mut ids: Vec<FileId> = Vec::new();
    let mut p: usize = 0;
    let mut prev = FileId { volume: VolumeId(0), node: 0 };
    let mut k: u64 = 0;
    while k < count
        invariant
            k <= count,
            p <= bytes@.len(),
            delta_decode(bytes@, k as int) == Ok::<(Seq<FileId>, int), IdsError>((ids@, p as int)),
            prev == (if ids@.len() == 0 { zero_id() } else { ids@.last() }),
        decreases count - k,
    {
        let (vd, p1) = match varint_in(bytes, p) {
            Ok(x) => x,
            Err(e) => {
                proof {
                    lemma_delta_decode_err(bytes@, k as int + 1, count as int);
                }
                return Err(e);
            },
        };
        if vd > u64::MAX - prev.volume.0 {
            proof {
                lemma_delta_decode_err(bytes@, k as int + 1, count as int);
            }
            return Err(IdsError::VolumeOverflow);
        }
        let vol = prev.volume.0 + vd;
        let (nd, p2) = match varint_in(bytes, p1) {
            Ok(x) => x,
            Err(e) => {
                proof {
                    lemma_delta_decode_err(bytes@, k as int + 1, count as int);
                }
                return Err(e);
            },
        };
        let node = if vol == prev.volume.0 {
            if nd > u64::MAX - prev.node {
                proof {
                    lemma_delta_decode_err(bytes@, k as int + 1, count as int);
                }
                return Err(IdsError::NodeOverflow);
            }
            prev.node + nd
        } else {
            nd
        };
        let id = FileId { volume: VolumeId(vol), node };
        ids.push(id);
        prev = id;
        p = p2;
        k = k + 1;
    }
    Ok((ids, p))
}


/// The ids of a run: `entries` consecutive nodes from `start` on `volume`.
pub open spec fn run_ids(volume: u64, start: u64, entries: u64) -> Seq<FileId> {
    Seq::new(entries as nat, |o: int| FileId { volume: VolumeId(volume), node: (start + o) as u64 })
}

/// One more run, read at `p` after the runs that gave `ids` and ended at
/// `prev`.
pub open spec fn run_step(bytes: Seq<u8>, ids: Seq<FileId>, p: int, prev: FileId) -> Result<
    (Seq<FileId>, int, FileId),
    IdsError,
> {
    match varint_at(bytes, p) {
        Err(e) => Err(e),
        Ok((vd, p1)) => if prev.volume.0 + vd > u64::MAX {
            Err(IdsError::VolumeOverflow)
        } else {
            let vol = (prev.volume.0 + vd) as u64;
            match varint_at(bytes, p1) {
                Err(e) => Err(e),
                Ok((nd, p2)) => if vol == prev.volume.0 && prev.node + nd > u64::MAX {
                    Err(IdsError::NodeOverflow)
                } else {
                    let start = if vol == prev.volume.0 { (prev.node + nd) as u64 } else { nd };
                    match varint_at(bytes, p2) {
                        Err(e) => Err(e),
                        Ok((entries, p3)) => if entries == 0 {
                            Err(IdsError::EmptyRun)
                        } else if start + entries - 1 > u64::MAX {
                            Err(IdsError::NodeOverflow)
                        } else {
                            Ok((
                                ids + run_ids(vol, start, entries),
                                p3,
                                FileId { volume: VolumeId(vol), node: (start + entries - 1) as u64 },
                            ))
                        },
                    }
                },
            }
        },
    }
}

/// The first `k` runs read from `p0` on: their ids, the position after
/// them and the end of the last.
pub open spec fn runs_decode(bytes: Seq<u8>, p0: int, k: int) -> Result<(Seq<FileId>, int, FileId), IdsError>
    decreases k,
{
    if k <= 0 {
        Ok((Seq::empty(), p0, zero_id()))
    } else {
        match runs_decode(bytes, p0, k - 1) {
            Err(e) => Err(e),
            Ok((ids, p, prev)) => run_step(bytes, ids, p, prev),
        }
    }
}

/// The ids of a run-encoded block of `count` ids.
pub open spec fn run_decode(bytes: Seq<u8>, count: u64) -> Result<Seq<FileId>, IdsError> {
    match varint_at(bytes, 0) {
        Err(e) => Err(e),
        Ok((rc, p)) => match runs_decode(bytes, p, rc as int) {
            Err(e) => Err(e),
            Ok((ids, _, _)) => if ids.len() != count {
                Err(IdsError::RunCountMismatch)
            } else {
                Ok(ids)
            },
        },
    }
}

proof fn lemma_runs_decode_err(bytes: Seq<u8>, p0: int, k: int, n: int)
    requires
        0 <= k <= n,
        runs_decode(bytes, p0, k) is Err,
    ensures
        runs_decode(bytes, p0, n) == runs_decode(bytes, p0, k),
    decreases n - k,
{
    if k < n {
        lemma_runs_decode_err(bytes, p0, k + 1, n);
    }
}

/// Reads a run-encoded block of `count` ids from the front of `bytes`.
fn read_run_ids(bytes: &[u8], count: u64) -> (r: Result<Vec<FileId>, IdsError>)
    ensures
        match run_decode(bytes@, count) {
            Ok(ids) => r matches Ok(v) && v@ == ids,
            Err(e) => r == Err::<Vec<FileId>, IdsError>(e),
        },
{
    if bytes.len() == 0 {
        proof {
            assert(varint_decode(bytes@.skip(0), 0) == VarintDecode::Truncated);
        }
        return Err(IdsError::UnexpectedEof);
    }
    let (rc, p0) = match varint_in(bytes, 0) {
        Ok(x) => x,
        Err(e) => return Err(e),
    };
    let blen = bytes.len();
    let mut ids: Vec<FileId> = Vec::new();
    let mut p: usize = p0;
    let mut prev = FileId { volume: VolumeId(0), node: 0 };
    let mut k: u64 = 0;
    while k < rc
        invariant
            k <= rc,
            blen == bytes@.len(),
            varint_at(bytes@, 0) == Ok::<(u64, int), IdsError>((rc, p0 as int)),
            p <= bytes@.len(),
            runs_decode(bytes@, p0 as int, k as int) == Ok::<(Seq<FileId>, int, FileId), IdsError>(
                (ids@, p as int, prev),
            ),
        decreases rc - k,
    {
        let ghost ids_before = ids@;
        let step = read_one_run(bytes, p, prev, &mut ids);
        match step {
            Ok((p3, last)) => {
                proof {
                    assert(p3 as int <= blen);
                }
                p = p3;
                prev = last;
            },
            Err(e) => {
                proof {
                    assert(run_step(bytes@, ids_before, p as int, prev) == Err::<(Seq<FileId>, int, FileId), IdsError>(e));
                    assert(runs_decode(bytes@, p0 as int, k as int + 1) == Err::<(Seq<FileId>, int, FileId), IdsError>(e));
                    lemma_runs_decode_err(bytes@, p0 as int, k as int + 1, rc as int);
                    assert(varint_at(bytes@, 0) == Ok::<(u64, int), IdsError>((rc, p0 as int)));
                    assert(runs_decode(bytes@, p0 as int, rc as int) == Err::<(Seq<FileId>, int, FileId), IdsError>(e));
                    assert(run_decode(bytes@, count) == Err::<Seq<FileId>, IdsError>(e));
                }
                return Err(e);
            },
        }
        k = k + 1;
    }
    if ids.len() as u64 != count {
        return Err(IdsError::RunCountMismatch);
    }
    Ok(ids)
}

/// Reads one run at `p` after `prev`, appending its ids to `ids`.
fn read_one_run(bytes: &[u8], p: usize, prev: FileId, ids: &mut Vec<FileId>) -> (r: Result<(usize, FileId), IdsError>)
    requires
        p <= bytes@.len(),
    ensures
        match run_step(bytes@, old(ids)@, p as int, prev) {
            Ok((nids, np, nprev)) => r == Ok::<(usize, FileId), IdsError>((np as usize, nprev)) && final(ids)@ == nids
                && np <= bytes@.len(),
            Err(e) => r == Err::<(usize, FileId), IdsError>(e),
        },
{
    let (vd, p1) = match varint_in(bytes, p) {
        Ok(x) => x,
        Err(e) => return Err(e),
    };
    if vd > u64::MAX - prev.volume.0 {
        return Err(IdsError::VolumeOverflow);
    }
    let vol = prev.volume.0 + vd;
    let (nd, p2) = match varint_in(bytes, p1) {
        Ok(x) => x,
        Err(e) => return Err(e),
    };
    if vol == prev.volume.0 && nd > u64::MAX - prev.node {
        return Err(IdsError::NodeOverflow);
    }
    let start = if vol == prev.volume.0 { prev.node + nd } else { nd };
    let (entries, p3) = match varint_in(bytes, p2) {
        Ok(x) => x,
        Err(e) => return Err(e),
    };
    if entries == 0 {
        return Err(IdsError::EmptyRun);
    }
    if entries - 1 > u64::MAX - start {
        return Err(IdsError::NodeOverflow);
    }
    let ghost before = ids@;
    let mut o: u64 = 0;
    while o < entries
        invariant
            o <= entries,
            start + entries - 1 <= u64::MAX,
            ids@ == before + run_ids(vol, start, o),
        decreases entries - o,
    {
        ids.push(FileId { volume: VolumeId(vol), node: start + o });
        proof {
            assert(ids@ =~= before + run_ids(vol, start, (o + 1) as u64));
        }
        o = o + 1;
    }
    Ok((p3, FileId { volume: VolumeId(vol), node: start + (entries - 1) }))
}


/// The directory entry of one block: its first id, how many ids it holds,
/// its codec and its length in bytes.
#[derive(Debug, Clone, Copy, PartialEq, Eq, Structural)]
pub struct IdBlockInfo {
    pub first: FileId,
    pub entries: u64,
    pub codec: IdBlockCodec,
    pub len: u64,
}

/// The codec a number names.
pub open spec fn codec_of(code: u64) -> Option<IdBlockCodec> {
    if code == 0 {
        Some(IdBlockCodec::Delta)
    } else if code == 1 {
        Some(IdBlockCodec::Run)
    } else {
        None
    }
}

/// One more directory entry, read at `p`; with a codec number in the
/// current version, without one (all deltas) in the first.
pub open spec fn dir_step(bytes: Seq<u8>, blocks: Seq<IdBlockInfo>, p: int, v2: bool) -> Result<
    (Seq<IdBlockInfo>, int),
    IdsError,
> {
    match varint_at(bytes, p) {
        Err(e) => Err(e),
        Ok((vol, p1)) => match varint_at(bytes, p1) {
            Err(e) => Err(e),
            Ok((node, p2)) => match varint_at(bytes, p2) {
                Err(e) => Err(e),
                Ok((entries, p3)) => {
                    let c = if v2 { varint_at(bytes, p3) } else { Ok((0u64, p3)) };
                    match c {
                        Err(e) => Err(e),
                        Ok((code, p4)) => match codec_of(code) {
                            None => Err(IdsError::UnsupportedCodec),
                            Some(codec) => match varint_at(bytes, p4) {
                                Err(e) => Err(e),
                                Ok((len, p5)) => Ok((
                                    blocks.push(
                                        IdBlockInfo {
                                            first: FileId { volume: VolumeId(vol), node },
                                            entries,
                                            codec,
                                            len,
                                        },
                                    ),
                                    p5,
                                )),
                            },
                        },
                    }
                },
            },
        },
    }
}

/// The first `k` directory entries read from `p0` on.
pub open spec fn dir_decode(bytes: Seq<u8>, p0: int, k: int, v2: bool) -> Result<(Seq<IdBlockInfo>, int), IdsError>
    decreases k,
{
    if k <= 0 {
        Ok((Seq::empty(), p0))
    } else {
        match dir_decode(bytes, p0, k - 1, v2) {
            Err(e) => Err(e),
            Ok((blocks, p)) => dir_step(bytes, blocks, p, v2),
        }
    }
}

/// The header of blocked ids at `pos`: the number of ids, the directory
/// and the position of the first block. A block size of zero marks the
/// current version, whose number and real block size follow.
pub open spec fn blocked_header(bytes: Seq<u8>, pos: int) -> Result<(u64, Seq<IdBlockInfo>, int), IdsError> {
    match varint_at(bytes, pos) {
        Err(e) => Err(e),
        Ok((count, p1)) => match varint_at(bytes, p1) {
            Err(e) => Err(e),
            Ok((size, p2)) => if size == 0 {
                match varint_at(bytes, p2) {
                    Err(e) => Err(e),
                    Ok((version, p3)) => if version != 2 {
                        Err(IdsError::UnsupportedVersion)
                    } else {
                        match varint_at(bytes, p3) {
                            Err(e) => Err(e),
                            Ok((size2, p4)) => if size2 == 0 {
                                Err(IdsError::ZeroBlockSize)
                            } else {
                                match varint_at(bytes, p4) {
                                    Err(e) => Err(e),
                                    Ok((nb, p5)) => match dir_decode(bytes, p5, nb as int, true) {
                                        Err(e) => Err(e),
                                        Ok((blocks, p6)) => Ok((count, blocks, p6)),
                                    },
                                }
                            },
                        }
                    },
                }
            } else {
                match varint_at(bytes, p2) {
                    Err(e) => Err(e),
                    Ok((nb, p3)) => match dir_decode(bytes, p3, nb as int, false) {
                        Err(e) => Err(e),
                        Ok((blocks, p4)) => Ok((count, blocks, p4)),
                    },
                }
            },
        },
    }
}

/// The total length of the first `k` blocks, each and all of it within
/// `usize`.
pub open spec fn payload_total(blocks: Seq<IdBlockInfo>, k: int) -> Result<int, IdsError>
    decreases k,
{
    if k <= 0 {
        Ok(0)
    } else {
        match payload_total(blocks, k - 1) {
            Err(e) => Err(e),
            Ok(t) => if blocks[k - 1].len > usize::MAX {
                Err(IdsError::LengthOverflow)
            } else if t + blocks[k - 1].len > usize::MAX {
                Err(IdsError::RangeOverflow)
            } else {
                Ok(t + blocks[k - 1].len)
            },
        }
    }
}

/// The ids of one block, decoded from exactly its bytes.
pub open spec fn block_decode(bytes: Seq<u8>, b: IdBlockInfo) -> Result<Seq<FileId>, IdsError> {
    match b.codec {
        IdBlockCodec::Delta => match delta_decode(bytes, b.entries as int) {
            Ok((ids, _)) => Ok(ids),
            Err(e) => Err(e),
        },
        IdBlockCodec::Run => run_decode(bytes, b.entries),
    }
}

/// The ids of the first `k` blocks, whose bytes follow one another from
/// `start` on, and their total length.
pub open spec fn blocks_decode(bytes: Seq<u8>, start: int, blocks: Seq<IdBlockInfo>, k: int) -> Result<
    (Seq<FileId>, int),
    IdsError,
>
    decreases k,
{
    if k <= 0 {
        Ok((Seq::empty(), 0))
    } else {
        match blocks_decode(bytes, start, blocks, k - 1) {
            Err(e) => Err(e),
            Ok((ids, off)) => match block_decode(
                bytes.subrange(start + off, start + off + blocks[k - 1].len),
                blocks[k - 1],
            ) {
                Err(e) => Err(e),
                Ok(b) => Ok((ids + b, off + blocks[k - 1].len)),
            },
        }
    }
}

/// The blocked ids at `pos` of `bytes` and the position after them: the
/// header, then all blocks, which must hold as many ids as it says.
pub open spec fn blocked_decode(bytes: Seq<u8>, pos: int) -> Result<(Seq<FileId>, int), IdsError> {
    match blocked_header(bytes, pos) {
        Err(e) => Err(e),
        Ok((count, blocks, p)) => match payload_total(blocks, blocks.len() as int) {
            Err(e) => Err(e),
            Ok(total) => if p + total > bytes.len() {
                Err(IdsError::UnexpectedEof)
            } else {
                match blocks_decode(bytes, p, blocks, blocks.len() as int) {
                    Err(e) => Err(e),
                    Ok((ids, _)) => if ids.len() != count {
                        Err(IdsError::CountMismatch)
                    } else {
                        Ok((ids, p + total))
                    },
                }
            },
        },
    }
}


proof fn lemma_dir_decode_err(bytes: Seq<u8>, p0: int, k: int, n: int, v2: bool)
    requires
        0 <= k <= n,
        dir_decode(bytes, p0, k, v2) is Err,
    ensures
        dir_decode(bytes, p0, n, v2) == dir_decode(bytes, p0, k, v2),
    decreases n - k,
{
    if k < n {
        lemma_dir_decode_err(bytes, p0, k + 1, n, v2);
    }
}

/// Reads one directory entry at `p`.
fn read_dir_entry(bytes: &[u8], p: usize, v2: bool) -> (r: Result<(IdBlockInfo, usize), IdsError>)
    requires
        p <= bytes@.len(),
    ensures
        forall|blocks: Seq<IdBlockInfo>|
            match #[trigger] dir_step(bytes@, blocks, p as int, v2) {
                Ok((nb, np)) => r matches Ok((b, q)) && nb == blocks.push(b) && np == q as int && q <= bytes@.len(),
                Err(e) => r == Err::<(IdBlockInfo, usize), IdsError>(e),
            },
{
    let (vol, p1) = match varint_in(bytes, p) {
        Ok(x) => x,
        Err(e) => return Err(e),
    };
    let (node, p2) = match varint_in(bytes, p1) {
        Ok(x) => x,
        Err(e) => return Err(e),
    };
    let (entries, p3) = match varint_in(bytes, p2) {
        Ok(x) => x,
        Err(e) => return Err(e),
    };
    let (code, p4) = if v2 {
        match varint_in(bytes, p3) {
            Ok(x) => x,
            Err(e) => return Err(e),
        }
    } else {
        (0u64, p3)
    };
    let codec = if code == 0 {
        IdBlockCodec::Delta
    } else if code == 1 {
        IdBlockCodec::Run
    } else {
        return Err(IdsError::UnsupportedCodec);
    };
    let (len, p5) = match varint_in(bytes, p4) {
        Ok(x) => x,
        Err(e) => return Err(e),
    };
    Ok((IdBlockInfo { first: FileId { volume: VolumeId(vol), node }, entries, codec, len }, p5))
}

/// Reads `nb` directory entries from `p0` on.
fn read_dir(bytes: &[u8], p0: usize, nb: u64, v2: bool) -> (r: Result<(Vec<IdBlockInfo>, usize), IdsError>)
    requires
        p0 <= bytes@.len(),
    ensures
        match dir_decode(bytes@, p0 as int, nb as int, v2) {
            Ok((blocks, p)) => r matches Ok((v, q)) && v@ == blocks && q as int == p && q <= bytes@.len(),
            Err(e) => r == Err::<(Vec<IdBlockInfo>, usize), IdsError>(e),
        },
{
    let mut blocks: Vec<IdBlockInfo> = Vec::new();
    let mut p: usize = p0;
    let mut k: u64 = 0;
    while k < nb
        invariant
            k <= nb,
            p <= bytes@.len(),
            dir_decode(bytes@, p0 as int, k as int, v2) == Ok::<(Seq<IdBlockInfo>, int), IdsError>(
                (blocks@, p as int),
            ),
        decreases nb - k,
    {
        let ghost before = blocks@;
        match read_dir_entry(bytes, p, v2) {
            Ok((b, q)) => {
                proof {
                    assert(dir_step(bytes@, before, p as int, v2) matches Ok((nbs, np)) && nbs == before.push(b)
                        && np == q as int);
                }
                blocks.push(b);
                p = q;
            },
            Err(e) => {
                proof {
                    assert(dir_step(bytes@, before, p as int, v2) == Err::<(Seq<IdBlockInfo>, int), IdsError>(e));
                    lemma_dir_decode_err(bytes@, p0 as int, k as int + 1, nb as int, v2);
                }
                return Err(e);
            },
        }
        k = k + 1;
    }
    Ok((blocks, p))
}

/// Reads the header of blocked ids at `pos`.
fn read_header(bytes: &[u8], pos: usize) -> (r: Result<(u64, Vec<IdBlockInfo>, usize), IdsError>)
    requires
        pos <= bytes@.len(),
    ensures
        match blocked_header(bytes@, pos as int) {
            Ok((count, blocks, p)) => r matches Ok((c, v, q)) && c == count && v@ == blocks && q as int == p && q
                <= bytes@.len(),
            Err(e) => r == Err::<(u64, Vec<IdBlockInfo>, usize), IdsError>(e),
        },
{
    let (count, p1) = match varint_in(bytes, pos) {
        Ok(x) => x,
        Err(e) => return Err(e),
    };
    let (size, p2) = match varint_in(bytes, p1) {
        Ok(x) => x,
        Err(e) => return Err(e),
    };
    if size == 0 {
        let (version, p3) = match varint_in(bytes, p2) {
            Ok(x) => x,
            Err(e) => return Err(e),
        };
        if version != 2 {
            return Err(IdsError::UnsupportedVersion);
        }
        let (size2, p4) = match varint_in(bytes, p3) {
            Ok(x) => x,
            Err(e) => return Err(e),
        };
        if size2 == 0 {
            return Err(IdsError::ZeroBlockSize);
        }
        let (nb, p5) = match varint_in(bytes, p4) {
            Ok(x) => x,
            Err(e) => return Err(e),
        };
        match read_dir(bytes, p5, nb, true) {
            Ok((blocks, p6)) => Ok((count, blocks, p6)),
            Err(e) => Err(e),
        }
    } else {
        let (nb, p3) = match varint_in(bytes, p2) {
            Ok(x) => x,
            Err(e) => return Err(e),
        };
        match read_dir(bytes, p3, nb, false) {
            Ok((blocks, p4)) => Ok((count, blocks, p4)),
            Err(e) => Err(e),
        }
    }
}

proof fn lemma_payload_total_err(blocks: Seq<IdBlockInfo>, k: int, n: int)
    requires
        0 <= k <= n,
        payload_total(blocks, k) is Err,
    ensures
        payload_total(blocks, n) == payload_total(blocks, k),
    decreases n - k,
{
    if k < n {
        lemma_payload_total_err(blocks, k + 1, n);
    }
}

/// The total length of the first `n` blocks.
fn payload_len(blocks: &Vec<IdBlockInfo>, n: usize) -> (r: Result<usize, IdsError>)
    requires
        n <= blocks@.len(),
    ensures
        match payload_total(blocks@, n as int) {
            Ok(t) => r == Ok::<usize, IdsError>(t as usize) && 0 <= t <= usize::MAX,
            Err(e) => r == Err::<usize, IdsError>(e),
        },
{
    let mut total: usize = 0;
    let mut k: usize = 0;
    proof {
        lemma_payload_total_nonneg(blocks@, n as int);
    }
    while k < n
        invariant
            k <= n <= blocks@.len(),
            payload_total(blocks@, k as int) == Ok::<int, IdsError>(total as int),
        decreases n - k,
    {
        let len = blocks[k].len;
        if len > usize::MAX as u64 {
            proof {
                lemma_payload_total_err(blocks@, k as int + 1, n as int);
            }
            return Err(IdsError::LengthOverflow);
        }
        let l = len as usize;
        if l > usize::MAX - total {
            proof {
                lemma_payload_total_err(blocks@, k as int + 1, n as int);
            }
            return Err(IdsError::RangeOverflow);
        }
        total = total + l;
        k = k + 1;
    }
    Ok(total)
}

/// The ids of one block, decoded from exactly its bytes.
fn read_block(bytes: &[u8], b: IdBlockInfo) -> (r: Result<Vec<FileId>, IdsError>)
    ensures
        match block_decode(bytes@, b) {
            Ok(ids) => r matches Ok(v) && v@ == ids,
            Err(e) => r == Err::<Vec<FileId>, IdsError>(e),
        },
{
    match b.codec {
        IdBlockCodec::Delta => match read_delta_ids(bytes, b.entries) {
            Ok((ids, _)) => Ok(ids),
            Err(e) => Err(e),
        },
        IdBlockCodec::Run => read_run_ids(bytes, b.entries),
    }
}

proof fn lemma_blocks_decode_err(bytes: Seq<u8>, start: int, blocks: Seq<IdBlockInfo>, k: int, n: int)
    requires
        0 <= k <= n,
        blocks_decode(bytes, start, blocks, k) is Err,
    ensures
        blocks_decode(bytes, start, blocks, n) == blocks_decode(bytes, start, blocks, k),
    decreases n - k,
{
    if k < n {
        lemma_blocks_decode_err(bytes, start, blocks, k + 1, n);
    }
}

/// Where the first `k` blocks end, relative to their start: their total
/// length.
proof fn lemma_blocks_offset(bytes: Seq<u8>, start: int, blocks: Seq<IdBlockInfo>, k: int)
    requires
        0 <= k <= blocks.len(),
        payload_total(blocks, k) is Ok,
    ensures
        blocks_decode(bytes, start, blocks, k) matches Ok((_, off)) ==> payload_total(blocks, k) == Ok::<
            int,
            IdsError,
        >(off),
    decreases k,
{
    if k > 0 {
        lemma_blocks_offset(bytes, start, blocks, k - 1);
    }
}

proof fn lemma_payload_total_nonneg(blocks: Seq<IdBlockInfo>, k: int)
    ensures
        payload_total(blocks, k) matches Ok(t) ==> t >= 0,
    decreases k,
{
    if k > 0 {
        lemma_payload_total_nonneg(blocks, k - 1);
    }
}

proof fn lemma_payload_total_prefix(blocks: Seq<IdBlockInfo>, k: int, n: int)
    requires
        0 <= k <= n,
        payload_total(blocks, n) is Ok,
    ensures
        payload_total(blocks, k) is Ok,
        payload_total(blocks, k)->Ok_0 + blocks[k].len <= payload_total(blocks, n)->Ok_0 || k == n,
        0 <= payload_total(blocks, k)->Ok_0 <= payload_total(blocks, n)->Ok_0,
    decreases n - k,
{
    lemma_payload_total_nonneg(blocks, k);
    if k < n {
        lemma_payload_total_prefix(blocks, k + 1, n);
        if payload_total(blocks, k) is Err {
            lemma_payload_total_err(blocks, k, k + 1);
        }
    }
}

/// Reads the blocked ids at `pos`: their header, then every block.
pub fn read_blocked_file_ids(bytes: &[u8], pos: usize) -> (r: Result<(Vec<FileId>, usize), IdsError>)
    requires
        pos <= bytes@.len(),
    ensures
        match blocked_decode(bytes@, pos as int) {
            Ok((ids, p)) => r matches Ok((v, q)) && v@ == ids && q as int == p,
            Err(e) => r == Err::<(Vec<FileId>, usize), IdsError>(e),
        },
{
    let (count, blocks, p) = match read_header(bytes, pos) {
        Ok(x) => x,
        Err(e) => return Err(e),
    };
    let total = match payload_len(&blocks, blocks.len()) {
        Ok(t) => t,
        Err(e) => return Err(e),
    };
    if total > bytes.len() - p {
        return Err(IdsError::UnexpectedEof);
    }
    let blen = bytes.len();
    let mut ids: Vec<FileId> = Vec::new();
    let mut off: usize = 0;
    let mut k: usize = 0;
    while k < blocks.len()
        invariant
            k <= blocks@.len(),
            blen == bytes@.len(),
            p + total <= bytes@.len(),
            blocked_header(bytes@, pos as int) == Ok::<(u64, Seq<IdBlockInfo>, int), IdsError>(
                (count, blocks@, p as int),
            ),
            payload_total(blocks@, blocks@.len() as int) == Ok::<int, IdsError>(total as int),
            blocks_decode(bytes@, p as int, blocks@, k as int) == Ok::<(Seq<FileId>, int), IdsError>(
                (ids@, off as int),
            ),
            payload_total(blocks@, k as int) == Ok::<int, IdsError>(off as int),
        decreases blocks@.len() - k,
    {
        proof {
            lemma_payload_total_prefix(blocks@, k as int, blocks@.len() as int);
        }
        let b = blocks[k];
        let len = b.len as usize;
        proof {
            assert(b.len <= usize::MAX);
            assert(len as int == b.len as int);
            assert(off + len <= total);
        }
        let slice = vstd::slice::slice_subrange(bytes, p + off, p + off + len);
        match read_block(slice, b) {
            Ok(mut more) => {
                ids.append(&mut more);
            },
            Err(e) => {
                proof {
                    assert(blocks_decode(bytes@, p as int, blocks@, k as int + 1) == Err::<(Seq<FileId>, int), IdsError>(e));
                    lemma_blocks_decode_err(bytes@, p as int, blocks@, k as int + 1, blocks@.len() as int);
                }
                return Err(e);
            },
        }
        off = off + len;
        k = k + 1;
    }
    if ids.len() as u64 != count {
        return Err(IdsError::CountMismatch);
    }
    Ok((ids, p + total))
}


/// Reading a varint where its encoding stands gives its value and the
/// position after it, whatever follows.
pub(crate) proof fn lemma_varint_at(bytes: Seq<u8>, pos: int, v: u64, tail: Seq<u8>)
    requires
        0 <= pos <= bytes.len(),
        bytes.skip(pos) == varint_bytes(v) + tail,
    ensures
        varint_at(bytes, pos) == Ok::<(u64, int), IdsError>((v, pos + varint_bytes(v).len())),
        bytes.skip(pos + varint_bytes(v).len()) == tail,
        pos + varint_bytes(v).len() <= bytes.len(),
{
    lemma_varint_round_trip(v, tail);
    let n = varint_bytes(v).len() as int;
    assert(bytes.skip(pos + n) =~= (varint_bytes(v) + tail).skip(n));
    assert((varint_bytes(v) + tail).skip(n) =~= tail);
}

/// The delta pair of `id` after `prev` decodes back to `id` when `prev`
/// comes before it, or is the zero id.
proof fn lemma_delta_pair_round_trip(bytes: Seq<u8>, ids: Seq<FileId>, p: int, prev: FileId, id: FileId, tail: Seq<u8>)
    requires
        0 <= p <= bytes.len(),
        bytes.skip(p) == delta_pair_bytes(prev, id) + tail,
        prev == (if ids.len() == 0 { zero_id() } else { ids.last() }),
        !file_id_less(id, prev),
    ensures
        delta_step(bytes, ids, p) == Ok::<(Seq<FileId>, int), IdsError>(
            (ids.push(id), p + delta_pair_bytes(prev, id).len()),
        ),
        bytes.skip(p + delta_pair_bytes(prev, id).len()) == tail,
{
    let (vd, nd) = id_delta(prev, id);
    assert(bytes.skip(p) == varint_bytes(vd) + (varint_bytes(nd) + tail));
    lemma_varint_at(bytes, p, vd, varint_bytes(nd) + tail);
    let p1 = p + varint_bytes(vd).len();
    lemma_varint_at(bytes, p1, nd, tail);
}


/// `a` is the front of `b`.
pub open spec fn byte_prefix(a: Seq<u8>, b: Seq<u8>) -> bool {
    a.len() <= b.len() && b.take(a.len() as int) == a
}

proof fn lemma_prefix_trans(a: Seq<u8>, b: Seq<u8>, c: Seq<u8>)
    requires
        byte_prefix(a, b),
        byte_prefix(b, c),
    ensures
        byte_prefix(a, c),
{
    assert(c.take(a.len() as int) =~= c.take(b.len() as int).take(a.len() as int));
}

proof fn lemma_prefix_append(a: Seq<u8>, x: Seq<u8>)
    ensures
        byte_prefix(a, a + x),
{
    assert((a + x).take(a.len() as int) =~= a);
}

proof fn lemma_delta_upto_prefix(c: Seq<FileId>, k: int, n: int)
    requires
        0 <= k <= n,
    ensures
        byte_prefix(delta_bytes_upto(c, k), delta_bytes_upto(c, n)),
    decreases n - k,
{
    if k < n {
        lemma_delta_upto_prefix(c, k + 1, n);
        lemma_prefix_append(delta_bytes_upto(c, k), delta_pair_bytes(prev_id(c, k), c[k]));
        lemma_prefix_trans(delta_bytes_upto(c, k), delta_bytes_upto(c, k + 1), delta_bytes_upto(c, n));
    } else {
        lemma_prefix_append(delta_bytes_upto(c, k), Seq::empty());
        assert(delta_bytes_upto(c, k) + Seq::<u8>::empty() =~= delta_bytes_upto(c, k));
    }
}

/// Where `front` is the front of `whole` and `whole + tail` stands at `p`
/// of `bytes`, what stands after `front` is the rest of `whole`, then
/// `tail`.
proof fn lemma_skip_prefix(bytes: Seq<u8>, p: int, front: Seq<u8>, whole: Seq<u8>, tail: Seq<u8>)
    requires
        0 <= p <= bytes.len(),
        bytes.skip(p) == whole + tail,
        byte_prefix(front, whole),
    ensures
        bytes.skip(p + front.len()) == whole.skip(front.len() as int) + tail,
        p + front.len() <= bytes.len(),
{
    assert(bytes.skip(p + front.len()) =~= (whole + tail).skip(front.len() as int));
    assert((whole + tail).skip(front.len() as int) =~= whole.skip(front.len() as int) + tail);
}

/// Decoding the delta encoding of sorted ids gives them back, with the
/// position after the encoding, whatever follows.
pub(crate) proof fn lemma_delta_round_trip(c: Seq<FileId>, tail: Seq<u8>)
    requires
        ids_nondecreasing(c),
    ensures
        delta_decode(delta_bytes(c) + tail, c.len() as int) == Ok::<(Seq<FileId>, int), IdsError>(
            (c, delta_bytes(c).len() as int),
        ),
{
    let bytes = delta_bytes(c) + tail;
    let n = c.len() as int;
    assert forall|k: int| 0 <= k <= n implies delta_decode(bytes, k) == Ok::<(Seq<FileId>, int), IdsError>(
        (c.take(k), delta_bytes_upto(c, k).len() as int),
    ) by {
        lemma_delta_prefix_decodes(c, tail, k);
    }
    assert(c.take(n) =~= c);
}

proof fn lemma_delta_prefix_decodes(c: Seq<FileId>, tail: Seq<u8>, k: int)
    requires
        ids_nondecreasing(c),
        0 <= k <= c.len(),
    ensures
        delta_decode(delta_bytes(c) + tail, k) == Ok::<(Seq<FileId>, int), IdsError>(
            (c.take(k), delta_bytes_upto(c, k).len() as int),
        ),
    decreases k,
{
    let bytes = delta_bytes(c) + tail;
    let n = c.len() as int;
    if k == 0 {
        assert(c.take(0) =~= Seq::<FileId>::empty());
    } else {
        lemma_delta_prefix_decodes(c, tail, k - 1);
        let front = delta_bytes_upto(c, k - 1);
        lemma_delta_upto_prefix(c, k, n);
        lemma_delta_upto_prefix(c, k - 1, k);
        lemma_prefix_trans(front, delta_bytes_upto(c, k), delta_bytes(c));
        assert(bytes.skip(0) =~= delta_bytes(c) + tail);
        lemma_skip_prefix(bytes, 0, front, delta_bytes(c), tail);
        let pair = delta_pair_bytes(prev_id(c, k - 1), c[k - 1]);
        let rest = delta_bytes(c).skip(front.len() as int);
        let w = delta_bytes(c);
        let u = delta_bytes_upto(c, k);
        assert(u == front + pair);
        assert(w.take(u.len() as int) == u);
        assert forall|i: int| 0 <= i < rest.len() implies #[trigger] rest[i] == (pair + w.skip(u.len() as int))[i] by {
            if i < pair.len() {
                assert(w.take(u.len() as int)[front.len() + i] == w[front.len() + i]);
                assert((front + pair)[front.len() + i] == pair[i]);
            }
        }
        assert(rest =~= pair + w.skip(u.len() as int));
        assert(bytes.skip(front.len() as int) =~= pair + (w.skip(u.len() as int) + tail));
        let prev = prev_id(c, k - 1);
        assert(prev == (if c.take(k - 1).len() == 0 { zero_id() } else { c.take(k - 1).last() }));
        if k >= 2 {
            assert(!file_id_less(c[k - 1], c[k - 2]));
        }
        lemma_delta_pair_round_trip(
            bytes,
            c.take(k - 1),
            front.len() as int,
            prev,
            c[k - 1],
            delta_bytes(c).skip(delta_bytes_upto(c, k).len() as int) + tail,
        );
        assert(c.take(k - 1).push(c[k - 1]) =~= c.take(k));
    }
}


/// The ids that runs stand for, in order.
pub open spec fn expand_runs(runs: Seq<(FileId, u64)>) -> Seq<FileId>
    decreases runs.len(),
{
    if runs.len() == 0 {
        Seq::empty()
    } else {
        expand_runs(runs.drop_last()) + run_ids(runs.last().0.volume.0, runs.last().0.node, runs.last().1)
    }
}

/// What the runs of the first `k` sorted ids are: not empty, each
/// nonempty and within `u64`, standing for those ids, the last ending at
/// the last of them, and each starting after the end of the one before.
#[verifier::opaque]
pub open spec fn runs_wf(c: Seq<FileId>, k: int, runs: Seq<(FileId, u64)>) -> bool {
    &&& runs.len() > 0
    &&& forall|r: int|
        0 <= r < runs.len() ==> (#[trigger] runs[r]).1 >= 1 && runs[r].0.node + runs[r].1 - 1 <= u64::MAX
            && runs[r].1 <= k
    &&& expand_runs(runs) == c.take(k)
    &&& run_end(runs.last()) == c[k - 1]
    &&& forall|r: int| 1 <= r < runs.len() ==> file_id_less(run_end(runs[r - 1]), #[trigger] runs[r].0)
}

proof fn lemma_runs_wf(c: Seq<FileId>, k: int)
    requires
        ids_sorted(c),
        1 <= k <= c.len(),
        c.len() < u64::MAX,
    ensures
        runs_wf(c, k, runs_upto(c, k)),
    decreases k,
{
    reveal(runs_wf);
    let r = runs_upto(c, k);
    if k == 1 {
        assert(runs_upto(c, 0) =~= Seq::<(FileId, u64)>::empty());
        assert(r == seq![(c[0], 1u64)]);
        assert(r.drop_last() =~= Seq::<(FileId, u64)>::empty());
        assert(run_ids(c[0].volume.0, c[0].node, 1) =~= seq![c[0]]);
        assert(c.take(1) =~= seq![c[0]]);
        assert(expand_runs(r.drop_last()) == Seq::<FileId>::empty());
        assert(expand_runs(r) =~= c.take(1));
    } else {
        lemma_runs_wf(c, k - 1);
        let q = runs_upto(c, k - 1);
        let id = c[k - 1];
        let pid = c[k - 2];
        assert(file_id_less(pid, id));
        assert(c.take(k) =~= c.take(k - 1).push(id));
        if id.volume == pid.volume && id.node == sat_add64(pid.node, 1) {
            let last = q.last();
            assert(r == q.update(q.len() - 1, (last.0, (last.1 + 1) as u64)));
            assert(run_end(last) == pid);
            assert(pid.node < id.node);
            assert(last.1 <= k - 1);
            assert(last.0.node + last.1 == id.node);
            assert(r.drop_last() =~= q.drop_last());
            let grown = run_ids(last.0.volume.0, last.0.node, (last.1 + 1) as u64);
            assert forall|i: int| 0 <= i < grown.len() implies #[trigger] grown[i] == run_ids(
                last.0.volume.0,
                last.0.node,
                last.1,
            ).push(id)[i] by {
                if i == last.1 {
                    assert(grown[i] == FileId { volume: VolumeId(last.0.volume.0), node: (last.0.node + i) as u64 });
                }
            }
            assert(grown =~= run_ids(
                last.0.volume.0,
                last.0.node,
                last.1,
            ).push(id));
            assert(expand_runs(r) =~= expand_runs(q).push(id));
            assert forall|x: int| 0 <= x < r.len() implies (#[trigger] r[x]).1 >= 1 && r[x].0.node + r[x].1 - 1
                <= u64::MAX by {
                if x < r.len() - 1 {
                    assert(r[x] == q[x]);
                }
            }
            assert forall|x: int| 1 <= x < r.len() implies file_id_less(run_end(r[x - 1]), #[trigger] r[x].0) by {
                assert(r[x - 1] == q[x - 1]);
                if x < r.len() - 1 {
                    assert(r[x] == q[x]);
                }
            }
        } else {
            assert(r == q.push((id, 1u64)));
            assert(r.drop_last() =~= q);
            assert(run_ids(id.volume.0, id.node, 1) =~= seq![id]);
            assert(expand_runs(r) =~= expand_runs(q).push(id));
            assert forall|x: int| 0 <= x < r.len() implies (#[trigger] r[x]).1 >= 1 && r[x].0.node + r[x].1 - 1
                <= u64::MAX by {
                if x < r.len() - 1 {
                    assert(r[x] == q[x]);
                }
            }
            assert forall|x: int| 1 <= x < r.len() implies file_id_less(run_end(r[x - 1]), #[trigger] r[x].0) by {
                assert(r[x - 1] == q[x - 1]);
                if x < r.len() - 1 {
                    assert(r[x] == q[x]);
                }
            }
        }
    }
}


proof fn lemma_runs_upto_prefix(runs: Seq<(FileId, u64)>, k: int, n: int)
    requires
        0 <= k <= n,
    ensures
        byte_prefix(runs_bytes_upto(runs, k), runs_bytes_upto(runs, n)),
    decreases n - k,
{
    if k < n {
        lemma_runs_upto_prefix(runs, k + 1, n);
        lemma_prefix_append(runs_bytes_upto(runs, k), run_item_bytes(prev_run_end(runs, k), runs[k]));
        lemma_prefix_trans(runs_bytes_upto(runs, k), runs_bytes_upto(runs, k + 1), runs_bytes_upto(runs, n));
    } else {
        lemma_prefix_append(runs_bytes_upto(runs, k), Seq::empty());
        assert(runs_bytes_upto(runs, k) + Seq::<u8>::empty() =~= runs_bytes_upto(runs, k));
    }
}

/// What stands after the front `u_k` of `w`, where `u_{k+1} = u_k + x`
/// is also a front of `w`: `x`, then the rest after `u_{k+1}`.
proof fn lemma_next_piece(w: Seq<u8>, uk: Seq<u8>, x: Seq<u8>)
    requires
        byte_prefix(uk + x, w),
    ensures
        w.skip(uk.len() as int) == x + w.skip((uk + x).len() as int),
{
    let u = uk + x;
    assert forall|i: int| 0 <= i < w.skip(uk.len() as int).len() implies #[trigger] w.skip(uk.len() as int)[i] == (x
        + w.skip(u.len() as int))[i] by {
        if i < x.len() {
            assert(w.take(u.len() as int)[uk.len() + i] == w[uk.len() + i]);
            assert(u[uk.len() + i] == x[i]);
        }
    }
    assert(w.skip(uk.len() as int) =~= x + w.skip(u.len() as int));
}

/// What the runs of sorted ids give about run `m`: it is nonempty and
/// within `u64`, and starts after the end of the run before.
proof fn lemma_run_facts(c: Seq<FileId>, m: int)
    requires
        ids_sorted(c),
        1 <= c.len() < u64::MAX,
        0 <= m < id_runs(c).len(),
    ensures
        id_runs(c)[m].1 >= 1,
        id_runs(c)[m].0.node + id_runs(c)[m].1 - 1 <= u64::MAX,
        m >= 1 ==> file_id_less(run_end(id_runs(c)[m - 1]), id_runs(c)[m].0),
{
    lemma_runs_wf(c, c.len() as int);
    reveal(runs_wf);
    let rs = id_runs(c);
    assert(rs[m].1 >= 1);
}

/// The runs of sorted ids stand for them.
proof fn lemma_runs_expand(c: Seq<FileId>)
    requires
        ids_sorted(c),
        1 <= c.len() < u64::MAX,
    ensures
        expand_runs(id_runs(c)) == c,
{
    lemma_runs_wf(c, c.len() as int);
    reveal(runs_wf);
    assert(c.take(c.len() as int) =~= c);
}

/// Reading a run where its encoding stands, after the end of the run
/// before, gives its ids, the position after it and its end.
proof fn lemma_run_step_at(bytes: Seq<u8>, ids: Seq<FileId>, p: int, prev: FileId, run: (FileId, u64), after: Seq<u8>)
    requires
        0 <= p <= bytes.len(),
        bytes.skip(p) == run_item_bytes(prev, run) + after,
        file_id_less(prev, run.0) || prev == zero_id(),
        run.1 >= 1,
        run.0.node + run.1 - 1 <= u64::MAX,
    ensures
        run_step(bytes, ids, p, prev) == Ok::<(Seq<FileId>, int, FileId), IdsError>(
            (
                ids + run_ids(run.0.volume.0, run.0.node, run.1),
                p + run_item_bytes(prev, run).len(),
                run_end(run),
            ),
        ),
{
    let (vd, nd) = id_delta(prev, run.0);
    assert(bytes.skip(p) =~= varint_bytes(vd) + (varint_bytes(nd) + (varint_bytes(run.1) + after)));
    lemma_varint_at(bytes, p, vd, varint_bytes(nd) + (varint_bytes(run.1) + after));
    let p1 = p + varint_bytes(vd).len();
    lemma_varint_at(bytes, p1, nd, varint_bytes(run.1) + after);
    let p2 = p1 + varint_bytes(nd).len();
    lemma_varint_at(bytes, p2, run.1, after);
}

proof fn lemma_run_prefix_decodes(c: Seq<FileId>, tail: Seq<u8>, m: int)
    requires
        ids_sorted(c),
        1 <= c.len() < u64::MAX,
        0 <= m <= id_runs(c).len(),
    ensures
        runs_decode(
            run_bytes(c) + tail,
            varint_bytes(id_runs(c).len() as u64).len() as int,
            m,
        ) == Ok::<(Seq<FileId>, int, FileId), IdsError>(
            (
                expand_runs(id_runs(c).take(m)),
                (varint_bytes(id_runs(c).len() as u64).len() + runs_bytes_upto(id_runs(c), m).len()) as int,
                prev_run_end(id_runs(c), m),
            ),
        ),
    decreases m,
{
    let rs = id_runs(c);
    let head = varint_bytes(rs.len() as u64);
    let body = runs_bytes_upto(rs, rs.len() as int);
    let bytes = run_bytes(c) + tail;
    let p0 = head.len() as int;
    if m == 0 {
        assert(rs.take(0) =~= Seq::<(FileId, u64)>::empty());
    } else {
        lemma_run_prefix_decodes(c, tail, m - 1);
        lemma_run_facts(c, m - 1);
        let uk = runs_bytes_upto(rs, m - 1);
        let prev = prev_run_end(rs, m - 1);
        let run = rs[m - 1];
        let item = run_item_bytes(prev, run);
        lemma_runs_upto_prefix(rs, m, rs.len() as int);
        lemma_next_piece(body, uk, item);
        let p = p0 + uk.len();
        assert(bytes.skip(p) =~= body.skip(uk.len() as int) + tail);
        let after = body.skip((uk + item).len() as int) + tail;
        assert(bytes.skip(p) =~= item + after);
        lemma_run_step_at(bytes, expand_runs(rs.take(m - 1)), p, prev, run, after);
        assert(rs.take(m).drop_last() =~= rs.take(m - 1));
    }
}

proof fn lemma_runs_len(c: Seq<FileId>, k: int)
    requires
        0 <= k,
    ensures
        runs_upto(c, k).len() <= k,
    decreases k,
{
    if k > 0 {
        lemma_runs_len(c, k - 1);
    }
}

/// Decoding the run encoding of sorted ids gives them back, whatever
/// follows.
proof fn lemma_run_round_trip(c: Seq<FileId>, tail: Seq<u8>)
    requires
        ids_sorted(c),
        c.len() < u64::MAX,
    ensures
        run_decode(run_bytes(c) + tail, c.len() as u64) == Ok::<Seq<FileId>, IdsError>(c),
{
    let rs = id_runs(c);
    let bytes = run_bytes(c) + tail;
    lemma_runs_len(c, c.len() as int);
    assert(bytes.skip(0) =~= varint_bytes(rs.len() as u64) + (runs_bytes_upto(rs, rs.len() as int) + tail));
    lemma_varint_at(bytes, 0, rs.len() as u64, runs_bytes_upto(rs, rs.len() as int) + tail);
    if c.len() == 0 {
        assert(rs =~= Seq::<(FileId, u64)>::empty());
        assert(c =~= Seq::<FileId>::empty());
    } else {
        lemma_runs_expand(c);
        lemma_run_prefix_decodes(c, tail, rs.len() as int);
        assert(rs.take(rs.len() as int) =~= rs);
    }
}


/// The directory entry that a block of ids gets.
pub open spec fn block_info(c: Seq<FileId>) -> IdBlockInfo {
    IdBlockInfo {
        first: c[0],
        entries: c.len() as u64,
        codec: block_encoding(c).0,
        len: block_encoding(c).1.len() as u64,
    }
}

/// The directory of the first `b` blocks of `ids`.
pub open spec fn block_infos(ids: Seq<FileId>, b: int) -> Seq<IdBlockInfo> {
    Seq::new(b as nat, |i: int| block_info(block_ids(ids, i)))
}

/// A block of sorted ids decodes from its encoding.
proof fn lemma_block_round_trip(c: Seq<FileId>)
    requires
        ids_sorted(c),
        1 <= c.len() <= 128,
    ensures
        block_decode(block_encoding(c).1, block_info(c)) == Ok::<Seq<FileId>, IdsError>(c),
{
    if run_bytes(c).len() < delta_bytes(c).len() {
        lemma_run_round_trip(c, Seq::empty());
        assert(run_bytes(c) + Seq::<u8>::empty() =~= run_bytes(c));
    } else {
        assert forall|i: int, j: int| 0 <= i < j < c.len() implies !file_id_less(#[trigger] c[j], #[trigger] c[i]) by {
            assert(file_id_less(c[i], c[j]));
        }
        lemma_delta_round_trip(c, Seq::empty());
        assert(delta_bytes(c) + Seq::<u8>::empty() =~= delta_bytes(c));
    }
}

/// Block `b` of sorted ids is sorted and holds between one and 128 ids.
proof fn lemma_block_ids(ids: Seq<FileId>, b: int)
    requires
        ids_sorted(ids),
        0 <= b < block_count(ids.len() as int),
    ensures
        ids_sorted(block_ids(ids, b)),
        1 <= block_ids(ids, b).len() <= 128,
        block_ids(ids, b)[0] == ids[b * 128],
{
    let c = block_ids(ids, b);
    assert forall|i: int, j: int| 0 <= i < j < c.len() implies file_id_less(#[trigger] c[i], #[trigger] c[j]) by {
        assert(c[i] == ids[b * 128 + i] && c[j] == ids[b * 128 + j]);
    }
}

proof fn lemma_dir_upto_prefix(ids: Seq<FileId>, k: int, n: int)
    requires
        0 <= k <= n,
    ensures
        byte_prefix(dir_bytes_upto(ids, k), dir_bytes_upto(ids, n)),
    decreases n - k,
{
    if k < n {
        lemma_dir_upto_prefix(ids, k + 1, n);
        lemma_prefix_append(dir_bytes_upto(ids, k), dir_entry_bytes(block_ids(ids, k)));
        lemma_prefix_trans(dir_bytes_upto(ids, k), dir_bytes_upto(ids, k + 1), dir_bytes_upto(ids, n));
    } else {
        lemma_prefix_append(dir_bytes_upto(ids, k), Seq::empty());
        assert(dir_bytes_upto(ids, k) + Seq::<u8>::empty() =~= dir_bytes_upto(ids, k));
    }
}

proof fn lemma_payload_upto_prefix(ids: Seq<FileId>, k: int, n: int)
    requires
        0 <= k <= n,
    ensures
        byte_prefix(payload_upto(ids, k), payload_upto(ids, n)),
    decreases n - k,
{
    if k < n {
        lemma_payload_upto_prefix(ids, k + 1, n);
        lemma_prefix_append(payload_upto(ids, k), block_encoding(block_ids(ids, k)).1);
        lemma_prefix_trans(payload_upto(ids, k), payload_upto(ids, k + 1), payload_upto(ids, n));
    } else {
        lemma_prefix_append(payload_upto(ids, k), Seq::empty());
        assert(payload_upto(ids, k) + Seq::<u8>::empty() =~= payload_upto(ids, k));
    }
}

/// Reading a directory entry where it stands gives the block's entry.
proof fn lemma_dir_step_at(bytes: Seq<u8>, infos: Seq<IdBlockInfo>, p: int, c: Seq<FileId>, after: Seq<u8>)
    requires
        0 <= p <= bytes.len(),
        bytes.skip(p) == dir_entry_bytes(c) + after,
        1 <= c.len() <= 128,
    ensures
        dir_step(bytes, infos, p, true) == Ok::<(Seq<IdBlockInfo>, int), IdsError>(
            (infos.push(block_info(c)), p + dir_entry_bytes(c).len()),
        ),
{
    let v0 = c[0].volume.0;
    let v1 = c[0].node;
    let v2 = c.len() as u64;
    let v3 = codec_code(block_encoding(c).0);
    let v4 = block_encoding(c).1.len() as u64;
    let t4 = varint_bytes(v4) + after;
    let t3 = varint_bytes(v3) + t4;
    let t2 = varint_bytes(v2) + t3;
    let t1 = varint_bytes(v1) + t2;
    assert(bytes.skip(p) =~= varint_bytes(v0) + t1);
    lemma_varint_at(bytes, p, v0, t1);
    let p1 = p + varint_bytes(v0).len();
    lemma_varint_at(bytes, p1, v1, t2);
    let p2 = p1 + varint_bytes(v1).len();
    lemma_varint_at(bytes, p2, v2, t3);
    let p3 = p2 + varint_bytes(v2).len();
    lemma_varint_at(bytes, p3, v3, t4);
    let p4 = p3 + varint_bytes(v3).len();
    lemma_varint_at(bytes, p4, v4, after);
}

/// The directory of sorted ids decodes, entry by entry, where it stands.
proof fn lemma_dir_decodes(bytes: Seq<u8>, p0: int, ids: Seq<FileId>, tail: Seq<u8>, k: int)
    requires
        ids_sorted(ids),
        0 <= p0 <= bytes.len(),
        bytes.skip(p0) == dir_bytes_upto(ids, block_count(ids.len() as int)) + tail,
        0 <= k <= block_count(ids.len() as int),
    ensures
        dir_decode(bytes, p0, k, true) == Ok::<(Seq<IdBlockInfo>, int), IdsError>(
            (block_infos(ids, k), p0 + dir_bytes_upto(ids, k).len()),
        ),
    decreases k,
{
    let nb = block_count(ids.len() as int);
    if k == 0 {
        assert(block_infos(ids, 0) =~= Seq::<IdBlockInfo>::empty());
    } else {
        lemma_dir_decodes(bytes, p0, ids, tail, k - 1);
        lemma_block_ids(ids, k - 1);
        let whole = dir_bytes_upto(ids, nb);
        let uk = dir_bytes_upto(ids, k - 1);
        let entry = dir_entry_bytes(block_ids(ids, k - 1));
        lemma_dir_upto_prefix(ids, k, nb);
        lemma_dir_upto_prefix(ids, k - 1, nb);
        lemma_next_piece(whole, uk, entry);
        let p = p0 + uk.len();
        lemma_skip_prefix(bytes, p0, uk, whole, tail);
        let after = whole.skip((uk + entry).len() as int) + tail;
        assert(bytes.skip(p) =~= entry + after);
        lemma_dir_step_at(bytes, block_infos(ids, k - 1), p, block_ids(ids, k - 1), after);
        assert(block_infos(ids, k - 1).push(block_info(block_ids(ids, k - 1))) =~= block_infos(ids, k));
    }
}


/// The number of ids in the first `k` blocks of `n`.
pub open spec fn ids_in_blocks(n: int, k: int) -> int {
    if k * 128 <= n {
        k * 128
    } else {
        n
    }
}

proof fn lemma_payload_totals(ids: Seq<FileId>, k: int)
    requires
        0 <= k <= block_count(ids.len() as int),
        payload_upto(ids, block_count(ids.len() as int)).len() <= usize::MAX,
    ensures
        payload_total(block_infos(ids, block_count(ids.len() as int)), k) == Ok::<int, IdsError>(
            payload_upto(ids, k).len() as int,
        ),
    decreases k,
{
    let nb = block_count(ids.len() as int);
    if k > 0 {
        lemma_payload_totals(ids, k - 1);
        lemma_payload_upto_prefix(ids, k, nb);
        assert(block_infos(ids, nb)[k - 1] == block_info(block_ids(ids, k - 1)));
    }
}

proof fn lemma_subrange_of_skip(bytes: Seq<u8>, q: int, enc: Seq<u8>, after: Seq<u8>)
    requires
        0 <= q <= bytes.len(),
        bytes.skip(q) == enc + after,
    ensures
        bytes.subrange(q, q + enc.len()) == enc,
{
    assert(bytes.skip(q).len() == bytes.len() - q);
    assert forall|i: int| 0 <= i < enc.len() implies #[trigger] bytes.subrange(q, q + enc.len())[i] == enc[i] by {
        assert(bytes.skip(q)[i] == bytes[q + i]);
        assert((enc + after)[i] == enc[i]);
    }
    assert(bytes.subrange(q, q + enc.len()) =~= enc);
}

proof fn lemma_take_blocks(ids: Seq<FileId>, k: int)
    requires
        1 <= k <= block_count(ids.len() as int),
    ensures
        ids.take(ids_in_blocks(ids.len() as int, k - 1)) + block_ids(ids, k - 1) == ids.take(
            ids_in_blocks(ids.len() as int, k),
        ),
{
    assert(ids.take(ids_in_blocks(ids.len() as int, k - 1)) + block_ids(ids, k - 1) =~= ids.take(
        ids_in_blocks(ids.len() as int, k),
    ));
}

/// The blocks of sorted ids decode, one after another, where they stand.
#[verifier::spinoff_prover]
#[verifier::rlimit(40)]
proof fn lemma_blocks_decode(bytes: Seq<u8>, p: int, ids: Seq<FileId>, tail: Seq<u8>, k: int)
    requires
        ids_sorted(ids),
        0 <= p <= bytes.len(),
        bytes.skip(p) == payload_upto(ids, block_count(ids.len() as int)) + tail,
        0 <= k <= block_count(ids.len() as int),
        payload_upto(ids, block_count(ids.len() as int)).len() <= usize::MAX,
    ensures
        blocks_decode(bytes, p, block_infos(ids, block_count(ids.len() as int)), k) == Ok::<
            (Seq<FileId>, int),
            IdsError,
        >((ids.take(ids_in_blocks(ids.len() as int, k)), payload_upto(ids, k).len() as int)),
    decreases k,
{
    let nb = block_count(ids.len() as int);
    let infos = block_infos(ids, nb);
    if k == 0 {
        assert(ids.take(0) =~= Seq::<FileId>::empty());
    } else {
        lemma_blocks_decode(bytes, p, ids, tail, k - 1);
        lemma_block_ids(ids, k - 1);
        let c = block_ids(ids, k - 1);
        let whole = payload_upto(ids, nb);
        let uk = payload_upto(ids, k - 1);
        let enc = block_encoding(c).1;
        lemma_payload_upto_prefix(ids, k, nb);
        lemma_payload_upto_prefix(ids, k - 1, nb);
        lemma_next_piece(whole, uk, enc);
        lemma_skip_prefix(bytes, p, uk, whole, tail);
        let off = uk.len() as int;
        assert(infos[k - 1] == block_info(c));
        let after = whole.skip((uk + enc).len() as int) + tail;
        assert(bytes.skip(p + off) =~= enc + after);
        lemma_subrange_of_skip(bytes, p + off, enc, after);
        assert((uk + enc).len() <= whole.len());
        assert(infos[k - 1].len == enc.len());
        lemma_block_round_trip(c);
        lemma_take_blocks(ids, k);
    }
}


/// The header of the blocked encoding of sorted ids reads back, and the
/// payload follows it.
#[verifier::spinoff_prover]
proof fn lemma_blocked_header_written(ids: Seq<FileId>, pre: Seq<u8>, rest: Seq<u8>)
    requires
        ids_sorted(ids),
        ids.len() <= u64::MAX,
        blocked_bytes(ids).len() <= usize::MAX,
    ensures
        ({
            let nb = block_count(ids.len() as int);
            let pl = payload_upto(ids, nb);
            let bytes = pre + blocked_bytes(ids) + rest;
            let p6 = pre.len() + blocked_bytes(ids).len() - pl.len();
            &&& pre.len() <= p6 <= bytes.len()
            &&& blocked_header(bytes, pre.len() as int) == Ok::<(u64, Seq<IdBlockInfo>, int), IdsError>(
                (ids.len() as u64, block_infos(ids, nb), p6),
            )
            &&& bytes.skip(p6) == pl + rest
        }),
{
    let n = ids.len() as int;
    let nb = block_count(n);
    let d = dir_bytes_upto(ids, nb);
    let pl = payload_upto(ids, nb);
    let bytes = pre + blocked_bytes(ids) + rest;
    let pos = pre.len() as int;
    let t4 = d + pl + rest;
    let t3 = varint_bytes(nb as u64) + t4;
    let t2 = varint_bytes(128) + t3;
    let t1 = varint_bytes(2) + t2;
    let t0 = varint_bytes(0) + t1;
    assert(bytes.skip(pos) =~= varint_bytes(n as u64) + t0);
    lemma_varint_at(bytes, pos, n as u64, t0);
    let p1 = pos + varint_bytes(n as u64).len();
    lemma_varint_at(bytes, p1, 0, t1);
    let p2 = p1 + varint_bytes(0).len();
    lemma_varint_at(bytes, p2, 2, t2);
    let p3 = p2 + varint_bytes(2).len();
    lemma_varint_at(bytes, p3, 128, t3);
    let p4 = p3 + varint_bytes(128).len();
    lemma_varint_at(bytes, p4, nb as u64, t4);
    let p5 = p4 + varint_bytes(nb as u64).len();
    assert(bytes.skip(p5) =~= d + (pl + rest));
    lemma_dir_decodes(bytes, p5, ids, pl + rest, nb);
    let p6 = p5 + d.len();
    assert(bytes.skip(p5) =~= (d + pl) + rest);
    lemma_prefix_append(d, pl);
    lemma_skip_prefix(bytes, p5, d, d + pl, rest);
    assert((d + pl).skip(d.len() as int) =~= pl);
    assert(p6 == pos + blocked_bytes(ids).len() - pl.len());
}

/// Blocked ids round trip: decoding the blocked encoding of sorted ids,
/// wherever it stands and whatever follows it, gives the ids back and the
/// position just after the encoding.
#[verifier::spinoff_prover]
pub proof fn lemma_blocked_round_trip(ids: Seq<FileId>, pre: Seq<u8>, rest: Seq<u8>)
    requires
        ids_sorted(ids),
        ids.len() <= u64::MAX,
        blocked_bytes(ids).len() <= usize::MAX,
    ensures
        blocked_decode(pre + blocked_bytes(ids) + rest, pre.len() as int) == Ok::<(Seq<FileId>, int), IdsError>(
            (ids, (pre.len() + blocked_bytes(ids).len()) as int),
        ),
{
    let n = ids.len() as int;
    let nb = block_count(n);
    let pl = payload_upto(ids, nb);
    let bytes = pre + blocked_bytes(ids) + rest;
    let pos = pre.len() as int;
    lemma_blocked_header_written(ids, pre, rest);
    let p6 = pos + blocked_bytes(ids).len() - pl.len();
    lemma_payload_totals(ids, nb);
    lemma_blocks_decode(bytes, p6, ids, rest, nb);
    assert(ids.take(ids_in_blocks(n, nb)) =~= ids);
}


/// Block `index` of the blocked ids at the front of `bytes`, decoded
/// alone: the header, then the block's bytes after those of the blocks
/// before it.
pub open spec fn blocked_block_decode(bytes: Seq<u8>, index: int) -> Result<Seq<FileId>, IdsError> {
    match blocked_header(bytes, 0) {
        Err(e) => Err(e),
        Ok((_, blocks, p)) => if index < 0 || index >= blocks.len() {
            Err(IdsError::IndexOutOfBounds)
        } else {
            match payload_total(blocks, index) {
                Err(e) => Err(e),
                Ok(skip) => if blocks[index].len > usize::MAX {
                    Err(IdsError::LengthOverflow)
                } else if p + skip > usize::MAX || p + skip + blocks[index].len > usize::MAX {
                    Err(IdsError::RangeOverflow)
                } else if p + skip + blocks[index].len > bytes.len() {
                    Err(IdsError::OutOfBounds)
                } else {
                    block_decode(bytes.subrange(p + skip, p + skip + blocks[index].len), blocks[index])
                },
            }
        },
    }
}

/// Decodes block `index` of the blocked ids at the front of `bytes` alone.
pub fn read_blocked_file_id_block_from_slice(bytes: &[u8], index: usize) -> (r: Result<Vec<FileId>, IdsError>)
    ensures
        match blocked_block_decode(bytes@, index as int) {
            Ok(ids) => r matches Ok(v) && v@ == ids,
            Err(e) => r == Err::<Vec<FileId>, IdsError>(e),
        },
{
    let (_count, blocks, p) = match read_header(bytes, 0) {
        Ok(x) => x,
        Err(e) => return Err(e),
    };
    if index >= blocks.len() {
        return Err(IdsError::IndexOutOfBounds);
    }
    let skip = match payload_len(&blocks, index) {
        Ok(t) => t,
        Err(e) => return Err(e),
    };
    let b = blocks[index];
    if b.len > usize::MAX as u64 {
        return Err(IdsError::LengthOverflow);
    }
    let len = b.len as usize;
    if skip > usize::MAX - p {
        return Err(IdsError::RangeOverflow);
    }
    let start = p + skip;
    if len > usize::MAX - start {
        return Err(IdsError::RangeOverflow);
    }
    let end = start + len;
    if end > bytes.len() {
        return Err(IdsError::OutOfBounds);
    }
    let slice = vstd::slice::slice_subrange(bytes, start, end);
    read_block(slice, b)
}


/// Why the blocked ids are malformed, in words; empty for the errors of
/// reading itself.
pub open spec fn ids_reason(e: IdsError) -> Seq<char> {
    match e {
        IdsError::UnexpectedEof => Seq::empty(),
        IdsError::VarintOverflow => Seq::empty(),
        IdsError::VolumeOverflow => "volume id overflow"@,
        IdsError::NodeOverflow => "file node id overflow"@,
        IdsError::EmptyRun => "empty id run"@,
        IdsError::RunCountMismatch => "id run count mismatch"@,
        IdsError::CountMismatch => "id count mismatch"@,
        IdsError::UnsupportedVersion => "unsupported blocked id version"@,
        IdsError::ZeroBlockSize => "zero id block size"@,
        IdsError::UnsupportedCodec => "unsupported id block codec"@,
        IdsError::LengthOverflow => "id block length overflow"@,
        IdsError::RangeOverflow => "id block range overflow"@,
        IdsError::IndexOutOfBounds => "id block index out of bounds"@,
        IdsError::OutOfBounds => "id block out of bounds"@,
    }
}

fn ids_reason_text(e: IdsError) -> (s: &'static str)
    ensures
        s@ == ids_reason(e),
{
    proof {
        reveal_strlit("");
    }
    match e {
        IdsError::UnexpectedEof => "",
        IdsError::VarintOverflow => "",
        IdsError::VolumeOverflow => "volume id overflow",
        IdsError::NodeOverflow => "file node id overflow",
        IdsError::EmptyRun => "empty id run",
        IdsError::RunCountMismatch => "id run count mismatch",
        IdsError::CountMismatch => "id count mismatch",
        IdsError::UnsupportedVersion => "unsupported blocked id version",
        IdsError::ZeroBlockSize => "zero id block size",
        IdsError::UnsupportedCodec => "unsupported id block codec",
        IdsError::LengthOverflow => "id block length overflow",
        IdsError::RangeOverflow => "id block range overflow",
        IdsError::IndexOutOfBounds => "id block index out of bounds",
        IdsError::OutOfBounds => "id block out of bounds",
    }
}

/// Whether `g` is the store error of the id error `e` at `path`: a read
/// error for bytes that ended early or a varint too long, else a format
/// error that names the store and the reason.
pub open spec fn is_id_error(g: GfmError, path: Seq<char>, e: IdsError) -> bool {
    if e == IdsError::UnexpectedEof {
        g matches GfmError::Io { path: p, message: m } && p@ == path && m@ == "failed to fill whole buffer"@
    } else if e == IdsError::VarintOverflow {
        g matches GfmError::Io { path: p, message: m } && p@ == path && m@ == "varint overflow"@
    } else {
        g matches GfmError::Format(m) && m@ == "invalid id block store "@ + path + ": "@ + ids_reason(e)
    }
}

/// The store error of an id error at `path`: a read error for bytes that
/// ended early or a varint too long, else a format error that names the
/// store and the reason.
pub fn id_error(path: &str, e: IdsError) -> (g: GfmError)
    ensures
        is_id_error(g, path@, e),
{
    match e {
        IdsError::UnexpectedEof => GfmError::Io {
            path: String::from_str(path),
            message: String::from_str("failed to fill whole buffer"),
        },
        IdsError::VarintOverflow => GfmError::Io {
            path: String::from_str(path),
            message: String::from_str("varint overflow"),
        },
        _ => {
            let mut m = String::from_str("invalid id block store ");
            m.append(path);
            m.append(": ");
            m.append(ids_reason_text(e));
            GfmError::Format(m)
        },
    }
}


/// How many of `s` come before `x`.
pub open spec fn count_before(s: Seq<FileId>, x: FileId) -> nat
    decreases s.len(),
{
    if s.len() == 0 {
        0
    } else {
        count_before(s.drop_last(), x) + if file_id_less(s.last(), x) {
            1nat
        } else {
            0
        }
    }
}

/// `x` put into its place in the sorted `s`, unless `s` holds it.
pub open spec fn insert_sorted_id(s: Seq<FileId>, x: FileId) -> Seq<FileId> {
    if s.contains(x) {
        s
    } else {
        s.insert(count_before(s, x) as int, x)
    }
}

/// `ids` sorted, each once.
pub open spec fn sort_ids(ids: Seq<FileId>) -> Seq<FileId>
    decreases ids.len(),
{
    if ids.len() == 0 {
        Seq::empty()
    } else {
        insert_sorted_id(sort_ids(ids.drop_last()), ids.last())
    }
}

proof fn lemma_count_before(s: Seq<FileId>, x: FileId)
    requires
        ids_sorted(s),
    ensures
        count_before(s, x) <= s.len(),
        forall|i: int| 0 <= i < count_before(s, x) ==> file_id_less(#[trigger] s[i], x),
        forall|i: int| count_before(s, x) <= i < s.len() ==> !file_id_less(#[trigger] s[i], x),
    decreases s.len(),
{
    if s.len() > 0 {
        let t = s.drop_last();
        assert(ids_sorted(t)) by {
            assert forall|i: int, j: int| 0 <= i < j < t.len() implies file_id_less(#[trigger] t[i], #[trigger] t[j]) by {
                assert(t[i] == s[i] && t[j] == s[j]);
            }
        }
        lemma_count_before(t, x);
        if file_id_less(s.last(), x) {
            assert forall|i: int| 0 <= i < count_before(s, x) implies file_id_less(#[trigger] s[i], x) by {
                if i < t.len() {
                    assert(s[i] == t[i] || file_id_less(s[i], s.last()));
                    assert(file_id_less(s[i], s.last()) || i == s.len() - 1);
                }
            }
        } else {
            assert forall|i: int| count_before(s, x) <= i < s.len() implies !file_id_less(#[trigger] s[i], x) by {
                if i < t.len() {
                    assert(s[i] == t[i]);
                }
            }
            assert forall|i: int| 0 <= i < count_before(s, x) implies file_id_less(#[trigger] s[i], x) by {
                assert(s[i] == t[i]);
            }
        }
    }
}

/// `sort_ids` is sorted and holds the ids.
pub(crate) proof fn lemma_sort_ids(ids: Seq<FileId>)
    ensures
        ids_sorted(sort_ids(ids)),
        sort_ids(ids).to_set() == ids.to_set(),
    decreases ids.len(),
{
    if ids.len() > 0 {
        let t = ids.drop_last();
        let x = ids.last();
        lemma_sort_ids(t);
        let s = sort_ids(t);
        assert(ids =~= t.push(x));
        t.lemma_push_to_set_commute(x);
        if s.contains(x) {
            assert(s.to_set().contains(x));
            assert(s.to_set().insert(x) =~= s.to_set());
        } else {
            lemma_count_before(s, x);
            let k = count_before(s, x) as int;
            let r = s.insert(k, x);
            assert forall|i: int, j: int| 0 <= i < j < r.len() implies file_id_less(#[trigger] r[i], #[trigger] r[j]) by {
                if j < k {
                    assert(r[i] == s[i] && r[j] == s[j]);
                } else if j == k {
                    assert(r[i] == s[i]);
                } else if i == k {
                    assert(r[j] == s[j - 1]);
                    assert(!file_id_less(s[j - 1], x));
                    assert(s[j - 1] != x) by {
                        assert(s.contains(s[j - 1]));
                    }
                } else if i < k {
                    assert(r[i] == s[i] && r[j] == s[j - 1]);
                } else {
                    assert(r[i] == s[i - 1] && r[j] == s[j - 1]);
                }
            }
            assert forall|y: FileId| r.to_set().contains(y) <==> s.to_set().insert(x).contains(y) by {
                if r.to_set().contains(y) {
                    let i = choose|i: int| 0 <= i < r.len() && r[i] == y;
                    if i < k {
                        assert(s[i] == y);
                    } else if i > k {
                        assert(s[i - 1] == y);
                    }
                }
                if s.to_set().contains(y) {
                    let i = choose|i: int| 0 <= i < s.len() && s[i] == y;
                    if i < k {
                        assert(r[i] == y);
                    } else {
                        assert(r[i + 1] == y);
                    }
                }
                if y == x {
                    assert(r[k] == y);
                }
            }
            assert(r.to_set() =~= s.to_set().insert(x));
        }
    }
}

/// Two sorted sequences of the same ids are the same.
proof fn lemma_sorted_unique(a: Seq<FileId>, b: Seq<FileId>)
    requires
        ids_sorted(a),
        ids_sorted(b),
        a.to_set() == b.to_set(),
    ensures
        a == b,
    decreases a.len(),
{
    if a.len() == 0 {
        if b.len() > 0 {
            assert(b.to_set().contains(b[0]));
        }
        assert(b =~= a);
    } else {
        assert(a.to_set().contains(a[0]));
        assert(b.to_set().contains(a[0]));
        assert(b.len() > 0);
        assert(b.to_set().contains(b[0]));
        assert(a.to_set().contains(b[0]));
        let i = choose|i: int| 0 <= i < b.len() && b[i] == a[0];
        let j = choose|j: int| 0 <= j < a.len() && a[j] == b[0];
        if i > 0 {
            assert(file_id_less(b[0], b[i]));
            if j > 0 {
                assert(file_id_less(a[0], a[j]));
            }
        }
        assert(a[0] == b[0]);
        let a1 = a.drop_first();
        let b1 = b.drop_first();
        assert(ids_sorted(a1)) by {
            assert forall|x: int, y: int| 0 <= x < y < a1.len() implies file_id_less(#[trigger] a1[x], #[trigger] a1[y]) by {
                assert(a1[x] == a[x + 1] && a1[y] == a[y + 1]);
            }
        }
        assert(ids_sorted(b1)) by {
            assert forall|x: int, y: int| 0 <= x < y < b1.len() implies file_id_less(#[trigger] b1[x], #[trigger] b1[y]) by {
                assert(b1[x] == b[x + 1] && b1[y] == b[y + 1]);
            }
        }
        assert forall|y: FileId| a1.to_set().contains(y) <==> b1.to_set().contains(y) by {
            if a1.to_set().contains(y) {
                let p = choose|p: int| 0 <= p < a1.len() && a1[p] == y;
                assert(file_id_less(a[0], a[p + 1]));
                assert(a.to_set().contains(y));
                let q = choose|q: int| 0 <= q < b.len() && b[q] == y;
                assert(q != 0);
                assert(b1[q - 1] == y);
            }
            if b1.to_set().contains(y) {
                let p = choose|p: int| 0 <= p < b1.len() && b1[p] == y;
                assert(file_id_less(b[0], b[p + 1]));
                assert(b.to_set().contains(y));
                let q = choose|q: int| 0 <= q < a.len() && a[q] == y;
                assert(q != 0);
                assert(a1[q - 1] == y);
            }
        }
        assert(a1.to_set() =~= b1.to_set());
        lemma_sorted_unique(a1, b1);
        assert(a =~= seq![a[0]] + a1);
        assert(b =~= seq![b[0]] + b1);
    }
}


/// The blocks decoded in turn until `limit` ids are there: those ids (at
/// most `limit`), whether the limit stopped the decoding, and the length of
/// the blocks decoded.
pub open spec fn limited_blocks(bytes: Seq<u8>, start: int, blocks: Seq<IdBlockInfo>, limit: int, k: int) -> Result<
    (Seq<FileId>, bool, int),
    IdsError,
>
    decreases k,
{
    if k <= 0 {
        Ok((Seq::empty(), false, 0))
    } else {
        match limited_blocks(bytes, start, blocks, limit, k - 1) {
            Err(e) => Err(e),
            Ok((ids, true, off)) => Ok((ids, true, off)),
            Ok((ids, false, off)) => match block_decode(
                bytes.subrange(start + off, start + off + blocks[k - 1].len),
                blocks[k - 1],
            ) {
                Err(e) => Err(e),
                Ok(b) => {
                    let n = ids + b;
                    if n.len() >= limit {
                        Ok((n.take(limit), true, off + blocks[k - 1].len))
                    } else {
                        Ok((n, false, off + blocks[k - 1].len))
                    }
                },
            },
        }
    }
}

/// The header, the directory and the length of blocked ids at the front of
/// `bytes`, checked to lie within them: the number of ids, the directory,
/// where the blocks start and where they end.
pub open spec fn blocked_layout(bytes: Seq<u8>) -> Result<(u64, Seq<IdBlockInfo>, int, int), IdsError> {
    match blocked_header(bytes, 0) {
        Err(e) => Err(e),
        Ok((count, blocks, p)) => match payload_total(blocks, blocks.len() as int) {
            Err(e) => Err(e),
            Ok(total) => if p + total > usize::MAX {
                Err(IdsError::RangeOverflow)
            } else if p + total > bytes.len() {
                Err(IdsError::OutOfBounds)
            } else {
                Ok((count, blocks, p, p + total))
            },
        },
    }
}

/// The first `limit` blocked ids at the front of `bytes`, for the store at
/// `path`, asking `check_control` whether to go on before reading, after
/// the header, at each block and before decoding it: the ids are the
/// decoding's, got only after the control let it go on, or the result is
/// an error the control returned, which comes before any later decoding
/// error.
pub fn read_blocked_file_ids_limited_checked(
    bytes: &[u8],
    limit: usize,
    path: &str,
    check_control: impl Fn() -> Result<(), GfmError>,
) -> (r: Result<Vec<FileId>, GfmError>)
    requires
        check_control.requires(()),
    ensures
        checked_outcome(
            check_control,
            r,
            |x: Vec<FileId>| blocked_limited(bytes@, limit as int) matches Ok((ids, _, _)) && x@ == ids,
            |g: GfmError| blocked_limited(bytes@, limit as int) matches Err(e) && is_id_error(g, path@, e),
        ),
{
    let c0 = check_control();
    match c0 {
        Err(g) => return Err(g),
        Ok(()) => {},
    }
    proof {
        assert(c0->Ok_0 == ());
    }
    let (count, blocks, p, end) = match read_layout(bytes) {
        Ok(x) => x,
        Err(e) => return Err(id_error(path, e)),
    };
    match check_control() {
        Err(g) => return Err(g),
        Ok(()) => {},
    }
    match check_control() {
        Err(g) => return Err(g),
        Ok(()) => {},
    }
    if limit == 0 {
        let none: Vec<FileId> = Vec::new();
        proof {
            assert(none@ =~= Seq::<FileId>::empty());
        }
        return Ok(none);
    }
    proof {
        lemma_payload_total_nonneg(blocks@, blocks@.len() as int);
    }
    let blen = bytes.len();
    let mut ids: Vec<FileId> = Vec::new();
    let mut off: usize = 0;
    let mut k: usize = 0;
    while k < blocks.len()
        invariant
            check_control.requires(()),
            check_control.ensures((), Ok::<(), GfmError>(())),
            k <= blocks@.len(),
            blen == bytes@.len(),
            limit > 0,
            blocked_layout(bytes@) == Ok::<(u64, Seq<IdBlockInfo>, int, int), IdsError>(
                (count, blocks@, p as int, end as int),
            ),
            blocked_header(bytes@, 0) matches Ok((_, _, hp)) && hp == p as int,
            payload_total(blocks@, blocks@.len() as int) == Ok::<int, IdsError>(end - p),
            p <= end <= bytes@.len(),
            limited_blocks(bytes@, p as int, blocks@, limit as int, k as int) == Ok::<
                (Seq<FileId>, bool, int),
                IdsError,
            >((ids@, false, off as int)),
            payload_total(blocks@, k as int) == Ok::<int, IdsError>(off as int),
        decreases blocks@.len() - k,
    {
        match check_control() {
            Err(g) => return Err(g),
            Ok(()) => {},
        }
        proof {
            lemma_payload_total_prefix(blocks@, k as int, blocks@.len() as int);
        }
        let b = blocks[k];
        let len = b.len as usize;
        proof {
            assert(b.len <= usize::MAX);
            assert(len as int == b.len as int);
        }
        match check_control() {
            Err(g) => return Err(g),
            Ok(()) => {},
        }
        let slice = vstd::slice::slice_subrange(bytes, p + off, p + off + len);
        match read_block(slice, b) {
            Ok(mut more) => {
                ids.append(&mut more);
            },
            Err(e) => {
                proof {
                    lemma_limited_blocks_err(bytes@, p as int, blocks@, limit as int, k as int + 1, blocks@.len() as int);
                }
                return Err(id_error(path, e));
            },
        }
        off = off + len;
        k = k + 1;
        if ids.len() >= limit {
            ids.truncate(limit);
            proof {
                lemma_limited_blocks_stopped(bytes@, p as int, blocks@, limit as int, k as int, blocks@.len() as int);
            }
            return Ok(ids);
        }
    }
    Ok(ids)
}

/// The first `limit` blocked ids at the front of `bytes`, whether more were
/// there, and where the encoding ends. Blocks are decoded only until the
/// limit is reached.
pub open spec fn blocked_limited(bytes: Seq<u8>, limit: int) -> Result<(Seq<FileId>, bool, int), IdsError> {
    match blocked_layout(bytes) {
        Err(e) => Err(e),
        Ok((count, blocks, p, end)) => if limit == 0 {
            Ok((Seq::empty(), count > 0, end))
        } else {
            match limited_blocks(bytes, p, blocks, limit, blocks.len() as int) {
                Err(e) => Err(e),
                Ok((ids, stopped, _)) => Ok((ids, stopped && count > limit, end)),
            }
        },
    }
}

proof fn lemma_limited_blocks_err(bytes: Seq<u8>, start: int, blocks: Seq<IdBlockInfo>, limit: int, k: int, n: int)
    requires
        0 <= k <= n,
        limited_blocks(bytes, start, blocks, limit, k) is Err,
    ensures
        limited_blocks(bytes, start, blocks, limit, n) == limited_blocks(bytes, start, blocks, limit, k),
    decreases n - k,
{
    if k < n {
        lemma_limited_blocks_err(bytes, start, blocks, limit, k + 1, n);
    }
}

proof fn lemma_limited_blocks_stopped(bytes: Seq<u8>, start: int, blocks: Seq<IdBlockInfo>, limit: int, k: int, n: int)
    requires
        0 <= k <= n,
        limited_blocks(bytes, start, blocks, limit, k) matches Ok((_, true, _)),
    ensures
        limited_blocks(bytes, start, blocks, limit, n) == limited_blocks(bytes, start, blocks, limit, k),
    decreases n - k,
{
    if k < n {
        lemma_limited_blocks_stopped(bytes, start, blocks, limit, k + 1, n);
    }
}

proof fn lemma_limited_offset(bytes: Seq<u8>, start: int, blocks: Seq<IdBlockInfo>, limit: int, k: int)
    requires
        0 <= k <= blocks.len(),
        payload_total(blocks, k) is Ok,
    ensures
        limited_blocks(bytes, start, blocks, limit, k) matches Ok((_, false, off)) ==> payload_total(blocks, k)
            == Ok::<int, IdsError>(off),
    decreases k,
{
    if k > 0 {
        lemma_limited_offset(bytes, start, blocks, limit, k - 1);
        if payload_total(blocks, k - 1) is Err {
            lemma_payload_total_err(blocks, k - 1, k);
        }
    }
}

/// Reads the header and directory of the blocked ids at the front of
/// `bytes`, checking that their blocks lie within them.
fn read_layout(bytes: &[u8]) -> (r: Result<(u64, Vec<IdBlockInfo>, usize, usize), IdsError>)
    ensures
        match blocked_layout(bytes@) {
            Ok((count, blocks, p, end)) => r matches Ok((c, v, q, e)) && c == count && v@ == blocks && q as int == p
                && e as int == end,
            Err(e) => r == Err::<(u64, Vec<IdBlockInfo>, usize, usize), IdsError>(e),
        },
{
    let (count, blocks, p) = match read_header(bytes, 0) {
        Ok(x) => x,
        Err(e) => return Err(e),
    };
    let total = match payload_len(&blocks, blocks.len()) {
        Ok(t) => t,
        Err(e) => return Err(e),
    };
    if total > usize::MAX - p {
        return Err(IdsError::RangeOverflow);
    }
    if p + total > bytes.len() {
        return Err(IdsError::OutOfBounds);
    }
    Ok((count, blocks, p, p + total))
}

/// The first `limit` blocked ids at the front of `bytes`, whether more were
/// there, and where the encoding ends.
pub fn read_blocked_file_ids_limited(bytes: &[u8], limit: usize) -> (r: Result<(Vec<FileId>, bool, usize), IdsError>)
    ensures
        match blocked_limited(bytes@, limit as int) {
            Ok((ids, truncated, end)) => r matches Ok((v, t, e)) && v@ == ids && t == truncated && e as int == end,
            Err(e) => r == Err::<(Vec<FileId>, bool, usize), IdsError>(e),
        },
{
    let (count, blocks, p, end) = match read_layout(bytes) {
        Ok(x) => x,
        Err(e) => return Err(e),
    };
    if limit == 0 {
        return Ok((Vec::new(), count > 0, end));
    }
    proof {
        lemma_payload_total_nonneg(blocks@, blocks@.len() as int);
    }
    let blen = bytes.len();
    let mut ids: Vec<FileId> = Vec::new();
    let mut off: usize = 0;
    let mut k: usize = 0;
    while k < blocks.len()
        invariant
            k <= blocks@.len(),
            blen == bytes@.len(),
            limit > 0,
            blocked_layout(bytes@) == Ok::<(u64, Seq<IdBlockInfo>, int, int), IdsError>(
                (count, blocks@, p as int, end as int),
            ),
            blocked_header(bytes@, 0) matches Ok((_, _, hp)) && hp == p as int,
            payload_total(blocks@, blocks@.len() as int) == Ok::<int, IdsError>(end - p),
            p <= end <= bytes@.len(),
            limited_blocks(bytes@, p as int, blocks@, limit as int, k as int) == Ok::<
                (Seq<FileId>, bool, int),
                IdsError,
            >((ids@, false, off as int)),
            payload_total(blocks@, k as int) == Ok::<int, IdsError>(off as int),
        decreases blocks@.len() - k,
    {
        proof {
            lemma_payload_total_prefix(blocks@, k as int, blocks@.len() as int);
        }
        let b = blocks[k];
        let len = b.len as usize;
        proof {
            assert(b.len <= usize::MAX);
            assert(len as int == b.len as int);
        }
        let slice = vstd::slice::slice_subrange(bytes, p + off, p + off + len);
        match read_block(slice, b) {
            Ok(mut more) => {
                ids.append(&mut more);
            },
            Err(e) => {
                proof {
                    lemma_limited_blocks_err(bytes@, p as int, blocks@, limit as int, k as int + 1, blocks@.len() as int);
                }
                return Err(e);
            },
        }
        off = off + len;
        k = k + 1;
        if ids.len() >= limit {
            ids.truncate(limit);
            proof {
                lemma_limited_blocks_stopped(bytes@, p as int, blocks@, limit as int, k as int, blocks@.len() as int);
            }
            return Ok((ids, count as u128 > limit as u128, end));
        }
    }
    Ok((ids, false, end))
}


/// The ids of one decoded block taken in turn after `acc`: those of other
/// volumes before `volume` are passed over, one of a later volume ends the
/// reading (`Some(false)`), and more than `limit` ids end it cut to `limit`
/// (`Some(true)`).
pub open spec fn volume_scan(acc: Seq<FileId>, ids: Seq<FileId>, volume: u64, limit: int, j: int) -> (
    Seq<FileId>,
    Option<bool>,
)
    decreases j,
{
    if j <= 0 {
        (acc, None)
    } else {
        let (a, r) = volume_scan(acc, ids, volume, limit, j - 1);
        if r is Some {
            (a, r)
        } else {
            let id = ids[j - 1];
            if id.volume.0 < volume {
                (a, None)
            } else if id.volume.0 > volume {
                (a, Some(false))
            } else if a.len() + 1 > limit {
                (a.push(id).take(limit), Some(true))
            } else {
                (a.push(id), None)
            }
        }
    }
}

/// The blocks read in turn for the ids of `volume`: a block whose first id
/// is of a later volume ends the reading; a block followed by one whose
/// first id is of an earlier volume is passed over undecoded; the others
/// are decoded and scanned.
pub open spec fn volume_blocks(
    bytes: Seq<u8>,
    start: int,
    blocks: Seq<IdBlockInfo>,
    volume: u64,
    limit: int,
    k: int,
) -> Result<(Seq<FileId>, Option<bool>, int), IdsError>
    decreases k,
{
    if k <= 0 {
        Ok((Seq::empty(), None, 0))
    } else {
        match volume_blocks(bytes, start, blocks, volume, limit, k - 1) {
            Err(e) => Err(e),
            Ok((ids, Some(t), off)) => Ok((ids, Some(t), off)),
            Ok((ids, None, off)) => {
                let b = blocks[k - 1];
                if b.first.volume.0 > volume {
                    Ok((ids, Some(false), off))
                } else if k < blocks.len() && blocks[k].first.volume.0 < volume {
                    Ok((ids, None, off + b.len))
                } else {
                    match block_decode(bytes.subrange(start + off, start + off + b.len), b) {
                        Err(e) => Err(e),
                        Ok(bids) => {
                            let (a, r) = volume_scan(ids, bids, volume, limit, bids.len() as int);
                            Ok((a, r, off + b.len))
                        },
                    }
                }
            },
        }
    }
}

/// Up to `limit` of the blocked ids of `volume` at the front of `bytes`,
/// and whether more of them were there.
pub open spec fn blocked_for_volume(bytes: Seq<u8>, volume: u64, limit: int) -> Result<(Seq<FileId>, bool), IdsError> {
    match blocked_layout(bytes) {
        Err(e) => Err(e),
        Ok((count, blocks, p, end)) => if limit == 0 {
            Ok((Seq::empty(), false))
        } else {
            match volume_blocks(bytes, p, blocks, volume, limit, blocks.len() as int) {
                Err(e) => Err(e),
                Ok((ids, r, _)) => Ok((
                    ids,
                    match r {
                        Some(t) => t,
                        None => false,
                    },
                )),
            }
        },
    }
}

proof fn lemma_volume_blocks_done(
    bytes: Seq<u8>,
    start: int,
    blocks: Seq<IdBlockInfo>,
    volume: u64,
    limit: int,
    k: int,
    n: int,
)
    requires
        0 <= k <= n,
        volume_blocks(bytes, start, blocks, volume, limit, k) is Err || volume_blocks(
            bytes,
            start,
            blocks,
            volume,
            limit,
            k,
        ) matches Ok((_, Some(_), _)),
    ensures
        volume_blocks(bytes, start, blocks, volume, limit, n) == volume_blocks(bytes, start, blocks, volume, limit, k),
    decreases n - k,
{
    if k < n {
        lemma_volume_blocks_done(bytes, start, blocks, volume, limit, k + 1, n);
    }
}

proof fn lemma_volume_scan_done(acc: Seq<FileId>, ids: Seq<FileId>, volume: u64, limit: int, j: int, n: int)
    requires
        0 <= j <= n,
        volume_scan(acc, ids, volume, limit, j).1 is Some,
    ensures
        volume_scan(acc, ids, volume, limit, n) == volume_scan(acc, ids, volume, limit, j),
    decreases n - j,
{
    if j < n {
        lemma_volume_scan_done(acc, ids, volume, limit, j + 1, n);
    }
}

/// Scans the ids of one block for `volume`, appending to `acc`.
fn scan_block(acc: &mut Vec<FileId>, ids: &Vec<FileId>, volume: u64, limit: usize) -> (r: Option<bool>)
    requires
        old(acc)@.len() <= limit,
    ensures
        (final(acc)@, r) == volume_scan(old(acc)@, ids@, volume, limit as int, ids@.len() as int),
        final(acc)@.len() <= limit,
{
    let ghost start = acc@;
    let mut j: usize = 0;
    while j < ids.len()
        invariant
            j <= ids@.len(),
            start == old(acc)@,
            acc@.len() <= limit,
            volume_scan(start, ids@, volume, limit as int, j as int) == (acc@, None::<bool>),
        decreases ids@.len() - j,
    {
        let id = ids[j];
        if id.volume.0 > volume {
            proof {
                assert(volume_scan(start, ids@, volume, limit as int, j as int + 1) == (acc@, Some(false)));
                lemma_volume_scan_done(start, ids@, volume, limit as int, j as int + 1, ids@.len() as int);
            }
            return Some(false);
        }
        if id.volume.0 == volume {
            let ghost before = acc@;
            acc.push(id);
            if acc.len() > limit {
                acc.truncate(limit);
                proof {
                    assert(volume_scan(start, ids@, volume, limit as int, j as int + 1) == (before.push(id).take(limit as int), Some(true)));
                    assert(acc@ =~= before.push(id).take(limit as int));
                    lemma_volume_scan_done(start, ids@, volume, limit as int, j as int + 1, ids@.len() as int);
                }
                return Some(true);
            }
        }
        j = j + 1;
    }
    None
}

/// Whether `r` is what a reading that asks `control` whether to go on
/// gives, where the reading itself gives `decoded`: success only as decoded
/// and after the control let it go on; failure where the control said so,
/// or as decoded, after the control let it go on.
pub open spec fn checked_outcome<T, F: Fn() -> Result<(), GfmError>>(
    control: F,
    r: Result<T, GfmError>,
    ok: spec_fn(T) -> bool,
    failed: spec_fn(GfmError) -> bool,
) -> bool {
    match r {
        Ok(x) => ok(x) && control.ensures((), Ok::<(), GfmError>(())),
        Err(g) => control.ensures((), Err::<(), GfmError>(g)) || (failed(g) && control.ensures(
            (),
            Ok::<(), GfmError>(()),
        )),
    }
}

/// `read_blocked_file_ids_for_volume_limited` for the store at `path`,
/// asking `check_control` whether to go on before reading, after the
/// header, at each block and before decoding a block: the result is the
/// decoding's, got only after the control let it go on, or an error the
/// control returned, which comes before any later decoding error.
pub fn read_blocked_file_ids_for_volume_limited_checked(
    bytes: &[u8],
    volume: u64,
    limit: usize,
    path: &str,
    check_control: impl Fn() -> Result<(), GfmError>,
) -> (r: Result<(Vec<FileId>, bool), GfmError>)
    requires
        check_control.requires(()),
    ensures
        checked_outcome(
            check_control,
            r,
            |x: (Vec<FileId>, bool)| blocked_for_volume(bytes@, volume, limit as int) == Ok::<(Seq<FileId>, bool), IdsError>((x.0@, x.1)),
            |g: GfmError| blocked_for_volume(bytes@, volume, limit as int) matches Err(e) && is_id_error(g, path@, e),
        ),
{
    let c0 = check_control();
    match c0 {
        Err(g) => return Err(g),
        Ok(()) => {},
    }
    proof {
        assert(c0->Ok_0 == ());
    }
    let (_count, blocks, p, end) = match read_layout(bytes) {
        Ok(x) => x,
        Err(e) => {
            proof {
                assert(blocked_for_volume(bytes@, volume, limit as int) == Err::<(Seq<FileId>, bool), IdsError>(e));
            }
            return Err(id_error(path, e));
        },
    };
    match check_control() {
        Err(g) => return Err(g),
        Ok(()) => {},
    }
    match check_control() {
        Err(g) => return Err(g),
        Ok(()) => {},
    }
    if limit == 0 {
        proof {
            assert(blocked_for_volume(bytes@, volume, limit as int) == Ok::<(Seq<FileId>, bool), IdsError>(
                (Seq::empty(), false),
            ));
        }
        let none: Vec<FileId> = Vec::new();
        proof {
            assert(none@ =~= Seq::<FileId>::empty());
        }
        return Ok((none, false));
    }
    proof {
        lemma_payload_total_nonneg(blocks@, blocks@.len() as int);
    }
    let blen = bytes.len();
    let mut ids: Vec<FileId> = Vec::new();
    let mut off: usize = 0;
    let mut k: usize = 0;
    while k < blocks.len()
        invariant
            check_control.requires(()),
            check_control.ensures((), Ok::<(), GfmError>(())),
            k <= blocks@.len(),
            blen == bytes@.len(),
            limit > 0,
            ids@.len() <= limit,
            blocked_layout(bytes@) matches Ok((_, bs, hp, e)) && bs == blocks@ && hp == p as int && e == end as int,
            payload_total(blocks@, blocks@.len() as int) == Ok::<int, IdsError>(end - p),
            p <= end <= bytes@.len(),
            volume_blocks(bytes@, p as int, blocks@, volume, limit as int, k as int) == Ok::<
                (Seq<FileId>, Option<bool>, int),
                IdsError,
            >((ids@, None, off as int)),
            payload_total(blocks@, k as int) == Ok::<int, IdsError>(off as int),
        decreases blocks@.len() - k,
    {
        match check_control() {
            Err(g) => return Err(g),
            Ok(()) => {},
        }
        proof {
            lemma_payload_total_prefix(blocks@, k as int, blocks@.len() as int);
        }
        let b = blocks[k];
        let len = b.len as usize;
        proof {
            assert(b.len <= usize::MAX);
            assert(len as int == b.len as int);
        }
        if b.first.volume.0 > volume {
            proof {
                lemma_volume_blocks_done(bytes@, p as int, blocks@, volume, limit as int, k as int + 1, blocks@.len() as int);
            }
            return Ok((ids, false));
        }
        if k + 1 < blocks.len() && blocks[k + 1].first.volume.0 < volume {
            off = off + len;
            k = k + 1;
        } else {
            match check_control() {
                Err(g) => return Err(g),
                Ok(()) => {},
            }
            let slice = vstd::slice::slice_subrange(bytes, p + off, p + off + len);
            let bids = match read_block(slice, b) {
                Ok(v) => v,
                Err(e) => {
                    proof {
                        lemma_volume_blocks_done(bytes@, p as int, blocks@, volume, limit as int, k as int + 1, blocks@.len() as int);
                    }
                    return Err(id_error(path, e));
                },
            };
            let r = scan_block(&mut ids, &bids, volume, limit);
            off = off + len;
            k = k + 1;
            match r {
                Some(t) => {
                    proof {
                        lemma_volume_blocks_done(bytes@, p as int, blocks@, volume, limit as int, k as int, blocks@.len() as int);
                    }
                    return Ok((ids, t));
                },
                None => {},
            }
        }
    }
    Ok((ids, false))
}

/// Up to `limit` of the blocked ids of `volume` at the front of `bytes`,
/// and whether more of them were there; blocks of other volumes are passed
/// over without decoding where the directory shows it.
pub fn read_blocked_file_ids_for_volume_limited(bytes: &[u8], volume: u64, limit: usize) -> (r: Result<
    (Vec<FileId>, bool),
    IdsError,
>)
    ensures
        match blocked_for_volume(bytes@, volume, limit as int) {
            Ok((ids, truncated)) => r matches Ok((v, t)) && v@ == ids && t == truncated,
            Err(e) => r == Err::<(Vec<FileId>, bool), IdsError>(e),
        },
{
    let (_count, blocks, p, end) = match read_layout(bytes) {
        Ok(x) => x,
        Err(e) => return Err(e),
    };
    if limit == 0 {
        return Ok((Vec::new(), false));
    }
    proof {
        lemma_payload_total_nonneg(blocks@, blocks@.len() as int);
    }
    let blen = bytes.len();
    let mut ids: Vec<FileId> = Vec::new();
    let mut off: usize = 0;
    let mut k: usize = 0;
    while k < blocks.len()
        invariant
            k <= blocks@.len(),
            blen == bytes@.len(),
            limit > 0,
            ids@.len() <= limit,
            blocked_layout(bytes@) matches Ok((_, bs, hp, e)) && bs == blocks@ && hp == p as int && e == end as int,
            payload_total(blocks@, blocks@.len() as int) == Ok::<int, IdsError>(end - p),
            p <= end <= bytes@.len(),
            volume_blocks(bytes@, p as int, blocks@, volume, limit as int, k as int) == Ok::<
                (Seq<FileId>, Option<bool>, int),
                IdsError,
            >((ids@, None, off as int)),
            payload_total(blocks@, k as int) == Ok::<int, IdsError>(off as int),
        decreases blocks@.len() - k,
    {
        proof {
            lemma_payload_total_prefix(blocks@, k as int, blocks@.len() as int);
        }
        let b = blocks[k];
        let len = b.len as usize;
        proof {
            assert(b.len <= usize::MAX);
            assert(len as int == b.len as int);
        }
        if b.first.volume.0 > volume {
            proof {
                lemma_volume_blocks_done(bytes@, p as int, blocks@, volume, limit as int, k as int + 1, blocks@.len() as int);
            }
            return Ok((ids, false));
        }
        if k + 1 < blocks.len() && blocks[k + 1].first.volume.0 < volume {
            off = off + len;
            k = k + 1;
        } else {
            let slice = vstd::slice::slice_subrange(bytes, p + off, p + off + len);
            let bids = match read_block(slice, b) {
                Ok(v) => v,
                Err(e) => {
                    proof {
                        lemma_volume_blocks_done(bytes@, p as int, blocks@, volume, limit as int, k as int + 1, blocks@.len() as int);
                    }
                    return Err(e);
                },
            };
            let r = scan_block(&mut ids, &bids, volume, limit);
            off = off + len;
            k = k + 1;
            match r {
                Some(t) => {
                    proof {
                        lemma_volume_blocks_done(bytes@, p as int, blocks@, volume, limit as int, k as int, blocks@.len() as int);
                    }
                    return Ok((ids, t));
                },
                None => {},
            }
        }
    }
    Ok((ids, false))
}

} // verus!
