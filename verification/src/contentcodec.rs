use vstd::prelude::*;
use vstd::utf8::{decode_utf8, encode_utf8, encode_utf8_decode_utf8, encode_utf8_valid_utf8, valid_utf8};

use crate::error::GfmError;
use crate::ids::{checked_outcome, 
    blocked_bytes, blocked_decode, blocked_for_volume, blocked_limited, delta_bytes, delta_decode, delta_pair_bytes,
    id_delta, ids_nondecreasing, lemma_blocked_round_trip, lemma_delta_round_trip, lemma_varint_at, sort_ids,
    write_blocked_file_ids, write_delta_range, id_error, is_id_error, read_blocked_file_ids,
    read_blocked_file_ids_for_volume_limited, read_blocked_file_ids_limited, read_delta_ids, read_varint_at,
    varint_at, zero_id, IdsError,
};
use crate::postings::ids_sorted;
use crate::termarchive::{push_bytes, utf8_error_text, utf8_text};
use crate::codec::{varint_bytes, write_varint};
use crate::types::{file_id_less, file_id_lt, ContentPositions, ContentPosting, FileId, VolumeId};

verus! {

/// The layouts a content store has had.
#[derive(Debug, Clone, Copy, PartialEq, Eq, Structural)]
pub enum ContentStoreVersion {
    Legacy,
    IndexedIds,
    IndexedPositions,
    IndexedBlockedPositions,
    IndexedChecksummed,
}

/// Whether postings of the layout carry positions.
pub open spec fn has_positions(v: ContentStoreVersion) -> bool {
    v == ContentStoreVersion::IndexedPositions || v == ContentStoreVersion::IndexedBlockedPositions || v
        == ContentStoreVersion::IndexedChecksummed
}

/// Whether postings of the layout keep their ids in the blocked encoding.
pub open spec fn has_blocked_ids(v: ContentStoreVersion) -> bool {
    v == ContentStoreVersion::IndexedBlockedPositions || v == ContentStoreVersion::IndexedChecksummed
}

impl ContentStoreVersion {
    /// Whether postings of the layout carry positions.
    pub fn uses_positions(self) -> (b: bool)
        ensures
            b == has_positions(self),
    {
        match self {
            ContentStoreVersion::IndexedPositions => true,
            ContentStoreVersion::IndexedBlockedPositions => true,
            ContentStoreVersion::IndexedChecksummed => true,
            _ => false,
        }
    }

    /// Whether postings of the layout keep their ids in the blocked
    /// encoding.
    pub fn uses_blocked_ids(self) -> (b: bool)
        ensures
            b == has_blocked_ids(self),
    {
        match self {
            ContentStoreVersion::IndexedBlockedPositions => true,
            ContentStoreVersion::IndexedChecksummed => true,
            _ => false,
        }
    }

    /// Whether the layout ends with a checksum footer.
    pub fn has_checksum(self) -> (b: bool)
        ensures
            b == (self == ContentStoreVersion::IndexedChecksummed),
    {
        match self {
            ContentStoreVersion::IndexedChecksummed => true,
            _ => false,
        }
    }
}

/// Why a content posting could not be read.
#[derive(Debug, Clone, PartialEq, Eq)]
pub enum ContentCodecError {
    /// Reading a number or blocked ids failed.
    Ids(IdsError),
    /// The term is not UTF-8; the decoder's message.
    TermUtf8(String),
    /// A delta-encoded id's volume overflows.
    VolumeOverflow,
    /// A delta-encoded id's node overflows.
    NodeOverflow,
    /// A positions entry's volume overflows.
    PositionVolumeOverflow,
    /// A positions entry's node overflows.
    PositionNodeOverflow,
    /// A position does not fit in 32 bits.
    PositionOverflow,
    /// The number of positions entries does not fit in memory.
    PositionCountOverflow,
    /// A segment does not start with a segment magic.
    SegmentHeader,
    /// A segment's number of postings does not fit in memory.
    SegmentCountOverflow,
}

/// The plain value of a content codec error.
pub enum ContentCodecErrorView {
    Ids(IdsError),
    TermUtf8(Seq<char>),
    VolumeOverflow,
    NodeOverflow,
    PositionVolumeOverflow,
    PositionNodeOverflow,
    PositionOverflow,
    PositionCountOverflow,
    SegmentHeader,
    SegmentCountOverflow,
}

/// The plain value of a content codec error.
pub open spec fn codec_error_view(e: ContentCodecError) -> ContentCodecErrorView {
    match e {
        ContentCodecError::Ids(i) => ContentCodecErrorView::Ids(i),
        ContentCodecError::TermUtf8(m) => ContentCodecErrorView::TermUtf8(m@),
        ContentCodecError::VolumeOverflow => ContentCodecErrorView::VolumeOverflow,
        ContentCodecError::NodeOverflow => ContentCodecErrorView::NodeOverflow,
        ContentCodecError::PositionVolumeOverflow => ContentCodecErrorView::PositionVolumeOverflow,
        ContentCodecError::PositionNodeOverflow => ContentCodecErrorView::PositionNodeOverflow,
        ContentCodecError::PositionOverflow => ContentCodecErrorView::PositionOverflow,
        ContentCodecError::PositionCountOverflow => ContentCodecErrorView::PositionCountOverflow,
        ContentCodecError::SegmentHeader => ContentCodecErrorView::SegmentHeader,
        ContentCodecError::SegmentCountOverflow => ContentCodecErrorView::SegmentCountOverflow,
    }
}

/// The plain value of one file's positions.
pub type PositionsView = (FileId, Seq<u32>);

/// The plain value of a content posting: its term, its ids and its
/// positions.
pub type ContentView = (Seq<char>, Seq<FileId>, Seq<PositionsView>);

/// The plain values of positions entries.
pub open spec fn positions_views(v: Seq<ContentPositions>) -> Seq<PositionsView> {
    v.map_values(|e: ContentPositions| (e.id, e.positions@))
}

/// The plain value of a content posting.
pub open spec fn content_view(p: ContentPosting) -> ContentView {
    (p.term@, p.ids@, positions_views(p.positions@))
}

/// The term at `p`: its length, then its UTF-8 bytes; and the position
/// after it.
pub open spec fn term_at(bytes: Seq<u8>, p: int) -> Result<(Seq<char>, int), ContentCodecErrorView> {
    match varint_at(bytes, p) {
        Err(e) => Err(ContentCodecErrorView::Ids(e)),
        Ok((len, p1)) => if p1 + len > bytes.len() {
            Err(ContentCodecErrorView::Ids(IdsError::UnexpectedEof))
        } else {
            let tb = bytes.subrange(p1, p1 + len);
            if !valid_utf8(tb) {
                Err(ContentCodecErrorView::TermUtf8(utf8_error_text(tb)))
            } else {
                Ok((decode_utf8(tb), p1 + len))
            }
        },
    }
}

/// The delta-encoded ids at the front of `bytes` after their count, and
/// where they end.
pub open spec fn plain_ids_at(bytes: Seq<u8>) -> Result<(Seq<FileId>, int), ContentCodecErrorView> {
    match varint_at(bytes, 0) {
        Err(e) => Err(ContentCodecErrorView::Ids(e)),
        Ok((count, p1)) => match delta_decode(bytes.skip(p1), count as int) {
            Err(IdsError::VolumeOverflow) => Err(ContentCodecErrorView::VolumeOverflow),
            Err(IdsError::NodeOverflow) => Err(ContentCodecErrorView::NodeOverflow),
            Err(e) => Err(ContentCodecErrorView::Ids(e)),
            Ok((ids, q)) => Ok((ids, p1 + q)),
        },
    }
}

/// The ids of a posting of the layout `v` at the front of `bytes`, and
/// where they end.
pub open spec fn posting_ids_at(v: ContentStoreVersion, bytes: Seq<u8>) -> Result<(Seq<FileId>, int), ContentCodecErrorView> {
    if has_blocked_ids(v) {
        match blocked_decode(bytes, 0) {
            Err(e) => Err(ContentCodecErrorView::Ids(e)),
            Ok(r) => Ok(r),
        }
    } else {
        plain_ids_at(bytes)
    }
}

/// The id of a positions entry at `p` after `prev`, and the position
/// after it.
pub open spec fn position_id_at(bytes: Seq<u8>, p: int, prev: FileId) -> Result<(FileId, int), ContentCodecErrorView> {
    match varint_at(bytes, p) {
        Err(e) => Err(ContentCodecErrorView::Ids(e)),
        Ok((vd, p1)) => if prev.volume.0 + vd > u64::MAX {
            Err(ContentCodecErrorView::PositionVolumeOverflow)
        } else {
            let vol = (prev.volume.0 + vd) as u64;
            match varint_at(bytes, p1) {
                Err(e) => Err(ContentCodecErrorView::Ids(e)),
                Ok((nd, p2)) => if vol == prev.volume.0 {
                    if prev.node + nd > u64::MAX {
                        Err(ContentCodecErrorView::PositionNodeOverflow)
                    } else {
                        Ok((FileId { volume: VolumeId(vol), node: (prev.node + nd) as u64 }, p2))
                    }
                } else {
                    Ok((FileId { volume: VolumeId(vol), node: nd }, p2))
                },
            }
        },
    }
}

/// The first `k` delta-encoded positions read from `p0` on, and the
/// position after them.
pub open spec fn offsets_read(bytes: Seq<u8>, p0: int, k: int) -> Result<(Seq<u32>, int), ContentCodecErrorView>
    decreases k,
{
    if k <= 0 {
        Ok((Seq::empty(), p0))
    } else {
        match offsets_read(bytes, p0, k - 1) {
            Err(e) => Err(e),
            Ok((s, p)) => match varint_at(bytes, p) {
                Err(e) => Err(ContentCodecErrorView::Ids(e)),
                Ok((d, q)) => {
                    let prev: u32 = if s.len() == 0 { 0 } else { s.last() };
                    if d > u32::MAX || prev + d > u32::MAX {
                        Err(ContentCodecErrorView::PositionOverflow)
                    } else {
                        Ok((s.push((prev + d) as u32), q))
                    }
                },
            },
        }
    }
}

/// The last id of positions entries, or the zero id.
pub open spec fn last_entry_id(es: Seq<PositionsView>) -> FileId {
    if es.len() == 0 {
        zero_id()
    } else {
        es.last().0
    }
}

/// The positions entry at `p` after the id `prev`: its id, the number of
/// its positions and their deltas; and the position after it.
pub open spec fn entry_at(bytes: Seq<u8>, p: int, prev: FileId) -> Result<(PositionsView, int), ContentCodecErrorView> {
    match position_id_at(bytes, p, prev) {
        Err(e) => Err(e),
        Ok((id, p1)) => match varint_at(bytes, p1) {
            Err(e) => Err(ContentCodecErrorView::Ids(e)),
            Ok((m, p2)) => match offsets_read(bytes, p2, m as int) {
                Err(e) => Err(e),
                Ok((offs, p3)) => Ok(((id, offs), p3)),
            },
        },
    }
}

/// The first `k` positions entries read from `p0` on, and the position
/// after them.
pub open spec fn entries_read(bytes: Seq<u8>, p0: int, k: int) -> Result<(Seq<PositionsView>, int), ContentCodecErrorView>
    decreases k,
{
    if k <= 0 {
        Ok((Seq::empty(), p0))
    } else {
        match entries_read(bytes, p0, k - 1) {
            Err(e) => Err(e),
            Ok((es, p)) => match entry_at(bytes, p, last_entry_id(es)) {
                Err(e) => Err(e),
                Ok((x, q)) => Ok((es.push(x), q)),
            },
        }
    }
}

/// The positions at `p`: their number, then each entry; and the position
/// after them.
pub open spec fn positions_at(bytes: Seq<u8>, p: int) -> Result<(Seq<PositionsView>, int), ContentCodecErrorView> {
    match varint_at(bytes, p) {
        Err(e) => Err(ContentCodecErrorView::Ids(e)),
        Ok((n, p1)) => entries_read(bytes, p1, n as int),
    }
}

/// The first `limit` positions entries at `p`, and whether more were
/// there.
pub open spec fn positions_limited_at(bytes: Seq<u8>, p: int, limit: usize) -> Result<
    (Seq<PositionsView>, bool),
    ContentCodecErrorView,
> {
    match varint_at(bytes, p) {
        Err(e) => Err(ContentCodecErrorView::Ids(e)),
        Ok((n, p1)) => if n > usize::MAX {
            Err(ContentCodecErrorView::PositionCountOverflow)
        } else {
            match entries_read(bytes, p1, if n < limit { n as int } else { limit as int }) {
                Err(e) => Err(e),
                Ok((es, _)) => Ok((es, n > limit)),
            }
        },
    }
}

/// How a scan of positions for one volume stands: still reading, after
/// the entries kept, the last id and the position; or done, with the
/// entries kept and whether more were there.
pub enum VolumeScan {
    Going(Seq<PositionsView>, FileId, int),
    Done(Seq<PositionsView>, bool),
}

/// The scan of the first `k` positions entries from `p0` on for those of
/// `volume`: it stops at the first entry of a later volume, or at one more
/// entry of the volume once `limit` are kept; entries of other volumes are
/// read past.
pub open spec fn volume_scan(bytes: Seq<u8>, p0: int, volume: u64, limit: int, k: int) -> Result<
    VolumeScan,
    ContentCodecErrorView,
>
    decreases k,
{
    if k <= 0 {
        Ok(VolumeScan::Going(Seq::empty(), zero_id(), p0))
    } else {
        match volume_scan(bytes, p0, volume, limit, k - 1) {
            Err(e) => Err(e),
            Ok(VolumeScan::Done(es, t)) => Ok(VolumeScan::Done(es, t)),
            Ok(VolumeScan::Going(es, prev, p)) => match position_id_at(bytes, p, prev) {
                Err(e) => Err(e),
                Ok((id, p1)) => match varint_at(bytes, p1) {
                    Err(e) => Err(ContentCodecErrorView::Ids(e)),
                    Ok((m, p2)) => if id.volume.0 > volume {
                        Ok(VolumeScan::Done(es, false))
                    } else if id.volume.0 == volume && es.len() >= limit {
                        Ok(VolumeScan::Done(es, true))
                    } else {
                        match offsets_read(bytes, p2, m as int) {
                            Err(e) => Err(e),
                            Ok((offs, p3)) => Ok(
                                VolumeScan::Going(
                                    if id.volume.0 == volume {
                                        es.push((id, offs))
                                    } else {
                                        es
                                    },
                                    id,
                                    p3,
                                ),
                            ),
                        }
                    },
                },
            },
        }
    }
}

/// The first `limit` positions entries of `volume` at `p`, and whether
/// more were there.
pub open spec fn positions_for_volume_at(bytes: Seq<u8>, p: int, volume: u64, limit: usize) -> Result<
    (Seq<PositionsView>, bool),
    ContentCodecErrorView,
> {
    match varint_at(bytes, p) {
        Err(e) => Err(ContentCodecErrorView::Ids(e)),
        Ok((n, p1)) => match volume_scan(bytes, p1, volume, limit as int, n as int) {
            Err(e) => Err(e),
            Ok(VolumeScan::Done(es, t)) => Ok((es, t)),
            Ok(VolumeScan::Going(es, _, _)) => Ok((es, false)),
        },
    }
}

/// The content posting of the layout `v` at the front of `bytes`: its
/// term, its ids and, where the layout has them, its positions; and where
/// it ends.
pub open spec fn content_posting_at(v: ContentStoreVersion, bytes: Seq<u8>) -> Result<(ContentView, int), ContentCodecErrorView> {
    match term_at(bytes, 0) {
        Err(e) => Err(e),
        Ok((t, s)) => match posting_ids_at(v, bytes.skip(s)) {
            Err(e) => Err(e),
            Ok((ids, c)) => if has_positions(v) {
                match positions_at(bytes, s + c) {
                    Err(e) => Err(e),
                    Ok((ps, q)) => Ok(((t, ids, ps), q)),
                }
            } else {
                Ok(((t, ids, Seq::empty()), s + c))
            },
        },
    }
}

/// The first `limit` of `ids`.
pub open spec fn first_ids(ids: Seq<FileId>, limit: int) -> Seq<FileId> {
    if ids.len() > limit {
        ids.take(limit)
    } else {
        ids
    }
}

/// The content posting of the layout `v` at the front of `bytes` with at
/// most `limit` ids and `limit` positions entries, and whether either was
/// cut.
pub open spec fn content_posting_limited(v: ContentStoreVersion, bytes: Seq<u8>, limit: usize) -> Result<
    (ContentView, bool),
    ContentCodecErrorView,
> {
    match term_at(bytes, 0) {
        Err(e) => Err(e),
        Ok((t, s)) => {
            let ids_part: Result<(Seq<FileId>, bool, int), ContentCodecErrorView> = if has_blocked_ids(v) {
                match blocked_limited(bytes.skip(s), limit as int) {
                    Err(e) => Err(ContentCodecErrorView::Ids(e)),
                    Ok((ids, cut, end)) => Ok((ids, cut, end)),
                }
            } else {
                match plain_ids_at(bytes.skip(s)) {
                    Err(e) => Err(e),
                    Ok((all, c)) => Ok((first_ids(all, limit as int), all.len() > limit, c)),
                }
            };
            match ids_part {
                Err(e) => Err(e),
                Ok((ids, cut, c)) => if has_positions(v) {
                    match positions_limited_at(bytes, s + c, limit) {
                        Err(e) => Err(e),
                        Ok((ps, pcut)) => Ok(((t, ids, ps), cut || pcut)),
                    }
                } else {
                    Ok(((t, ids, Seq::empty()), cut))
                },
            }
        },
    }
}

/// The ids of `volume` among `ids`, in order.
pub open spec fn ids_in_volume(ids: Seq<FileId>, volume: u64) -> Seq<FileId>
    decreases ids.len(),
{
    if ids.len() == 0 {
        ids
    } else {
        let r = ids_in_volume(ids.drop_last(), volume);
        if ids.last().volume.0 == volume {
            r.push(ids.last())
        } else {
            r
        }
    }
}

/// The content posting of the layout `v` at the front of `bytes` with at
/// most `limit` ids and positions entries of `volume`, and whether either
/// was cut.
pub open spec fn content_posting_for_volume(
    v: ContentStoreVersion,
    bytes: Seq<u8>,
    volume: u64,
    limit: usize,
) -> Result<(ContentView, bool), ContentCodecErrorView> {
    match term_at(bytes, 0) {
        Err(e) => Err(e),
        Ok((t, s)) => {
            let ids_part: Result<(Seq<FileId>, bool, int), ContentCodecErrorView> = if has_blocked_ids(v) {
                match blocked_limited(bytes.skip(s), 0) {
                    Err(e) => Err(ContentCodecErrorView::Ids(e)),
                    Ok((_, _, end)) => match blocked_for_volume(bytes.skip(s), volume, limit as int) {
                        Err(e) => Err(ContentCodecErrorView::Ids(e)),
                        Ok((ids, cut)) => Ok((ids, cut, end)),
                    },
                }
            } else {
                match plain_ids_at(bytes.skip(s)) {
                    Err(e) => Err(e),
                    Ok((all, c)) => {
                        let mine = ids_in_volume(all, volume);
                        Ok((first_ids(mine, limit as int), mine.len() > limit, c))
                    },
                }
            };
            match ids_part {
                Err(e) => Err(e),
                Ok((ids, cut, c)) => if has_positions(v) {
                    match positions_for_volume_at(bytes, s + c, volume, limit) {
                        Err(e) => Err(e),
                        Ok((ps, pcut)) => Ok(((t, ids, ps), cut || pcut)),
                    }
                } else {
                    Ok(((t, ids, Seq::empty()), cut))
                },
            }
        },
    }
}

/// Reads the term at the front of `bytes`.
fn read_term(bytes: &[u8]) -> (r: Result<(String, usize), ContentCodecError>)
    ensures
        match term_at(bytes@, 0) {
            Ok((t, q)) => r matches Ok((v, e)) && v@ == t && e as int == q && q <= bytes@.len(),
            Err(e) => r matches Err(g) && codec_error_view(g) == e,
        },
{
    let (len, p1) = match read_varint_at(bytes, 0) {
        Ok(x) => x,
        Err(e) => return Err(ContentCodecError::Ids(e)),
    };
    if len > (bytes.len() - p1) as u64 {
        return Err(ContentCodecError::Ids(IdsError::UnexpectedEof));
    }
    let l = len as usize;
    let mut tb: Vec<u8> = Vec::new();
    push_bytes(&mut tb, vstd::slice::slice_subrange(bytes, p1, p1 + l));
    match utf8_text(tb) {
        Ok(t) => Ok((t, p1 + l)),
        Err(m) => Err(ContentCodecError::TermUtf8(m)),
    }
}

/// Reads the delta-encoded ids at the front of `bytes` after their count.
pub(crate) fn read_plain_ids(bytes: &[u8]) -> (r: Result<(Vec<FileId>, usize), ContentCodecError>)
    ensures
        match plain_ids_at(bytes@) {
            Ok((ids, q)) => r matches Ok((v, e)) && v@ == ids && e as int == q && q <= bytes@.len(),
            Err(e) => r matches Err(g) && codec_error_view(g) == e,
        },
{
    let (count, p1) = match read_varint_at(bytes, 0) {
        Ok(x) => x,
        Err(e) => return Err(ContentCodecError::Ids(e)),
    };
    let rest = vstd::slice::slice_subrange(bytes, p1, bytes.len());
    proof {
        assert(rest@ =~= bytes@.skip(p1 as int));
    }
    match read_delta_ids(rest, count) {
        Ok((ids, q)) => Ok((ids, p1 + q)),
        Err(IdsError::VolumeOverflow) => Err(ContentCodecError::VolumeOverflow),
        Err(IdsError::NodeOverflow) => Err(ContentCodecError::NodeOverflow),
        Err(e) => Err(ContentCodecError::Ids(e)),
    }
}

/// Reads the ids of a posting of the layout `v` at the front of `bytes`.
fn read_posting_ids(v: ContentStoreVersion, bytes: &[u8]) -> (r: Result<(Vec<FileId>, usize), ContentCodecError>)
    ensures
        match posting_ids_at(v, bytes@) {
            Ok((ids, q)) => r matches Ok((w, e)) && w@ == ids && e as int == q && q <= bytes@.len(),
            Err(e) => r matches Err(g) && codec_error_view(g) == e,
        },
{
    if v.uses_blocked_ids() {
        match read_blocked_file_ids(bytes, 0) {
            Ok(x) => Ok(x),
            Err(e) => Err(ContentCodecError::Ids(e)),
        }
    } else {
        read_plain_ids(bytes)
    }
}

/// Reads the id of a positions entry at `p` after `prev`.
fn read_position_id(bytes: &[u8], p: usize, prev: FileId) -> (r: Result<(FileId, usize), ContentCodecError>)
    requires
        p <= bytes@.len(),
    ensures
        match position_id_at(bytes@, p as int, prev) {
            Ok((id, q)) => r matches Ok((v, e)) && v == id && e as int == q && q <= bytes@.len(),
            Err(e) => r matches Err(g) && codec_error_view(g) == e,
        },
{
    let (vd, p1) = match read_varint_at(bytes, p) {
        Ok(x) => x,
        Err(e) => return Err(ContentCodecError::Ids(e)),
    };
    if vd > u64::MAX - prev.volume.0 {
        return Err(ContentCodecError::PositionVolumeOverflow);
    }
    let vol = prev.volume.0 + vd;
    let (nd, p2) = match read_varint_at(bytes, p1) {
        Ok(x) => x,
        Err(e) => return Err(ContentCodecError::Ids(e)),
    };
    if vol == prev.volume.0 {
        if nd > u64::MAX - prev.node {
            return Err(ContentCodecError::PositionNodeOverflow);
        }
        Ok((FileId { volume: VolumeId(vol), node: prev.node + nd }, p2))
    } else {
        Ok((FileId { volume: VolumeId(vol), node: nd }, p2))
    }
}

proof fn lemma_offsets_read_err(bytes: Seq<u8>, p0: int, k: int, n: int)
    requires
        0 <= k <= n,
        offsets_read(bytes, p0, k) is Err,
    ensures
        offsets_read(bytes, p0, n) == offsets_read(bytes, p0, k),
    decreases n - k,
{
    if k < n {
        lemma_offsets_read_err(bytes, p0, k + 1, n);
    }
}

/// Reads `m` delta-encoded positions from `p0` on; where `keep` is false
/// they are checked but not kept.
fn read_offsets(bytes: &[u8], p0: usize, m: u64, keep: bool) -> (r: Result<(Vec<u32>, usize), ContentCodecError>)
    requires
        p0 <= bytes@.len(),
    ensures
        match offsets_read(bytes@, p0 as int, m as int) {
            Ok((offs, q)) => r matches Ok((v, e)) && (keep ==> v@ == offs) && e as int == q && q <= bytes@.len(),
            Err(e) => r matches Err(g) && codec_error_view(g) == e,
        },
{
    let mut out: Vec<u32> = Vec::new();
    let mut prev: u32 = 0;
    let mut p: usize = p0;
    let mut k: u64 = 0;
    let ghost mut offs: Seq<u32> = Seq::empty();
    while k < m
        invariant
            k <= m,
            p <= bytes@.len(),
            offsets_read(bytes@, p0 as int, k as int) == Ok::<(Seq<u32>, int), ContentCodecErrorView>((offs, p as int)),
            keep ==> out@ == offs,
            prev == (if offs.len() == 0 { 0u32 } else { offs.last() }),
        decreases m - k,
    {
        let (d, q) = match read_varint_at(bytes, p) {
            Ok(x) => x,
            Err(e) => {
                proof {
                    lemma_offsets_read_err(bytes@, p0 as int, k as int + 1, m as int);
                }
                return Err(ContentCodecError::Ids(e));
            },
        };
        if d > u32::MAX as u64 || d > (u32::MAX - prev) as u64 {
            proof {
                lemma_offsets_read_err(bytes@, p0 as int, k as int + 1, m as int);
            }
            return Err(ContentCodecError::PositionOverflow);
        }
        let x = prev + d as u32;
        if keep {
            out.push(x);
        }
        proof {
            offs = offs.push(x);
        }
        prev = x;
        p = q;
        k = k + 1;
    }
    Ok((out, p))
}

/// Reads the positions entry at `p` after `prev`.
fn read_entry(bytes: &[u8], p: usize, prev: FileId) -> (r: Result<(ContentPositions, usize), ContentCodecError>)
    requires
        p <= bytes@.len(),
    ensures
        match entry_at(bytes@, p as int, prev) {
            Ok((x, q)) => r matches Ok((v, e)) && (v.id, v.positions@) == x && e as int == q && q <= bytes@.len(),
            Err(e) => r matches Err(g) && codec_error_view(g) == e,
        },
{
    let (id, p1) = match read_position_id(bytes, p, prev) {
        Ok(x) => x,
        Err(e) => return Err(e),
    };
    let (m, p2) = match read_varint_at(bytes, p1) {
        Ok(x) => x,
        Err(e) => return Err(ContentCodecError::Ids(e)),
    };
    match read_offsets(bytes, p2, m, true) {
        Ok((positions, p3)) => Ok((ContentPositions { id, positions }, p3)),
        Err(e) => Err(e),
    }
}

proof fn lemma_entries_read_err(bytes: Seq<u8>, p0: int, k: int, n: int)
    requires
        0 <= k <= n,
        entries_read(bytes, p0, k) is Err,
    ensures
        entries_read(bytes, p0, n) == entries_read(bytes, p0, k),
    decreases n - k,
{
    if k < n {
        lemma_entries_read_err(bytes, p0, k + 1, n);
    }
}

/// Reads `k` positions entries from `p0` on.
fn read_entries(bytes: &[u8], p0: usize, k: u64) -> (r: Result<(Vec<ContentPositions>, usize), ContentCodecError>)
    requires
        p0 <= bytes@.len(),
    ensures
        match entries_read(bytes@, p0 as int, k as int) {
            Ok((es, q)) => r matches Ok((v, e)) && positions_views(v@) == es && e as int == q && q <= bytes@.len(),
            Err(e) => r matches Err(g) && codec_error_view(g) == e,
        },
{
    let mut out: Vec<ContentPositions> = Vec::new();
    let mut prev = FileId { volume: VolumeId(0), node: 0 };
    let mut p: usize = p0;
    let mut c: u64 = 0;
    proof {
        assert(positions_views(out@) =~= Seq::<PositionsView>::empty());
    }
    while c < k
        invariant
            c <= k,
            p <= bytes@.len(),
            entries_read(bytes@, p0 as int, c as int) == Ok::<(Seq<PositionsView>, int), ContentCodecErrorView>(
                (positions_views(out@), p as int),
            ),
            prev == last_entry_id(positions_views(out@)),
        decreases k - c,
    {
        match read_entry(bytes, p, prev) {
            Ok((x, q)) => {
                let ghost before = positions_views(out@);
                prev = x.id;
                out.push(x);
                proof {
                    assert(positions_views(out@) =~= before.push((x.id, x.positions@)));
                }
                p = q;
            },
            Err(e) => {
                proof {
                    lemma_entries_read_err(bytes@, p0 as int, c as int + 1, k as int);
                }
                return Err(e);
            },
        }
        c = c + 1;
    }
    Ok((out, p))
}

/// Reads the positions at `p`.
fn read_positions(bytes: &[u8], p: usize) -> (r: Result<(Vec<ContentPositions>, usize), ContentCodecError>)
    requires
        p <= bytes@.len(),
    ensures
        match positions_at(bytes@, p as int) {
            Ok((es, q)) => r matches Ok((v, e)) && positions_views(v@) == es && e as int == q && q <= bytes@.len(),
            Err(e) => r matches Err(g) && codec_error_view(g) == e,
        },
{
    let (n, p1) = match read_varint_at(bytes, p) {
        Ok(x) => x,
        Err(e) => return Err(ContentCodecError::Ids(e)),
    };
    read_entries(bytes, p1, n)
}

/// Reads the first `limit` positions entries at `p`.
fn read_positions_limited(bytes: &[u8], p: usize, limit: usize) -> (r: Result<(Vec<ContentPositions>, bool), ContentCodecError>)
    requires
        p <= bytes@.len(),
    ensures
        match positions_limited_at(bytes@, p as int, limit) {
            Ok((es, more)) => r matches Ok((v, m)) && positions_views(v@) == es && m == more,
            Err(e) => r matches Err(g) && codec_error_view(g) == e,
        },
{
    let (n, p1) = match read_varint_at(bytes, p) {
        Ok(x) => x,
        Err(e) => return Err(ContentCodecError::Ids(e)),
    };
    if n > usize::MAX as u64 {
        return Err(ContentCodecError::PositionCountOverflow);
    }
    let wanted: u64 = if n < limit as u64 { n } else { limit as u64 };
    match read_entries(bytes, p1, wanted) {
        Ok((es, _)) => Ok((es, n > limit as u64)),
        Err(e) => Err(e),
    }
}

proof fn lemma_volume_scan_err(bytes: Seq<u8>, p0: int, volume: u64, limit: int, k: int, n: int)
    requires
        0 <= k <= n,
        volume_scan(bytes, p0, volume, limit, k) is Err,
    ensures
        volume_scan(bytes, p0, volume, limit, n) == volume_scan(bytes, p0, volume, limit, k),
    decreases n - k,
{
    if k < n {
        lemma_volume_scan_err(bytes, p0, volume, limit, k + 1, n);
    }
}

proof fn lemma_volume_scan_done(bytes: Seq<u8>, p0: int, volume: u64, limit: int, k: int, n: int)
    requires
        0 <= k <= n,
        volume_scan(bytes, p0, volume, limit, k) matches Ok(VolumeScan::Done(_, _)),
    ensures
        volume_scan(bytes, p0, volume, limit, n) == volume_scan(bytes, p0, volume, limit, k),
    decreases n - k,
{
    if k < n {
        lemma_volume_scan_done(bytes, p0, volume, limit, k + 1, n);
    }
}

/// Reads the first `limit` positions entries of `volume` at `p`.
fn read_positions_for_volume(bytes: &[u8], p: usize, volume: u64, limit: usize) -> (r: Result<
    (Vec<ContentPositions>, bool),
    ContentCodecError,
>)
    requires
        p <= bytes@.len(),
    ensures
        match positions_for_volume_at(bytes@, p as int, volume, limit) {
            Ok((es, more)) => r matches Ok((v, m)) && positions_views(v@) == es && m == more,
            Err(e) => r matches Err(g) && codec_error_view(g) == e,
        },
{
    let (n, p1) = match read_varint_at(bytes, p) {
        Ok(x) => x,
        Err(e) => return Err(ContentCodecError::Ids(e)),
    };
    let mut out: Vec<ContentPositions> = Vec::new();
    let mut prev = FileId { volume: VolumeId(0), node: 0 };
    let mut q: usize = p1;
    let mut c: u64 = 0;
    proof {
        assert(positions_views(out@) =~= Seq::<PositionsView>::empty());
    }
    while c < n
        invariant
            p <= bytes@.len(),
            varint_at(bytes@, p as int) == Ok::<(u64, int), IdsError>((n, p1 as int)),
            c <= n,
            q <= bytes@.len(),
            volume_scan(bytes@, p1 as int, volume, limit as int, c as int) == Ok::<VolumeScan, ContentCodecErrorView>(
                VolumeScan::Going(positions_views(out@), prev, q as int),
            ),
        decreases n - c,
    {
        let (id, q1) = match read_position_id(bytes, q, prev) {
            Ok(x) => x,
            Err(e) => {
                proof {
                    lemma_volume_scan_err(bytes@, p1 as int, volume, limit as int, c as int + 1, n as int);
                }
                return Err(e);
            },
        };
        let (m, q2) = match read_varint_at(bytes, q1) {
            Ok(x) => x,
            Err(e) => {
                proof {
                    lemma_volume_scan_err(bytes@, p1 as int, volume, limit as int, c as int + 1, n as int);
                }
                return Err(ContentCodecError::Ids(e));
            },
        };
        if id.volume.0 > volume {
            proof {
                lemma_volume_scan_done(bytes@, p1 as int, volume, limit as int, c as int + 1, n as int);
            }
            return Ok((out, false));
        }
        if id.volume.0 == volume && out.len() >= limit {
            proof {
                lemma_volume_scan_done(bytes@, p1 as int, volume, limit as int, c as int + 1, n as int);
            }
            return Ok((out, true));
        }
        let keep = id.volume.0 == volume;
        let (positions, q3) = match read_offsets(bytes, q2, m, keep) {
            Ok(x) => x,
            Err(e) => {
                proof {
                    lemma_volume_scan_err(bytes@, p1 as int, volume, limit as int, c as int + 1, n as int);
                }
                return Err(e);
            },
        };
        if keep {
            let ghost before = positions_views(out@);
            out.push(ContentPositions { id, positions });
            proof {
                assert(positions_views(out@) =~= before.push((id, positions@)));
            }
        }
        prev = id;
        q = q3;
        c = c + 1;
    }
    Ok((out, false))
}

/// Why a content posting is malformed, as its format error says it.
pub open spec fn content_reason(e: ContentCodecErrorView) -> Seq<char> {
    match e {
        ContentCodecErrorView::VolumeOverflow => "volume id overflow"@,
        ContentCodecErrorView::NodeOverflow => "file node id overflow"@,
        ContentCodecErrorView::PositionVolumeOverflow => "position volume id overflow"@,
        ContentCodecErrorView::PositionNodeOverflow => "position file node id overflow"@,
        ContentCodecErrorView::PositionOverflow => "content position overflow"@,
        ContentCodecErrorView::PositionCountOverflow => "content position count overflow"@,
        ContentCodecErrorView::SegmentCountOverflow => "content segment posting count overflow"@,
        _ => Seq::empty(),
    }
}

/// Whether `g` is the store error of the content codec error `e` at
/// `path`: that of the ids for a failed number or blocked ids, a format
/// error with the decoder's message for a term that is not UTF-8, else a
/// format error that names the content store, the path and the reason.
pub open spec fn is_content_error(g: GfmError, path: Seq<char>, e: ContentCodecErrorView) -> bool {
    match e {
        ContentCodecErrorView::Ids(i) => is_id_error(g, path, i),
        ContentCodecErrorView::TermUtf8(m) => g matches GfmError::Format(t) && t@ == "invalid UTF-8 term in "@ + path
            + ": "@ + m,
        ContentCodecErrorView::SegmentHeader => g matches GfmError::Format(t) && t@ == "unsupported content segment header in "@
            + path,
        _ => g matches GfmError::Format(t) && t@ == "invalid content store "@ + path + ": "@ + content_reason(e),
    }
}

/// The store error of a content codec error at `path`.
pub fn content_error(path: &str, e: ContentCodecError) -> (g: GfmError)
    ensures
        is_content_error(g, path@, codec_error_view(e)),
{
    let ghost ev = codec_error_view(e);
    match e {
        ContentCodecError::Ids(i) => id_error(path, i),
        ContentCodecError::TermUtf8(m) => {
            let mut t = String::from_str("invalid UTF-8 term in ");
            t.append(path);
            t.append(": ");
            t.append(m.as_str());
            GfmError::Format(t)
        },
        ContentCodecError::SegmentHeader => {
            let mut t = String::from_str("unsupported content segment header in ");
            t.append(path);
            GfmError::Format(t)
        },
        other => {
            let mut t = String::from_str("invalid content store ");
            t.append(path);
            t.append(": ");
            match other {
                ContentCodecError::VolumeOverflow => t.append("volume id overflow"),
                ContentCodecError::NodeOverflow => t.append("file node id overflow"),
                ContentCodecError::PositionVolumeOverflow => t.append("position volume id overflow"),
                ContentCodecError::PositionNodeOverflow => t.append("position file node id overflow"),
                ContentCodecError::PositionOverflow => t.append("content position overflow"),
                ContentCodecError::PositionCountOverflow => t.append("content position count overflow"),
                ContentCodecError::SegmentCountOverflow => t.append("content segment posting count overflow"),
                _ => {},
            }
            proof {
                assert(t@ =~= "invalid content store "@ + path@ + ": "@ + content_reason(ev));
            }
            GfmError::Format(t)
        },
    }
}

fn posting_of(term: String, ids: Vec<FileId>, positions: Vec<ContentPositions>) -> (p: ContentPosting)
    ensures
        content_view(p) == (term@, ids@, positions_views(positions@)),
{
    ContentPosting { term, ids, positions }
}

/// Reads the content posting of the layout `version` at the front of
/// `bytes`, and where it ends.
pub(crate) fn read_posting_at_front(bytes: &[u8], version: ContentStoreVersion) -> (r: Result<
    (ContentPosting, usize),
    ContentCodecError,
>)
    ensures
        match content_posting_at(version, bytes@) {
            Ok((x, q)) => r matches Ok((p, e)) && content_view(p) == x && e as int == q && q <= bytes@.len(),
            Err(e) => r matches Err(g) && codec_error_view(g) == e,
        },
{
    let (term, s) = match read_term(bytes) {
        Ok(x) => x,
        Err(e) => return Err(e),
    };
    let rest = vstd::slice::slice_subrange(bytes, s, bytes.len());
    proof {
        assert(rest@ =~= bytes@.skip(s as int));
    }
    let (ids, c) = match read_posting_ids(version, rest) {
        Ok(x) => x,
        Err(e) => return Err(e),
    };
    if version.uses_positions() {
        match read_positions(bytes, s + c) {
            Ok((ps, q)) => Ok((posting_of(term, ids, ps), q)),
            Err(e) => Err(e),
        }
    } else {
        Ok((posting_of(term, ids, Vec::new()), s + c))
    }
}

/// Reads the content posting of the layout `version` at the front of
/// `bytes`, read from `path`.
pub fn read_content_posting(bytes: &[u8], path: &str, version: ContentStoreVersion) -> (r: Result<ContentPosting, GfmError>)
    ensures
        match content_posting_at(version, bytes@) {
            Ok((x, _)) => r matches Ok(p) && content_view(p) == x,
            Err(e) => r matches Err(g) && is_content_error(g, path@, e),
        },
{
    match read_posting_at_front(bytes, version) {
        Ok((p, _)) => Ok(p),
        Err(e) => Err(content_error(path, e)),
    }
}

/// The first `limit` of `ids`.
fn take_ids(ids: Vec<FileId>, limit: usize) -> (r: Vec<FileId>)
    ensures
        r@ == first_ids(ids@, limit as int),
{
    let mut ids = ids;
    ids.truncate(limit);
    ids
}

/// Reads the content posting of the layout `version` at the front of
/// `bytes`, read from `path`, with at most `limit` ids and `limit`
/// positions entries, and whether either was cut.
pub fn read_content_posting_limited_from_slice(
    bytes: &[u8],
    path: &str,
    version: ContentStoreVersion,
    limit: usize,
) -> (r: Result<(ContentPosting, bool), GfmError>)
    ensures
        match content_posting_limited(version, bytes@, limit) {
            Ok((x, more)) => r matches Ok((p, m)) && content_view(p) == x && m == more,
            Err(e) => r matches Err(g) && is_content_error(g, path@, e),
        },
{
    let (term, s) = match read_term(bytes) {
        Ok(x) => x,
        Err(e) => return Err(content_error(path, e)),
    };
    let rest = vstd::slice::slice_subrange(bytes, s, bytes.len());
    proof {
        assert(rest@ =~= bytes@.skip(s as int));
    }
    let (ids, cut, c) = if version.uses_blocked_ids() {
        match read_blocked_file_ids_limited(rest, limit) {
            Ok(x) => x,
            Err(e) => return Err(content_error(path, ContentCodecError::Ids(e))),
        }
    } else {
        match read_plain_ids(rest) {
            Ok((all, c)) => {
                let more = all.len() > limit;
                (take_ids(all, limit), more, c)
            },
            Err(e) => return Err(content_error(path, e)),
        }
    };
    if version.uses_positions() {
        match read_positions_limited(bytes, s + c, limit) {
            Ok((ps, pcut)) => Ok((posting_of(term, ids, ps), cut || pcut)),
            Err(e) => Err(content_error(path, e)),
        }
    } else {
        Ok((posting_of(term, ids, Vec::new()), cut))
    }
}

/// The ids of `volume` among `ids`, in order.
fn keep_volume(ids: &Vec<FileId>, volume: u64) -> (r: Vec<FileId>)
    ensures
        r@ == ids_in_volume(ids@, volume),
{
    let mut out: Vec<FileId> = Vec::new();
    let mut i: usize = 0;
    proof {
        assert(ids@.take(0) =~= Seq::<FileId>::empty());
    }
    while i < ids.len()
        invariant
            i <= ids@.len(),
            out@ == ids_in_volume(ids@.take(i as int), volume),
        decreases ids@.len() - i,
    {
        proof {
            assert(ids@.take(i as int + 1).drop_last() =~= ids@.take(i as int));
        }
        if ids[i].volume.0 == volume {
            out.push(ids[i]);
        }
        i = i + 1;
    }
    proof {
        assert(ids@.take(i as int) =~= ids@);
    }
    out
}

/// `read_content_posting_for_volume_limited_from_slice`, asking
/// `check_control` whether to go on before and after decoding: the result
/// is the decoding's, got only after the control let it go on, or an error
/// the control returned, which comes before any decoding error.
pub fn read_content_posting_for_volume_limited_from_slice_checked(
    bytes: &[u8],
    path: &str,
    version: ContentStoreVersion,
    volume: VolumeId,
    limit: usize,
    check_control: impl Fn() -> Result<(), GfmError>,
) -> (r: Result<(ContentPosting, bool), GfmError>)
    requires
        check_control.requires(()),
    ensures
        checked_outcome(
            check_control,
            r,
            |x: (ContentPosting, bool)| content_posting_for_volume(version, bytes@, volume.0, limit) == Ok::<
                (ContentView, bool),
                ContentCodecErrorView,
            >((content_view(x.0), x.1)),
            |g: GfmError| content_posting_for_volume(version, bytes@, volume.0, limit) matches Err(e) && is_content_error(
                g,
                path@,
                e,
            ),
        ),
{
    let c0 = check_control();
    match c0 {
        Err(g) => return Err(g),
        Ok(()) => {},
    }
    proof {
        assert(c0->Ok_0 == ());
    }
    let out = match read_content_posting_for_volume_limited_from_slice(bytes, path, version, volume, limit) {
        Ok(x) => x,
        Err(g) => return Err(g),
    };
    match check_control() {
        Err(g) => return Err(g),
        Ok(()) => {},
    }
    Ok(out)
}

/// Reads the content posting of the layout `version` at the front of
/// `bytes`, read from `path`, with at most `limit` ids and positions
/// entries of `volume`, and whether either was cut.
pub fn read_content_posting_for_volume_limited_from_slice(
    bytes: &[u8],
    path: &str,
    version: ContentStoreVersion,
    volume: VolumeId,
    limit: usize,
) -> (r: Result<(ContentPosting, bool), GfmError>)
    ensures
        match content_posting_for_volume(version, bytes@, volume.0, limit) {
            Ok((x, more)) => r matches Ok((p, m)) && content_view(p) == x && m == more,
            Err(e) => r matches Err(g) && is_content_error(g, path@, e),
        },
{
    let (term, s) = match read_term(bytes) {
        Ok(x) => x,
        Err(e) => return Err(content_error(path, e)),
    };
    let rest = vstd::slice::slice_subrange(bytes, s, bytes.len());
    proof {
        assert(rest@ =~= bytes@.skip(s as int));
    }
    let (ids, cut, c) = if version.uses_blocked_ids() {
        let end = match read_blocked_file_ids_limited(rest, 0) {
            Ok((_, _, end)) => end,
            Err(e) => return Err(content_error(path, ContentCodecError::Ids(e))),
        };
        match read_blocked_file_ids_for_volume_limited(rest, volume.0, limit) {
            Ok((ids, cut)) => (ids, cut, end),
            Err(e) => return Err(content_error(path, ContentCodecError::Ids(e))),
        }
    } else {
        match read_plain_ids(rest) {
            Ok((all, c)) => {
                let mine = keep_volume(&all, volume.0);
                let more = mine.len() > limit;
                (take_ids(mine, limit), more, c)
            },
            Err(e) => return Err(content_error(path, e)),
        }
    };
    if version.uses_positions() {
        match read_positions_for_volume(bytes, s + c, volume.0, limit) {
            Ok((ps, pcut)) => Ok((posting_of(term, ids, ps), cut || pcut)),
            Err(e) => Err(content_error(path, e)),
        }
    } else {
        Ok((posting_of(term, ids, Vec::new()), cut))
    }
}

/// Positions that go strictly up.
pub open spec fn offsets_increasing(o: Seq<u32>) -> bool {
    forall|i: int, j: int| 0 <= i < j < o.len() ==> #[trigger] o[i] < #[trigger] o[j]
}

/// The delta encoding of the first `k` of the increasing positions `o`.
pub open spec fn offsets_bytes_upto(o: Seq<u32>, k: int) -> Seq<u8>
    decreases k,
{
    if k <= 0 {
        Seq::empty()
    } else {
        let prev: u32 = if k == 1 { 0 } else { o[k - 2] };
        offsets_bytes_upto(o, k - 1) + varint_bytes((o[k - 1] - prev) as u64)
    }
}

/// The bytes of a positions entry after the id `prev`.
pub open spec fn entry_bytes(prev: FileId, e: PositionsView) -> Seq<u8> {
    delta_pair_bytes(prev, e.0) + varint_bytes(e.1.len() as u64) + offsets_bytes_upto(e.1, e.1.len() as int)
}

/// The bytes of the first `k` positions entries.
pub open spec fn entries_bytes_upto(es: Seq<PositionsView>, k: int) -> Seq<u8>
    decreases k,
{
    if k <= 0 {
        Seq::empty()
    } else {
        entries_bytes_upto(es, k - 1) + entry_bytes(last_entry_id(es.take(k - 1)), es[k - 1])
    }
}

/// The bytes of positions entries: their number, then each entry.
pub open spec fn positions_bytes(es: Seq<PositionsView>) -> Seq<u8> {
    varint_bytes(es.len() as u64) + entries_bytes_upto(es, es.len() as int)
}

/// Each entry's id with the set of its positions.
pub open spec fn entry_sets(es: Seq<PositionsView>) -> Seq<(FileId, Set<u32>)> {
    es.map_values(|e: PositionsView| (e.0, e.1.to_set()))
}

/// Whether `es` are the positions entries `given` as written: sorted by id,
/// each with its positions sorted and without repeats.
pub open spec fn entries_as_written(given: Seq<PositionsView>, es: Seq<PositionsView>) -> bool {
    &&& entry_sets(es).to_multiset() == entry_sets(given).to_multiset()
    &&& ids_nondecreasing(es.map_values(|e: PositionsView| e.0))
    &&& forall|i: int| 0 <= i < es.len() ==> offsets_increasing(#[trigger] es[i].1)
}

/// Inserts `x` into the increasing positions `v` unless it is there.
pub(crate) fn insert_offset(v: &mut Vec<u32>, x: u32)
    requires
        offsets_increasing(old(v)@),
    ensures
        offsets_increasing(final(v)@),
        final(v)@.to_set() == old(v)@.to_set().insert(x),
{
    let ghost sv = v@;
    let mut k: usize = 0;
    while k < v.len() && v[k] < x
        invariant
            sv == v@,
            offsets_increasing(sv),
            k <= sv.len(),
            forall|j: int| 0 <= j < k ==> #[trigger] sv[j] < x,
        decreases sv.len() - k,
    {
        k = k + 1;
    }
    if k < v.len() && v[k] == x {
        proof {
            assert(sv.to_set().contains(x)) by {
                assert(sv[k as int] == x);
            }
            assert(sv.to_set().insert(x) =~= sv.to_set());
        }
        return;
    }
    v.insert(k, x);
    proof {
        let nv = v@;
        assert(nv =~= sv.insert(k as int, x));
        assert forall|j: int| k <= j < sv.len() implies x < #[trigger] sv[j] by {
            if j > k {
                assert(sv[k as int] < sv[j]);
            }
        }
        assert forall|a: int, b: int| 0 <= a < b < nv.len() implies #[trigger] nv[a] < #[trigger] nv[b] by {
            if b < k {
                assert(nv[a] == sv[a] && nv[b] == sv[b]);
            } else if b == k {
                assert(nv[a] == sv[a]);
            } else if a == k {
                assert(nv[b] == sv[b - 1]);
            } else if a < k {
                assert(nv[a] == sv[a] && nv[b] == sv[b - 1]);
            } else {
                assert(nv[a] == sv[a - 1] && nv[b] == sv[b - 1]);
            }
        }
        assert forall|y: u32| nv.to_set().contains(y) <==> sv.to_set().insert(x).contains(y) by {
            if nv.to_set().contains(y) {
                let i = choose|i: int| 0 <= i < nv.len() && nv[i] == y;
                if i < k {
                    assert(sv[i] == y);
                } else if i > k {
                    assert(sv[i - 1] == y);
                }
            }
            if sv.to_set().contains(y) {
                let i = choose|i: int| 0 <= i < sv.len() && sv[i] == y;
                if i < k {
                    assert(nv[i] == y);
                } else {
                    assert(nv[i + 1] == y);
                }
            }
            if y == x {
                assert(nv[k as int] == y);
            }
        }
        assert(nv.to_set() =~= sv.to_set().insert(x));
    }
}

/// The positions `o` sorted and without repeats.
fn sorted_offsets(o: &Vec<u32>) -> (v: Vec<u32>)
    ensures
        offsets_increasing(v@),
        v@.to_set() == o@.to_set(),
{
    let mut v: Vec<u32> = Vec::new();
    let mut i: usize = 0;
    proof {
        assert(v@.to_set() =~= o@.take(0).to_set());
    }
    while i < o.len()
        invariant
            i <= o@.len(),
            offsets_increasing(v@),
            v@.to_set() == o@.take(i as int).to_set(),
        decreases o@.len() - i,
    {
        insert_offset(&mut v, o[i]);
        proof {
            assert(o@.take(i as int + 1) =~= o@.take(i as int).push(o@[i as int]));
            o@.take(i as int).lemma_push_to_set_commute(o@[i as int]);
        }
        i = i + 1;
    }
    proof {
        assert(o@.take(i as int) =~= o@);
    }
    v
}

/// Appends the delta encoding of the increasing positions `o`.
fn write_offsets(out: &mut Vec<u8>, o: &Vec<u32>)
    requires
        offsets_increasing(o@),
    ensures
        final(out)@ == old(out)@ + offsets_bytes_upto(o@, o@.len() as int),
{
    let ghost start = out@;
    let mut prev: u32 = 0;
    let mut i: usize = 0;
    while i < o.len()
        invariant
            offsets_increasing(o@),
            i <= o@.len(),
            prev == (if i == 0 { 0u32 } else { o@[i - 1] }),
            out@ == start + offsets_bytes_upto(o@, i as int),
        decreases o@.len() - i,
    {
        if i > 0 {
            assert(o@[i - 1] < o@[i as int]);
        }
        let d = o[i] - prev;
        write_varint(out, d as u64);
        proof {
            assert(out@ =~= start + offsets_bytes_upto(o@, i as int + 1));
        }
        prev = o[i];
        i = i + 1;
    }
}

/// Inserts `x` into `s` after every entry whose id does not come after
/// its own.
fn insert_entry(s: &mut Vec<ContentPositions>, x: ContentPositions)
    requires
        ids_nondecreasing(positions_views(old(s)@).map_values(|e: PositionsView| e.0)),
        forall|i: int| 0 <= i < old(s)@.len() ==> offsets_increasing(#[trigger] old(s)@[i].positions@),
        offsets_increasing(x.positions@),
    ensures
        ids_nondecreasing(positions_views(final(s)@).map_values(|e: PositionsView| e.0)),
        entry_sets(positions_views(final(s)@)).to_multiset() == entry_sets(positions_views(old(s)@)).to_multiset().insert(
            (x.id, x.positions@.to_set()),
        ),
        forall|i: int| 0 <= i < final(s)@.len() ==> offsets_increasing(#[trigger] final(s)@[i].positions@),
{
    let ghost sv = positions_views(s@);
    let ghost ids = sv.map_values(|e: PositionsView| e.0);
    let ghost xv = (x.id, x.positions@);
    let mut k: usize = 0;
    while k < s.len() && !file_id_lt(x.id, s[k].id)
        invariant
            sv == positions_views(s@),
            ids == sv.map_values(|e: PositionsView| e.0),
            ids_nondecreasing(ids),
            k <= sv.len(),
            forall|j: int| 0 <= j < k ==> !file_id_less(x.id, #[trigger] ids[j]),
        decreases sv.len() - k,
    {
        proof {
            assert(ids[k as int] == s@[k as int].id);
        }
        k = k + 1;
    }
    let ghost old_s = s@;
    s.insert(k, x);
    proof {
        let nv = positions_views(s@);
        let nids = nv.map_values(|e: PositionsView| e.0);
        assert(nv =~= sv.insert(k as int, xv));
        assert(nids =~= ids.insert(k as int, x.id));
        if k < sv.len() {
            assert(ids[k as int] == s@[k as int + 1].id);
        }
        assert(entry_sets(nv) =~= entry_sets(sv).insert(k as int, (x.id, x.positions@.to_set())));
        vstd::seq_lib::to_multiset_insert(entry_sets(sv), k as int, (x.id, x.positions@.to_set()));
        assert forall|a: int, b: int| 0 <= a < b < nids.len() implies !file_id_less(#[trigger] nids[b], #[trigger] nids[a]) by {
            if b < k {
                assert(nids[a] == ids[a] && nids[b] == ids[b]);
            } else if b == k {
                assert(nids[a] == ids[a]);
            } else if a == k {
                assert(nids[b] == ids[b - 1]);
                assert(!file_id_less(ids[b - 1], ids[k as int]) || b - 1 == k);
            } else if a < k {
                assert(nids[a] == ids[a] && nids[b] == ids[b - 1]);
            } else {
                assert(nids[a] == ids[a - 1] && nids[b] == ids[b - 1]);
            }
        }
        assert forall|j: int| 0 <= j < s@.len() implies offsets_increasing(#[trigger] s@[j].positions@) by {
            if j < k {
                assert(s@[j] == old_s[j]);
            } else if j > k {
                assert(s@[j] == old_s[j - 1]);
            }
        }
    }
}

/// The positions entries `given` as written: sorted by id (entries with
/// the same id in their order), each with its positions sorted and without
/// repeats.
fn sort_entries(given: &Vec<ContentPositions>) -> (r: Vec<ContentPositions>)
    ensures
        entries_as_written(positions_views(given@), positions_views(r@)),
{
    let mut s: Vec<ContentPositions> = Vec::new();
    let ghost gv = positions_views(given@);
    let mut i: usize = 0;
    proof {
        assert(entry_sets(positions_views(s@)) =~= entry_sets(gv.take(0)));
        assert(positions_views(s@).map_values(|e: PositionsView| e.0) =~= Seq::<FileId>::empty());
    }
    while i < given.len()
        invariant
            gv == positions_views(given@),
            i <= given@.len(),
            entry_sets(positions_views(s@)).to_multiset() == entry_sets(gv.take(i as int)).to_multiset(),
            ids_nondecreasing(positions_views(s@).map_values(|e: PositionsView| e.0)),
            forall|j: int| 0 <= j < s@.len() ==> offsets_increasing(#[trigger] s@[j].positions@),
        decreases given@.len() - i,
    {
        let positions = sorted_offsets(&given[i].positions);
        let x = ContentPositions { id: given[i].id, positions };
        insert_entry(&mut s, x);
        proof {
            let e = (given@[i as int].id, given@[i as int].positions@.to_set());
            assert(gv[i as int] == (given@[i as int].id, given@[i as int].positions@));
            assert(entry_sets(gv.take(i as int + 1)) =~= entry_sets(gv.take(i as int)).push(e));
            vstd::seq_lib::to_multiset_build(entry_sets(gv.take(i as int)), e);
        }
        i = i + 1;
    }
    proof {
        assert(gv.take(i as int) =~= gv);
        let sv = positions_views(s@);
        assert forall|j: int| 0 <= j < sv.len() implies offsets_increasing(#[trigger] sv[j].1) by {
            assert(sv[j].1 == s@[j].positions@);
        }
    }
    s
}

/// Appends the positions entries `es`, sorted by id, each with increasing
/// positions.
fn write_positions(out: &mut Vec<u8>, es: &Vec<ContentPositions>)
    requires
        forall|j: int| 0 <= j < es@.len() ==> offsets_increasing(#[trigger] es@[j].positions@),
    ensures
        final(out)@ == old(out)@ + positions_bytes(positions_views(es@)),
{
    let ghost ev = positions_views(es@);
    write_varint(out, es.len() as u64);
    let ghost start = out@;
    let mut prev = FileId { volume: VolumeId(0), node: 0 };
    let mut i: usize = 0;
    while i < es.len()
        invariant
            ev == positions_views(es@),
            forall|j: int| 0 <= j < es@.len() ==> offsets_increasing(#[trigger] es@[j].positions@),
            i <= es@.len(),
            prev == last_entry_id(ev.take(i as int)),
            out@ == start + entries_bytes_upto(ev, i as int),
        decreases es@.len() - i,
    {
        let id = es[i].id;
        let vd = if id.volume.0 >= prev.volume.0 { id.volume.0 - prev.volume.0 } else { 0 };
        let nd = if id.volume.0 == prev.volume.0 {
            if id.node >= prev.node { id.node - prev.node } else { 0 }
        } else {
            id.node
        };
        write_varint(out, vd);
        write_varint(out, nd);
        write_varint(out, es[i].positions.len() as u64);
        write_offsets(out, &es[i].positions);
        proof {
            assert(ev[i as int] == (id, es@[i as int].positions@));
            assert(ev.take(i as int + 1).last() == ev[i as int]);
            assert(out@ =~= start + entries_bytes_upto(ev, i as int + 1));
        }
        prev = id;
        i = i + 1;
    }
}

/// Inserts `x` into the nondecreasing ids `s` after every id that does not
/// come after it.
fn insert_plain_id(s: &mut Vec<FileId>, x: FileId)
    requires
        ids_nondecreasing(old(s)@),
    ensures
        ids_nondecreasing(final(s)@),
        final(s)@.to_multiset() == old(s)@.to_multiset().insert(x),
{
    let ghost sv = s@;
    let mut k: usize = 0;
    while k < s.len() && !file_id_lt(x, s[k])
        invariant
            sv == s@,
            ids_nondecreasing(sv),
            k <= sv.len(),
            forall|j: int| 0 <= j < k ==> !file_id_less(x, #[trigger] sv[j]),
        decreases sv.len() - k,
    {
        k = k + 1;
    }
    s.insert(k, x);
    proof {
        let nv = s@;
        assert(nv =~= sv.insert(k as int, x));
        vstd::seq_lib::to_multiset_insert(sv, k as int, x);
        assert forall|a: int, b: int| 0 <= a < b < nv.len() implies !file_id_less(#[trigger] nv[b], #[trigger] nv[a]) by {
            if b < k {
                assert(nv[a] == sv[a] && nv[b] == sv[b]);
            } else if b == k {
                assert(nv[a] == sv[a]);
            } else if a == k {
                assert(nv[b] == sv[b - 1]);
            } else if a < k {
                assert(nv[a] == sv[a] && nv[b] == sv[b - 1]);
            } else {
                assert(nv[a] == sv[a - 1] && nv[b] == sv[b - 1]);
            }
        }
    }
}

/// Appends the delta encoding of `ids`, sorted, after their count.
pub(crate) fn write_plain_ids(out: &mut Vec<u8>, ids: &Vec<FileId>)
    ensures
        exists|s: Seq<FileId>|
            ids_nondecreasing(s) && s.to_multiset() == ids@.to_multiset() && final(out)@ == old(out)@ + varint_bytes(
                ids@.len() as u64,
            ) + #[trigger] delta_bytes(s),
{
    let mut s: Vec<FileId> = Vec::new();
    let mut i: usize = 0;
    proof {
        assert(ids@.take(0) =~= Seq::<FileId>::empty());
    }
    while i < ids.len()
        invariant
            i <= ids@.len(),
            ids_nondecreasing(s@),
            s@.to_multiset() == ids@.take(i as int).to_multiset(),
        decreases ids@.len() - i,
    {
        insert_plain_id(&mut s, ids[i]);
        proof {
            assert(ids@.take(i as int + 1) =~= ids@.take(i as int).push(ids@[i as int]));
            vstd::seq_lib::to_multiset_build(ids@.take(i as int), ids@[i as int]);
        }
        i = i + 1;
    }
    proof {
        assert(ids@.take(i as int) =~= ids@);
        s@.to_multiset_ensures();
        ids@.to_multiset_ensures();
    }
    write_varint(out, ids.len() as u64);
    write_delta_range(out, &s, 0, s.len());
    proof {
        assert(s@.subrange(0, s@.len() as int) =~= s@);
    }
}

/// The bytes of the ids of a posting of the layout `v`: blocked, or their
/// count and delta encoding.
pub open spec fn posting_ids_bytes(v: ContentStoreVersion, ids: Seq<FileId>) -> Seq<u8> {
    if has_blocked_ids(v) {
        blocked_bytes(ids)
    } else {
        varint_bytes(ids.len() as u64) + delta_bytes(ids)
    }
}

/// The bytes of a content posting of the layout `v`: its term after its
/// length, its ids, and, where the layout has them, its positions.
pub open spec fn content_posting_bytes(v: ContentStoreVersion, term: Seq<char>, ids: Seq<FileId>, es: Seq<PositionsView>) -> Seq<u8> {
    let tb = encode_utf8(term);
    varint_bytes(tb.len() as u64) + tb + posting_ids_bytes(v, ids) + if has_positions(v) {
        positions_bytes(es)
    } else {
        Seq::empty()
    }
}

/// Appends the content posting `posting` in the layout `version`: its
/// term, its ids (blocked and sorted without repeats, or sorted and
/// delta-encoded), and, where the layout has them, its positions entries
/// sorted by id, each with its positions sorted and without repeats.
pub fn write_content_posting(out: &mut Vec<u8>, posting: &ContentPosting, version: ContentStoreVersion)
    ensures
        exists|ids: Seq<FileId>, es: Seq<PositionsView>|
            (if has_blocked_ids(version) {
                ids == sort_ids(posting.ids@)
            } else {
                ids_nondecreasing(ids) && ids.to_multiset() == posting.ids@.to_multiset()
            }) && entries_as_written(positions_views(posting.positions@), es) && final(out)@ == old(out)@
                + #[trigger] content_posting_bytes(version, posting.term@, ids, es),
{
    let ghost start = out@;
    let tb = posting.term.as_str().as_bytes();
    write_varint(out, tb.len() as u64);
    push_bytes(out, tb);
    let ghost after_term = out@;
    let ghost mut ids: Seq<FileId> = Seq::empty();
    if version.uses_blocked_ids() {
        write_blocked_file_ids(out, &posting.ids);
        proof {
            ids = sort_ids(posting.ids@);
        }
    } else {
        write_plain_ids(out, &posting.ids);
        proof {
            ids = choose|s: Seq<FileId>|
                ids_nondecreasing(s) && s.to_multiset() == posting.ids@.to_multiset() && out@ == after_term
                    + varint_bytes(posting.ids@.len() as u64) + #[trigger] delta_bytes(s);
            ids.to_multiset_ensures();
            posting.ids@.to_multiset_ensures();
        }
    }
    let ghost after_ids = out@;
    let sorted = sort_entries(&posting.positions);
    proof {
        assert forall|j: int| 0 <= j < sorted@.len() implies offsets_increasing(#[trigger] sorted@[j].positions@) by {
            assert(positions_views(sorted@)[j].1 == sorted@[j].positions@);
        }
    }
    if version.uses_positions() {
        write_positions(out, &sorted);
    }
    proof {
        assert(after_ids == after_term + posting_ids_bytes(version, ids));
        assert(out@ =~= start + content_posting_bytes(version, posting.term@, ids, positions_views(sorted@)));
    }
}

proof fn lemma_skip_split(bytes: Seq<u8>, a: int, b: int, piece: Seq<u8>)
    requires
        0 <= a <= b <= bytes.len(),
        bytes.subrange(a, b) == piece,
    ensures
        bytes.skip(a) == piece + bytes.skip(b),
{
    assert(bytes.skip(a) =~= piece + bytes.skip(b));
}

proof fn lemma_offsets_prefix(o: Seq<u32>, k: int, n: int)
    requires
        0 <= k <= n,
    ensures
        offsets_bytes_upto(o, k).len() <= offsets_bytes_upto(o, n).len(),
        offsets_bytes_upto(o, n).take(offsets_bytes_upto(o, k).len() as int) == offsets_bytes_upto(o, k),
    decreases n - k,
{
    if k < n {
        lemma_offsets_prefix(o, k, n - 1);
        let a = offsets_bytes_upto(o, n - 1);
        let prev: u32 = if n == 1 { 0 } else { o[n - 2] };
        assert((a + varint_bytes((o[n - 1] - prev) as u64)).take(offsets_bytes_upto(o, k).len() as int) =~= a.take(
            offsets_bytes_upto(o, k).len() as int,
        ));
    } else {
        assert(offsets_bytes_upto(o, n).take(offsets_bytes_upto(o, n).len() as int) =~= offsets_bytes_upto(o, n));
    }
}

/// Reading the delta encoding of increasing positions gives them back.
proof fn lemma_offsets_read(bytes: Seq<u8>, p0: int, o: Seq<u32>, k: int)
    requires
        offsets_increasing(o),
        0 <= k <= o.len(),
        0 <= p0,
        p0 + offsets_bytes_upto(o, o.len() as int).len() <= bytes.len(),
        bytes.subrange(p0, p0 + offsets_bytes_upto(o, o.len() as int).len()) == offsets_bytes_upto(o, o.len() as int),
    ensures
        offsets_read(bytes, p0, k) == Ok::<(Seq<u32>, int), ContentCodecErrorView>(
            (o.take(k), p0 + offsets_bytes_upto(o, k).len()),
        ),
    decreases k,
{
    if k == 0 {
        assert(o.take(0) =~= Seq::<u32>::empty());
    } else {
        lemma_offsets_read(bytes, p0, o, k - 1);
        let n = o.len() as int;
        let all = offsets_bytes_upto(o, n);
        let before = offsets_bytes_upto(o, k - 1);
        let prev: u32 = if k == 1 { 0 } else { o[k - 2] };
        if k >= 2 {
            assert(o[k - 2] < o[k - 1]);
        }
        let d = (o[k - 1] - prev) as u64;
        let piece = varint_bytes(d);
        lemma_offsets_prefix(o, k, n);
        let a = p0 + before.len();
        assert(offsets_bytes_upto(o, k) == before + piece);
        assert(bytes.subrange(a, a + piece.len()) =~= all.take((before.len() + piece.len()) as int).skip(
            before.len() as int,
        ));
        assert((before + piece).skip(before.len() as int) =~= piece);
        lemma_skip_split(bytes, a, a + piece.len(), piece);
        lemma_varint_at(bytes, a, d, bytes.skip(a + piece.len()));
        assert(o.take(k - 1).len() == 0 || o.take(k - 1).last() == prev);
        assert(o.take(k) =~= o.take(k - 1).push(o[k - 1]));
    }
}

/// Reading the id of a positions entry after `prev` gives it back when it
/// does not come before `prev`.
proof fn lemma_position_id_at(bytes: Seq<u8>, p: int, prev: FileId, id: FileId, tail: Seq<u8>)
    requires
        0 <= p <= bytes.len(),
        bytes.skip(p) == delta_pair_bytes(prev, id) + tail,
        !file_id_less(id, prev),
    ensures
        position_id_at(bytes, p, prev) == Ok::<(FileId, int), ContentCodecErrorView>(
            (id, p + delta_pair_bytes(prev, id).len()),
        ),
        bytes.skip(p + delta_pair_bytes(prev, id).len()) == tail,
{
    let (vd, nd) = id_delta(prev, id);
    assert(bytes.skip(p) =~= varint_bytes(vd) + (varint_bytes(nd) + tail));
    lemma_varint_at(bytes, p, vd, varint_bytes(nd) + tail);
    let p1 = p + varint_bytes(vd).len();
    lemma_varint_at(bytes, p1, nd, tail);
}

/// Reading a positions entry written after `prev` gives it back.
proof fn lemma_entry_at(bytes: Seq<u8>, p: int, prev: FileId, e: PositionsView, tail: Seq<u8>)
    requires
        0 <= p <= bytes.len(),
        bytes.skip(p) == entry_bytes(prev, e) + tail,
        !file_id_less(e.0, prev),
        offsets_increasing(e.1),
        e.1.len() <= u64::MAX,
    ensures
        entry_at(bytes, p, prev) == Ok::<(PositionsView, int), ContentCodecErrorView>(
            (e, p + entry_bytes(prev, e).len()),
        ),
{
    let pair = delta_pair_bytes(prev, e.0);
    let cnt = varint_bytes(e.1.len() as u64);
    let offs = offsets_bytes_upto(e.1, e.1.len() as int);
    assert(bytes.skip(p) =~= pair + (cnt + offs + tail));
    lemma_position_id_at(bytes, p, prev, e.0, cnt + offs + tail);
    let p1 = p + pair.len();
    assert(bytes.skip(p1) =~= cnt + (offs + tail));
    lemma_varint_at(bytes, p1, e.1.len() as u64, offs + tail);
    let p2 = p1 + cnt.len();
    assert(bytes.subrange(p2, p2 + offs.len()) =~= offs) by {
        assert(bytes.skip(p2) == offs + tail);
        assert forall|i: int| 0 <= i < offs.len() implies bytes.subrange(p2, p2 + offs.len())[i] == offs[i] by {
            assert(bytes.skip(p2)[i] == bytes[p2 + i]);
        }
    }
    lemma_offsets_read(bytes, p2, e.1, e.1.len() as int);
    assert(e.1.take(e.1.len() as int) =~= e.1);
}

proof fn lemma_entries_prefix(es: Seq<PositionsView>, k: int, n: int)
    requires
        0 <= k <= n,
    ensures
        entries_bytes_upto(es, k).len() <= entries_bytes_upto(es, n).len(),
        entries_bytes_upto(es, n).take(entries_bytes_upto(es, k).len() as int) == entries_bytes_upto(es, k),
    decreases n - k,
{
    if k < n {
        lemma_entries_prefix(es, k, n - 1);
        let a = entries_bytes_upto(es, n - 1);
        assert((a + entry_bytes(last_entry_id(es.take(n - 1)), es[n - 1])).take(
            entries_bytes_upto(es, k).len() as int,
        ) =~= a.take(entries_bytes_upto(es, k).len() as int));
    } else {
        assert(entries_bytes_upto(es, n).take(entries_bytes_upto(es, n).len() as int) =~= entries_bytes_upto(es, n));
    }
}

/// Entries as they are written: ids that do not go down, increasing
/// positions, counts that fit.
pub open spec fn entries_writable(es: Seq<PositionsView>) -> bool {
    &&& ids_nondecreasing(es.map_values(|e: PositionsView| e.0))
    &&& forall|i: int| 0 <= i < es.len() ==> offsets_increasing(#[trigger] es[i].1) && es[i].1.len() <= u64::MAX
}

/// Reading the entries written gives them back.
proof fn lemma_entries_read(bytes: Seq<u8>, p0: int, es: Seq<PositionsView>, k: int)
    requires
        entries_writable(es),
        0 <= k <= es.len(),
        0 <= p0,
        p0 + entries_bytes_upto(es, es.len() as int).len() <= bytes.len(),
        bytes.subrange(p0, p0 + entries_bytes_upto(es, es.len() as int).len()) == entries_bytes_upto(es, es.len() as int),
    ensures
        entries_read(bytes, p0, k) == Ok::<(Seq<PositionsView>, int), ContentCodecErrorView>(
            (es.take(k), p0 + entries_bytes_upto(es, k).len()),
        ),
    decreases k,
{
    if k == 0 {
        assert(es.take(0) =~= Seq::<PositionsView>::empty());
    } else {
        lemma_entries_read(bytes, p0, es, k - 1);
        let n = es.len() as int;
        let all = entries_bytes_upto(es, n);
        let before = entries_bytes_upto(es, k - 1);
        let prev = last_entry_id(es.take(k - 1));
        let piece = entry_bytes(prev, es[k - 1]);
        lemma_entries_prefix(es, k, n);
        let a = p0 + before.len();
        assert(entries_bytes_upto(es, k) == before + piece);
        assert(bytes.subrange(a, a + piece.len()) =~= all.take((before.len() + piece.len()) as int).skip(
            before.len() as int,
        ));
        assert((before + piece).skip(before.len() as int) =~= piece);
        lemma_skip_split(bytes, a, a + piece.len(), piece);
        let ids = es.map_values(|e: PositionsView| e.0);
        if k >= 2 {
            assert(ids[k - 2] == es[k - 2].0 && ids[k - 1] == es[k - 1].0);
            assert(prev == es[k - 2].0);
        }
        assert(offsets_increasing(es[k - 1].1) && es[k - 1].1.len() <= u64::MAX);
        lemma_entry_at(bytes, a, prev, es[k - 1], bytes.skip(a + piece.len()));
        assert(es.take(k) =~= es.take(k - 1).push(es[k - 1]));
    }
}

/// Reading the positions written gives them back.
proof fn lemma_positions_at(bytes: Seq<u8>, p: int, es: Seq<PositionsView>)
    requires
        entries_writable(es),
        es.len() <= u64::MAX,
        0 <= p,
        p + positions_bytes(es).len() <= bytes.len(),
        bytes.subrange(p, p + positions_bytes(es).len()) == positions_bytes(es),
    ensures
        positions_at(bytes, p) == Ok::<(Seq<PositionsView>, int), ContentCodecErrorView>(
            (es, p + positions_bytes(es).len()),
        ),
{
    let n = es.len() as int;
    let vb = varint_bytes(n as u64);
    let body = entries_bytes_upto(es, n);
    lemma_skip_split(bytes, p, p + positions_bytes(es).len(), positions_bytes(es));
    assert(bytes.skip(p) =~= vb + (body + bytes.skip(p + positions_bytes(es).len())));
    lemma_varint_at(bytes, p, n as u64, body + bytes.skip(p + positions_bytes(es).len()));
    let p1 = p + vb.len();
    assert(bytes.subrange(p1, p1 + body.len()) =~= body) by {
        assert forall|i: int| 0 <= i < body.len() implies bytes.subrange(p1, p1 + body.len())[i] == body[i] by {
            assert(bytes.skip(p1)[i] == bytes[p1 + i]);
        }
    }
    lemma_entries_read(bytes, p1, es, n);
    assert(es.take(n) =~= es);
}

proof fn lemma_term_part(term: Seq<char>, after: Seq<u8>)
    requires
        encode_utf8(term).len() <= u64::MAX,
    ensures
        ({
            let tb = encode_utf8(term);
            let head = varint_bytes(tb.len() as u64) + tb;
            &&& term_at(head + after, 0) == Ok::<(Seq<char>, int), ContentCodecErrorView>((term, head.len() as int))
            &&& (head + after).skip(head.len() as int) == after
        }),
{
    let tb = encode_utf8(term);
    let vb = varint_bytes(tb.len() as u64);
    let bytes = vb + tb + after;
    assert(bytes.skip(0) =~= vb + (tb + after));
    lemma_varint_at(bytes, 0, tb.len() as u64, tb + after);
    assert(bytes.subrange(vb.len() as int, (vb.len() + tb.len()) as int) =~= tb);
    encode_utf8_valid_utf8(term);
    encode_utf8_decode_utf8(term);
    assert(bytes.skip((vb.len() + tb.len()) as int) =~= after);
}

proof fn lemma_ids_part(v: ContentStoreVersion, ids: Seq<FileId>, after: Seq<u8>)
    requires
        has_blocked_ids(v) ==> ids_sorted(ids),
        ids_nondecreasing(ids),
        ids.len() <= u64::MAX,
        posting_ids_bytes(v, ids).len() <= usize::MAX,
    ensures
        posting_ids_at(v, posting_ids_bytes(v, ids) + after) == Ok::<(Seq<FileId>, int), ContentCodecErrorView>(
            (ids, posting_ids_bytes(v, ids).len() as int),
        ),
{
    let rest = posting_ids_bytes(v, ids) + after;
    if has_blocked_ids(v) {
        assert(rest =~= Seq::<u8>::empty() + blocked_bytes(ids) + after);
        lemma_blocked_round_trip(ids, Seq::empty(), after);
    } else {
        let cb = varint_bytes(ids.len() as u64);
        assert(rest.skip(0) =~= cb + (delta_bytes(ids) + after));
        lemma_varint_at(rest, 0, ids.len() as u64, delta_bytes(ids) + after);
        lemma_delta_round_trip(ids, after);
    }
}

/// Content posting round trip: reading a posting written in a layout gives
/// back its term, its ids as written, and, where the layout has them, its
/// positions entries as written, whatever follows it (for a posting that
/// fits in memory).
#[verifier::rlimit(40)]
pub proof fn lemma_content_posting_round_trip(
    v: ContentStoreVersion,
    term: Seq<char>,
    ids: Seq<FileId>,
    es: Seq<PositionsView>,
    tail: Seq<u8>,
)
    requires
        has_blocked_ids(v) ==> ids_sorted(ids),
        ids_nondecreasing(ids),
        entries_writable(es),
        ids.len() <= u64::MAX,
        es.len() <= u64::MAX,
        (content_posting_bytes(v, term, ids, es) + tail).len() <= usize::MAX,
    ensures
        content_posting_at(v, content_posting_bytes(v, term, ids, es) + tail) == Ok::<
            (ContentView, int),
            ContentCodecErrorView,
        >(((term, ids, if has_positions(v) { es } else { Seq::empty() }), content_posting_bytes(v, term, ids, es).len() as int)),
{
    let tb = encode_utf8(term);
    let head = varint_bytes(tb.len() as u64) + tb;
    let ib = posting_ids_bytes(v, ids);
    let pb = if has_positions(v) { positions_bytes(es) } else { Seq::<u8>::empty() };
    let after = ib + (pb + tail);
    let bytes = content_posting_bytes(v, term, ids, es) + tail;
    assert(bytes =~= head + after);
    lemma_term_part(term, after);
    lemma_ids_part(v, ids, pb + tail);
    let s = head.len() as int;
    if has_positions(v) {
        let q = s + ib.len();
        assert(bytes.subrange(q, q + pb.len()) =~= pb);
        lemma_positions_at(bytes, q, es);
    }
}

} // verus!
