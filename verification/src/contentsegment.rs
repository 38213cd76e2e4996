use vstd::prelude::*;
use vstd::utf8::encode_utf8;

use crate::codec::{varint_bytes, write_varint};
use crate::contentcodec::{
    content_error, content_posting_at, content_posting_bytes, content_view, entries_as_written, is_content_error,
    plain_ids_at, positions_views, read_posting_at_front, ContentCodecError, ContentCodecErrorView,
    ContentStoreVersion, ContentView,
};
use crate::contentmerge::{tier_of, ContentMergePolicy, ContentSegmentSummary};
use crate::error::GfmError;
use crate::ids::{delta_bytes, ids_nondecreasing, read_varint_at, varint_at, IdsError};
use crate::termarchive::push_bytes;
use crate::types::{ContentPosting, ContentSegment, FileId};

verus! {

/// The magic of a segment whose postings carry positions.
pub open spec fn segment_magic_v2() -> Seq<char> {
    "gfm-content-segment-v2\n"@
}

/// The magic of a segment whose postings carry no positions.
pub open spec fn segment_magic_v1() -> Seq<char> {
    "gfm-content-segment-v1\n"@
}

fn segment_magic_v2_str() -> (s: &'static str)
    ensures
        s@ == segment_magic_v2(),
{
    "gfm-content-segment-v2\n"
}

fn segment_magic_v1_str() -> (s: &'static str)
    ensures
        s@ == segment_magic_v1(),
{
    "gfm-content-segment-v1\n"
}

/// The plain value of a segment: its tombstones and its postings.
pub type SegmentView = (Seq<FileId>, Seq<ContentView>);

/// The plain value of a segment.
pub open spec fn segment_view(s: ContentSegment) -> SegmentView {
    (s.tombstones@, s.postings@.map_values(|p: ContentPosting| content_view(p)))
}

/// The layout of a segment's postings, by the magic its first bytes hold
/// (as many as the first magic has): `None` for neither magic.
pub open spec fn segment_version(bytes: Seq<u8>) -> Option<ContentStoreVersion> {
    let n = encode_utf8(segment_magic_v1()).len() as int;
    if bytes.take(n) == encode_utf8(segment_magic_v2()) {
        Some(ContentStoreVersion::IndexedPositions)
    } else if bytes.take(n) == encode_utf8(segment_magic_v1()) {
        Some(ContentStoreVersion::IndexedIds)
    } else {
        None
    }
}

/// The front of a segment: its layout, its tombstones, its number of
/// postings and where they start.
pub open spec fn segment_front(bytes: Seq<u8>) -> Result<(ContentStoreVersion, Seq<FileId>, u64, int), ContentCodecErrorView> {
    let n = encode_utf8(segment_magic_v1()).len() as int;
    if bytes.len() < n {
        Err(ContentCodecErrorView::Ids(IdsError::UnexpectedEof))
    } else {
        match segment_version(bytes) {
            None => Err(ContentCodecErrorView::SegmentHeader),
            Some(v) => match plain_ids_at(bytes.skip(n)) {
                Err(e) => Err(e),
                Ok((ts, c)) => match varint_at(bytes, n + c) {
                    Err(e) => Err(ContentCodecErrorView::Ids(e)),
                    Ok((count, p)) => Ok((v, ts, count, p)),
                },
            },
        }
    }
}

/// The first `k` postings of the layout `v` read from `p0` on, and where
/// they end.
pub open spec fn segment_postings_read(v: ContentStoreVersion, bytes: Seq<u8>, p0: int, k: int) -> Result<
    (Seq<ContentView>, int),
    ContentCodecErrorView,
>
    decreases k,
{
    if k <= 0 {
        Ok((Seq::empty(), p0))
    } else {
        match segment_postings_read(v, bytes, p0, k - 1) {
            Err(e) => Err(e),
            Ok((ps, p)) => match content_posting_at(v, bytes.skip(p)) {
                Err(e) => Err(e),
                Ok((x, q)) => Ok((ps.push(x), p + q)),
            },
        }
    }
}

/// A segment read from its bytes: the magic, the tombstones, the number of
/// postings, then each posting.
pub open spec fn segment_read(bytes: Seq<u8>) -> Result<SegmentView, ContentCodecErrorView> {
    match segment_front(bytes) {
        Err(e) => Err(e),
        Ok((v, ts, count, p)) => match segment_postings_read(v, bytes, p, count as int) {
            Err(e) => Err(e),
            Ok((ps, _)) => Ok((ts, ps)),
        },
    }
}

/// Whether the first `n` bytes of `bytes` are `m`.
pub(crate) fn front_is(bytes: &[u8], n: usize, m: &[u8]) -> (b: bool)
    requires
        n <= bytes@.len(),
    ensures
        b == (bytes@.take(n as int) == m@),
{
    if m.len() != n {
        proof {
            assert(bytes@.take(n as int).len() != m@.len());
        }
        return false;
    }
    let mut i: usize = 0;
    while i < m.len()
        invariant
            n == m@.len(),
            m@.len() <= bytes@.len(),
            i <= m@.len(),
            forall|j: int| 0 <= j < i ==> bytes@[j] == m@[j],
        decreases m@.len() - i,
    {
        if bytes[i] != m[i] {
            proof {
                assert(bytes@.take(m@.len() as int)[i as int] != m@[i as int]);
            }
            return false;
        }
        i = i + 1;
    }
    proof {
        assert(bytes@.take(m@.len() as int) =~= m@);
    }
    true
}

/// Reads the front of a segment.
fn read_segment_front(bytes: &[u8]) -> (r: Result<(ContentStoreVersion, Vec<FileId>, u64, usize), ContentCodecError>)
    ensures
        match segment_front(bytes@) {
            Ok((v, ts, count, p)) => r matches Ok((w, t, c, q)) && w == v && t@ == ts && c == count && q as int == p
                && p <= bytes@.len(),
            Err(e) => r matches Err(g) && crate::contentcodec::codec_error_view(g) == e,
        },
{
    let m2 = segment_magic_v2_str().as_bytes();
    let m1 = segment_magic_v1_str().as_bytes();
    proof {
        assert(m2@ == encode_utf8(segment_magic_v2()));
        assert(m1@ == encode_utf8(segment_magic_v1()));
    }
    let n = m1.len();
    if bytes.len() < n {
        return Err(ContentCodecError::Ids(IdsError::UnexpectedEof));
    }
    let version = if front_is(bytes, n, m2) {
        ContentStoreVersion::IndexedPositions
    } else if front_is(bytes, n, m1) {
        ContentStoreVersion::IndexedIds
    } else {
        return Err(ContentCodecError::SegmentHeader);
    };
    let rest = vstd::slice::slice_subrange(bytes, n, bytes.len());
    proof {
        assert(rest@ =~= bytes@.skip(n as int));
    }
    let (ts, c) = match crate::contentcodec::read_plain_ids(rest) {
        Ok(x) => x,
        Err(e) => return Err(e),
    };
    match read_varint_at(bytes, n + c) {
        Ok((count, p)) => Ok((version, ts, count, p)),
        Err(e) => Err(ContentCodecError::Ids(e)),
    }
}

pub(crate) proof fn lemma_segment_postings_err(v: ContentStoreVersion, bytes: Seq<u8>, p0: int, k: int, n: int)
    requires
        0 <= k <= n,
        segment_postings_read(v, bytes, p0, k) is Err,
    ensures
        segment_postings_read(v, bytes, p0, n) == segment_postings_read(v, bytes, p0, k),
    decreases n - k,
{
    if k < n {
        lemma_segment_postings_err(v, bytes, p0, k + 1, n);
    }
}

/// The plain values of content postings.
pub open spec fn content_views(v: Seq<ContentPosting>) -> Seq<ContentView> {
    v.map_values(|p: ContentPosting| content_view(p))
}

/// Reads the segment `bytes` read from `path`.
pub fn read_content_segment(path: &str, bytes: &[u8]) -> (r: Result<ContentSegment, GfmError>)
    ensures
        match segment_read(bytes@) {
            Ok(s) => r matches Ok(g) && segment_view(g) == s,
            Err(e) => r matches Err(g) && is_content_error(g, path@, e),
        },
{
    let (version, tombstones, count, p0) = match read_segment_front(bytes) {
        Ok(x) => x,
        Err(e) => return Err(content_error(path, e)),
    };
    let mut postings: Vec<ContentPosting> = Vec::new();
    let mut p: usize = p0;
    let mut c: u64 = 0;
    proof {
        assert(content_views(postings@) =~= Seq::<ContentView>::empty());
    }
    while c < count
        invariant
            segment_front(bytes@) == Ok::<(ContentStoreVersion, Seq<FileId>, u64, int), ContentCodecErrorView>(
                (version, tombstones@, count, p0 as int),
            ),
            c <= count,
            p <= bytes@.len(),
            segment_postings_read(version, bytes@, p0 as int, c as int) == Ok::<
                (Seq<ContentView>, int),
                ContentCodecErrorView,
            >((content_views(postings@), p as int)),
        decreases count - c,
    {
        let rest = vstd::slice::slice_subrange(bytes, p, bytes.len());
        proof {
            assert(rest@ =~= bytes@.skip(p as int));
        }
        match read_posting_at_front(rest, version) {
            Ok((x, q)) => {
                let ghost before = content_views(postings@);
                let ghost xv = content_view(x);
                postings.push(x);
                proof {
                    assert(content_views(postings@) =~= before.push(xv));
                }
                p = p + q;
            },
            Err(e) => {
                proof {
                    lemma_segment_postings_err(version, bytes@, p0 as int, c as int + 1, count as int);
                }
                return Err(content_error(path, e));
            },
        }
        c = c + 1;
    }
    Ok(ContentSegment { tombstones, postings })
}

/// The summary of the segment at `path`, `file_len` bytes long, whose bytes
/// start with `bytes`: its tombstones and postings counted, its tier by its
/// length.
pub fn summarize_content_segment(path: &str, file_len: u64, bytes: &[u8], policy: &ContentMergePolicy) -> (r: Result<
    ContentSegmentSummary,
    GfmError,
>)
    ensures
        match segment_front(bytes@) {
            Ok((_, ts, count, _)) => if count > usize::MAX {
                r matches Err(g) && is_content_error(g, path@, ContentCodecErrorView::SegmentCountOverflow)
            } else {
                r matches Ok(s) && s.path@ == path@ && s.bytes == file_len && s.tombstones == ts.len() && s.postings
                    == count && s.tier == tier_of(*policy, file_len)
            },
            Err(e) => r matches Err(g) && is_content_error(g, path@, e),
        },
{
    let (_, tombstones, count, _) = match read_segment_front(bytes) {
        Ok(x) => x,
        Err(e) => return Err(content_error(path, e)),
    };
    if count > usize::MAX as u64 {
        return Err(content_error(path, ContentCodecError::SegmentCountOverflow));
    }
    Ok(ContentSegmentSummary {
        path: path.to_string(),
        bytes: file_len,
        tombstones: tombstones.len(),
        postings: count as usize,
        tier: policy.tier_for_bytes(file_len),
    })
}

/// Whether `w` is the content posting `p` as written: its term, its ids
/// sorted, and its positions entries as written.
pub open spec fn written_content(p: ContentPosting, w: ContentView) -> bool {
    &&& w.0 == p.term@
    &&& ids_nondecreasing(w.1) && w.1.to_multiset() == p.ids@.to_multiset()
    &&& entries_as_written(positions_views(p.positions@), w.2)
}

/// The bytes of the first `k` postings written in a segment.
pub open spec fn segment_postings_bytes(ws: Seq<ContentView>, k: int) -> Seq<u8>
    decreases k,
{
    if k <= 0 {
        Seq::empty()
    } else {
        segment_postings_bytes(ws, k - 1) + content_posting_bytes(
            ContentStoreVersion::IndexedPositions,
            ws[k - 1].0,
            ws[k - 1].1,
            ws[k - 1].2,
        )
    }
}

/// Whether `ws` are the postings `ps` as written.
pub open spec fn written_contents(ps: Seq<ContentPosting>, ws: Seq<ContentView>) -> bool {
    ws.len() == ps.len() && forall|i: int| 0 <= i < ws.len() ==> written_content(ps[i], #[trigger] ws[i])
}

/// The bytes of the segment `segment`: the magic of a segment with
/// positions, its tombstones sorted and delta-encoded after their number,
/// the number of its postings, then each posting with positions.
pub fn content_segment_bytes(segment: &ContentSegment) -> (bytes: Vec<u8>)
    ensures
        exists|ts: Seq<FileId>, ws: Seq<ContentView>|
            #![trigger written_contents(segment.postings@, ws), delta_bytes(ts)]
            ids_nondecreasing(ts) && ts.to_multiset() == segment.tombstones@.to_multiset() && written_contents(
                segment.postings@,
                ws,
            ) && bytes@ == encode_utf8(segment_magic_v2()) + varint_bytes(segment.tombstones@.len() as u64)
                + delta_bytes(ts) + varint_bytes(segment.postings@.len() as u64) + segment_postings_bytes(
                ws,
                ws.len() as int,
            ),
{
    let mut out: Vec<u8> = Vec::new();
    push_bytes(&mut out, segment_magic_v2_str().as_bytes());
    let ghost start = out@;
    crate::contentcodec::write_plain_ids(&mut out, &segment.tombstones);
    let ghost ts = choose|ts: Seq<FileId>|
        ids_nondecreasing(ts) && ts.to_multiset() == segment.tombstones@.to_multiset() && out@ == start
            + varint_bytes(segment.tombstones@.len() as u64) + #[trigger] delta_bytes(ts);
    write_varint(&mut out, segment.postings.len() as u64);
    let ghost mid = out@;
    let ghost mut ws: Seq<ContentView> = Seq::empty();
    let mut i: usize = 0;
    while i < segment.postings.len()
        invariant
            i <= segment.postings@.len(),
            ws.len() == i,
            forall|j: int| 0 <= j < i ==> written_content(segment.postings@[j], #[trigger] ws[j]),
            out@ == mid + segment_postings_bytes(ws, i as int),
        decreases segment.postings@.len() - i,
    {
        let ghost before = out@;
        crate::contentcodec::write_content_posting(&mut out, &segment.postings[i], ContentStoreVersion::IndexedPositions);
        proof {
            let p = segment.postings@[i as int];
            let (ids, es) = choose|ids: Seq<FileId>, es: Seq<crate::contentcodec::PositionsView>|
                (if crate::contentcodec::has_blocked_ids(ContentStoreVersion::IndexedPositions) {
                    ids == crate::ids::sort_ids(p.ids@)
                } else {
                    ids_nondecreasing(ids) && ids.to_multiset() == p.ids@.to_multiset()
                }) && entries_as_written(positions_views(p.positions@), es) && out@ == before
                    + #[trigger] content_posting_bytes(ContentStoreVersion::IndexedPositions, p.term@, ids, es);
            let w = (p.term@, ids, es);
            let old_ws = ws;
            ws = ws.push(w);
            assert(segment_postings_bytes(ws, i as int) == segment_postings_bytes(old_ws, i as int)) by {
                assert(ws.take(i as int) =~= old_ws);
                lemma_segment_postings_bytes_prefix(ws, old_ws, i as int);
            }
            assert(out@ =~= mid + segment_postings_bytes(ws, i as int + 1));
            assert forall|j: int| 0 <= j < i + 1 implies written_content(segment.postings@[j], #[trigger] ws[j]) by {
                if j < i {
                    assert(ws[j] == old_ws[j]);
                }
            }
        }
        i = i + 1;
    }
    proof {
        assert(written_contents(segment.postings@, ws));
        assert(out@ =~= encode_utf8(segment_magic_v2()) + varint_bytes(segment.tombstones@.len() as u64)
            + delta_bytes(ts) + varint_bytes(segment.postings@.len() as u64) + segment_postings_bytes(
            ws,
            ws.len() as int,
        ));
    }
    out
}

proof fn lemma_segment_postings_bytes_prefix(a: Seq<ContentView>, b: Seq<ContentView>, k: int)
    requires
        0 <= k <= b.len(),
        k <= a.len(),
        forall|j: int| 0 <= j < k ==> a[j] == b[j],
    ensures
        segment_postings_bytes(a, k) == segment_postings_bytes(b, k),
    decreases k,
{
    if k > 0 {
        lemma_segment_postings_bytes_prefix(a, b, k - 1);
    }
}

} // verus!
