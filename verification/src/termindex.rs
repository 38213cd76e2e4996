use vstd::prelude::*;
use vstd::utf8::{decode_utf8, encode_utf8, valid_utf8};

use crate::codec::{checksum_footer_check, verify_checksum_footer, IntegrityError};
use crate::error::GfmError;
use crate::ids::{blocked_block_decode, blocked_for_volume, blocked_limited, varint_at, IdsError};
use crate::ids::{read_blocked_file_id_block_from_slice, read_blocked_file_ids_for_volume_limited, read_blocked_file_ids_limited};
use crate::terms::{gram_chars, is_substring_gram, normalize, normalized};
use crate::text::str_equal;
use crate::postings::{
    prefix_entries, substring_entries, LimitedPrefixPosting, LimitedSubstringPosting, PrefixPosting, SubstringPosting,
};
use crate::types::{FileId, VolumeId};
use crate::order::{string_views, lemma_seq_less_irreflexive, lemma_seq_less_total, lemma_seq_less_transitive, seq_less, str_less};
use crate::termarchive::{
    archive_varint, checksum_str, checksum_text, index_footer_str, index_footer_text, magic_str, magic_text,
    error_view, header_at, posting_views, is_store_error, push_bytes, read_header, read_record, record_at, TermPostingView, store_error, utf8_error_text, utf8_text, TermArchiveError, TermArchiveErrorView, TermArchiveKind,
};

verus! {

/// The plain value of a directory entry: a term, and where its posting
/// starts and how long it is.
pub type DirView = (Seq<char>, u64, u64);

/// The little-endian `u64` in the eight bytes at `p`.
pub open spec fn le_u64_at(s: Seq<u8>, p: int) -> u64 {
    (s[p] + 0x100 * s[p + 1] + 0x1_0000 * s[p + 2] + 0x100_0000 * s[p + 3] + 0x1_0000_0000 * s[p + 4]
        + 0x100_0000_0000 * s[p + 5] + 0x1_0000_0000_0000 * s[p + 6] + 0x100_0000_0000_0000 * s[p + 7]) as u64
}

/// Reads the little-endian `u64` in the eight bytes at `p`.
pub(crate) fn read_le64(s: &[u8], p: usize) -> (v: u64)
    requires
        p + 8 <= s@.len(),
    ensures
        v == le_u64_at(s@, p as int),
{
    let v: u64 = s[p] as u64 + 0x100 * (s[p + 1] as u64) + 0x1_0000 * (s[p + 2] as u64) + 0x100_0000 * (
    s[p + 3] as u64) + 0x1_0000_0000 * (s[p + 4] as u64) + 0x100_0000_0000 * (s[p + 5] as u64)
        + 0x1_0000_0000_0000 * (s[p + 6] as u64) + 0x100_0000_0000_0000 * (s[p + 7] as u64);
    v
}

/// The directory entry at `p`: its term after its length, then the
/// posting's offset and length, and the position after it.
pub open spec fn dir_entry_at(sub: Seq<u8>, p: int) -> Result<(DirView, int), TermArchiveErrorView> {
    match varint_at(sub, p) {
        Err(e) => Err(TermArchiveErrorView::Ids(e)),
        Ok((len, p1)) => if len > usize::MAX {
            Err(TermArchiveErrorView::DirectoryTermLengthOverflow)
        } else if p1 + len > sub.len() {
            Err(TermArchiveErrorView::Ids(IdsError::UnexpectedEof))
        } else {
            let tb = sub.subrange(p1, p1 + len);
            if !valid_utf8(tb) {
                Err(TermArchiveErrorView::DirectoryUtf8(utf8_error_text(tb)))
            } else if p1 + len + 16 > sub.len() {
                Err(TermArchiveErrorView::Ids(IdsError::UnexpectedEof))
            } else {
                Ok(((decode_utf8(tb), le_u64_at(sub, p1 + len), le_u64_at(sub, p1 + len + 8)), p1 + len + 16))
            }
        },
    }
}

/// The first `k` directory entries read from `p0` on, and the position
/// after them.
pub open spec fn dir_entries_read(sub: Seq<u8>, p0: int, k: int) -> Result<(Seq<DirView>, int), TermArchiveErrorView>
    decreases k,
{
    if k <= 0 {
        Ok((Seq::empty(), p0))
    } else {
        match dir_entries_read(sub, p0, k - 1) {
            Err(e) => Err(e),
            Ok((es, p)) => match dir_entry_at(sub, p) {
                Err(e) => Err(e),
                Ok((x, q)) => Ok((es.push(x), q)),
            },
        }
    }
}

proof fn lemma_dir_entries_read_err(sub: Seq<u8>, p0: int, k: int, n: int)
    requires
        0 <= k <= n,
        dir_entries_read(sub, p0, k) is Err,
    ensures
        dir_entries_read(sub, p0, n) == dir_entries_read(sub, p0, k),
    decreases n - k,
{
    if k < n {
        lemma_dir_entries_read_err(sub, p0, k + 1, n);
    }
}

/// The directory of an archive as written, before it is sorted: the magic
/// and the checksum footer are checked, then the directory is found from
/// the offset before the index footer and read entry by entry.
pub open spec fn dir_parse(k: TermArchiveKind, bytes: Seq<u8>) -> Result<Seq<DirView>, TermArchiveErrorView> {
    let m = encode_utf8(magic_text(k));
    let cm = encode_utf8(checksum_text(k));
    if bytes.len() < m.len() || bytes.take(m.len() as int) != m {
        Err(TermArchiveErrorView::UnsupportedHeader)
    } else {
        match checksum_footer_check(bytes, cm) {
            Ok(false) => Err(TermArchiveErrorView::MissingChecksum),
            Err(_) => Err(TermArchiveErrorView::ChecksumMismatch),
            Ok(true) => {
                let fs = bytes.len() - (4 + cm.len()) - encode_utf8(index_footer_text(k)).len() - 8;
                if fs < 0 {
                    Err(TermArchiveErrorView::DirectoryFooterMissing)
                } else {
                    let off = le_u64_at(bytes, fs);
                    if off > usize::MAX || off >= fs {
                        Err(TermArchiveErrorView::DirectoryOffsetInvalid)
                    } else {
                        let sub = bytes.subrange(off as int, fs);
                        match varint_at(sub, 0) {
                            Err(e) => Err(TermArchiveErrorView::Ids(e)),
                            Ok((count, p)) => match dir_entries_read(sub, p, count as int) {
                                Err(e) => Err(e),
                                Ok((es, _)) => Ok(es),
                            },
                        }
                    }
                }
            },
        }
    }
}

/// One entry of an archive's directory.
#[derive(Debug, Clone, PartialEq, Eq)]
pub struct DirEntry {
    pub term: String,
    pub offset: u64,
    pub len: u64,
}

/// The plain values of directory entries.
pub open spec fn dir_views(es: Seq<DirEntry>) -> Seq<DirView> {
    es.map_values(|e: DirEntry| (e.term@, e.offset, e.len))
}

/// Directory entries whose terms do not go down.
pub open spec fn dir_sorted(d: Seq<DirView>) -> bool {
    forall|i: int, j: int| 0 <= i < j < d.len() ==> !seq_less(#[trigger] d[j].0, #[trigger] d[i].0)
}

/// Reads the directory entry at `p`.
fn read_dir_entry(sub: &[u8], p: usize) -> (r: Result<(DirEntry, usize), TermArchiveError>)
    requires
        p <= sub@.len(),
    ensures
        match dir_entry_at(sub@, p as int) {
            Ok((x, q)) => r matches Ok((v, e)) && (v.term@, v.offset, v.len) == x && e as int == q && q
                <= sub@.len(),
            Err(e) => r matches Err(g) && crate::termarchive::error_view(g) == e,
        },
{
    let (len, p1) = match archive_varint(sub, p) {
        Ok(x) => x,
        Err(e) => return Err(e),
    };
    if len > usize::MAX as u64 {
        return Err(TermArchiveError::DirectoryTermLengthOverflow);
    }
    let l = len as usize;
    if l > sub.len() - p1 {
        return Err(TermArchiveError::Ids(IdsError::UnexpectedEof));
    }
    let mut tb: Vec<u8> = Vec::new();
    push_bytes(&mut tb, vstd::slice::slice_subrange(sub, p1, p1 + l));
    let term = match utf8_text(tb) {
        Ok(t) => t,
        Err(m) => return Err(TermArchiveError::DirectoryUtf8(m)),
    };
    let p2 = p1 + l;
    if 16 > sub.len() - p2 {
        return Err(TermArchiveError::Ids(IdsError::UnexpectedEof));
    }
    let offset = read_le64(sub, p2);
    let len = read_le64(sub, p2 + 8);
    Ok((DirEntry { term, offset, len }, p2 + 16))
}

/// The first entry of the sorted directory with the term `t`, or the
/// directory's length.
pub(crate) fn find_sorted(directory: &Vec<DirEntry>, t: &str) -> (i: usize)
    requires
        dir_sorted(dir_views(directory@)),
    ensures
        i == find_entry(dir_views(directory@), t@),
{
    let ghost d = dir_views(directory@);
    let mut lo: usize = 0;
    let mut hi: usize = directory.len();
    while lo < hi
        invariant
            d == dir_views(directory@),
            dir_sorted(d),
            0 <= lo <= hi <= d.len(),
            forall|j: int| 0 <= j < lo ==> seq_less(#[trigger] d[j].0, t@),
            forall|j: int| hi <= j < d.len() ==> !seq_less(#[trigger] d[j].0, t@),
        decreases hi - lo,
    {
        let mid = lo + (hi - lo) / 2;
        proof {
            assert(d[mid as int].0 == directory@[mid as int].term@);
        }
        if str_less(directory[mid].term.as_str(), t) {
            proof {
                assert forall|j: int| 0 <= j < mid + 1 implies seq_less(#[trigger] d[j].0, t@) by {
                    if j < mid && d[j].0 != d[mid as int].0 {
                        lemma_seq_less_total(d[j].0, d[mid as int].0);
                        lemma_seq_less_transitive(d[j].0, d[mid as int].0, t@);
                    }
                }
            }
            lo = mid + 1;
        } else {
            proof {
                assert forall|j: int| mid <= j < d.len() implies !seq_less(#[trigger] d[j].0, t@) by {
                    if j > mid && seq_less(d[j].0, t@) && d[j].0 != d[mid as int].0 {
                        lemma_seq_less_total(d[j].0, d[mid as int].0);
                        lemma_seq_less_transitive(d[mid as int].0, d[j].0, t@);
                    }
                }
            }
            hi = mid;
        }
    }
    proof {
        assert forall|j: int| 0 <= j < lo implies #[trigger] d[j].0 != t@ by {
            lemma_seq_less_irreflexive(t@);
        }
        lemma_first_index_skip(d, t@, 0, lo as int);
    }
    if lo < directory.len() && str_equal(directory[lo].term.as_str(), t) {
        lo
    } else {
        proof {
            if lo < d.len() {
                assert(d[lo as int].0 == directory@[lo as int].term@);
                assert forall|j: int| lo <= j < d.len() implies #[trigger] d[j].0 != t@ by {
                    if j > lo && d[j].0 == t@ {
                        lemma_seq_less_total(d[lo as int].0, t@);
                    }
                }
            }
            lemma_first_index_skip(d, t@, lo as int, d.len() as int);
        }
        directory.len()
    }
}


/// The entries sorted by term, those with the same term in their order.
pub(crate) fn sort_dir(es: Vec<DirEntry>) -> (s: Vec<DirEntry>)
    ensures
        dir_views(s@).to_multiset() == dir_views(es@).to_multiset(),
        dir_sorted(dir_views(s@)),
{
    let mut s: Vec<DirEntry> = Vec::new();
    let mut rest = es;
    let ghost all = dir_views(rest@);
    let mut i: usize = 0;
    let n = rest.len();
    proof {
        assert(all.take(0) =~= Seq::<DirView>::empty());
        assert(dir_views(s@) =~= Seq::<DirView>::empty());
    }
    while i < n
        invariant
            n == rest@.len(),
            all == dir_views(rest@),
            i <= n,
            dir_views(s@).to_multiset() == all.take(i as int).to_multiset(),
            dir_sorted(dir_views(s@)),
        decreases n - i,
    {
        let x = DirEntry { term: rest[i].term.clone(), offset: rest[i].offset, len: rest[i].len };
        let ghost sv = dir_views(s@);
        let ghost xv = (x.term@, x.offset, x.len);
        proof {
            assert(all[i as int] == xv);
        }
        let mut k: usize = 0;
        let mut stop = false;
        while k < s.len() && !stop
            invariant
                sv == dir_views(s@),
                dir_sorted(sv),
                xv == (x.term@, x.offset, x.len),
                k <= sv.len(),
                forall|j: int| 0 <= j < k ==> !seq_less(xv.0, #[trigger] sv[j].0),
                stop ==> k < sv.len() && seq_less(xv.0, sv[k as int].0),
            decreases sv.len() - k + if stop { 0int } else { 1int },
        {
            proof {
                assert(sv[k as int].0 == s@[k as int].term@);
            }
            if str_less(x.term.as_str(), s[k].term.as_str()) {
                stop = true;
            } else {
                k = k + 1;
            }
        }
        s.insert(k, x);
        proof {
            let nv = dir_views(s@);
            assert(nv =~= sv.insert(k as int, xv));
            assert(all.take(i as int + 1) =~= all.take(i as int).push(xv));
            vstd::seq_lib::to_multiset_insert(sv, k as int, xv);
            vstd::seq_lib::to_multiset_build(all.take(i as int), xv);
            assert forall|a: int, b: int| 0 <= a < b < nv.len() implies !seq_less(#[trigger] nv[b].0, #[trigger] nv[a].0) by {
                if b < k {
                    assert(nv[a] == sv[a] && nv[b] == sv[b]);
                } else if b == k {
                    assert(nv[a] == sv[a]);
                } else if a == k {
                    assert(nv[b] == sv[b - 1]);
                    if seq_less(sv[b - 1].0, xv.0) {
                        if b - 1 == k {
                            lemma_seq_less_irreflexive(xv.0);
                            lemma_seq_less_transitive(xv.0, sv[k as int].0, xv.0);
                        } else {
                            lemma_seq_less_transitive(sv[b - 1].0, xv.0, sv[k as int].0);
                        }
                    }
                } else if a < k {
                    assert(nv[a] == sv[a] && nv[b] == sv[b - 1]);
                } else {
                    assert(nv[a] == sv[a - 1] && nv[b] == sv[b - 1]);
                }
            }
        }
        i = i + 1;
    }
    proof {
        assert(all.take(i as int) =~= all);
    }
    s
}

/// Reads the directory of an archive as written, before it is sorted.
fn parse_directory(k: TermArchiveKind, bytes: &[u8]) -> (r: Result<Vec<DirEntry>, TermArchiveError>)
    ensures
        match dir_parse(k, bytes@) {
            Ok(es) => r matches Ok(v) && dir_views(v@) == es,
            Err(e) => r matches Err(g) && crate::termarchive::error_view(g) == e,
        },
{
    let m = magic_str(k).as_bytes();
    proof {
        assert(m@ == encode_utf8(magic_text(k)));
    }
    if bytes.len() < m.len() {
        return Err(TermArchiveError::UnsupportedHeader);
    }
    let mut i: usize = 0;
    while i < m.len()
        invariant
            m@ == encode_utf8(magic_text(k)),
            m@.len() <= bytes@.len(),
            i <= m@.len(),
            forall|j: int| 0 <= j < i ==> bytes@[j] == m@[j],
        decreases m@.len() - i,
    {
        if bytes[i] != m[i] {
            proof {
                assert(bytes@.take(m@.len() as int)[i as int] != m@[i as int]);
            }
            return Err(TermArchiveError::UnsupportedHeader);
        }
        i = i + 1;
    }
    proof {
        assert(bytes@.take(m@.len() as int) =~= m@);
    }
    let cm = checksum_str(k).as_bytes();
    match verify_checksum_footer(bytes, cm) {
        Ok(true) => {},
        Ok(false) => return Err(TermArchiveError::MissingChecksum),
        Err(_) => return Err(TermArchiveError::ChecksumMismatch),
    }
    let indexed = bytes.len() - (4 + cm.len());
    let idx = index_footer_str(k).as_bytes().len();
    if indexed < 8 || indexed - 8 < idx {
        return Err(TermArchiveError::DirectoryFooterMissing);
    }
    let fs = indexed - 8 - idx;
    let off = read_le64(bytes, fs);
    if off > usize::MAX as u64 {
        return Err(TermArchiveError::DirectoryOffsetInvalid);
    }
    if off as usize >= fs {
        return Err(TermArchiveError::DirectoryOffsetInvalid);
    }
    let sub = vstd::slice::slice_subrange(bytes, off as usize, fs);
    let (count, p0) = match archive_varint(sub, 0) {
        Ok(x) => x,
        Err(e) => return Err(e),
    };
    let mut es: Vec<DirEntry> = Vec::new();
    let mut p: usize = p0;
    let mut c: u64 = 0;
    let ghost whole = dir_entries_read(sub@, p0 as int, count as int);
    proof {
        assert(dir_views(es@) =~= Seq::<DirView>::empty());
        assert(dir_parse(k, bytes@) == match whole {
            Err(e) => Err(e),
            Ok((v, _)) => Ok::<Seq<DirView>, TermArchiveErrorView>(v),
        });
    }
    while c < count
        invariant
            whole == dir_entries_read(sub@, p0 as int, count as int),
            dir_parse(k, bytes@) == match whole {
                Err(e) => Err(e),
                Ok((v, _)) => Ok::<Seq<DirView>, TermArchiveErrorView>(v),
            },
            c <= count,
            p <= sub@.len(),
            dir_entries_read(sub@, p0 as int, c as int) == Ok::<(Seq<DirView>, int), TermArchiveErrorView>(
                (dir_views(es@), p as int),
            ),
        decreases count - c,
    {
        match read_dir_entry(sub, p) {
            Ok((x, q)) => {
                let ghost before = dir_views(es@);
                es.push(x);
                proof {
                    assert(dir_views(es@) =~= before.push((x.term@, x.offset, x.len)));
                }
                p = q;
            },
            Err(e) => {
                proof {
                    lemma_dir_entries_read_err(sub@, p0 as int, c as int + 1, count as int);
                }
                return Err(e);
            },
        }
        c = c + 1;
    }
    Ok(es)
}

/// Whether the archive can hold the lookup term `t`: a prefix or a fuzzy
/// key that is not empty, a gram of three characters.
pub open spec fn term_accepted(k: TermArchiveKind, t: Seq<char>) -> bool {
    match k {
        TermArchiveKind::Prefix => t.len() > 0,
        TermArchiveKind::Substring => t.len() == gram_chars(),
        TermArchiveKind::Fuzzy => t.len() > 0,
    }
}

/// The first position from `i` on whose entry has the term `t`, or the
/// directory's length.
pub open spec fn first_index(d: Seq<DirView>, t: Seq<char>, i: int) -> int
    decreases d.len() - i,
{
    if i < 0 || i >= d.len() {
        d.len() as int
    } else if d[i].0 == t {
        i
    } else {
        first_index(d, t, i + 1)
    }
}

/// The first entry with the term `t`, or the directory's length.
pub open spec fn find_entry(d: Seq<DirView>, t: Seq<char>) -> int {
    first_index(d, t, 0)
}

proof fn lemma_first_index_skip(d: Seq<DirView>, t: Seq<char>, a: int, b: int)
    requires
        0 <= a <= b <= d.len(),
        forall|j: int| a <= j < b ==> #[trigger] d[j].0 != t,
    ensures
        first_index(d, t, a) == first_index(d, t, b),
    decreases b - a,
{
    if a < b {
        lemma_first_index_skip(d, t, a + 1, b);
    }
}

/// The range of the archive's bytes a directory entry points at.
pub open spec fn posting_range(bytes: Seq<u8>, e: DirView) -> Result<(int, int), TermArchiveErrorView> {
    if e.1 > usize::MAX {
        Err(TermArchiveErrorView::PostingOffsetOverflow)
    } else if e.2 > usize::MAX {
        Err(TermArchiveErrorView::PostingLengthOverflow)
    } else if e.1 + e.2 > usize::MAX {
        Err(TermArchiveErrorView::PostingRangeOverflow)
    } else if e.1 + e.2 > bytes.len() {
        Err(TermArchiveErrorView::PostingOutOfBounds)
    } else {
        Ok((e.1 as int, e.1 + e.2))
    }
}

/// The posting a directory entry points at.
pub open spec fn posting_of_entry(bytes: Seq<u8>, e: DirView) -> Result<TermPostingView, TermArchiveErrorView> {
    match posting_range(bytes, e) {
        Err(x) => Err(x),
        Ok((a, b)) => match record_at(bytes.subrange(a, b), 0) {
            Err(x) => Err(x),
            Ok((p, _)) => Ok(p),
        },
    }
}

/// The posting of the normalized term `q`: none for a term the archive
/// cannot hold or does not list, else the posting of its first directory
/// entry, which must carry the term.
pub open spec fn posting_lookup(k: TermArchiveKind, d: Seq<DirView>, bytes: Seq<u8>, q: Seq<char>) -> Result<
    Option<TermPostingView>,
    TermArchiveErrorView,
> {
    let t = normalized(q);
    let i = find_entry(d, t);
    if !term_accepted(k, t) || i >= d.len() {
        Ok(None)
    } else {
        match posting_of_entry(bytes, d[i]) {
            Err(x) => Err(x),
            Ok(p) => if p.0 == t {
                Ok(Some(p))
            } else {
                Err(TermArchiveErrorView::WrongPosting)
            },
        }
    }
}

/// A posting cut to a limit: its term, its first ids, and whether more
/// were there.
pub type LimitedView = (Seq<char>, Seq<FileId>, bool);

/// The first `limit` of `ids`.
pub open spec fn capped(ids: Seq<FileId>, limit: int) -> Seq<FileId> {
    if ids.len() > limit {
        ids.take(limit)
    } else {
        ids
    }
}

/// One more than `limit`, short of overflow.
pub open spec fn one_more(limit: usize) -> int {
    if limit == usize::MAX {
        limit as int
    } else {
        limit + 1
    }
}

/// The posting an entry points at, cut to `limit` ids: its header must
/// carry the entry's term; one id more than the limit is read to tell
/// whether more were there.
pub open spec fn limited_of_entry(bytes: Seq<u8>, e: DirView, limit: usize) -> Result<LimitedView, TermArchiveErrorView> {
    match posting_range(bytes, e) {
        Err(x) => Err(x),
        Ok((a, b)) => {
            let s = bytes.subrange(a, b);
            match header_at(s, 0) {
                Err(x) => Err(x),
                Ok((t, p)) => if t != e.0 {
                    Err(TermArchiveErrorView::WrongPosting)
                } else {
                    match blocked_limited(s.skip(p), one_more(limit)) {
                        Err(x) => Err(TermArchiveErrorView::Ids(x)),
                        Ok((ids, _, _)) => Ok((t, capped(ids, limit as int), ids.len() > limit)),
                    }
                },
            }
        },
    }
}

/// The first `limit` ids of the normalized term `q`, and whether more
/// were there: none for a limit of zero or a term the archive cannot hold
/// or does not list.
pub open spec fn limited_lookup(k: TermArchiveKind, d: Seq<DirView>, bytes: Seq<u8>, q: Seq<char>, limit: usize) -> Result<
    (Seq<FileId>, bool),
    TermArchiveErrorView,
> {
    let t = normalized(q);
    let i = find_entry(d, t);
    if !term_accepted(k, t) || limit == 0 || i >= d.len() {
        Ok((Seq::empty(), false))
    } else {
        match limited_of_entry(bytes, d[i], limit) {
            Err(x) => Err(x),
            Ok((_, ids, more)) => Ok((ids, more)),
        }
    }
}

/// The first `limit` ids in `volume` of the normalized term `q`, and
/// whether more were there.
pub open spec fn volume_lookup(
    k: TermArchiveKind,
    d: Seq<DirView>,
    bytes: Seq<u8>,
    q: Seq<char>,
    volume: u64,
    limit: usize,
) -> Result<(Seq<FileId>, bool), TermArchiveErrorView> {
    let t = normalized(q);
    let i = find_entry(d, t);
    if !term_accepted(k, t) || limit == 0 || i >= d.len() {
        Ok((Seq::empty(), false))
    } else {
        match posting_range(bytes, d[i]) {
            Err(x) => Err(x),
            Ok((a, b)) => {
                let s = bytes.subrange(a, b);
                match header_at(s, 0) {
                    Err(x) => Err(x),
                    Ok((h, p)) => if h != d[i].0 {
                        Err(TermArchiveErrorView::WrongPosting)
                    } else {
                        match blocked_for_volume(s.skip(p), volume, limit as int) {
                            Err(x) => Err(TermArchiveErrorView::Ids(x)),
                            Ok(r) => Ok(r),
                        }
                    },
                }
            },
        }
    }
}

/// The ids of block `index` of the normalized term `q`: none for a term
/// the archive cannot hold or does not list.
pub open spec fn block_lookup(k: TermArchiveKind, d: Seq<DirView>, bytes: Seq<u8>, q: Seq<char>, index: usize) -> Result<
    Seq<FileId>,
    TermArchiveErrorView,
> {
    let t = normalized(q);
    let i = find_entry(d, t);
    if !term_accepted(k, t) || i >= d.len() {
        Ok(Seq::empty())
    } else {
        match posting_range(bytes, d[i]) {
            Err(x) => Err(x),
            Ok((a, b)) => {
                let s = bytes.subrange(a, b);
                match header_at(s, 0) {
                    Err(x) => Err(x),
                    Ok((_, p)) => match blocked_block_decode(s.skip(p), index as int) {
                        Err(x) => Err(TermArchiveErrorView::Ids(x)),
                        Ok(ids) => Ok(ids),
                    },
                }
            },
        }
    }
}

/// The postings of the first `n` directory entries, in order.
pub open spec fn all_postings(d: Seq<DirView>, bytes: Seq<u8>, n: int) -> Result<Seq<TermPostingView>, TermArchiveErrorView>
    decreases n,
{
    if n <= 0 {
        Ok(Seq::empty())
    } else {
        match all_postings(d, bytes, n - 1) {
            Err(x) => Err(x),
            Ok(ps) => match posting_of_entry(bytes, d[n - 1]) {
                Err(x) => Err(x),
                Ok(p) => Ok(ps.push(p)),
            },
        }
    }
}

/// The first position from `i` on whose term does not come before `t`,
/// or the directory's length.
pub open spec fn advance(d: Seq<DirView>, i: int, t: Seq<char>) -> int
    decreases d.len() - i,
{
    if i < 0 || i >= d.len() {
        i
    } else if seq_less(d[i].0, t) {
        advance(d, i + 1, t)
    } else {
        i
    }
}

/// The state of a batch lookup after some terms: the postings found, the
/// directory position reached, and the last term looked up.
pub type BatchState = (Seq<LimitedView>, int, Option<Seq<char>>);

/// A batch lookup over the first `n` terms: each normalized term the
/// archive can hold, in order, must not come before the one before it; a
/// repeat is skipped; the directory is scanned forward to the term, and
/// where an entry has it, its posting cut to `limit` ids is kept.
pub open spec fn batch_scan(
    k: TermArchiveKind,
    d: Seq<DirView>,
    bytes: Seq<u8>,
    terms: Seq<Seq<char>>,
    limit: usize,
    n: int,
) -> Result<BatchState, TermArchiveErrorView>
    decreases n,
{
    if n <= 0 {
        Ok((Seq::empty(), 0, None))
    } else {
        match batch_scan(k, d, bytes, terms, limit, n - 1) {
            Err(e) => Err(e),
            Ok((out, i, prev)) => {
                let t = normalized(terms[n - 1]);
                if !term_accepted(k, t) {
                    Ok((out, i, prev))
                } else if prev matches Some(pv) && seq_less(t, pv) {
                    Err(TermArchiveErrorView::BatchUnsorted)
                } else if prev == Some(t) {
                    Ok((out, i, prev))
                } else {
                    let j = advance(d, i, t);
                    if j < d.len() && d[j].0 == t {
                        match limited_of_entry(bytes, d[j], limit) {
                            Err(e) => Err(e),
                            Ok(x) => Ok((out.push(x), j, Some(t))),
                        }
                    } else {
                        Ok((out, j, Some(t)))
                    }
                }
            },
        }
    }
}

/// The postings of a batch lookup of sorted terms, each cut to `limit`
/// ids; none for a limit of zero.
pub open spec fn batch_lookup(k: TermArchiveKind, d: Seq<DirView>, bytes: Seq<u8>, terms: Seq<Seq<char>>, limit: usize) -> Result<
    Seq<LimitedView>,
    TermArchiveErrorView,
> {
    if limit == 0 {
        Ok(Seq::empty())
    } else {
        match batch_scan(k, d, bytes, terms, limit, terms.len() as int) {
            Err(e) => Err(e),
            Ok((out, _, _)) => Ok(out),
        }
    }
}

proof fn lemma_batch_err(
    k: TermArchiveKind,
    d: Seq<DirView>,
    bytes: Seq<u8>,
    terms: Seq<Seq<char>>,
    limit: usize,
    a: int,
    n: int,
)
    requires
        0 <= a <= n,
        batch_scan(k, d, bytes, terms, limit, a) is Err,
    ensures
        batch_scan(k, d, bytes, terms, limit, n) == batch_scan(k, d, bytes, terms, limit, a),
    decreases n - a,
{
    if a < n {
        lemma_batch_err(k, d, bytes, terms, limit, a + 1, n);
    }
}

/// The plain values of limited postings.
pub open spec fn limited_views(v: Seq<(String, Vec<FileId>, bool)>) -> Seq<LimitedView> {
    v.map_values(|x: (String, Vec<FileId>, bool)| (x.0@, x.1@, x.2))
}

/// The plain value of the last term looked up.
pub open spec fn prev_view(p: Option<String>) -> Option<Seq<char>> {
    match p {
        Some(s) => Some(s@),
        None => None,
    }
}

/// The normalized lookup terms among the first `n` of `terms` that the
/// archive can hold.
pub open spec fn accepted_upto(k: TermArchiveKind, terms: Seq<Seq<char>>, n: int) -> Set<Seq<char>>
    decreases n,
{
    if n <= 0 {
        Set::empty()
    } else {
        let t = normalized(terms[n - 1]);
        if term_accepted(k, t) {
            accepted_upto(k, terms, n - 1).insert(t)
        } else {
            accepted_upto(k, terms, n - 1)
        }
    }
}

/// Terms that go strictly up.
pub open spec fn strictly_sorted(s: Seq<Seq<char>>) -> bool {
    forall|i: int, j: int| 0 <= i < j < s.len() ==> seq_less(#[trigger] s[i], #[trigger] s[j])
}

/// The postings found for the first `n` of `sel`, each looked up as
/// `posting_lookup` does; terms with no posting are left out.
pub open spec fn lookups_over(k: TermArchiveKind, d: Seq<DirView>, bytes: Seq<u8>, sel: Seq<Seq<char>>, n: int) -> Result<
    Seq<TermPostingView>,
    TermArchiveErrorView,
>
    decreases n,
{
    if n <= 0 {
        Ok(Seq::empty())
    } else {
        match lookups_over(k, d, bytes, sel, n - 1) {
            Err(e) => Err(e),
            Ok(ps) => match posting_lookup(k, d, bytes, sel[n - 1]) {
                Err(e) => Err(e),
                Ok(None) => Ok(ps),
                Ok(Some(p)) => Ok(ps.push(p)),
            },
        }
    }
}

proof fn lemma_lookups_err(k: TermArchiveKind, d: Seq<DirView>, bytes: Seq<u8>, sel: Seq<Seq<char>>, a: int, n: int)
    requires
        0 <= a <= n,
        lookups_over(k, d, bytes, sel, a) is Err,
    ensures
        lookups_over(k, d, bytes, sel, n) == lookups_over(k, d, bytes, sel, a),
    decreases n - a,
{
    if a < n {
        lemma_lookups_err(k, d, bytes, sel, a + 1, n);
    }
}

/// Inserts `t` into the strictly sorted terms `sel` unless it is there.
pub(crate) fn insert_sorted_term(sel: &mut Vec<String>, t: String)
    requires
        strictly_sorted(string_views(old(sel)@)),
    ensures
        strictly_sorted(string_views(final(sel)@)),
        string_views(final(sel)@).to_set() == string_views(old(sel)@).to_set().insert(t@),
{
    let ghost sv = string_views(sel@);
    let mut k: usize = 0;
    while k < sel.len() && str_less(sel[k].as_str(), t.as_str())
        invariant
            sv == string_views(sel@),
            strictly_sorted(sv),
            k <= sv.len(),
            forall|j: int| 0 <= j < k ==> seq_less(#[trigger] sv[j], t@),
        decreases sv.len() - k,
    {
        proof {
            assert(sv[k as int] == sel@[k as int]@);
        }
        k = k + 1;
    }
    proof {
        if k < sv.len() {
            assert(sv[k as int] == sel@[k as int]@);
        }
    }
    if k < sel.len() && str_equal(sel[k].as_str(), t.as_str()) {
        proof {
            assert(sv.to_set().contains(t@)) by {
                assert(sv[k as int] == t@);
            }
            assert(sv.to_set().insert(t@) =~= sv.to_set());
        }
        return;
    }
    let ghost tv = t@;
    sel.insert(k, t);
    proof {
        let nv = string_views(sel@);
        assert(nv =~= sv.insert(k as int, tv));
        if k < sv.len() {
            if !seq_less(tv, sv[k as int]) {
                lemma_seq_less_total(tv, sv[k as int]);
            }
        }
        assert forall|j: int| k <= j < sv.len() implies seq_less(tv, #[trigger] sv[j]) by {
            if j > k {
                lemma_seq_less_transitive(tv, sv[k as int], sv[j]);
            }
        }
        assert forall|a: int, b: int| 0 <= a < b < nv.len() implies seq_less(#[trigger] nv[a], #[trigger] nv[b]) by {
            if b < k {
                assert(nv[a] == sv[a] && nv[b] == sv[b]);
            } else if b == k {
                assert(nv[a] == sv[a]);
            } else if a == k {
                assert(nv[b] == sv[b - 1]);
            } else if a < k {
                assert(nv[a] == sv[a] && nv[b] == sv[b - 1]);
                lemma_seq_less_transitive(sv[a], tv, sv[b - 1]);
            } else {
                assert(nv[a] == sv[a - 1] && nv[b] == sv[b - 1]);
            }
        }
        assert forall|x: Seq<char>| nv.to_set().contains(x) <==> sv.to_set().insert(tv).contains(x) by {
            if nv.to_set().contains(x) {
                let i = choose|i: int| 0 <= i < nv.len() && nv[i] == x;
                if i < k {
                    assert(sv[i] == x);
                } else if i > k {
                    assert(sv[i - 1] == x);
                }
            }
            if sv.to_set().contains(x) {
                let i = choose|i: int| 0 <= i < sv.len() && sv[i] == x;
                if i < k {
                    assert(nv[i] == x);
                } else {
                    assert(nv[i + 1] == x);
                }
            }
            if x == tv {
                assert(nv[k as int] == x);
            }
        }
        assert(nv.to_set() =~= sv.to_set().insert(tv));
    }
}

/// Whether an archive of the kind `k` can hold the lookup term `t`.
pub(crate) fn accepts_term(k: TermArchiveKind, t: &str) -> (b: bool)
    ensures
        b == term_accepted(k, t@),
{
    match k {
        TermArchiveKind::Prefix => t.unicode_len() > 0,
        TermArchiveKind::Substring => is_substring_gram(t),
        TermArchiveKind::Fuzzy => t.unicode_len() > 0,
    }
}

/// The normalized terms of `terms` an archive of the kind `k` can hold,
/// sorted and without repeats.
pub(crate) fn select_accepted(k: TermArchiveKind, terms: &Vec<String>) -> (sel: Vec<String>)
    ensures
        strictly_sorted(string_views(sel@)),
        string_views(sel@).to_set() == accepted_upto(k, string_views(terms@), terms@.len() as int),
{
    let ghost tv = string_views(terms@);
    let mut sel: Vec<String> = Vec::new();
    let mut c: usize = 0;
    proof {
        assert(string_views(sel@).to_set() =~= Set::<Seq<char>>::empty());
    }
    while c < terms.len()
        invariant
            tv == string_views(terms@),
            c <= terms@.len(),
            strictly_sorted(string_views(sel@)),
            string_views(sel@).to_set() == accepted_upto(k, tv, c as int),
        decreases terms@.len() - c,
    {
        let t = normalize(terms[c].as_str());
        proof {
            assert(tv[c as int] == terms@[c as int]@);
        }
        if accepts_term(k, t.as_str()) {
            insert_sorted_term(&mut sel, t);
        }
        c = c + 1;
    }
    sel
}

proof fn lemma_all_postings_err(d: Seq<DirView>, bytes: Seq<u8>, k: int, n: int)
    requires
        0 <= k <= n,
        all_postings(d, bytes, k) is Err,
    ensures
        all_postings(d, bytes, n) == all_postings(d, bytes, k),
    decreases n - k,
{
    if k < n {
        lemma_all_postings_err(d, bytes, k + 1, n);
    }
}

/// An archive of postings opened for lookups: its bytes and its directory,
/// sorted by term.
pub struct TermIndex {
    kind: TermArchiveKind,
    path: String,
    bytes: Vec<u8>,
    directory: Vec<DirEntry>,
}

impl TermIndex {
    /// The kind of the archive.
    pub closed spec fn kind_of(&self) -> TermArchiveKind {
        self.kind
    }

    /// Where the archive was read from.
    pub closed spec fn path_of(&self) -> Seq<char> {
        self.path@
    }

    /// The archive's bytes.
    pub closed spec fn bytes_of(&self) -> Seq<u8> {
        self.bytes@
    }

    /// The archive's directory, sorted by term.
    pub closed spec fn dir_of(&self) -> Seq<DirView> {
        dir_views(self.directory@)
    }

    #[verifier::type_invariant]
    spec fn directory_sorted(&self) -> bool {
        dir_sorted(dir_views(self.directory@))
    }

    /// Opens the archive `bytes` read from `path`: checks its magic and
    /// checksum, and reads its directory, sorted by term (entries with the
    /// same term in the order written).
    pub fn open(k: TermArchiveKind, path: &str, bytes: Vec<u8>) -> (r: Result<TermIndex, GfmError>)
        ensures
            match dir_parse(k, bytes@) {
                Ok(es) => r matches Ok(ix) && ix.kind_of() == k && ix.path_of() == path@ && ix.bytes_of()
                    == bytes@ && ix.dir_of().to_multiset() == es.to_multiset() && dir_sorted(ix.dir_of()),
                Err(e) => r matches Err(g) && is_store_error(g, k, path@, e),
            },
    {
        match parse_directory(k, bytes.as_slice()) {
            Err(e) => Err(store_error(k, path, e)),
            Ok(es) => {
                let directory = sort_dir(es);
                Ok(TermIndex { kind: k, path: path.to_string(), bytes, directory })
            },
        }
    }


    /// The first directory entry with the term `t`, or the directory's
    /// length.
    pub(crate) fn find(&self, t: &str) -> (i: usize)
        ensures
            i == find_entry(self.dir_of(), t@),
    {
        proof {
            use_type_invariant(self);
        }
        find_sorted(&self.directory, t)
    }

    /// The bytes a directory entry points at.
    pub(crate) fn posting_bytes(&self, i: usize) -> (r: Result<&[u8], TermArchiveError>)
        requires
            i < self.dir_of().len(),
        ensures
            match posting_range(self.bytes_of(), self.dir_of()[i as int]) {
                Ok((a, b)) => r matches Ok(s) && s@ == self.bytes_of().subrange(a, b),
                Err(e) => r matches Err(g) && error_view(g) == e,
            },
    {
        let e = &self.directory[i];
        proof {
            assert(self.dir_of()[i as int] == (e.term@, e.offset, e.len));
        }
        if e.offset > usize::MAX as u64 {
            return Err(TermArchiveError::PostingOffsetOverflow);
        }
        if e.len > usize::MAX as u64 {
            return Err(TermArchiveError::PostingLengthOverflow);
        }
        let start = e.offset as usize;
        let len = e.len as usize;
        if len > usize::MAX - start {
            return Err(TermArchiveError::PostingRangeOverflow);
        }
        if start + len > self.bytes.len() {
            return Err(TermArchiveError::PostingOutOfBounds);
        }
        Ok(vstd::slice::slice_subrange(self.bytes.as_slice(), start, start + len))
    }

    /// The posting of the lookup term `q`, after normalizing it.
    pub fn posting_for(&self, q: &str) -> (r: Result<Option<(String, Vec<FileId>)>, GfmError>)
        ensures
            match posting_lookup(self.kind_of(), self.dir_of(), self.bytes_of(), q@) {
                Ok(None) => r matches Ok(None),
                Ok(Some(p)) => r matches Ok(Some(v)) && (v.0@, v.1@) == p,
                Err(e) => r matches Err(g) && is_store_error(g, self.kind_of(), self.path_of(), e),
            },
    {
        let t = normalize(q);
        if !self.accepts(t.as_str()) {
            return Ok(None);
        }
        let i = self.find(t.as_str());
        if i >= self.directory.len() {
            return Ok(None);
        }
        let s = match self.posting_bytes(i) {
            Ok(s) => s,
            Err(e) => return Err(store_error(self.kind, self.path.as_str(), e)),
        };
        match read_record(s, 0) {
            Err(e) => Err(store_error(self.kind, self.path.as_str(), e)),
            Ok((p, _)) => {
                if str_equal(p.0.as_str(), t.as_str()) {
                    Ok(Some(p))
                } else {
                    Err(store_error(self.kind, self.path.as_str(), TermArchiveError::WrongPosting))
                }
            },
        }
    }

    /// Whether the archive can hold the lookup term `t`.
    fn accepts(&self, t: &str) -> (b: bool)
        ensures
            b == term_accepted(self.kind_of(), t@),
    {
        accepts_term(self.kind, t)
    }

    /// The term of directory entry `i`.
    pub(crate) fn entry_term(&self, i: usize) -> (t: &String)
        requires
            i < self.dir_of().len(),
        ensures
            t@ == self.dir_of()[i as int].0,
    {
        &self.directory[i]
            .term
    }

    /// The kind of the archive.
    pub(crate) fn kind(&self) -> (k: TermArchiveKind)
        ensures
            k == self.kind_of(),
    {
        self.kind
    }

    /// Where the archive was read from.
    pub(crate) fn path(&self) -> (p: &str)
        ensures
            p@ == self.path_of(),
    {
        self.path.as_str()
    }

    /// The ids of the lookup term `q`; none where it has no posting.
    pub fn ids_for(&self, q: &str) -> (r: Result<Vec<FileId>, GfmError>)
        ensures
            match posting_lookup(self.kind_of(), self.dir_of(), self.bytes_of(), q@) {
                Ok(None) => r matches Ok(v) && v@ == Seq::<FileId>::empty(),
                Ok(Some(p)) => r matches Ok(v) && v@ == p.1,
                Err(e) => r matches Err(g) && is_store_error(g, self.kind_of(), self.path_of(), e),
            },
    {
        match self.posting_for(q) {
            Ok(Some(p)) => Ok(p.1),
            Ok(None) => Ok(Vec::new()),
            Err(g) => Err(g),
        }
    }

    /// The posting an entry points at, cut to `limit` ids.
    fn limited_for_entry(&self, i: usize, limit: usize) -> (r: Result<(String, Vec<FileId>, bool), TermArchiveError>)
        requires
            i < self.dir_of().len(),
        ensures
            match limited_of_entry(self.bytes_of(), self.dir_of()[i as int], limit) {
                Ok(x) => r matches Ok(v) && (v.0@, v.1@, v.2) == x,
                Err(e) => r matches Err(g) && error_view(g) == e,
            },
    {
        let s = match self.posting_bytes(i) {
            Ok(s) => s,
            Err(e) => return Err(e),
        };
        let (t, p) = match read_header(s, 0) {
            Ok(x) => x,
            Err(e) => return Err(e),
        };
        proof {
            assert(self.dir_of()[i as int].0 == self.directory@[i as int].term@);
        }
        if !str_equal(t.as_str(), self.directory[i].term.as_str()) {
            return Err(TermArchiveError::WrongPosting);
        }
        let rest = vstd::slice::slice_subrange(s, p, s.len());
        proof {
            assert(rest@ =~= s@.skip(p as int));
        }
        let wanted = if limit == usize::MAX {
            limit
        } else {
            limit + 1
        };
        match read_blocked_file_ids_limited(rest, wanted) {
            Err(e) => Err(TermArchiveError::Ids(e)),
            Ok((mut ids, _, _)) => {
                let more = ids.len() > limit;
                ids.truncate(limit);
                Ok((t, ids, more))
            },
        }
    }

    /// The first `limit` ids of the lookup term `q`, and whether more were
    /// there.
    pub fn ids_for_limit(&self, q: &str, limit: usize) -> (r: Result<(Vec<FileId>, bool), GfmError>)
        ensures
            match limited_lookup(self.kind_of(), self.dir_of(), self.bytes_of(), q@, limit) {
                Ok((ids, more)) => r matches Ok((v, m)) && v@ == ids && m == more,
                Err(e) => r matches Err(g) && is_store_error(g, self.kind_of(), self.path_of(), e),
            },
    {
        let t = normalize(q);
        if !self.accepts(t.as_str()) || limit == 0 {
            return Ok((Vec::new(), false));
        }
        let i = self.find(t.as_str());
        if i >= self.directory.len() {
            return Ok((Vec::new(), false));
        }
        match self.limited_for_entry(i, limit) {
            Ok((_, ids, more)) => Ok((ids, more)),
            Err(e) => Err(store_error(self.kind, self.path.as_str(), e)),
        }
    }

    /// The first `limit` ids in `volume` of the lookup term `q`, and whether
    /// more were there.
    pub fn ids_for_volume_limit(&self, q: &str, volume: VolumeId, limit: usize) -> (r: Result<(Vec<FileId>, bool), GfmError>)
        ensures
            match volume_lookup(self.kind_of(), self.dir_of(), self.bytes_of(), q@, volume.0, limit) {
                Ok((ids, more)) => r matches Ok((v, m)) && v@ == ids && m == more,
                Err(e) => r matches Err(g) && is_store_error(g, self.kind_of(), self.path_of(), e),
            },
    {
        let t = normalize(q);
        if !self.accepts(t.as_str()) || limit == 0 {
            return Ok((Vec::new(), false));
        }
        let i = self.find(t.as_str());
        if i >= self.directory.len() {
            return Ok((Vec::new(), false));
        }
        let s = match self.posting_bytes(i) {
            Ok(s) => s,
            Err(e) => return Err(store_error(self.kind, self.path.as_str(), e)),
        };
        let (h, p) = match read_header(s, 0) {
            Ok(x) => x,
            Err(e) => return Err(store_error(self.kind, self.path.as_str(), e)),
        };
        proof {
            assert(self.dir_of()[i as int].0 == self.directory@[i as int].term@);
        }
        if !str_equal(h.as_str(), self.directory[i].term.as_str()) {
            return Err(store_error(self.kind, self.path.as_str(), TermArchiveError::WrongPosting));
        }
        let rest = vstd::slice::slice_subrange(s, p, s.len());
        proof {
            assert(rest@ =~= s@.skip(p as int));
        }
        match read_blocked_file_ids_for_volume_limited(rest, volume.0, limit) {
            Ok(x) => Ok(x),
            Err(e) => Err(store_error(self.kind, self.path.as_str(), TermArchiveError::Ids(e))),
        }
    }

    /// The ids of block `index` of the lookup term `q`.
    pub fn id_block_for(&self, q: &str, index: usize) -> (r: Result<Vec<FileId>, GfmError>)
        ensures
            match block_lookup(self.kind_of(), self.dir_of(), self.bytes_of(), q@, index) {
                Ok(ids) => r matches Ok(v) && v@ == ids,
                Err(e) => r matches Err(g) && is_store_error(g, self.kind_of(), self.path_of(), e),
            },
    {
        let t = normalize(q);
        if !self.accepts(t.as_str()) {
            return Ok(Vec::new());
        }
        let i = self.find(t.as_str());
        if i >= self.directory.len() {
            return Ok(Vec::new());
        }
        let s = match self.posting_bytes(i) {
            Ok(s) => s,
            Err(e) => return Err(store_error(self.kind, self.path.as_str(), e)),
        };
        let (_, p) = match read_header(s, 0) {
            Ok(x) => x,
            Err(e) => return Err(store_error(self.kind, self.path.as_str(), e)),
        };
        let rest = vstd::slice::slice_subrange(s, p, s.len());
        proof {
            assert(rest@ =~= s@.skip(p as int));
        }
        match read_blocked_file_id_block_from_slice(rest, index) {
            Ok(ids) => Ok(ids),
            Err(e) => Err(store_error(self.kind, self.path.as_str(), TermArchiveError::Ids(e))),
        }
    }

    /// Every posting, in the directory's order.
    pub fn postings(&self) -> (r: Result<Vec<(String, Vec<FileId>)>, GfmError>)
        ensures
            match all_postings(self.dir_of(), self.bytes_of(), self.dir_of().len() as int) {
                Ok(ps) => r matches Ok(v) && posting_views(v@) == ps,
                Err(e) => r matches Err(g) && is_store_error(g, self.kind_of(), self.path_of(), e),
            },
    {
        let n = self.directory.len();
        let ghost d = self.dir_of();
        let mut out: Vec<(String, Vec<FileId>)> = Vec::new();
        let mut i: usize = 0;
        proof {
            assert(posting_views(out@) =~= Seq::<TermPostingView>::empty());
        }
        while i < n
            invariant
                n == d.len(),
                d == self.dir_of(),
                i <= n,
                all_postings(d, self.bytes_of(), i as int) == Ok::<Seq<TermPostingView>, TermArchiveErrorView>(
                    posting_views(out@),
                ),
            decreases n - i,
        {
            let s = match self.posting_bytes(i) {
                Ok(s) => s,
                Err(e) => {
                    proof {
                        lemma_all_postings_err(d, self.bytes_of(), i as int + 1, n as int);
                    }
                    return Err(store_error(self.kind, self.path.as_str(), e));
                },
            };
            proof {
                reveal(record_at);
            }
            match read_record(s, 0) {
                Err(e) => {
                    proof {
                        lemma_all_postings_err(d, self.bytes_of(), i as int + 1, n as int);
                    }
                    return Err(store_error(self.kind, self.path.as_str(), e));
                },
                Ok((p, _)) => {
                    let ghost before = posting_views(out@);
                    out.push(p);
                    proof {
                        assert(posting_views(out@) =~= before.push((p.0@, p.1@)));
                    }
                },
            }
            i = i + 1;
        }
        Ok(out)
    }

    /// The postings of the sorted lookup terms `terms`, each cut to
    /// `limit` ids, in one forward pass over the directory.
    #[verifier::rlimit(40)]
    pub fn postings_for_sorted_terms_limit(&self, terms: &Vec<String>, limit: usize) -> (r: Result<
        Vec<(String, Vec<FileId>, bool)>,
        GfmError,
    >)
        ensures
            match batch_lookup(self.kind_of(), self.dir_of(), self.bytes_of(), string_views(terms@), limit) {
                Ok(xs) => r matches Ok(v) && limited_views(v@) == xs,
                Err(e) => r matches Err(g) && is_store_error(g, self.kind_of(), self.path_of(), e),
            },
    {
        proof {
            use_type_invariant(self);
        }
        if limit == 0 {
            proof {
                assert(limited_views(Seq::<(String, Vec<FileId>, bool)>::empty()) =~= Seq::<LimitedView>::empty());
            }
            return Ok(Vec::new());
        }
        let ghost d = self.dir_of();
        let ghost tv = string_views(terms@);
        let n = terms.len();
        let mut out: Vec<(String, Vec<FileId>, bool)> = Vec::new();
        let mut idx: usize = 0;
        let mut prev: Option<String> = None;
        let mut c: usize = 0;
        proof {
            assert(limited_views(out@) =~= Seq::<LimitedView>::empty());
        }
        while c < n
            invariant
                n == terms@.len(),
                tv == string_views(terms@),
                d == self.dir_of(),
                limit > 0,
                c <= n,
                idx <= d.len(),
                batch_scan(self.kind_of(), d, self.bytes_of(), tv, limit, c as int) == Ok::<
                    BatchState,
                    TermArchiveErrorView,
                >((limited_views(out@), idx as int, prev_view(prev))),
            decreases n - c,
        {
            let t = normalize(terms[c].as_str());
            proof {
                assert(tv[c as int] == terms@[c as int]@);
            }
            if self.accepts(t.as_str()) {
                let mut skip = false;
                match &prev {
                    Some(pv) => {
                        if str_less(t.as_str(), pv.as_str()) {
                            proof {
                                lemma_batch_err(self.kind_of(), d, self.bytes_of(), tv, limit, c as int + 1, n as int);
                            }
                            return Err(store_error(self.kind, self.path.as_str(), TermArchiveError::BatchUnsorted));
                        }
                        if str_equal(t.as_str(), pv.as_str()) {
                            skip = true;
                        }
                    },
                    None => {},
                }
                if !skip {
                    let ghost i0 = idx as int;
                    while idx < self.directory.len() && str_less(self.directory[idx].term.as_str(), t.as_str())
                        invariant
                            d == self.dir_of(),
                            i0 <= idx <= d.len(),
                            advance(d, idx as int, t@) == advance(d, i0, t@),
                        decreases d.len() - idx,
                    {
                        proof {
                            assert(d[idx as int].0 == self.directory@[idx as int].term@);
                        }
                        idx = idx + 1;
                    }
                    proof {
                        if idx < d.len() {
                            assert(d[idx as int].0 == self.directory@[idx as int].term@);
                        }
                    }
                    if idx < self.directory.len() && str_equal(self.directory[idx].term.as_str(), t.as_str()) {
                        proof {
                            assert(d[idx as int].0 == self.directory@[idx as int].term@);
                        }
                        match self.limited_for_entry(idx, limit) {
                            Ok(x) => {
                                let ghost before = limited_views(out@);
                                out.push(x);
                                proof {
                                    assert(limited_views(out@) =~= before.push((x.0@, x.1@, x.2)));
                                }
                            },
                            Err(e) => {
                                proof {
                                    lemma_batch_err(self.kind_of(), d, self.bytes_of(), tv, limit, c as int + 1, n as int);
                                }
                                return Err(store_error(self.kind, self.path.as_str(), e));
                            },
                        }
                    } else {
                        proof {
                            if idx < d.len() {
                                assert(d[idx as int].0 == self.directory@[idx as int].term@);
                            }
                        }
                    }
                    prev = Some(t);
                }
            }
            c = c + 1;
        }
        proof {
            assert(tv.len() == n);
        }
        Ok(out)
    }

    /// The normalized lookup terms of `terms` the archive can hold, sorted
    /// and without repeats.
    fn select_terms(&self, terms: &Vec<String>) -> (sel: Vec<String>)
        ensures
            strictly_sorted(string_views(sel@)),
            string_views(sel@).to_set() == accepted_upto(self.kind_of(), string_views(terms@), terms@.len() as int),
    {
        select_accepted(self.kind, terms)
    }

    /// The postings of the lookup terms `terms`, normalized, sorted and
    /// without repeats; terms with no posting are left out.
    pub fn postings_for(&self, terms: &Vec<String>) -> (r: Result<Vec<(String, Vec<FileId>)>, GfmError>)
        ensures
            exists|sel: Seq<Seq<char>>|
                strictly_sorted(sel) && sel.to_set() == accepted_upto(self.kind_of(), string_views(terms@), terms@.len() as int)
                    && match #[trigger] lookups_over(self.kind_of(), self.dir_of(), self.bytes_of(), sel, sel.len() as int) {
                    Ok(ps) => r matches Ok(v) && posting_views(v@) == ps,
                    Err(e) => r matches Err(g) && is_store_error(g, self.kind_of(), self.path_of(), e),
                },
    {
        let sel = self.select_terms(terms);
        let ghost sv = string_views(sel@);
        let mut out: Vec<(String, Vec<FileId>)> = Vec::new();
        let mut i: usize = 0;
        proof {
            assert(posting_views(out@) =~= Seq::<TermPostingView>::empty());
        }
        while i < sel.len()
            invariant
                sv == string_views(sel@),
                strictly_sorted(sv),
                sv.to_set() == accepted_upto(self.kind_of(), string_views(terms@), terms@.len() as int),
                i <= sv.len(),
                lookups_over(self.kind_of(), self.dir_of(), self.bytes_of(), sv, i as int) == Ok::<
                    Seq<TermPostingView>,
                    TermArchiveErrorView,
                >(posting_views(out@)),
            decreases sv.len() - i,
        {
            proof {
                assert(sv[i as int] == sel@[i as int]@);
            }
            match self.posting_for(sel[i].as_str()) {
                Ok(Some(p)) => {
                    let ghost before = posting_views(out@);
                    out.push(p);
                    proof {
                        assert(posting_views(out@) =~= before.push((p.0@, p.1@)));
                    }
                },
                Ok(None) => {},
                Err(g) => {
                    proof {
                        lemma_lookups_err(self.kind_of(), self.dir_of(), self.bytes_of(), sv, i as int + 1, sv.len() as int);
                        let r: Result<Vec<(String, Vec<FileId>)>, GfmError> = Err(g);
                        assert(match lookups_over(self.kind_of(), self.dir_of(), self.bytes_of(), sv, sv.len() as int) {
                            Ok(ps) => r matches Ok(v) && posting_views(v@) == ps,
                            Err(e) => r matches Err(g) && is_store_error(g, self.kind_of(), self.path_of(), e),
                        });
                    }
                    return Err(g);
                },
            }
            i = i + 1;
        }
        proof {
            let r: Result<Vec<(String, Vec<FileId>)>, GfmError> = Ok(out);
            assert(match lookups_over(self.kind_of(), self.dir_of(), self.bytes_of(), sv, sv.len() as int) {
                Ok(ps) => r matches Ok(v) && posting_views(v@) == ps,
                Err(e) => r matches Err(g) && is_store_error(g, self.kind_of(), self.path_of(), e),
            });
        }
        Ok(out)
    }

    /// The postings of the lookup terms `terms`, normalized, sorted and
    /// without repeats, each cut to `limit` ids.
    pub fn postings_for_limit(&self, terms: &Vec<String>, limit: usize) -> (r: Result<Vec<(String, Vec<FileId>)>, GfmError>)
        ensures
            exists|sel: Seq<Seq<char>>|
                strictly_sorted(sel) && sel.to_set() == accepted_upto(self.kind_of(), string_views(terms@), terms@.len() as int)
                    && match #[trigger] batch_lookup(self.kind_of(), self.dir_of(), self.bytes_of(), sel, limit) {
                    Ok(xs) => r matches Ok(v) && posting_views(v@) == xs.map_values(|x: LimitedView| (x.0, x.1)),
                    Err(e) => r matches Err(g) && is_store_error(g, self.kind_of(), self.path_of(), e),
                },
    {
        let sel = self.select_terms(terms);
        let ghost sv = string_views(sel@);
        match self.postings_for_sorted_terms_limit(&sel, limit) {
            Err(g) => Err(g),
            Ok(xs) => {
                let ghost xv = limited_views(xs@);
                let mut out: Vec<(String, Vec<FileId>)> = Vec::new();
                let mut i: usize = 0;
                let mut rest = xs;
                let n = rest.len();
                proof {
                    assert(posting_views(out@) =~= xv.map_values(|x: LimitedView| (x.0, x.1)).take(0));
                }
                while i < n
                    invariant
                        n == rest@.len(),
                        xv == limited_views(rest@),
                        i <= n,
                        posting_views(out@) == xv.map_values(|x: LimitedView| (x.0, x.1)).take(i as int),
                    decreases n - i,
                {
                    let t = rest[i].0.clone();
                    let ids = crate::postings::copy_ids(&rest[i].1);
                    let ghost before = posting_views(out@);
                    out.push((t, ids));
                    proof {
                        assert(posting_views(out@) =~= before.push((rest@[i as int].0@, rest@[i as int].1@)));
                        assert(xv.map_values(|x: LimitedView| (x.0, x.1)).take(i as int + 1) =~= xv.map_values(
                            |x: LimitedView| (x.0, x.1),
                        ).take(i as int).push((rest@[i as int].0@, rest@[i as int].1@)));
                    }
                    i = i + 1;
                }
                proof {
                    assert(xv.map_values(|x: LimitedView| (x.0, x.1)).take(n as int) =~= xv.map_values(
                        |x: LimitedView| (x.0, x.1),
                    ));
                }
                Ok(out)
            },
        }
    }

    /// How many entries the directory holds.
    pub fn indexed_terms(&self) -> (n: usize)
        ensures
            n == self.dir_of().len(),
    {
        self.directory.len()
    }

    /// How many bytes the archive holds.
    pub fn mapped_len(&self) -> (n: usize)
        ensures
            n == self.bytes_of().len(),
    {
        self.bytes.len()
    }

    /// Whether the archive ends with a checksum footer that matches it.
    pub fn is_checksummed(&self) -> (b: bool)
        ensures
            b == (checksum_footer_check(self.bytes_of(), encode_utf8(checksum_text(self.kind_of())))
                == Ok::<bool, IntegrityError>(true)),
    {
        match verify_checksum_footer(self.bytes.as_slice(), checksum_str(self.kind).as_bytes()) {
            Ok(b) => b,
            Err(_) => false,
        }
    }
}

/// The plain values of limited prefix postings.
pub open spec fn limited_prefix_views(v: Seq<LimitedPrefixPosting>) -> Seq<LimitedView> {
    v.map_values(|x: LimitedPrefixPosting| (x.posting.prefix@, x.posting.ids@, x.truncated))
}

fn to_prefix_postings(v: Vec<(String, Vec<FileId>)>) -> (r: Vec<PrefixPosting>)
    ensures
        prefix_entries(r@) == posting_views(v@),
{
    let mut out: Vec<PrefixPosting> = Vec::new();
    let mut i: usize = 0;
    while i < v.len()
        invariant
            i <= v@.len(),
            prefix_entries(out@) == posting_views(v@).take(i as int),
        decreases v@.len() - i,
    {
        let t = v[i].0.clone();
        let ids = crate::postings::copy_ids(&v[i].1);
        let ghost before = prefix_entries(out@);
        out.push(PrefixPosting { prefix: t, ids });
        proof {
            assert(prefix_entries(out@) =~= before.push((v@[i as int].0@, v@[i as int].1@)));
            assert(posting_views(v@).take(i as int + 1) =~= posting_views(v@).take(i as int).push(
                (v@[i as int].0@, v@[i as int].1@),
            ));
        }
        i = i + 1;
    }
    proof {
        assert(posting_views(v@).take(i as int) =~= posting_views(v@));
    }
    out
}

fn to_limited_prefix_postings(v: Vec<(String, Vec<FileId>, bool)>) -> (r: Vec<LimitedPrefixPosting>)
    ensures
        limited_prefix_views(r@) == limited_views(v@),
{
    let mut out: Vec<LimitedPrefixPosting> = Vec::new();
    let mut i: usize = 0;
    while i < v.len()
        invariant
            i <= v@.len(),
            limited_prefix_views(out@) == limited_views(v@).take(i as int),
        decreases v@.len() - i,
    {
        let t = v[i].0.clone();
        let ids = crate::postings::copy_ids(&v[i].1);
        let ghost before = limited_prefix_views(out@);
        out.push(LimitedPrefixPosting { posting: PrefixPosting { prefix: t, ids }, truncated: v[i].2 });
        proof {
            assert(limited_prefix_views(out@) =~= before.push((v@[i as int].0@, v@[i as int].1@, v@[i as int].2)));
            assert(limited_views(v@).take(i as int + 1) =~= limited_views(v@).take(i as int).push(
                (v@[i as int].0@, v@[i as int].1@, v@[i as int].2),
            ));
        }
        i = i + 1;
    }
    proof {
        assert(limited_views(v@).take(i as int) =~= limited_views(v@));
    }
    out
}

/// A prefix archive opened for lookups: its bytes, as mapped or read,
/// and its directory sorted by prefix.
pub struct MmapPrefixArchive {
    index: TermIndex,
}

impl MmapPrefixArchive {
    /// The archive behind the lookups.
    pub closed spec fn index(&self) -> TermIndex {
        self.index
    }

    #[verifier::type_invariant]
    spec fn kind_fits(&self) -> bool {
        self.index.kind_of() == TermArchiveKind::Prefix
    }

    /// Opens the prefix archive `bytes` read from `path`.
    pub fn open(path: &str, bytes: Vec<u8>) -> (r: Result<Self, GfmError>)
        ensures
            match dir_parse(TermArchiveKind::Prefix, bytes@) {
                Ok(es) => r matches Ok(a) && a.index().kind_of() == TermArchiveKind::Prefix && a.index().path_of() == path@
                    && a.index().bytes_of() == bytes@ && a.index().dir_of().to_multiset() == es.to_multiset() && dir_sorted(
                    a.index().dir_of(),
                ),
                Err(e) => r matches Err(g) && is_store_error(g, TermArchiveKind::Prefix, path@, e),
            },
    {
        match TermIndex::open(TermArchiveKind::Prefix, path, bytes) {
            Ok(index) => Ok(MmapPrefixArchive { index }),
            Err(g) => Err(g),
        }
    }

    /// The ids of the prefix `q`; none where it has no posting.
    pub fn ids_for(&self, q: &str) -> (r: Result<Vec<FileId>, GfmError>)
        ensures
            match posting_lookup(self.index().kind_of(), self.index().dir_of(), self.index().bytes_of(), q@) {
                Ok(None) => r matches Ok(v) && v@ == Seq::<FileId>::empty(),
                Ok(Some(p)) => r matches Ok(v) && v@ == p.1,
                Err(e) => r matches Err(g) && is_store_error(g, self.index().kind_of(), self.index().path_of(), e),
            },
    {
        self.index.ids_for(q)
    }

    /// The first `limit` ids of the prefix `q`, and whether more were
    /// there.
    pub fn ids_for_limit(&self, q: &str, limit: usize) -> (r: Result<(Vec<FileId>, bool), GfmError>)
        ensures
            match limited_lookup(self.index().kind_of(), self.index().dir_of(), self.index().bytes_of(), q@, limit) {
                Ok((ids, more)) => r matches Ok((v, m)) && v@ == ids && m == more,
                Err(e) => r matches Err(g) && is_store_error(g, self.index().kind_of(), self.index().path_of(), e),
            },
    {
        self.index.ids_for_limit(q, limit)
    }

    /// The first `limit` ids in `volume` of the prefix `q`, and whether
    /// more were there.
    pub fn ids_for_volume_limit(&self, q: &str, volume: VolumeId, limit: usize) -> (r: Result<(Vec<FileId>, bool), GfmError>)
        ensures
            match volume_lookup(self.index().kind_of(), self.index().dir_of(), self.index().bytes_of(), q@, volume.0, limit) {
                Ok((ids, more)) => r matches Ok((v, m)) && v@ == ids && m == more,
                Err(e) => r matches Err(g) && is_store_error(g, self.index().kind_of(), self.index().path_of(), e),
            },
    {
        self.index.ids_for_volume_limit(q, volume, limit)
    }

    /// The postings of the sorted prefixes `terms`, each cut to `limit` ids,
    /// in one forward pass over the directory.
    pub fn postings_for_sorted_prefixes_limit(&self, terms: &Vec<String>, limit: usize) -> (r: Result<Vec<LimitedPrefixPosting>, GfmError>)
        ensures
            match batch_lookup(self.index().kind_of(), self.index().dir_of(), self.index().bytes_of(), string_views(terms@), limit) {
                Ok(xs) => r matches Ok(v) && limited_prefix_views(v@) == xs,
                Err(e) => r matches Err(g) && is_store_error(g, self.index().kind_of(), self.index().path_of(), e),
            },
    {
        match self.index.postings_for_sorted_terms_limit(terms, limit) {
            Ok(v) => Ok(to_limited_prefix_postings(v)),
            Err(g) => Err(g),
        }
    }

    /// Every posting, in the directory's order.
    pub fn postings(&self) -> (r: Result<Vec<PrefixPosting>, GfmError>)
        ensures
            match all_postings(self.index().dir_of(), self.index().bytes_of(), self.index().dir_of().len() as int) {
                Ok(ps) => r matches Ok(v) && prefix_entries(v@) == ps,
                Err(e) => r matches Err(g) && is_store_error(g, self.index().kind_of(), self.index().path_of(), e),
            },
    {
        match self.index.postings() {
            Ok(v) => Ok(to_prefix_postings(v)),
            Err(g) => Err(g),
        }
    }

    /// The postings of the prefixes `terms`, normalized, sorted and without
    /// repeats; prefixes with no posting are left out.
    pub fn postings_for(&self, terms: &Vec<String>) -> (r: Result<Vec<PrefixPosting>, GfmError>)
        ensures
            exists|sel: Seq<Seq<char>>|
                strictly_sorted(sel) && sel.to_set() == accepted_upto(self.index().kind_of(), string_views(terms@), terms@.len() as int)
                    && match #[trigger] lookups_over(self.index().kind_of(), self.index().dir_of(), self.index().bytes_of(), sel, sel.len() as int) {
                    Ok(ps) => r matches Ok(v) && prefix_entries(v@) == ps,
                    Err(e) => r matches Err(g) && is_store_error(g, self.index().kind_of(), self.index().path_of(), e),
                },
    {
        match self.index.postings_for(terms) {
            Ok(v) => Ok(to_prefix_postings(v)),
            Err(g) => Err(g),
        }
    }

    /// The posting of the prefix `q`, after normalizing it.
    pub fn posting_for(&self, q: &str) -> (r: Result<Option<PrefixPosting>, GfmError>)
        ensures
            match posting_lookup(self.index().kind_of(), self.index().dir_of(), self.index().bytes_of(), q@) {
                Ok(None) => r matches Ok(None),
                Ok(Some(p)) => r matches Ok(Some(v)) && (v.prefix@, v.ids@) == p,
                Err(e) => r matches Err(g) && is_store_error(g, self.index().kind_of(), self.index().path_of(), e),
            },
    {
        match self.index.posting_for(q) {
            Ok(Some(p)) => Ok(Some(PrefixPosting { prefix: p.0, ids: p.1 })),
            Ok(None) => Ok(None),
            Err(g) => Err(g),
        }
    }

    /// The ids of block `index` of the prefix `q`.
    pub fn id_block_for(&self, q: &str, index: usize) -> (r: Result<Vec<FileId>, GfmError>)
        ensures
            match block_lookup(self.index().kind_of(), self.index().dir_of(), self.index().bytes_of(), q@, index) {
                Ok(ids) => r matches Ok(v) && v@ == ids,
                Err(e) => r matches Err(g) && is_store_error(g, self.index().kind_of(), self.index().path_of(), e),
            },
    {
        self.index.id_block_for(q, index)
    }

    /// How many prefixes the directory holds.
    pub fn indexed_prefixes(&self) -> (n: usize)
        ensures
            n == self.index().dir_of().len(),
    {
        self.index.indexed_terms()
    }

    /// How many bytes the archive holds.
    pub fn mapped_len(&self) -> (n: usize)
        ensures
            n == self.index().bytes_of().len(),
    {
        self.index.mapped_len()
    }

    /// Whether the archive ends with a checksum footer that matches it.
    pub fn is_checksummed(&self) -> (b: bool)
        ensures
            b == (checksum_footer_check(self.index().bytes_of(), encode_utf8(checksum_text(self.index().kind_of())))
                == Ok::<bool, IntegrityError>(true)),
    {
        self.index.is_checksummed()
    }
}

/// The plain values of limited substring postings.
pub open spec fn limited_substring_views(v: Seq<LimitedSubstringPosting>) -> Seq<LimitedView> {
    v.map_values(|x: LimitedSubstringPosting| (x.posting.gram@, x.posting.ids@, x.truncated))
}

fn to_substring_postings(v: Vec<(String, Vec<FileId>)>) -> (r: Vec<SubstringPosting>)
    ensures
        substring_entries(r@) == posting_views(v@),
{
    let mut out: Vec<SubstringPosting> = Vec::new();
    let mut i: usize = 0;
    while i < v.len()
        invariant
            i <= v@.len(),
            substring_entries(out@) == posting_views(v@).take(i as int),
        decreases v@.len() - i,
    {
        let t = v[i].0.clone();
        let ids = crate::postings::copy_ids(&v[i].1);
        let ghost before = substring_entries(out@);
        out.push(SubstringPosting { gram: t, ids });
        proof {
            assert(substring_entries(out@) =~= before.push((v@[i as int].0@, v@[i as int].1@)));
            assert(posting_views(v@).take(i as int + 1) =~= posting_views(v@).take(i as int).push(
                (v@[i as int].0@, v@[i as int].1@),
            ));
        }
        i = i + 1;
    }
    proof {
        assert(posting_views(v@).take(i as int) =~= posting_views(v@));
    }
    out
}

fn to_limited_substring_postings(v: Vec<(String, Vec<FileId>, bool)>) -> (r: Vec<LimitedSubstringPosting>)
    ensures
        limited_substring_views(r@) == limited_views(v@),
{
    let mut out: Vec<LimitedSubstringPosting> = Vec::new();
    let mut i: usize = 0;
    while i < v.len()
        invariant
            i <= v@.len(),
            limited_substring_views(out@) == limited_views(v@).take(i as int),
        decreases v@.len() - i,
    {
        let t = v[i].0.clone();
        let ids = crate::postings::copy_ids(&v[i].1);
        let ghost before = limited_substring_views(out@);
        out.push(LimitedSubstringPosting { posting: SubstringPosting { gram: t, ids }, truncated: v[i].2 });
        proof {
            assert(limited_substring_views(out@) =~= before.push((v@[i as int].0@, v@[i as int].1@, v@[i as int].2)));
            assert(limited_views(v@).take(i as int + 1) =~= limited_views(v@).take(i as int).push(
                (v@[i as int].0@, v@[i as int].1@, v@[i as int].2),
            ));
        }
        i = i + 1;
    }
    proof {
        assert(limited_views(v@).take(i as int) =~= limited_views(v@));
    }
    out
}

/// A gram archive opened for lookups: its bytes, as mapped or read,
/// and its directory sorted by gram.
pub struct MmapSubstringArchive {
    index: TermIndex,
}

impl MmapSubstringArchive {
    /// The archive behind the lookups.
    pub closed spec fn index(&self) -> TermIndex {
        self.index
    }

    #[verifier::type_invariant]
    spec fn kind_fits(&self) -> bool {
        self.index.kind_of() == TermArchiveKind::Substring
    }

    /// Opens the gram archive `bytes` read from `path`.
    pub fn open(path: &str, bytes: Vec<u8>) -> (r: Result<Self, GfmError>)
        ensures
            match dir_parse(TermArchiveKind::Substring, bytes@) {
                Ok(es) => r matches Ok(a) && a.index().kind_of() == TermArchiveKind::Substring && a.index().path_of() == path@
                    && a.index().bytes_of() == bytes@ && a.index().dir_of().to_multiset() == es.to_multiset() && dir_sorted(
                    a.index().dir_of(),
                ),
                Err(e) => r matches Err(g) && is_store_error(g, TermArchiveKind::Substring, path@, e),
            },
    {
        match TermIndex::open(TermArchiveKind::Substring, path, bytes) {
            Ok(index) => Ok(MmapSubstringArchive { index }),
            Err(g) => Err(g),
        }
    }

    /// The ids of the gram `q`; none where it has no posting.
    pub fn ids_for(&self, q: &str) -> (r: Result<Vec<FileId>, GfmError>)
        ensures
            match posting_lookup(self.index().kind_of(), self.index().dir_of(), self.index().bytes_of(), q@) {
                Ok(None) => r matches Ok(v) && v@ == Seq::<FileId>::empty(),
                Ok(Some(p)) => r matches Ok(v) && v@ == p.1,
                Err(e) => r matches Err(g) && is_store_error(g, self.index().kind_of(), self.index().path_of(), e),
            },
    {
        self.index.ids_for(q)
    }

    /// The first `limit` ids of the gram `q`, and whether more were
    /// there.
    pub fn ids_for_limit(&self, q: &str, limit: usize) -> (r: Result<(Vec<FileId>, bool), GfmError>)
        ensures
            match limited_lookup(self.index().kind_of(), self.index().dir_of(), self.index().bytes_of(), q@, limit) {
                Ok((ids, more)) => r matches Ok((v, m)) && v@ == ids && m == more,
                Err(e) => r matches Err(g) && is_store_error(g, self.index().kind_of(), self.index().path_of(), e),
            },
    {
        self.index.ids_for_limit(q, limit)
    }

    /// The first `limit` ids in `volume` of the gram `q`, and whether
    /// more were there.
    pub fn ids_for_volume_limit(&self, q: &str, volume: VolumeId, limit: usize) -> (r: Result<(Vec<FileId>, bool), GfmError>)
        ensures
            match volume_lookup(self.index().kind_of(), self.index().dir_of(), self.index().bytes_of(), q@, volume.0, limit) {
                Ok((ids, more)) => r matches Ok((v, m)) && v@ == ids && m == more,
                Err(e) => r matches Err(g) && is_store_error(g, self.index().kind_of(), self.index().path_of(), e),
            },
    {
        self.index.ids_for_volume_limit(q, volume, limit)
    }

    /// The postings of the sorted grams `terms`, each cut to `limit` ids,
    /// in one forward pass over the directory.
    pub fn postings_for_sorted_grams_limit(&self, terms: &Vec<String>, limit: usize) -> (r: Result<Vec<LimitedSubstringPosting>, GfmError>)
        ensures
            match batch_lookup(self.index().kind_of(), self.index().dir_of(), self.index().bytes_of(), string_views(terms@), limit) {
                Ok(xs) => r matches Ok(v) && limited_substring_views(v@) == xs,
                Err(e) => r matches Err(g) && is_store_error(g, self.index().kind_of(), self.index().path_of(), e),
            },
    {
        match self.index.postings_for_sorted_terms_limit(terms, limit) {
            Ok(v) => Ok(to_limited_substring_postings(v)),
            Err(g) => Err(g),
        }
    }

    /// Every posting, in the directory's order.
    pub fn postings(&self) -> (r: Result<Vec<SubstringPosting>, GfmError>)
        ensures
            match all_postings(self.index().dir_of(), self.index().bytes_of(), self.index().dir_of().len() as int) {
                Ok(ps) => r matches Ok(v) && substring_entries(v@) == ps,
                Err(e) => r matches Err(g) && is_store_error(g, self.index().kind_of(), self.index().path_of(), e),
            },
    {
        match self.index.postings() {
            Ok(v) => Ok(to_substring_postings(v)),
            Err(g) => Err(g),
        }
    }

    /// The postings of the grams `terms`, normalized, sorted and without
    /// repeats; grams with no posting are left out.
    pub fn postings_for(&self, terms: &Vec<String>) -> (r: Result<Vec<SubstringPosting>, GfmError>)
        ensures
            exists|sel: Seq<Seq<char>>|
                strictly_sorted(sel) && sel.to_set() == accepted_upto(self.index().kind_of(), string_views(terms@), terms@.len() as int)
                    && match #[trigger] lookups_over(self.index().kind_of(), self.index().dir_of(), self.index().bytes_of(), sel, sel.len() as int) {
                    Ok(ps) => r matches Ok(v) && substring_entries(v@) == ps,
                    Err(e) => r matches Err(g) && is_store_error(g, self.index().kind_of(), self.index().path_of(), e),
                },
    {
        match self.index.postings_for(terms) {
            Ok(v) => Ok(to_substring_postings(v)),
            Err(g) => Err(g),
        }
    }

    /// The posting of the gram `q`, after normalizing it.
    pub fn posting_for(&self, q: &str) -> (r: Result<Option<SubstringPosting>, GfmError>)
        ensures
            match posting_lookup(self.index().kind_of(), self.index().dir_of(), self.index().bytes_of(), q@) {
                Ok(None) => r matches Ok(None),
                Ok(Some(p)) => r matches Ok(Some(v)) && (v.gram@, v.ids@) == p,
                Err(e) => r matches Err(g) && is_store_error(g, self.index().kind_of(), self.index().path_of(), e),
            },
    {
        match self.index.posting_for(q) {
            Ok(Some(p)) => Ok(Some(SubstringPosting { gram: p.0, ids: p.1 })),
            Ok(None) => Ok(None),
            Err(g) => Err(g),
        }
    }

    /// The ids of block `index` of the gram `q`.
    pub fn id_block_for(&self, q: &str, index: usize) -> (r: Result<Vec<FileId>, GfmError>)
        ensures
            match block_lookup(self.index().kind_of(), self.index().dir_of(), self.index().bytes_of(), q@, index) {
                Ok(ids) => r matches Ok(v) && v@ == ids,
                Err(e) => r matches Err(g) && is_store_error(g, self.index().kind_of(), self.index().path_of(), e),
            },
    {
        self.index.id_block_for(q, index)
    }

    /// How many grams the directory holds.
    pub fn indexed_grams(&self) -> (n: usize)
        ensures
            n == self.index().dir_of().len(),
    {
        self.index.indexed_terms()
    }

    /// How many bytes the archive holds.
    pub fn mapped_len(&self) -> (n: usize)
        ensures
            n == self.index().bytes_of().len(),
    {
        self.index.mapped_len()
    }

    /// Whether the archive ends with a checksum footer that matches it.
    pub fn is_checksummed(&self) -> (b: bool)
        ensures
            b == (checksum_footer_check(self.index().bytes_of(), encode_utf8(checksum_text(self.index().kind_of())))
                == Ok::<bool, IntegrityError>(true)),
    {
        self.index.is_checksummed()
    }

    /// The postings of the grams `terms`, normalized, sorted and without
    /// repeats, each cut to `limit` ids.
    pub fn postings_for_limit(&self, terms: &Vec<String>, limit: usize) -> (r: Result<Vec<SubstringPosting>, GfmError>)
        ensures
            exists|sel: Seq<Seq<char>>|
                strictly_sorted(sel) && sel.to_set() == accepted_upto(self.index().kind_of(), string_views(terms@), terms@.len() as int)
                    && match #[trigger] batch_lookup(self.index().kind_of(), self.index().dir_of(), self.index().bytes_of(), sel, limit) {
                    Ok(xs) => r matches Ok(v) && substring_entries(v@) == xs.map_values(|x: LimitedView| (x.0, x.1)),
                    Err(e) => r matches Err(g) && is_store_error(g, self.index().kind_of(), self.index().path_of(), e),
                },
    {
        match self.index.postings_for_limit(terms, limit) {
            Ok(v) => Ok(to_substring_postings(v)),
            Err(g) => Err(g),
        }
    }
}

} // verus!
