use vstd::prelude::*;
use vstd::utf8::{decode_utf8, encode_utf8, valid_utf8};

use crate::codec::{
    checksum_footer, checksum_footer_check, varint_bytes, verify_checksum_footer, write_checksum_footer, write_varint,
    IntegrityError,
};
use crate::contentcodec::{
    content_posting_at, entry_sets, lemma_content_posting_round_trip, offsets_increasing,
    content_error, content_posting_bytes, content_view, entries_as_written, is_content_error, positions_views,
    read_posting_at_front, write_content_posting, ContentCodecErrorView, ContentStoreVersion, ContentView, PositionsView,
};
use crate::contentsegment::{content_views, front_is, lemma_segment_postings_err, segment_postings_read};
use crate::error::GfmError;
use crate::ids::{read_varint_at, varint_at, IdsError};
use crate::ids::{ids_nondecreasing, sort_ids};
use crate::termarchive::{le64_bytes, push_bytes, push_le64, utf8_error_text, utf8_text};
use crate::order::string_views;
use crate::order::{seq_less, str_less};
use crate::termindex::{advance, prev_view, insert_sorted_term, strictly_sorted, dir_sorted, dir_views, find_entry, find_sorted, le_u64_at, read_le64, sort_dir, DirEntry, DirView};
use crate::terms::{lower_normalized, normalize_lower};
use crate::text::str_equal;
use crate::types::{file_id_less, ContentPosting, FileId};

verus! {

/// The magic that opens a content archive of the current layout.
pub open spec fn content_magic() -> Seq<char> {
    "gfm-content-v5\n"@
}

/// The magic after a content archive's directory offset.
pub open spec fn content_index_footer() -> Seq<char> {
    "gfm-content-index-v1\n"@
}

/// The magic of a content archive's checksum footer.
pub open spec fn content_checksum_magic() -> Seq<char> {
    "gfm-content-checksum-v1\n"@
}

fn content_magic_str() -> (s: &'static str)
    ensures
        s@ == content_magic(),
{
    "gfm-content-v5\n"
}

fn content_index_footer_str() -> (s: &'static str)
    ensures
        s@ == content_index_footer(),
{
    "gfm-content-index-v1\n"
}

fn content_checksum_magic_str() -> (s: &'static str)
    ensures
        s@ == content_checksum_magic(),
{
    "gfm-content-checksum-v1\n"
}

/// Whether `r` is the record of the posting `p` in the current layout: its
/// term as given, its ids sorted without repeats in blocks, and its
/// positions entries as written.
pub open spec fn record_written(p: ContentPosting, r: Seq<u8>) -> bool {
    exists|ids: Seq<FileId>, es: Seq<PositionsView>|
        ids == sort_ids(p.ids@) && entries_as_written(positions_views(p.positions@), es) && r
            == #[trigger] content_posting_bytes(ContentStoreVersion::IndexedChecksummed, p.term@, ids, es)
}

/// The first `k` records, one after the other.
pub open spec fn records_concat(rs: Seq<Seq<u8>>, k: int) -> Seq<u8>
    decreases k,
{
    if k <= 0 {
        Seq::empty()
    } else {
        records_concat(rs, k - 1) + rs[k - 1]
    }
}

/// The archive's opening: its magic, then the number of postings.
pub open spec fn content_head(n: nat) -> Seq<u8> {
    encode_utf8(content_magic()) + varint_bytes(n as u64)
}

/// The directory entries of the postings `ps` with records `rs`, in the
/// postings' order: each posting's term trimmed and in lower case, where
/// its record starts in the archive and how long it is.
pub open spec fn content_dir_of(ps: Seq<ContentPosting>, rs: Seq<Seq<u8>>) -> Seq<DirView> {
    Seq::new(
        ps.len(),
        |i: int|
            (
                lower_normalized(ps[i].term@),
                (content_head(ps.len()).len() + records_concat(rs, i).len()) as u64,
                rs[i].len() as u64,
            ),
    )
}

/// A directory entry as written: its term in UTF-8 after its length, then
/// the record's offset and length, each as a varint.
pub open spec fn content_dir_record(d: DirView) -> Seq<u8> {
    let tb = encode_utf8(d.0);
    varint_bytes(tb.len() as u64) + tb + varint_bytes(d.1) + varint_bytes(d.2)
}

/// The first `k` directory entries as written.
pub open spec fn content_dir_bytes(d: Seq<DirView>, k: int) -> Seq<u8>
    decreases k,
{
    if k <= 0 {
        Seq::empty()
    } else {
        content_dir_bytes(d, k - 1) + content_dir_record(d[k - 1])
    }
}

/// The archive before its checksum footer: the opening, the records, the
/// number of directory entries and the entries, the offset where that
/// number starts, and the index magic.
pub open spec fn content_archive_body(rs: Seq<Seq<u8>>, d: Seq<DirView>) -> Seq<u8> {
    let head = content_head(rs.len());
    let recs = records_concat(rs, rs.len() as int);
    head + recs + varint_bytes(d.len() as u64) + content_dir_bytes(d, d.len() as int) + le64_bytes(
        (head.len() + recs.len()) as u64,
    ) + encode_utf8(content_index_footer())
}

/// Whether `bytes` are the content archive of the postings `ps`, with
/// records `rs` and directory `d`: each record is its posting's, the
/// directory is the postings' entries sorted by term (entries of equal
/// terms in some order), and the bytes are the body with its checksum
/// footer.
pub open spec fn archive_written(ps: Seq<ContentPosting>, rs: Seq<Seq<u8>>, d: Seq<DirView>, bytes: Seq<u8>) -> bool {
    &&& rs.len() == ps.len()
    &&& forall|i: int| 0 <= i < ps.len() ==> record_written(ps[i], #[trigger] rs[i])
    &&& d.to_multiset() == content_dir_of(ps, rs).to_multiset()
    &&& dir_sorted(d)
    &&& bytes == content_archive_body(rs, d) + checksum_footer(
        content_archive_body(rs, d),
        encode_utf8(content_checksum_magic()),
    )
}

proof fn lemma_records_concat_push(rs: Seq<Seq<u8>>, r: Seq<u8>, k: int)
    requires
        0 <= k <= rs.len(),
    ensures
        records_concat(rs.push(r), k) == records_concat(rs, k),
    decreases k,
{
    if k > 0 {
        lemma_records_concat_push(rs, r, k - 1);
        assert(rs.push(r)[k - 1] == rs[k - 1]);
    }
}

/// The bytes of the content archive of `postings`: each posting's record in
/// the given order, then the directory of their normalized terms sorted.
pub fn content_archive_bytes(postings: &Vec<ContentPosting>) -> (bytes: Vec<u8>)
    ensures
        exists|rs: Seq<Seq<u8>>, d: Seq<DirView>| #[trigger] archive_written(postings@, rs, d, bytes@),
{
    let ghost ps = postings@;
    let n = postings.len();
    let mut out: Vec<u8> = Vec::new();
    push_bytes(&mut out, content_magic_str().as_bytes());
    write_varint(&mut out, n as u64);
    let ghost head = out@;
    proof {
        assert(head == content_head(ps.len()));
    }
    let ghost mut rs: Seq<Seq<u8>> = Seq::empty();
    let mut entries: Vec<DirEntry> = Vec::new();
    let mut i: usize = 0;
    while i < n
        invariant
            ps == postings@,
            n == ps.len(),
            head == content_head(ps.len()),
            i <= n,
            rs.len() == i,
            forall|j: int| 0 <= j < i ==> record_written(ps[j], #[trigger] rs[j]),
            out@ == head + records_concat(rs, i as int),
            entries@.len() == i,
            forall|j: int|
                0 <= j < i ==> #[trigger] dir_views(entries@)[j] == (
                    lower_normalized(ps[j].term@),
                    (head.len() + records_concat(rs, j).len()) as u64,
                    rs[j].len() as u64,
                ),
        decreases n - i,
    {
        let offset = out.len();
        let ghost before = out@;
        write_content_posting(&mut out, &postings[i], ContentStoreVersion::IndexedChecksummed);
        let ghost r = out@.subrange(before.len() as int, out@.len() as int);
        proof {
            let (ids, es) = choose|ids: Seq<FileId>, es: Seq<PositionsView>|
                (if crate::contentcodec::has_blocked_ids(ContentStoreVersion::IndexedChecksummed) {
                    ids == sort_ids(postings@[i as int].ids@)
                } else {
                    crate::ids::ids_nondecreasing(ids) && ids.to_multiset() == postings@[i as int].ids@.to_multiset()
                }) && entries_as_written(positions_views(postings@[i as int].positions@), es) && out@ == before
                    + #[trigger] content_posting_bytes(ContentStoreVersion::IndexedChecksummed, postings@[i as int].term@, ids, es);
            assert(r =~= content_posting_bytes(ContentStoreVersion::IndexedChecksummed, ps[i as int].term@, ids, es));
            assert(record_written(ps[i as int], r));
        }
        let end = out.len();
        let term = normalize_lower(postings[i].term.as_str());
        let ghost old_entries = entries@;
        entries.push(DirEntry { term, offset: offset as u64, len: (end - offset) as u64 });
        proof {
            let rs2 = rs.push(r);
            assert forall|j: int| 0 <= j < i + 1 implies record_written(ps[j], #[trigger] rs2[j]) by {
                if j < i {
                    assert(rs2[j] == rs[j]);
                }
            }
            assert forall|j: int| 0 <= j <= i implies records_concat(rs2, j) == records_concat(rs, j) by {
                lemma_records_concat_push(rs, r, j);
            }
            assert forall|j: int|
                0 <= j < i + 1 implies #[trigger] dir_views(entries@)[j] == (
                    lower_normalized(ps[j].term@),
                    (head.len() + records_concat(rs2, j).len()) as u64,
                    rs2[j].len() as u64,
                ) by {
                if j < i {
                    assert(dir_views(entries@)[j] == dir_views(old_entries)[j]);
                    assert(rs2[j] == rs[j]);
                }
            }
            assert(records_concat(rs2, i as int + 1) == records_concat(rs, i as int) + r);
            assert(out@ =~= head + records_concat(rs2, i as int + 1));
            rs = rs2;
        }
        i = i + 1;
    }
    let ghost dir0 = dir_views(entries@);
    proof {
        assert(dir0 =~= content_dir_of(ps, rs));
    }
    let sorted = sort_dir(entries);
    let ghost d = dir_views(sorted@);
    proof {
        vstd::seq_lib::to_multiset_len(d);
        vstd::seq_lib::to_multiset_len(dir0);
        assert(d.len() == n);
    }
    let dir_offset = out.len() as u64;
    let ghost recs_end = out@;
    write_varint(&mut out, sorted.len() as u64);
    let ghost dir_start = out@;
    let mut k: usize = 0;
    while k < sorted.len()
        invariant
            d == dir_views(sorted@),
            k <= sorted@.len(),
            out@ == dir_start + content_dir_bytes(d, k as int),
        decreases sorted@.len() - k,
    {
        let e = &sorted[k];
        let tb = e.term.as_str().as_bytes();
        write_varint(&mut out, tb.len() as u64);
        push_bytes(&mut out, tb);
        write_varint(&mut out, e.offset);
        write_varint(&mut out, e.len);
        proof {
            assert(d[k as int] == (e.term@, e.offset, e.len));
            assert(out@ =~= dir_start + content_dir_bytes(d, k as int + 1));
        }
        k = k + 1;
    }
    push_le64(&mut out, dir_offset);
    push_bytes(&mut out, content_index_footer_str().as_bytes());
    let ghost body = out@;
    let mut footer: Vec<u8> = Vec::new();
    write_checksum_footer(&mut footer, out.as_slice(), content_checksum_magic_str().as_bytes());
    push_bytes(&mut out, footer.as_slice());
    proof {
        assert(body =~= content_archive_body(rs, d));
        assert(archive_written(ps, rs, d, out@));
    }
    out
}


/// The magics of the older content archive layouts, oldest first.
pub open spec fn content_magic_v1() -> Seq<char> {
    "gfm-content-v1\n"@
}

pub open spec fn content_magic_v2() -> Seq<char> {
    "gfm-content-v2\n"@
}

pub open spec fn content_magic_v3() -> Seq<char> {
    "gfm-content-v3\n"@
}

pub open spec fn content_magic_v4() -> Seq<char> {
    "gfm-content-v4\n"@
}

/// The layout that the magic `m` names, if any.
pub open spec fn content_version_of(m: Seq<u8>) -> Option<ContentStoreVersion> {
    if m == encode_utf8(content_magic()) {
        Some(ContentStoreVersion::IndexedChecksummed)
    } else if m == encode_utf8(content_magic_v4()) {
        Some(ContentStoreVersion::IndexedBlockedPositions)
    } else if m == encode_utf8(content_magic_v3()) {
        Some(ContentStoreVersion::IndexedPositions)
    } else if m == encode_utf8(content_magic_v2()) {
        Some(ContentStoreVersion::IndexedIds)
    } else if m == encode_utf8(content_magic_v1()) {
        Some(ContentStoreVersion::Legacy)
    } else {
        None
    }
}

/// Why reading a content archive fails.
pub enum ContentArchiveFault {
    /// A number, a term, ids or positions could not be read.
    Codec(ContentCodecErrorView),
    /// The archive starts with no content magic.
    UnsupportedHeader,
    /// An archive of the checksummed layout carries no checksum footer.
    MissingChecksum,
    /// The checksum footer does not match the bytes before it.
    ChecksumMismatch,
    /// The archive is of the layout without a directory.
    LegacyNotIndexed,
    /// The directory's offset or its footer is missing.
    DirectoryFooterMissing,
    /// The directory's offset is past its footer.
    DirectoryOffsetInvalid,
    /// A directory term is not UTF-8; the decoder's message.
    DirectoryUtf8(Seq<char>),
    /// A directory entry's record ends past the end of memory.
    PostingRangeOverflow,
    /// A directory entry's record ends past the end of the archive.
    PostingRangeOutOfBounds,
    /// A directory entry leads to a posting of another term.
    WrongTerm,
    /// A directory entry's offset does not fit in memory.
    PostingOffsetOverflow,
    /// A directory entry's length does not fit in memory.
    PostingLengthOverflow,
    /// The terms of a batch lookup go down.
    BatchUnsorted,
}

/// A content archive read from its bytes: the magic, the checksum footer
/// where the layout has one, the number of postings, then each posting in
/// turn.
pub open spec fn content_archive_read(bytes: Seq<u8>) -> Result<Seq<ContentView>, ContentArchiveFault> {
    let n = encode_utf8(content_magic()).len() as int;
    if bytes.len() < n {
        Err(ContentArchiveFault::Codec(ContentCodecErrorView::Ids(IdsError::UnexpectedEof)))
    } else {
        match content_version_of(bytes.take(n)) {
            None => Err(ContentArchiveFault::UnsupportedHeader),
            Some(v) => {
                let check = checksum_footer_check(bytes, encode_utf8(content_checksum_magic()));
                if v == ContentStoreVersion::IndexedChecksummed && check is Err {
                    Err(ContentArchiveFault::ChecksumMismatch)
                } else if v == ContentStoreVersion::IndexedChecksummed && check == Ok::<bool, IntegrityError>(false) {
                    Err(ContentArchiveFault::MissingChecksum)
                } else {
                    match varint_at(bytes, n) {
                        Err(e) => Err(ContentArchiveFault::Codec(ContentCodecErrorView::Ids(e))),
                        Ok((count, p)) => match segment_postings_read(v, bytes, p, count as int) {
                            Err(e) => Err(ContentArchiveFault::Codec(e)),
                            Ok((ps, _)) => Ok(ps),
                        },
                    }
                }
            },
        }
    }
}

/// What a format error of a content archive says after its path.
pub open spec fn fault_reason(f: ContentArchiveFault) -> Seq<char> {
    match f {
        ContentArchiveFault::LegacyNotIndexed => "legacy content archives are not mmap indexed"@,
        ContentArchiveFault::DirectoryFooterMissing => "missing content directory footer"@,
        ContentArchiveFault::DirectoryOffsetInvalid => "invalid content directory offset"@,
        ContentArchiveFault::PostingRangeOverflow => "posting range overflow"@,
        ContentArchiveFault::PostingRangeOutOfBounds => "posting range out of bounds"@,
        ContentArchiveFault::WrongTerm => "content directory points at the wrong term"@,
        ContentArchiveFault::PostingOffsetOverflow => "posting offset overflow"@,
        ContentArchiveFault::PostingLengthOverflow => "posting length overflow"@,
        ContentArchiveFault::BatchUnsorted => "batch content lookup terms must be sorted"@,
        _ => Seq::empty(),
    }
}

/// The directory entry at `p` of the directory bytes `sub`: its term's
/// length and UTF-8 bytes, then its record's offset and length as varints;
/// and the position after it.
pub open spec fn content_dir_entry_at(sub: Seq<u8>, p: int) -> Result<(DirView, int), ContentArchiveFault> {
    match varint_at(sub, p) {
        Err(e) => Err(ContentArchiveFault::Codec(ContentCodecErrorView::Ids(e))),
        Ok((len, p1)) => if p1 + len > sub.len() {
            Err(ContentArchiveFault::Codec(ContentCodecErrorView::Ids(IdsError::UnexpectedEof)))
        } else {
            let tb = sub.subrange(p1, p1 + len);
            if !valid_utf8(tb) {
                Err(ContentArchiveFault::DirectoryUtf8(utf8_error_text(tb)))
            } else {
                match varint_at(sub, p1 + len) {
                    Err(e) => Err(ContentArchiveFault::Codec(ContentCodecErrorView::Ids(e))),
                    Ok((off, p2)) => match varint_at(sub, p2) {
                        Err(e) => Err(ContentArchiveFault::Codec(ContentCodecErrorView::Ids(e))),
                        Ok((l, p3)) => Ok(((decode_utf8(tb), off, l), p3)),
                    },
                }
            }
        },
    }
}

/// The first `k` directory entries read from `p0` on, and the position
/// after them.
pub open spec fn content_dir_entries_read(sub: Seq<u8>, p0: int, k: int) -> Result<(Seq<DirView>, int), ContentArchiveFault>
    decreases k,
{
    if k <= 0 {
        Ok((Seq::empty(), p0))
    } else {
        match content_dir_entries_read(sub, p0, k - 1) {
            Err(e) => Err(e),
            Ok((es, p)) => match content_dir_entry_at(sub, p) {
                Err(e) => Err(e),
                Ok((x, q)) => Ok((es.push(x), q)),
            },
        }
    }
}

/// The length of a content archive before its checksum footer, where its
/// last bytes carry the checksum magic.
pub open spec fn indexed_len(bytes: Seq<u8>) -> int {
    let cm = encode_utf8(content_checksum_magic());
    if bytes.len() < 4 + cm.len() {
        bytes.len() as int
    } else if bytes.skip(bytes.len() - cm.len()) == cm {
        bytes.len() - 4 - cm.len()
    } else {
        bytes.len() as int
    }
}

/// The layout and directory of a content archive opened for lookups: the
/// magic (the layout without a directory refused), the checksum footer
/// where the layout has one, then the directory that the offset before the
/// index magic points at.
pub open spec fn content_dir_parse(bytes: Seq<u8>) -> Result<(ContentStoreVersion, Seq<DirView>), ContentArchiveFault> {
    let n = encode_utf8(content_magic()).len() as int;
    let x = encode_utf8(content_index_footer());
    let cm = encode_utf8(content_checksum_magic());
    if bytes.len() < n || content_version_of(bytes.take(n)) is None {
        Err(ContentArchiveFault::UnsupportedHeader)
    } else {
        let v = content_version_of(bytes.take(n))->Some_0;
        let check = checksum_footer_check(bytes, cm);
        if v == ContentStoreVersion::Legacy {
            Err(ContentArchiveFault::LegacyNotIndexed)
        } else if v == ContentStoreVersion::IndexedChecksummed && check is Err {
            Err(ContentArchiveFault::ChecksumMismatch)
        } else if v == ContentStoreVersion::IndexedChecksummed && check == Ok::<bool, IntegrityError>(false) {
            Err(ContentArchiveFault::MissingChecksum)
        } else if bytes.len() < n + 8 + x.len() {
            Err(ContentArchiveFault::DirectoryFooterMissing)
        } else if indexed_len(bytes) < 8 + x.len() {
            Err(ContentArchiveFault::DirectoryFooterMissing)
        } else {
            let fo = indexed_len(bytes) - 8 - x.len();
            let off = le_u64_at(bytes, fo);
            if off > usize::MAX {
                Err(ContentArchiveFault::DirectoryOffsetInvalid)
            } else if bytes.subrange(fo + 8, indexed_len(bytes)) != x {
                Err(ContentArchiveFault::DirectoryFooterMissing)
            } else if off >= fo {
                Err(ContentArchiveFault::DirectoryOffsetInvalid)
            } else {
                let sub = bytes.subrange(off as int, fo);
                match varint_at(sub, 0) {
                    Err(e) => Err(ContentArchiveFault::Codec(ContentCodecErrorView::Ids(e))),
                    Ok((count, p)) => match content_dir_entries_read(sub, p, count as int) {
                        Err(e) => Err(e),
                        Ok((es, _)) => Ok((v, es)),
                    },
                }
            }
        }
    }
}

/// Whether `g` is the store error for the fault `f` of the archive at `path`.
pub open spec fn is_archive_error(g: GfmError, path: Seq<char>, f: ContentArchiveFault) -> bool {
    match f {
        ContentArchiveFault::Codec(e) => is_content_error(g, path, e),
        ContentArchiveFault::UnsupportedHeader => g matches GfmError::Format(t) && t@
            == "unsupported content store header in "@ + path,
        ContentArchiveFault::MissingChecksum => g matches GfmError::Format(t) && t@ == "invalid content store "@ + path
            + ": missing content checksum footer"@,
        ContentArchiveFault::ChecksumMismatch => g matches GfmError::Format(t) && t@ == "invalid content store "@ + path
            + ": checksum mismatch; archive must be rebuilt"@,
        ContentArchiveFault::DirectoryUtf8(m) => g matches GfmError::Format(t) && t@ == "invalid UTF-8 directory term in "@
            + path + ": "@ + m,
        _ => g matches GfmError::Format(t) && t@ == "invalid content store "@ + path + ": "@ + fault_reason(f),
    }
}

fn format_error(prefix: &str, path: &str, suffix: &str) -> (g: GfmError)
    ensures
        g matches GfmError::Format(t) && t@ == prefix@ + path@ + suffix@,
{
    let mut t = String::from_str(prefix);
    t.append(path);
    t.append(suffix);
    GfmError::Format(t)
}

/// Why opening or reading a content archive for lookups fails.
pub enum ContentArchiveError {
    Codec(crate::contentcodec::ContentCodecError),
    UnsupportedHeader,
    MissingChecksum,
    ChecksumMismatch,
    LegacyNotIndexed,
    DirectoryFooterMissing,
    DirectoryOffsetInvalid,
    DirectoryUtf8(String),
    PostingRangeOverflow,
    PostingRangeOutOfBounds,
    WrongTerm,
    PostingOffsetOverflow,
    PostingLengthOverflow,
    BatchUnsorted,
}

/// The plain value of a content archive error.
pub open spec fn fault_view(e: ContentArchiveError) -> ContentArchiveFault {
    match e {
        ContentArchiveError::Codec(c) => ContentArchiveFault::Codec(crate::contentcodec::codec_error_view(c)),
        ContentArchiveError::UnsupportedHeader => ContentArchiveFault::UnsupportedHeader,
        ContentArchiveError::MissingChecksum => ContentArchiveFault::MissingChecksum,
        ContentArchiveError::ChecksumMismatch => ContentArchiveFault::ChecksumMismatch,
        ContentArchiveError::LegacyNotIndexed => ContentArchiveFault::LegacyNotIndexed,
        ContentArchiveError::DirectoryFooterMissing => ContentArchiveFault::DirectoryFooterMissing,
        ContentArchiveError::DirectoryOffsetInvalid => ContentArchiveFault::DirectoryOffsetInvalid,
        ContentArchiveError::DirectoryUtf8(m) => ContentArchiveFault::DirectoryUtf8(m@),
        ContentArchiveError::PostingRangeOverflow => ContentArchiveFault::PostingRangeOverflow,
        ContentArchiveError::PostingRangeOutOfBounds => ContentArchiveFault::PostingRangeOutOfBounds,
        ContentArchiveError::WrongTerm => ContentArchiveFault::WrongTerm,
        ContentArchiveError::PostingOffsetOverflow => ContentArchiveFault::PostingOffsetOverflow,
        ContentArchiveError::PostingLengthOverflow => ContentArchiveFault::PostingLengthOverflow,
        ContentArchiveError::BatchUnsorted => ContentArchiveFault::BatchUnsorted,
    }
}

/// The store error of a content archive error at `path`.
pub fn archive_error(path: &str, e: ContentArchiveError) -> (g: GfmError)
    ensures
        is_archive_error(g, path@, fault_view(e)),
{
    let ghost f = fault_view(e);
    match e {
        ContentArchiveError::Codec(c) => content_error(path, c),
        ContentArchiveError::UnsupportedHeader => {
            proof {
                reveal_strlit("");
                assert(path@ + ""@ =~= path@);
            }
            format_error("unsupported content store header in ", path, "")
        },
        ContentArchiveError::MissingChecksum => format_error("invalid content store ", path, ": missing content checksum footer"),
        ContentArchiveError::ChecksumMismatch => format_error(
            "invalid content store ",
            path,
            ": checksum mismatch; archive must be rebuilt",
        ),
        ContentArchiveError::DirectoryUtf8(m) => {
            let mut t = String::from_str("invalid UTF-8 directory term in ");
            t.append(path);
            t.append(": ");
            t.append(m.as_str());
            GfmError::Format(t)
        },
        other => {
            let mut t = String::from_str("invalid content store ");
            t.append(path);
            t.append(": ");
            match other {
                ContentArchiveError::LegacyNotIndexed => t.append("legacy content archives are not mmap indexed"),
                ContentArchiveError::DirectoryFooterMissing => t.append("missing content directory footer"),
                ContentArchiveError::DirectoryOffsetInvalid => t.append("invalid content directory offset"),
                ContentArchiveError::PostingRangeOverflow => t.append("posting range overflow"),
                ContentArchiveError::PostingRangeOutOfBounds => t.append("posting range out of bounds"),
                ContentArchiveError::WrongTerm => t.append("content directory points at the wrong term"),
                ContentArchiveError::PostingOffsetOverflow => t.append("posting offset overflow"),
                ContentArchiveError::BatchUnsorted => t.append("batch content lookup terms must be sorted"),
                _ => t.append("posting length overflow"),
            }
            GfmError::Format(t)
        },
    }
}

/// Reads the directory entry at `p`.
fn read_content_dir_entry(sub: &[u8], p: usize) -> (r: Result<(DirEntry, usize), ContentArchiveError>)
    requires
        p <= sub@.len(),
    ensures
        match content_dir_entry_at(sub@, p as int) {
            Ok((x, q)) => r matches Ok((v, e)) && (v.term@, v.offset, v.len) == x && e as int == q && q <= sub@.len(),
            Err(f) => r matches Err(g) && fault_view(g) == f,
        },
{
    let (len, p1) = match read_varint_at(sub, p) {
        Ok(x) => x,
        Err(e) => return Err(ContentArchiveError::Codec(crate::contentcodec::ContentCodecError::Ids(e))),
    };
    if len > (sub.len() - p1) as u64 {
        return Err(ContentArchiveError::Codec(crate::contentcodec::ContentCodecError::Ids(IdsError::UnexpectedEof)));
    }
    let l = len as usize;
    let mut tb: Vec<u8> = Vec::new();
    push_bytes(&mut tb, vstd::slice::slice_subrange(sub, p1, p1 + l));
    let term = match utf8_text(tb) {
        Ok(t) => t,
        Err(m) => return Err(ContentArchiveError::DirectoryUtf8(m)),
    };
    let (offset, p2) = match read_varint_at(sub, p1 + l) {
        Ok(x) => x,
        Err(e) => return Err(ContentArchiveError::Codec(crate::contentcodec::ContentCodecError::Ids(e))),
    };
    let (elen, p3) = match read_varint_at(sub, p2) {
        Ok(x) => x,
        Err(e) => return Err(ContentArchiveError::Codec(crate::contentcodec::ContentCodecError::Ids(e))),
    };
    Ok((DirEntry { term, offset, len: elen }, p3))
}

proof fn lemma_content_dir_entries_err(sub: Seq<u8>, p0: int, k: int, n: int)
    requires
        0 <= k <= n,
        content_dir_entries_read(sub, p0, k) is Err,
    ensures
        content_dir_entries_read(sub, p0, n) == content_dir_entries_read(sub, p0, k),
    decreases n - k,
{
    if k < n {
        lemma_content_dir_entries_err(sub, p0, k + 1, n);
    }
}

/// Reads `count` directory entries from `p0` on.
fn read_content_dir_entries(sub: &[u8], p0: usize, count: u64) -> (r: Result<Vec<DirEntry>, ContentArchiveError>)
    requires
        p0 <= sub@.len(),
    ensures
        match content_dir_entries_read(sub@, p0 as int, count as int) {
            Ok((es, _)) => r matches Ok(v) && dir_views(v@) == es,
            Err(f) => r matches Err(g) && fault_view(g) == f,
        },
{
    let mut out: Vec<DirEntry> = Vec::new();
    let mut p: usize = p0;
    let mut c: u64 = 0;
    proof {
        assert(dir_views(out@) =~= Seq::<DirView>::empty());
    }
    while c < count
        invariant
            c <= count,
            p <= sub@.len(),
            content_dir_entries_read(sub@, p0 as int, c as int) == Ok::<(Seq<DirView>, int), ContentArchiveFault>(
                (dir_views(out@), p as int),
            ),
        decreases count - c,
    {
        match read_content_dir_entry(sub, p) {
            Ok((e, q)) => {
                let ghost before = dir_views(out@);
                out.push(e);
                proof {
                    assert(dir_views(out@) =~= before.push((e.term@, e.offset, e.len)));
                }
                p = q;
            },
            Err(g) => {
                proof {
                    lemma_content_dir_entries_err(sub@, p0 as int, c as int + 1, count as int);
                }
                return Err(g);
            },
        }
        c = c + 1;
    }
    Ok(out)
}

/// Reads the layout and directory of the content archive `bytes`.
fn parse_content_directory(bytes: &[u8]) -> (r: Result<(ContentStoreVersion, Vec<DirEntry>), ContentArchiveError>)
    ensures
        match content_dir_parse(bytes@) {
            Ok((v, es)) => r matches Ok((w, d)) && w == v && dir_views(d@) == es,
            Err(f) => r matches Err(g) && fault_view(g) == f,
        },
{
    let n = content_magic_str().as_bytes().len();
    let x = content_index_footer_str().as_bytes();
    let cm = content_checksum_magic_str().as_bytes();
    if bytes.len() < n {
        return Err(ContentArchiveError::UnsupportedHeader);
    }
    let version = match read_content_version(bytes) {
        Some(v) => v,
        None => return Err(ContentArchiveError::UnsupportedHeader),
    };
    if let ContentStoreVersion::Legacy = version {
        return Err(ContentArchiveError::LegacyNotIndexed);
    }
    if version.has_checksum() {
        match verify_checksum_footer(bytes, cm) {
            Ok(true) => {},
            Ok(false) => return Err(ContentArchiveError::MissingChecksum),
            Err(_) => return Err(ContentArchiveError::ChecksumMismatch),
        }
    }
    let len = bytes.len();
    if x.len() > len - n || len - n - x.len() < 8 {
        return Err(ContentArchiveError::DirectoryFooterMissing);
    }
    let mut ilen: usize = len;
    if len >= 4 && len - 4 >= cm.len() && front_is(vstd::slice::slice_subrange(bytes, len - cm.len(), len), cm.len(), cm) {
        proof {
            assert(bytes@.subrange(len - cm@.len(), len as int).take(cm@.len() as int) =~= bytes@.skip(len - cm@.len()));
        }
        ilen = len - 4 - cm.len();
    } else {
        proof {
            if len >= 4 && len - 4 >= cm@.len() {
                assert(bytes@.subrange(len - cm@.len(), len as int).take(cm@.len() as int) =~= bytes@.skip(len - cm@.len()));
            }
        }
    }
    proof {
        assert(ilen == indexed_len(bytes@));
    }
    if x.len() > ilen || ilen - x.len() < 8 {
        return Err(ContentArchiveError::DirectoryFooterMissing);
    }
    let fo = ilen - 8 - x.len();
    let off = read_le64(bytes, fo);
    if off > usize::MAX as u64 {
        return Err(ContentArchiveError::DirectoryOffsetInvalid);
    }
    let tail = vstd::slice::slice_subrange(bytes, fo + 8, ilen);
    if !front_is(tail, x.len(), x) {
        proof {
            assert(tail@.take(x@.len() as int) =~= tail@);
        }
        return Err(ContentArchiveError::DirectoryFooterMissing);
    }
    proof {
        assert(tail@.take(x@.len() as int) =~= tail@);
    }
    let o = off as usize;
    if o >= fo {
        return Err(ContentArchiveError::DirectoryOffsetInvalid);
    }
    let sub = vstd::slice::slice_subrange(bytes, o, fo);
    let (count, p) = match read_varint_at(sub, 0) {
        Ok(x) => x,
        Err(e) => return Err(ContentArchiveError::Codec(crate::contentcodec::ContentCodecError::Ids(e))),
    };
    match read_content_dir_entries(sub, p, count) {
        Ok(es) => Ok((version, es)),
        Err(g) => Err(g),
    }
}

/// The layout named by the first bytes of `bytes`, as many as a magic has.
fn read_content_version(bytes: &[u8]) -> (r: Option<ContentStoreVersion>)
    requires
        bytes@.len() >= encode_utf8(content_magic()).len(),
    ensures
        r == content_version_of(bytes@.take(encode_utf8(content_magic()).len() as int)),
{
    let m5 = content_magic_str().as_bytes();
    let n = m5.len();
    if front_is(bytes, n, m5) {
        return Some(ContentStoreVersion::IndexedChecksummed);
    }
    let m4 = "gfm-content-v4\n".as_bytes();
    let m3 = "gfm-content-v3\n".as_bytes();
    let m2 = "gfm-content-v2\n".as_bytes();
    let m1 = "gfm-content-v1\n".as_bytes();
    proof {
        assert(m4@ == encode_utf8(content_magic_v4()));
        assert(m3@ == encode_utf8(content_magic_v3()));
        assert(m2@ == encode_utf8(content_magic_v2()));
        assert(m1@ == encode_utf8(content_magic_v1()));
    }
    if front_is(bytes, n, m4) {
        Some(ContentStoreVersion::IndexedBlockedPositions)
    } else if front_is(bytes, n, m3) {
        Some(ContentStoreVersion::IndexedPositions)
    } else if front_is(bytes, n, m2) {
        Some(ContentStoreVersion::IndexedIds)
    } else if front_is(bytes, n, m1) {
        Some(ContentStoreVersion::Legacy)
    } else {
        None
    }
}

/// The `count` postings of the layout `version` read from `p0` on.
fn read_postings_from(bytes: &[u8], version: ContentStoreVersion, count: u64, p0: usize) -> (r: Result<
    Vec<ContentPosting>,
    crate::contentcodec::ContentCodecError,
>)
    requires
        p0 <= bytes@.len(),
    ensures
        match segment_postings_read(version, bytes@, p0 as int, count as int) {
            Ok((ps, _)) => r matches Ok(v) && content_views(v@) == ps,
            Err(e) => r matches Err(g) && crate::contentcodec::codec_error_view(g) == e,
        },
{
    let mut postings: Vec<ContentPosting> = Vec::new();
    let mut p: usize = p0;
    let mut c: u64 = 0;
    proof {
        assert(content_views(postings@) =~= Seq::<ContentView>::empty());
    }
    while c < count
        invariant
            c <= count,
            p <= bytes@.len(),
            segment_postings_read(version, bytes@, p0 as int, c as int) == Ok::<
                (Seq<ContentView>, int),
                ContentCodecErrorView,
            >((content_views(postings@), p as int)),
        decreases count - c,
    {
        let rest = vstd::slice::slice_subrange(bytes, p, bytes.len());
        proof {
            assert(rest@ =~= bytes@.skip(p as int));
        }
        match read_posting_at_front(rest, version) {
            Ok((x, q)) => {
                let ghost before = content_views(postings@);
                postings.push(x);
                proof {
                    assert(content_views(postings@) =~= before.push(content_view(x)));
                }
                p = p + q;
            },
            Err(e) => {
                proof {
                    lemma_segment_postings_err(version, bytes@, p0 as int, c as int + 1, count as int);
                }
                return Err(e);
            },
        }
        c = c + 1;
    }
    Ok(postings)
}

/// Whether `bytes` open with the magic of the current layout.
pub fn has_current_content_magic(bytes: &[u8]) -> (b: bool)
    ensures
        b == (bytes@.len() >= encode_utf8(content_magic()).len() && content_version_of(
            bytes@.take(encode_utf8(content_magic()).len() as int),
        ) == Some(ContentStoreVersion::IndexedChecksummed)),
{
    let n = content_magic_str().as_bytes().len();
    if bytes.len() < n {
        return false;
    }
    match read_content_version(bytes) {
        Some(ContentStoreVersion::IndexedChecksummed) => true,
        _ => false,
    }
}

/// Reads every posting of the content archive `bytes` read from `path`,
/// in the order they were written.
pub fn content_postings_from_bytes(path: &str, bytes: &[u8]) -> (r: Result<Vec<ContentPosting>, GfmError>)
    ensures
        match content_archive_read(bytes@) {
            Ok(ps) => r matches Ok(v) && content_views(v@) == ps,
            Err(f) => r matches Err(g) && is_archive_error(g, path@, f),
        },
{
    let n = content_magic_str().as_bytes().len();
    if bytes.len() < n {
        return Err(content_error(path, crate::contentcodec::ContentCodecError::Ids(IdsError::UnexpectedEof)));
    }
    let version = match read_content_version(bytes) {
        Some(v) => v,
        None => {
            proof {
                reveal_strlit("");
                assert(path@ + ""@ =~= path@);
            }
            return Err(format_error("unsupported content store header in ", path, ""));
        },
    };
    if version.has_checksum() {
        match verify_checksum_footer(bytes, content_checksum_magic_str().as_bytes()) {
            Ok(true) => {},
            Ok(false) => return Err(format_error("invalid content store ", path, ": missing content checksum footer")),
            Err(_) => return Err(
                format_error("invalid content store ", path, ": checksum mismatch; archive must be rebuilt"),
            ),
        }
    }
    let (count, p0) = match read_varint_at(bytes, n) {
        Ok(x) => x,
        Err(e) => return Err(content_error(path, crate::contentcodec::ContentCodecError::Ids(e))),
    };
    match read_postings_from(bytes, version, count, p0) {
        Ok(v) => Ok(v),
        Err(e) => Err(content_error(path, e)),
    }
}


/// Whether the content postings `vs` are what reading back the records of
/// the postings `ps` gives: each posting's term as given, its ids sorted
/// without repeats, and its positions entries as written.
pub open spec fn read_back(ps: Seq<ContentPosting>, vs: Seq<ContentView>) -> bool {
    &&& vs.len() == ps.len()
    &&& forall|i: int|
        0 <= i < ps.len() ==> (#[trigger] vs[i]).0 == ps[i].term@ && vs[i].1 == sort_ids(ps[i].ids@)
            && entries_as_written(positions_views(ps[i].positions@), vs[i].2)
}

proof fn lemma_increasing_at_least(o: Seq<u32>, i: int)
    requires
        offsets_increasing(o),
        0 <= i < o.len(),
    ensures
        o[i] >= i,
    decreases i,
{
    if i > 0 {
        lemma_increasing_at_least(o, i - 1);
        assert(o[i - 1] < o[i]);
    }
}

proof fn lemma_increasing_len(o: Seq<u32>)
    requires
        offsets_increasing(o),
    ensures
        o.len() <= u64::MAX,
{
    if o.len() > 0x1_0000_0000 {
        lemma_increasing_at_least(o, 0x1_0000_0000);
    }
}

proof fn lemma_records_prefix(rs: Seq<Seq<u8>>, k: int, n: int)
    requires
        0 <= k <= n <= rs.len(),
    ensures
        records_concat(rs, k).len() <= records_concat(rs, n).len(),
        records_concat(rs, n).take(records_concat(rs, k).len() as int) == records_concat(rs, k),
    decreases n - k,
{
    if k < n {
        lemma_records_prefix(rs, k + 1, n);
        let a = records_concat(rs, k);
        let b = records_concat(rs, k + 1);
        assert(b.take(a.len() as int) =~= a);
        assert(records_concat(rs, n).take(a.len() as int) =~= b.take(a.len() as int));
    } else {
        assert(records_concat(rs, n).take(records_concat(rs, n).len() as int) =~= records_concat(rs, n));
    }
}

/// Reading one record written for `p` gives back what `read_back` says.
proof fn lemma_record_read(p: ContentPosting, r: Seq<u8>, tail: Seq<u8>)
    requires
        record_written(p, r),
        sort_ids(p.ids@).len() <= u64::MAX,
        p.positions@.len() <= u64::MAX,
        (r + tail).len() <= usize::MAX,
    ensures
        content_posting_at(ContentStoreVersion::IndexedChecksummed, r + tail) matches Ok((x, q)) && q == r.len() && x.0
            == p.term@ && x.1 == sort_ids(p.ids@) && entries_as_written(positions_views(p.positions@), x.2),
{
    let v = ContentStoreVersion::IndexedChecksummed;
    let (ids, es) = choose|ids: Seq<FileId>, es: Seq<PositionsView>|
        ids == sort_ids(p.ids@) && entries_as_written(positions_views(p.positions@), es) && r
            == #[trigger] content_posting_bytes(v, p.term@, ids, es);
    crate::ids::lemma_sort_ids(p.ids@);
    assert(ids_nondecreasing(ids)) by {
        assert forall|i: int, j: int| 0 <= i < j < ids.len() implies !file_id_less(#[trigger] ids[j], #[trigger] ids[i]) by {
            assert(file_id_less(ids[i], ids[j]));
        }
    }
    assert forall|i: int| 0 <= i < es.len() implies offsets_increasing(#[trigger] es[i].1) && es[i].1.len() <= u64::MAX by {
        lemma_increasing_len(es[i].1);
    }
    vstd::seq_lib::to_multiset_len(entry_sets(es));
    vstd::seq_lib::to_multiset_len(entry_sets(positions_views(p.positions@)));
    assert(es.len() == entry_sets(es).len());
    lemma_content_posting_round_trip(v, p.term@, ids, es, tail);
}

proof fn lemma_record_slice(bytes: Seq<u8>, base: int, all: Seq<u8>, before: Seq<u8>, r: Seq<u8>)
    requires
        0 <= base,
        base + all.len() <= bytes.len(),
        bytes.subrange(base, base + all.len()) == all,
        (before + r).len() <= all.len(),
        all.take((before + r).len() as int) == before + r,
    ensures
        bytes.skip(base + before.len()) == r + bytes.skip(base + before.len() + r.len()),
{
    let p = base + before.len();
    let here = bytes.skip(p);
    assert forall|j: int| 0 <= j < r.len() implies here[j] == r[j] by {
        let q = before.len() + j;
        assert(here[j] == bytes[p + j]);
        assert(bytes.subrange(base, base + all.len())[q] == bytes[base + q]);
        assert(all.take((before + r).len() as int)[q] == all[q]);
        assert((before + r)[q] == r[j]);
    }
    assert(here =~= r + bytes.skip(p + r.len()));
}

proof fn lemma_read_back_push(ps: Seq<ContentPosting>, k: int, vs: Seq<ContentView>, x: ContentView)
    requires
        0 < k <= ps.len(),
        read_back(ps.take(k - 1), vs),
        x.0 == ps[k - 1].term@ && x.1 == sort_ids(ps[k - 1].ids@) && entries_as_written(
            positions_views(ps[k - 1].positions@),
            x.2,
        ),
    ensures
        read_back(ps.take(k), vs.push(x)),
{
    let vs2 = vs.push(x);
    assert forall|i: int| 0 <= i < k implies (#[trigger] vs2[i]).0 == ps.take(k)[i].term@ && vs2[i].1 == sort_ids(
        ps.take(k)[i].ids@,
    ) && entries_as_written(positions_views(ps.take(k)[i].positions@), vs2[i].2) by {
        if i < k - 1 {
            assert(ps.take(k - 1)[i] == ps.take(k)[i]);
            assert(vs2[i] == vs[i]);
        }
    }
}

proof fn lemma_archive_records_read(bytes: Seq<u8>, base: int, ps: Seq<ContentPosting>, rs: Seq<Seq<u8>>, k: int)
    requires
        rs.len() == ps.len(),
        forall|i: int| 0 <= i < ps.len() ==> record_written(ps[i], #[trigger] rs[i]),
        forall|i: int| 0 <= i < ps.len() ==> (#[trigger] sort_ids(ps[i].ids@)).len() <= u64::MAX,
        forall|i: int| 0 <= i < ps.len() ==> (#[trigger] ps[i].positions@).len() <= u64::MAX,
        0 <= k <= ps.len(),
        0 <= base,
        base + records_concat(rs, ps.len() as int).len() <= bytes.len() <= usize::MAX,
        bytes.subrange(base, base + records_concat(rs, ps.len() as int).len()) == records_concat(rs, ps.len() as int),
    ensures
        segment_postings_read(ContentStoreVersion::IndexedChecksummed, bytes, base, k) matches Ok((vs, e)) && e == base
            + records_concat(rs, k).len() && read_back(ps.take(k), vs),
    decreases k,
{
    let n = ps.len() as int;
    if k == 0 {
        assert(ps.take(0).len() == 0);
    } else {
        lemma_archive_records_read(bytes, base, ps, rs, k - 1);
        lemma_records_prefix(rs, k, n);
        let before = records_concat(rs, k - 1);
        let r = rs[k - 1];
        let p = base + before.len();
        assert(records_concat(rs, k) == before + r);
        lemma_record_slice(bytes, base, records_concat(rs, n), before, r);
        let tail = bytes.skip(p + r.len());
        assert(sort_ids(ps[k - 1].ids@).len() <= u64::MAX);
        assert(ps[k - 1].positions@.len() <= u64::MAX);
        assert(record_written(ps[k - 1], rs[k - 1]));
        lemma_record_read(ps[k - 1], r, tail);
        let vs = segment_postings_read(ContentStoreVersion::IndexedChecksummed, bytes, base, k - 1)->Ok_0.0;
        let x = content_posting_at(ContentStoreVersion::IndexedChecksummed, r + tail)->Ok_0.0;
        lemma_read_back_push(ps, k, vs, x);
    }
}

proof fn lemma_content_regroup(m: Seq<u8>, v: Seq<u8>, r: Seq<u8>, a: Seq<u8>, d: Seq<u8>, l: Seq<u8>, x: Seq<u8>, f: Seq<u8>)
    ensures
        (m + v + r + a + d + l + x) + f == m + (v + (r + (a + d + l + x + f))),
        ({
            let bytes = m + (v + (r + (a + d + l + x + f)));
            &&& bytes.take(m.len() as int) == m
            &&& bytes.skip(m.len() as int) == v + (r + (a + d + l + x + f))
            &&& bytes.subrange((m.len() + v.len()) as int, (m.len() + v.len() + r.len()) as int) == r
        }),
{
    let bytes = m + (v + (r + (a + d + l + x + f)));
    assert((m + v + r + a + d + l + x) + f =~= bytes);
    assert(bytes.take(m.len() as int) =~= m);
    assert(bytes.skip(m.len() as int) =~= v + (r + (a + d + l + x + f)));
    assert(bytes.subrange((m.len() + v.len()) as int, (m.len() + v.len() + r.len()) as int) =~= r);
}

/// The parts of the archive written with records `rs` and directory `d`:
/// the magic, the number of postings, the records, and what follows them.
proof fn lemma_content_split(rs: Seq<Seq<u8>>, d: Seq<DirView>)
    ensures
        ({
            let m = encode_utf8(content_magic());
            let v = varint_bytes(rs.len() as u64);
            let recs = records_concat(rs, rs.len() as int);
            let body = content_archive_body(rs, d);
            let rest = varint_bytes(d.len() as u64) + content_dir_bytes(d, d.len() as int) + le64_bytes(
                (m.len() + v.len() + recs.len()) as u64,
            ) + encode_utf8(content_index_footer()) + checksum_footer(body, encode_utf8(content_checksum_magic()));
            let bytes = body + checksum_footer(body, encode_utf8(content_checksum_magic()));
            &&& bytes == m + (v + (recs + rest))
            &&& bytes.take(m.len() as int) == m
            &&& bytes.skip(m.len() as int) == v + (recs + rest)
            &&& bytes.subrange((m.len() + v.len()) as int, (m.len() + v.len() + recs.len()) as int) == recs
        }),
{
    let m = encode_utf8(content_magic());
    let v = varint_bytes(rs.len() as u64);
    let recs = records_concat(rs, rs.len() as int);
    let a = varint_bytes(d.len() as u64);
    let db = content_dir_bytes(d, d.len() as int);
    let l = le64_bytes((m.len() + v.len() + recs.len()) as u64);
    let x = encode_utf8(content_index_footer());
    let body = content_archive_body(rs, d);
    let f = checksum_footer(body, encode_utf8(content_checksum_magic()));
    assert(body == m + v + recs + a + db + l + x);
    lemma_content_regroup(m, v, recs, a, db, l, x, f);
}

/// Content archive round trip: reading the archive written for some
/// postings gives back, in their order, each posting's term, its ids
/// sorted without repeats, and its positions entries as written (for an
/// archive that fits in memory).
pub proof fn lemma_content_archive_round_trip(ps: Seq<ContentPosting>, rs: Seq<Seq<u8>>, d: Seq<DirView>, bytes: Seq<u8>)
    requires
        archive_written(ps, rs, d, bytes),
        bytes.len() <= usize::MAX,
        ps.len() <= u64::MAX,
        forall|i: int| 0 <= i < ps.len() ==> (#[trigger] sort_ids(ps[i].ids@)).len() <= u64::MAX,
        forall|i: int| 0 <= i < ps.len() ==> (#[trigger] ps[i].positions@).len() <= u64::MAX,
    ensures
        content_archive_read(bytes) matches Ok(vs) && read_back(ps, vs),
{
    let n = ps.len() as int;
    let m = encode_utf8(content_magic());
    let v = varint_bytes(n as u64);
    let recs = records_concat(rs, n);
    let body = content_archive_body(rs, d);
    let cm = encode_utf8(content_checksum_magic());
    let rest = varint_bytes(d.len() as u64) + content_dir_bytes(d, d.len() as int) + le64_bytes(
        (m.len() + v.len() + recs.len()) as u64,
    ) + encode_utf8(content_index_footer()) + checksum_footer(body, cm);
    lemma_content_split(rs, d);
    crate::codec::lemma_checksum_footer_verifies(body, cm);
    crate::ids::lemma_varint_at(bytes, m.len() as int, n as u64, recs + rest);
    lemma_archive_records_read(bytes, (m.len() + v.len()) as int, ps, rs, n);
    assert(ps.take(n) =~= ps);
}


/// The posting that the directory entry `e` leads to in the archive
/// `bytes` of the layout `v`: the record at the entry's offset and of its
/// length, read as a posting.
pub open spec fn content_posting_of_entry(bytes: Seq<u8>, v: ContentStoreVersion, e: DirView) -> Result<
    ContentView,
    ContentArchiveFault,
> {
    if e.1 > usize::MAX {
        Err(ContentArchiveFault::PostingOffsetOverflow)
    } else if e.2 > usize::MAX {
        Err(ContentArchiveFault::PostingLengthOverflow)
    } else if e.1 + e.2 > usize::MAX {
        Err(ContentArchiveFault::PostingRangeOverflow)
    } else if e.1 + e.2 > bytes.len() {
        Err(ContentArchiveFault::PostingRangeOutOfBounds)
    } else {
        match content_posting_at(v, bytes.subrange(e.1 as int, e.1 + e.2)) {
            Err(c) => Err(ContentArchiveFault::Codec(c)),
            Ok((x, _)) => Ok(x),
        }
    }
}

/// The postings of the first `k` directory entries, in directory order.
pub open spec fn content_all_postings(d: Seq<DirView>, bytes: Seq<u8>, v: ContentStoreVersion, k: int) -> Result<
    Seq<ContentView>,
    ContentArchiveFault,
>
    decreases k,
{
    if k <= 0 {
        Ok(Seq::empty())
    } else {
        match content_all_postings(d, bytes, v, k - 1) {
            Err(e) => Err(e),
            Ok(ps) => match content_posting_of_entry(bytes, v, d[k - 1]) {
                Err(e) => Err(e),
                Ok(x) => Ok(ps.push(x)),
            },
        }
    }
}

/// The posting of the normalized term `t`: none for an empty term or one
/// without a directory entry; else the posting of its first entry, which
/// must be of that term.
pub open spec fn content_lookup(d: Seq<DirView>, bytes: Seq<u8>, v: ContentStoreVersion, t: Seq<char>) -> Result<
    Option<ContentView>,
    ContentArchiveFault,
> {
    if t.len() == 0 || find_entry(d, t) >= d.len() {
        Ok(None)
    } else {
        match content_posting_of_entry(bytes, v, d[find_entry(d, t)]) {
            Err(e) => Err(e),
            Ok(x) => if lower_normalized(x.0) == t {
                Ok(Some(x))
            } else {
                Err(ContentArchiveFault::WrongTerm)
            },
        }
    }
}

proof fn lemma_content_all_postings_err(d: Seq<DirView>, bytes: Seq<u8>, v: ContentStoreVersion, k: int, n: int)
    requires
        0 <= k <= n,
        content_all_postings(d, bytes, v, k) is Err,
    ensures
        content_all_postings(d, bytes, v, n) == content_all_postings(d, bytes, v, k),
    decreases n - k,
{
    if k < n {
        lemma_content_all_postings_err(d, bytes, v, k + 1, n);
    }
}

/// The terms of `terms` trimmed and in lower case, the empty ones left out,
/// over the first `n`.
pub open spec fn selected_upto(terms: Seq<Seq<char>>, n: int) -> Set<Seq<char>>
    decreases n,
{
    if n <= 0 {
        Set::empty()
    } else {
        let t = lower_normalized(terms[n - 1]);
        if t.len() > 0 {
            selected_upto(terms, n - 1).insert(t)
        } else {
            selected_upto(terms, n - 1)
        }
    }
}

/// The postings found for the first `n` of `sel`, each looked up as
/// `content_lookup` does after normalizing it; terms with no posting are
/// left out.
pub open spec fn content_lookups(d: Seq<DirView>, bytes: Seq<u8>, v: ContentStoreVersion, sel: Seq<Seq<char>>, n: int) -> Result<
    Seq<ContentView>,
    ContentArchiveFault,
>
    decreases n,
{
    if n <= 0 {
        Ok(Seq::empty())
    } else {
        match content_lookups(d, bytes, v, sel, n - 1) {
            Err(e) => Err(e),
            Ok(ps) => match content_lookup(d, bytes, v, lower_normalized(sel[n - 1])) {
                Err(e) => Err(e),
                Ok(None) => Ok(ps),
                Ok(Some(p)) => Ok(ps.push(p)),
            },
        }
    }
}

proof fn lemma_content_lookups_err(d: Seq<DirView>, bytes: Seq<u8>, v: ContentStoreVersion, sel: Seq<Seq<char>>, k: int, n: int)
    requires
        0 <= k <= n,
        content_lookups(d, bytes, v, sel, k) is Err,
    ensures
        content_lookups(d, bytes, v, sel, n) == content_lookups(d, bytes, v, sel, k),
    decreases n - k,
{
    if k < n {
        lemma_content_lookups_err(d, bytes, v, sel, k + 1, n);
    }
}

/// The terms of `terms` trimmed and in lower case, without empty ones,
/// sorted and without repeats.
fn select_content_terms(terms: &Vec<String>) -> (sel: Vec<String>)
    ensures
        strictly_sorted(string_views(sel@)),
        string_views(sel@).to_set() == selected_upto(string_views(terms@), terms@.len() as int),
{
    let ghost tv = string_views(terms@);
    let mut sel: Vec<String> = Vec::new();
    let mut c: usize = 0;
    proof {
        assert(string_views(sel@).to_set() =~= Set::<Seq<char>>::empty());
    }
    while c < terms.len()
        invariant
            tv == string_views(terms@),
            c <= terms@.len(),
            strictly_sorted(string_views(sel@)),
            string_views(sel@).to_set() == selected_upto(tv, c as int),
        decreases terms@.len() - c,
    {
        let t = normalize_lower(terms[c].as_str());
        proof {
            assert(tv[c as int] == terms@[c as int]@);
        }
        if t.as_str().unicode_len() > 0 {
            insert_sorted_term(&mut sel, t);
        }
        c = c + 1;
    }
    sel
}


/// Where the record of the directory entry `e` lies in `bytes`.
pub open spec fn entry_range(bytes: Seq<u8>, e: DirView) -> Result<(int, int), ContentArchiveFault> {
    if e.1 > usize::MAX {
        Err(ContentArchiveFault::PostingOffsetOverflow)
    } else if e.2 > usize::MAX {
        Err(ContentArchiveFault::PostingLengthOverflow)
    } else if e.1 + e.2 > usize::MAX {
        Err(ContentArchiveFault::PostingRangeOverflow)
    } else if e.1 + e.2 > bytes.len() {
        Err(ContentArchiveFault::PostingRangeOutOfBounds)
    } else {
        Ok((e.1 as int, e.1 + e.2))
    }
}

/// The posting of the normalized term `t` read with at most `limit` ids
/// and positions entries, and whether more were left: as `content_lookup`,
/// with the posting read bounded.
pub open spec fn content_lookup_limited(
    d: Seq<DirView>,
    bytes: Seq<u8>,
    v: ContentStoreVersion,
    t: Seq<char>,
    limit: usize,
) -> Result<(Option<ContentView>, bool), ContentArchiveFault> {
    if t.len() == 0 || find_entry(d, t) >= d.len() {
        Ok((None, false))
    } else {
        match entry_range(bytes, d[find_entry(d, t)]) {
            Err(f) => Err(f),
            Ok((a, b)) => match crate::contentcodec::content_posting_limited(v, bytes.subrange(a, b), limit) {
                Err(c) => Err(ContentArchiveFault::Codec(c)),
                Ok((x, more)) => if lower_normalized(x.0) == t {
                    Ok((Some(x), more))
                } else {
                    Err(ContentArchiveFault::WrongTerm)
                },
            },
        }
    }
}


/// A content posting read with a bound, and whether more was left.
#[derive(Debug, Clone, PartialEq, Eq)]
pub struct LimitedContentPosting {
    pub posting: ContentPosting,
    pub truncated: bool,
}

/// The plain values of bounded content postings.
pub open spec fn limited_content_views(v: Seq<LimitedContentPosting>) -> Seq<(ContentView, bool)> {
    v.map_values(|x: LimitedContentPosting| (content_view(x.posting), x.truncated))
}

/// The posting of the directory entry `e`, which must be of the
/// normalized term `t`, read with at most `limit` ids and positions
/// entries, and whether more were left.
pub open spec fn content_limited_of_entry(bytes: Seq<u8>, v: ContentStoreVersion, e: DirView, t: Seq<char>, limit: usize) -> Result<
    (ContentView, bool),
    ContentArchiveFault,
> {
    match entry_range(bytes, e) {
        Err(f) => Err(f),
        Ok((a, b)) => match crate::contentcodec::content_posting_limited(v, bytes.subrange(a, b), limit) {
            Err(c) => Err(ContentArchiveFault::Codec(c)),
            Ok((x, more)) => if lower_normalized(x.0) == t {
                Ok((x, more))
            } else {
                Err(ContentArchiveFault::WrongTerm)
            },
        },
    }
}

/// The state of a batch lookup: the postings kept, the directory position,
/// and the last term looked up.
pub type ContentBatchState = (Seq<(ContentView, bool)>, int, Option<Seq<char>>);

/// A batch lookup over the first `n` terms: each term trimmed and in lower
/// case, empty ones skipped, must not come before the one before it; a
/// repeat is skipped; the directory is scanned forward to the term, and
/// where an entry has it, its posting read with at most `limit` ids and
/// positions entries is kept.
pub open spec fn content_batch_scan(
    d: Seq<DirView>,
    bytes: Seq<u8>,
    v: ContentStoreVersion,
    terms: Seq<Seq<char>>,
    limit: usize,
    n: int,
) -> Result<ContentBatchState, ContentArchiveFault>
    decreases n,
{
    if n <= 0 {
        Ok((Seq::empty(), 0, None))
    } else {
        match content_batch_scan(d, bytes, v, terms, limit, n - 1) {
            Err(e) => Err(e),
            Ok((out, i, prev)) => {
                let t = lower_normalized(terms[n - 1]);
                if t.len() == 0 {
                    Ok((out, i, prev))
                } else if prev matches Some(pv) && seq_less(t, pv) {
                    Err(ContentArchiveFault::BatchUnsorted)
                } else if prev == Some(t) {
                    Ok((out, i, prev))
                } else {
                    let j = advance(d, i, t);
                    if j < d.len() && d[j].0 == t {
                        match content_limited_of_entry(bytes, v, d[j], t, limit) {
                            Err(e) => Err(e),
                            Ok(x) => Ok((out.push(x), j, Some(t))),
                        }
                    } else {
                        Ok((out, j, Some(t)))
                    }
                }
            },
        }
    }
}

/// The postings of a batch lookup of sorted terms; none for a limit of
/// zero.
pub open spec fn content_batch_lookup(d: Seq<DirView>, bytes: Seq<u8>, v: ContentStoreVersion, terms: Seq<Seq<char>>, limit: usize) -> Result<
    Seq<(ContentView, bool)>,
    ContentArchiveFault,
> {
    if limit == 0 {
        Ok(Seq::empty())
    } else {
        match content_batch_scan(d, bytes, v, terms, limit, terms.len() as int) {
            Err(e) => Err(e),
            Ok((out, _, _)) => Ok(out),
        }
    }
}

proof fn lemma_content_batch_err(
    d: Seq<DirView>,
    bytes: Seq<u8>,
    v: ContentStoreVersion,
    terms: Seq<Seq<char>>,
    limit: usize,
    a: int,
    n: int,
)
    requires
        0 <= a <= n,
        content_batch_scan(d, bytes, v, terms, limit, a) is Err,
    ensures
        content_batch_scan(d, bytes, v, terms, limit, n) == content_batch_scan(d, bytes, v, terms, limit, a),
    decreases n - a,
{
    if a < n {
        lemma_content_batch_err(d, bytes, v, terms, limit, a + 1, n);
    }
}


/// A content archive opened for lookups: its bytes, its layout, and its
/// directory sorted by term.
#[derive(Debug)]
pub struct MmapContentArchive {
    path: String,
    bytes: Vec<u8>,
    directory: Vec<DirEntry>,
    version: ContentStoreVersion,
}

impl MmapContentArchive {
    /// The path the archive was read from.
    pub closed spec fn path_of(&self) -> Seq<char> {
        self.path@
    }

    /// The archive's bytes.
    pub closed spec fn bytes_of(&self) -> Seq<u8> {
        self.bytes@
    }

    /// The archive's directory, sorted by term.
    pub closed spec fn dir_of(&self) -> Seq<DirView> {
        dir_views(self.directory@)
    }

    /// The archive's layout.
    pub closed spec fn version_of(&self) -> ContentStoreVersion {
        self.version
    }

    #[verifier::type_invariant]
    spec fn directory_sorted(&self) -> bool {
        dir_sorted(dir_views(self.directory@))
    }

    /// Opens the content archive `bytes` read from `path`: checks its magic
    /// and checksum, and reads its directory, sorted by term (entries with
    /// the same term in the order written).
    pub fn open(path: &str, bytes: Vec<u8>) -> (r: Result<MmapContentArchive, GfmError>)
        ensures
            match content_dir_parse(bytes@) {
                Ok((v, es)) => r matches Ok(a) && a.version_of() == v && a.path_of() == path@ && a.bytes_of() == bytes@
                    && a.dir_of().to_multiset() == es.to_multiset() && dir_sorted(a.dir_of()),
                Err(f) => r matches Err(g) && is_archive_error(g, path@, f),
            },
    {
        match parse_content_directory(bytes.as_slice()) {
            Err(e) => Err(archive_error(path, e)),
            Ok((version, es)) => {
                let directory = sort_dir(es);
                Ok(MmapContentArchive { path: path.to_string(), bytes, directory, version })
            },
        }
    }

    /// The number of directory entries.
    pub fn indexed_terms(&self) -> (n: usize)
        ensures
            n == self.dir_of().len(),
    {
        self.directory.len()
    }

    /// Whether the archive carries a checksum footer.
    pub fn is_checksummed(&self) -> (b: bool)
        ensures
            b == (self.version_of() == ContentStoreVersion::IndexedChecksummed),
    {
        self.version.has_checksum()
    }

    /// The number of bytes of the archive.
    pub fn mapped_len(&self) -> (n: usize)
        ensures
            n == self.bytes_of().len(),
    {
        self.bytes.len()
    }

    fn posting_of(&self, i: usize) -> (r: Result<ContentPosting, ContentArchiveError>)
        requires
            i < self.dir_of().len(),
        ensures
            match content_posting_of_entry(self.bytes_of(), self.version_of(), self.dir_of()[i as int]) {
                Ok(x) => r matches Ok(p) && content_view(p) == x,
                Err(f) => r matches Err(g) && fault_view(g) == f,
            },
    {
        let e = &self.directory[i];
        proof {
            assert(self.dir_of()[i as int] == (e.term@, e.offset, e.len));
        }
        if e.offset > usize::MAX as u64 {
            return Err(ContentArchiveError::PostingOffsetOverflow);
        }
        if e.len > usize::MAX as u64 {
            return Err(ContentArchiveError::PostingLengthOverflow);
        }
        let start = e.offset as usize;
        let len = e.len as usize;
        if len > usize::MAX - start {
            return Err(ContentArchiveError::PostingRangeOverflow);
        }
        let end = start + len;
        if end > self.bytes.len() {
            return Err(ContentArchiveError::PostingRangeOutOfBounds);
        }
        let slice = vstd::slice::slice_subrange(self.bytes.as_slice(), start, end);
        match read_posting_at_front(slice, self.version) {
            Ok((p, _)) => Ok(p),
            Err(c) => Err(ContentArchiveError::Codec(c)),
        }
    }

    /// Every posting of the archive, in directory order.
    pub fn postings(&self) -> (r: Result<Vec<ContentPosting>, GfmError>)
        ensures
            match content_all_postings(self.dir_of(), self.bytes_of(), self.version_of(), self.dir_of().len() as int) {
                Ok(ps) => r matches Ok(v) && content_views(v@) == ps,
                Err(f) => r matches Err(g) && is_archive_error(g, self.path_of(), f),
            },
    {
        let ghost d = self.dir_of();
        let n = self.directory.len();
        let mut out: Vec<ContentPosting> = Vec::new();
        let mut i: usize = 0;
        proof {
            assert(content_views(out@) =~= Seq::<ContentView>::empty());
        }
        while i < n
            invariant
                d == self.dir_of(),
                n == d.len(),
                i <= n,
                content_all_postings(d, self.bytes_of(), self.version_of(), i as int) == Ok::<
                    Seq<ContentView>,
                    ContentArchiveFault,
                >(content_views(out@)),
            decreases n - i,
        {
            match self.posting_of(i) {
                Ok(p) => {
                    let ghost before = content_views(out@);
                    out.push(p);
                    proof {
                        assert(content_views(out@) =~= before.push(content_view(p)));
                    }
                },
                Err(e) => {
                    proof {
                        lemma_content_all_postings_err(d, self.bytes_of(), self.version_of(), i as int + 1, n as int);
                    }
                    return Err(archive_error(self.path.as_str(), e));
                },
            }
            i = i + 1;
        }
        Ok(out)
    }

    /// The posting of `term`, trimmed and in lower case; none where the
    /// term is empty or has no entry.
    pub fn posting_for_term(&self, term: &str) -> (r: Result<Option<ContentPosting>, GfmError>)
        ensures
            match content_lookup(self.dir_of(), self.bytes_of(), self.version_of(), lower_normalized(term@)) {
                Ok(None) => r matches Ok(None),
                Ok(Some(x)) => r matches Ok(Some(p)) && content_view(p) == x,
                Err(f) => r matches Err(g) && is_archive_error(g, self.path_of(), f),
            },
    {
        proof {
            use_type_invariant(self);
        }
        let t = normalize_lower(term);
        if t.as_str().unicode_len() == 0 {
            proof {
                assert(t@.len() == 0);
            }
            return Ok(None);
        }
        proof {
            assert(t@.len() != 0);
        }
        let i = find_sorted(&self.directory, t.as_str());
        if i >= self.directory.len() {
            return Ok(None);
        }
        match self.posting_of(i) {
            Err(e) => Err(archive_error(self.path.as_str(), e)),
            Ok(p) => {
                let pt = normalize_lower(p.term.as_str());
                if str_equal(pt.as_str(), t.as_str()) {
                    Ok(Some(p))
                } else {
                    Err(archive_error(self.path.as_str(), ContentArchiveError::WrongTerm))
                }
            },
        }
    }

    /// The postings of `terms`, each trimmed and in lower case, empty ones
    /// and repeats left out, in term order; terms with no posting are left
    /// out.
    pub fn postings_for_terms(&self, terms: &Vec<String>) -> (r: Result<Vec<ContentPosting>, GfmError>)
        ensures
            exists|sel: Seq<Seq<char>>|
                strictly_sorted(sel) && sel.to_set() == selected_upto(string_views(terms@), terms@.len() as int) && match #[trigger] content_lookups(
                    self.dir_of(),
                    self.bytes_of(),
                    self.version_of(),
                    sel,
                    sel.len() as int,
                ) {
                    Ok(ps) => r matches Ok(v) && content_views(v@) == ps,
                    Err(f) => r matches Err(g) && is_archive_error(g, self.path_of(), f),
                },
    {
        let sel = select_content_terms(terms);
        let ghost sv = string_views(sel@);
        let mut out: Vec<ContentPosting> = Vec::new();
        let mut i: usize = 0;
        proof {
            assert(content_views(out@) =~= Seq::<ContentView>::empty());
        }
        while i < sel.len()
            invariant
                sv == string_views(sel@),
                strictly_sorted(sv),
                sv.to_set() == selected_upto(string_views(terms@), terms@.len() as int),
                i <= sv.len(),
                content_lookups(self.dir_of(), self.bytes_of(), self.version_of(), sv, i as int) == Ok::<
                    Seq<ContentView>,
                    ContentArchiveFault,
                >(content_views(out@)),
            decreases sv.len() - i,
        {
            proof {
                assert(sv[i as int] == sel@[i as int]@);
            }
            match self.posting_for_term(sel[i].as_str()) {
                Ok(Some(p)) => {
                    let ghost before = content_views(out@);
                    out.push(p);
                    proof {
                        assert(content_views(out@) =~= before.push(content_view(p)));
                    }
                },
                Ok(None) => {},
                Err(g) => {
                    proof {
                        lemma_content_lookups_err(self.dir_of(), self.bytes_of(), self.version_of(), sv, i as int + 1, sv.len() as int);
                    }
                    return Err(g);
                },
            }
            i = i + 1;
        }
        Ok(out)
    }

    fn entry_bytes(&self, i: usize) -> (r: Result<&[u8], ContentArchiveError>)
        requires
            i < self.dir_of().len(),
        ensures
            match entry_range(self.bytes_of(), self.dir_of()[i as int]) {
                Ok((a, b)) => r matches Ok(sl) && sl@ == self.bytes_of().subrange(a, b),
                Err(f) => r matches Err(g) && fault_view(g) == f,
            },
    {
        let e = &self.directory[i];
        proof {
            assert(self.dir_of()[i as int] == (e.term@, e.offset, e.len));
        }
        if e.offset > usize::MAX as u64 {
            return Err(ContentArchiveError::PostingOffsetOverflow);
        }
        if e.len > usize::MAX as u64 {
            return Err(ContentArchiveError::PostingLengthOverflow);
        }
        let start = e.offset as usize;
        let len = e.len as usize;
        if len > usize::MAX - start {
            return Err(ContentArchiveError::PostingRangeOverflow);
        }
        let end = start + len;
        if end > self.bytes.len() {
            return Err(ContentArchiveError::PostingRangeOutOfBounds);
        }
        Ok(vstd::slice::slice_subrange(self.bytes.as_slice(), start, end))
    }

    /// The posting of `term`, trimmed and in lower case, read with at most
    /// `limit` ids and positions entries, and whether more were left; none
    /// where the term is empty or has no entry.
    pub fn posting_for_term_limit(&self, term: &str, limit: usize) -> (r: Result<(Option<ContentPosting>, bool), GfmError>)
        ensures
            match content_lookup_limited(self.dir_of(), self.bytes_of(), self.version_of(), lower_normalized(term@), limit) {
                Ok((None, more)) => r matches Ok((None, m)) && m == more,
                Ok((Some(x), more)) => r matches Ok((Some(p), m)) && content_view(p) == x && m == more,
                Err(f) => r matches Err(g) && is_archive_error(g, self.path_of(), f),
            },
    {
        proof {
            use_type_invariant(self);
        }
        let t = normalize_lower(term);
        if t.as_str().unicode_len() == 0 {
            return Ok((None, false));
        }
        let i = find_sorted(&self.directory, t.as_str());
        if i >= self.directory.len() {
            return Ok((None, false));
        }
        let sl = match self.entry_bytes(i) {
            Ok(sl) => sl,
            Err(e) => return Err(archive_error(self.path.as_str(), e)),
        };
        let (p, more) = match crate::contentcodec::read_content_posting_limited_from_slice(
            sl,
            self.path.as_str(),
            self.version,
            limit,
        ) {
            Ok(x) => x,
            Err(g) => return Err(g),
        };
        let pt = normalize_lower(p.term.as_str());
        if str_equal(pt.as_str(), t.as_str()) {
            Ok((Some(p), more))
        } else {
            Err(archive_error(self.path.as_str(), ContentArchiveError::WrongTerm))
        }
    }

    fn limited_for_entry(&self, i: usize, t: &str, limit: usize) -> (r: Result<LimitedContentPosting, GfmError>)
        requires
            i < self.dir_of().len(),
        ensures
            match content_limited_of_entry(self.bytes_of(), self.version_of(), self.dir_of()[i as int], t@, limit) {
                Ok(x) => r matches Ok(p) && (content_view(p.posting), p.truncated) == x,
                Err(f) => r matches Err(g) && is_archive_error(g, self.path_of(), f),
            },
    {
        let sl = match self.entry_bytes(i) {
            Ok(sl) => sl,
            Err(e) => return Err(archive_error(self.path.as_str(), e)),
        };
        let (p, more) = match crate::contentcodec::read_content_posting_limited_from_slice(
            sl,
            self.path.as_str(),
            self.version,
            limit,
        ) {
            Ok(x) => x,
            Err(g) => return Err(g),
        };
        let pt = normalize_lower(p.term.as_str());
        if str_equal(pt.as_str(), t) {
            Ok(LimitedContentPosting { posting: p, truncated: more })
        } else {
            Err(archive_error(self.path.as_str(), ContentArchiveError::WrongTerm))
        }
    }

    /// The postings of the sorted terms `terms`, each trimmed and in lower
    /// case (empty ones and repeats skipped), read with at most `limit` ids
    /// and positions entries each, in one pass over the directory; terms
    /// with no posting are left out, and terms that go down are refused.
    pub fn postings_for_sorted_terms_limit(&self, terms: &Vec<String>, limit: usize) -> (r: Result<
        Vec<LimitedContentPosting>,
        GfmError,
    >)
        ensures
            match content_batch_lookup(self.dir_of(), self.bytes_of(), self.version_of(), string_views(terms@), limit) {
                Ok(xs) => r matches Ok(v) && limited_content_views(v@) == xs,
                Err(f) => r matches Err(g) && is_archive_error(g, self.path_of(), f),
            },
    {
        proof {
            use_type_invariant(self);
        }
        if limit == 0 {
            proof {
                assert(limited_content_views(Seq::<LimitedContentPosting>::empty()) =~= Seq::<(ContentView, bool)>::empty());
            }
            return Ok(Vec::new());
        }
        let ghost d = self.dir_of();
        let ghost tv = string_views(terms@);
        let n = terms.len();
        let mut out: Vec<LimitedContentPosting> = Vec::new();
        let mut idx: usize = 0;
        let mut prev: Option<String> = None;
        let mut c: usize = 0;
        proof {
            assert(limited_content_views(out@) =~= Seq::<(ContentView, bool)>::empty());
        }
        while c < n
            invariant
                n == terms@.len(),
                tv == string_views(terms@),
                d == self.dir_of(),
                limit > 0,
                c <= n,
                idx <= d.len(),
                content_batch_scan(d, self.bytes_of(), self.version_of(), tv, limit, c as int) == Ok::<
                    ContentBatchState,
                    ContentArchiveFault,
                >((limited_content_views(out@), idx as int, prev_view(prev))),
            decreases n - c,
        {
            let t = normalize_lower(terms[c].as_str());
            proof {
                assert(tv[c as int] == terms@[c as int]@);
            }
            if t.as_str().unicode_len() > 0 {
                let mut skip = false;
                match &prev {
                    Some(pv) => {
                        if str_less(t.as_str(), pv.as_str()) {
                            proof {
                                lemma_content_batch_err(d, self.bytes_of(), self.version_of(), tv, limit, c as int + 1, n as int);
                            }
                            return Err(archive_error(self.path.as_str(), ContentArchiveError::BatchUnsorted));
                        }
                        if str_equal(t.as_str(), pv.as_str()) {
                            skip = true;
                        }
                    },
                    None => {},
                }
                if !skip {
                    let ghost i0 = idx as int;
                    while idx < self.directory.len() && str_less(self.directory[idx].term.as_str(), t.as_str())
                        invariant
                            d == self.dir_of(),
                            i0 <= idx <= d.len(),
                            advance(d, idx as int, t@) == advance(d, i0, t@),
                        decreases d.len() - idx,
                    {
                        proof {
                            assert(d[idx as int].0 == self.directory@[idx as int].term@);
                        }
                        idx = idx + 1;
                    }
                    proof {
                        if idx < d.len() {
                            assert(d[idx as int].0 == self.directory@[idx as int].term@);
                        }
                    }
                    if idx < self.directory.len() && str_equal(self.directory[idx].term.as_str(), t.as_str()) {
                        proof {
                            assert(d[idx as int].0 == self.directory@[idx as int].term@);
                        }
                        match self.limited_for_entry(idx, t.as_str(), limit) {
                            Ok(x) => {
                                let ghost before = limited_content_views(out@);
                                let ghost xv = (content_view(x.posting), x.truncated);
                                out.push(x);
                                proof {
                                    assert(limited_content_views(out@) =~= before.push(xv));
                                }
                            },
                            Err(g) => {
                                proof {
                                    lemma_content_batch_err(d, self.bytes_of(), self.version_of(), tv, limit, c as int + 1, n as int);
                                }
                                return Err(g);
                            },
                        }
                    } else {
                        proof {
                            if idx < d.len() {
                                assert(d[idx as int].0 == self.directory@[idx as int].term@);
                            }
                        }
                    }
                    prev = Some(t);
                }
            }
            c = c + 1;
        }
        proof {
            assert(tv.len() == n);
        }
        Ok(out)
    }

    /// The ids of `term`'s posting; none where it has no posting.
    pub fn ids_for_term(&self, term: &str) -> (r: Result<Vec<FileId>, GfmError>)
        ensures
            match content_lookup(self.dir_of(), self.bytes_of(), self.version_of(), lower_normalized(term@)) {
                Ok(None) => r matches Ok(v) && v@ == Seq::<FileId>::empty(),
                Ok(Some(x)) => r matches Ok(v) && v@ == x.1,
                Err(f) => r matches Err(g) && is_archive_error(g, self.path_of(), f),
            },
    {
        match self.posting_for_term(term) {
            Ok(Some(p)) => Ok(p.ids),
            Ok(None) => Ok(Vec::new()),
            Err(g) => Err(g),
        }
    }
}

} // verus!
