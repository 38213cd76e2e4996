use vstd::prelude::*;
use vstd::utf8::{decode_utf8, encode_utf8, encode_utf8_decode_utf8, encode_utf8_valid_utf8, valid_utf8};

use crate::codec::{
    checksum_footer, checksum_footer_check, lemma_checksum_footer_verifies, varint_bytes, verify_checksum_footer,
    write_checksum_footer, write_varint, IntegrityError,
};
use crate::ids::{
    blocked_bytes, blocked_decode, id_error, is_id_error, lemma_blocked_round_trip, lemma_sort_ids, lemma_varint_at, read_blocked_file_ids,
    sort_ids, varint_at, write_blocked_file_ids, IdsError,
};
use crate::order::{lemma_seq_less_irreflexive, lemma_seq_less_total, lemma_seq_less_transitive, seq_less, str_less};
use crate::error::GfmError;
use crate::postings::{copy_ids, prefix_entries, substring_entries, PrefixPosting, SubstringPosting};
use crate::terms::{normalize, normalized};
use crate::types::FileId;

verus! {

/// The archives with a directory of terms: name prefixes and name
/// trigrams, which map terms to blocked file ids, and fuzzy deletion keys,
/// which map keys to terms.
#[derive(Debug, Clone, Copy, PartialEq, Eq, Structural)]
pub enum TermArchiveKind {
    Prefix,
    Substring,
    Fuzzy,
}

/// The name of an archive kind in its errors.
pub open spec fn kind_label(k: TermArchiveKind) -> Seq<char> {
    match k {
        TermArchiveKind::Prefix => "prefix"@,
        TermArchiveKind::Substring => "substring"@,
        TermArchiveKind::Fuzzy => "fuzzy"@,
    }
}

/// The first line of an archive.
pub open spec fn magic_text(k: TermArchiveKind) -> Seq<char> {
    match k {
        TermArchiveKind::Prefix => "gfm-prefix-v1\n"@,
        TermArchiveKind::Substring => "gfm-substring-v1\n"@,
        TermArchiveKind::Fuzzy => "gfm-fuzzy-v1\n"@,
    }
}

/// The line that ends an archive's index.
pub open spec fn index_footer_text(k: TermArchiveKind) -> Seq<char> {
    match k {
        TermArchiveKind::Prefix => "gfm-prefix-index-v1\n"@,
        TermArchiveKind::Substring => "gfm-substring-index-v1\n"@,
        TermArchiveKind::Fuzzy => "gfm-fuzzy-index-v1\n"@,
    }
}

/// The line that ends an archive's checksum footer.
pub open spec fn checksum_text(k: TermArchiveKind) -> Seq<char> {
    match k {
        TermArchiveKind::Prefix => "gfm-prefix-checksum-v1\n"@,
        TermArchiveKind::Substring => "gfm-substring-checksum-v1\n"@,
        TermArchiveKind::Fuzzy => "gfm-fuzzy-checksum-v1\n"@,
    }
}

pub(crate) fn magic_str(k: TermArchiveKind) -> (s: &'static str)
    ensures
        s@ == magic_text(k),
{
    match k {
        TermArchiveKind::Prefix => "gfm-prefix-v1\n",
        TermArchiveKind::Substring => "gfm-substring-v1\n",
        TermArchiveKind::Fuzzy => "gfm-fuzzy-v1\n",
    }
}

pub(crate) fn index_footer_str(k: TermArchiveKind) -> (s: &'static str)
    ensures
        s@ == index_footer_text(k),
{
    match k {
        TermArchiveKind::Prefix => "gfm-prefix-index-v1\n",
        TermArchiveKind::Substring => "gfm-substring-index-v1\n",
        TermArchiveKind::Fuzzy => "gfm-fuzzy-index-v1\n",
    }
}

pub(crate) fn checksum_str(k: TermArchiveKind) -> (s: &'static str)
    ensures
        s@ == checksum_text(k),
{
    match k {
        TermArchiveKind::Prefix => "gfm-prefix-checksum-v1\n",
        TermArchiveKind::Substring => "gfm-substring-checksum-v1\n",
        TermArchiveKind::Fuzzy => "gfm-fuzzy-checksum-v1\n",
    }
}

/// The eight little-endian bytes of `x`.
pub open spec fn le64_bytes(x: u64) -> Seq<u8> {
    seq![
        (x % 0x100) as u8,
        ((x / 0x100) % 0x100) as u8,
        ((x / 0x1_0000) % 0x100) as u8,
        ((x / 0x100_0000) % 0x100) as u8,
        ((x / 0x1_0000_0000) % 0x100) as u8,
        ((x / 0x100_0000_0000) % 0x100) as u8,
        ((x / 0x1_0000_0000_0000) % 0x100) as u8,
        ((x / 0x100_0000_0000_0000) % 0x100) as u8,
    ]
}

/// The plain value of a posting: its term and its ids.
pub type TermPostingView = (Seq<char>, Seq<FileId>);

/// The plain values of postings.
pub open spec fn posting_views(ps: Seq<(String, Vec<FileId>)>) -> Seq<TermPostingView> {
    ps.map_values(|p: (String, Vec<FileId>)| (p.0@, p.1@))
}

/// The bytes of one posting: its normalized term, in UTF-8 after its
/// length, then its ids in the blocked encoding.
pub open spec fn posting_record(p: TermPostingView) -> Seq<u8> {
    let b = encode_utf8(normalized(p.0));
    varint_bytes(b.len() as u64) + b + blocked_bytes(sort_ids(p.1))
}

/// The records of the first `k` postings, one after another.
pub open spec fn records_upto(ps: Seq<TermPostingView>, k: int) -> Seq<u8>
    decreases k,
{
    if k <= 0 {
        Seq::empty()
    } else {
        records_upto(ps, k - 1) + posting_record(ps[k - 1])
    }
}

/// The directory entry of a posting: its term as given, in UTF-8 after its
/// length, then where its record starts and how long it is.
pub open spec fn dir_record(term: Seq<char>, offset: int, len: int) -> Seq<u8> {
    let b = encode_utf8(term);
    varint_bytes(b.len() as u64) + b + le64_bytes(offset as u64) + le64_bytes(len as u64)
}

/// The directory entries of the first `k` postings, whose records start
/// at `base`.
pub open spec fn dir_upto(ps: Seq<TermPostingView>, base: int, k: int) -> Seq<u8>
    decreases k,
{
    if k <= 0 {
        Seq::empty()
    } else {
        dir_upto(ps, base, k - 1) + dir_record(
            ps[k - 1].0,
            base + records_upto(ps, k - 1).len(),
            posting_record(ps[k - 1]).len() as int,
        )
    }
}

/// The bytes an archive of the sorted postings `ps` is made of, before its
/// checksum footer: the magic, the number of postings, their records, the
/// directory, where the directory starts, and the index footer.
pub open spec fn archive_body(k: TermArchiveKind, ps: Seq<TermPostingView>) -> Seq<u8> {
    let head = encode_utf8(magic_text(k)) + varint_bytes(ps.len() as u64);
    let recs = records_upto(ps, ps.len() as int);
    head + recs + varint_bytes(ps.len() as u64) + dir_upto(ps, head.len() as int, ps.len() as int)
        + le64_bytes((head.len() + recs.len()) as u64) + encode_utf8(index_footer_text(k))
}

/// An archive of the sorted postings `ps`: its body, then the checksum
/// footer of the body.
pub open spec fn archive_bytes(k: TermArchiveKind, ps: Seq<TermPostingView>) -> Seq<u8> {
    archive_body(k, ps) + checksum_footer(archive_body(k, ps), encode_utf8(checksum_text(k)))
}

/// Postings whose terms do not go down.
pub open spec fn terms_sorted(ps: Seq<TermPostingView>) -> bool {
    forall|i: int, j: int| 0 <= i < j < ps.len() ==> !seq_less(#[trigger] ps[j].0, #[trigger] ps[i].0)
}

/// Appends the eight little-endian bytes of `x`.
pub(crate) fn push_le64(out: &mut Vec<u8>, x: u64)
    ensures
        final(out)@ == old(out)@ + le64_bytes(x),
{
    out.push((x % 0x100) as u8);
    out.push(((x / 0x100) % 0x100) as u8);
    out.push(((x / 0x1_0000) % 0x100) as u8);
    out.push(((x / 0x100_0000) % 0x100) as u8);
    out.push(((x / 0x1_0000_0000) % 0x100) as u8);
    out.push(((x / 0x100_0000_0000) % 0x100) as u8);
    out.push(((x / 0x1_0000_0000_0000) % 0x100) as u8);
    out.push(((x / 0x100_0000_0000_0000) % 0x100) as u8);
    proof {
        assert(final(out)@ =~= old(out)@ + le64_bytes(x));
    }
}

/// Appends `bytes`.
pub(crate) fn push_bytes(out: &mut Vec<u8>, bytes: &[u8])
    ensures
        final(out)@ == old(out)@ + bytes@,
{
    let ghost start = out@;
    let mut i: usize = 0;
    while i < bytes.len()
        invariant
            i <= bytes@.len(),
            out@ == start + bytes@.take(i as int),
        decreases bytes@.len() - i,
    {
        out.push(bytes[i]);
        proof {
            assert(bytes@.take(i as int + 1) =~= bytes@.take(i as int).push(bytes@[i as int]));
        }
        i = i + 1;
    }
    proof {
        assert(bytes@.take(i as int) =~= bytes@);
    }
}

/// A copy of a posting.
fn copy_posting(p: &(String, Vec<FileId>)) -> (c: (String, Vec<FileId>))
    ensures
        (c.0@, c.1@) == (p.0@, p.1@),
{
    (p.0.clone(), crate::postings::copy_ids(&p.1))
}

/// The postings sorted by term, those with the same term in their order.
fn sort_postings(ps: &Vec<(String, Vec<FileId>)>) -> (s: Vec<(String, Vec<FileId>)>)
    ensures
        posting_views(s@).to_multiset() == posting_views(ps@).to_multiset(),
        terms_sorted(posting_views(s@)),
{
    let mut s: Vec<(String, Vec<FileId>)> = Vec::new();
    let mut i: usize = 0;
    proof {
        assert(posting_views(ps@).take(0) =~= Seq::<TermPostingView>::empty());
        assert(posting_views(s@) =~= Seq::<TermPostingView>::empty());
    }
    while i < ps.len()
        invariant
            i <= ps@.len(),
            posting_views(s@).to_multiset() == posting_views(ps@).take(i as int).to_multiset(),
            terms_sorted(posting_views(s@)),
        decreases ps@.len() - i,
    {
        let x = copy_posting(&ps[i]);
        let ghost sv = posting_views(s@);
        let ghost xv = (x.0@, x.1@);
        let mut k: usize = 0;
        let mut stop = false;
        while k < s.len() && !stop
            invariant
                sv == posting_views(s@),
                terms_sorted(sv),
                xv == (x.0@, x.1@),
                k <= sv.len(),
                forall|j: int| 0 <= j < k ==> !seq_less(xv.0, #[trigger] sv[j].0),
                stop ==> k < sv.len() && seq_less(xv.0, sv[k as int].0),
            decreases sv.len() - k + if stop { 0int } else { 1int },
        {
            proof {
                assert(sv[k as int] == (s@[k as int].0@, s@[k as int].1@));
            }
            if str_less(x.0.as_str(), s[k].0.as_str()) {
                stop = true;
            } else {
                k = k + 1;
            }
        }
        s.insert(k, x);
        proof {
            let nv = posting_views(s@);
            assert(nv =~= sv.insert(k as int, xv));
            assert(posting_views(ps@)[i as int] == xv);
            assert(posting_views(ps@).take(i as int + 1) =~= posting_views(ps@).take(i as int).push(xv));
            vstd::seq_lib::to_multiset_insert(sv, k as int, xv);
            vstd::seq_lib::to_multiset_build(posting_views(ps@).take(i as int), xv);
            assert forall|a: int, b: int| 0 <= a < b < nv.len() implies !seq_less(#[trigger] nv[b].0, #[trigger] nv[a].0) by {
                if b < k {
                    assert(nv[a] == sv[a] && nv[b] == sv[b]);
                } else if b == k {
                    assert(nv[a] == sv[a]);
                } else if a == k {
                    assert(nv[b] == sv[b - 1]);
                    if seq_less(sv[b - 1].0, xv.0) {
                        if b - 1 == k {
                            lemma_seq_less_irreflexive(xv.0);
                            lemma_seq_less_transitive(xv.0, sv[k as int].0, xv.0);
                        } else {
                            lemma_seq_less_transitive(sv[b - 1].0, xv.0, sv[k as int].0);
                        }
                    }
                } else if a < k {
                    assert(nv[a] == sv[a] && nv[b] == sv[b - 1]);
                } else {
                    assert(nv[a] == sv[a - 1] && nv[b] == sv[b - 1]);
                }
            }
        }
        i = i + 1;
    }
    proof {
        assert(posting_views(ps@).take(i as int) =~= posting_views(ps@));
    }
    s
}


/// Appends the record of one posting.
fn write_posting_record(out: &mut Vec<u8>, p: &(String, Vec<FileId>))
    ensures
        final(out)@ == old(out)@ + posting_record((p.0@, p.1@)),
{
    let t = normalize(p.0.as_str());
    let b = t.as_str().as_bytes();
    write_varint(out, b.len() as u64);
    push_bytes(out, b);
    write_blocked_file_ids(out, &p.1);
    proof {
        assert(final(out)@ =~= old(out)@ + posting_record((p.0@, p.1@)));
    }
}

/// Appends the directory entry of one posting.
pub(crate) fn write_dir_record(out: &mut Vec<u8>, term: &String, offset: u64, len: u64)
    ensures
        final(out)@ == old(out)@ + dir_record(term@, offset as int, len as int),
{
    let b = term.as_str().as_bytes();
    write_varint(out, b.len() as u64);
    push_bytes(out, b);
    push_le64(out, offset);
    push_le64(out, len);
    proof {
        assert(final(out)@ =~= old(out)@ + dir_record(term@, offset as int, len as int));
    }
}

/// The archive of `postings`: sorted by term (stably), each posting's
/// record with its normalized term and its ids, then a directory of the
/// terms as given, and a checksum footer.
pub fn write_term_archive(k: TermArchiveKind, postings: &Vec<(String, Vec<FileId>)>) -> (bytes: Vec<u8>)
    ensures
        exists|s: Seq<TermPostingView>|
            s.to_multiset() == posting_views(postings@).to_multiset() && terms_sorted(s) && bytes@
                == #[trigger] archive_bytes(k, s),
{
    let sorted = sort_postings(postings);
    let ghost sv = posting_views(sorted@);
    let n = sorted.len();
    let mut out: Vec<u8> = Vec::new();
    push_bytes(&mut out, magic_str(k).as_bytes());
    write_varint(&mut out, n as u64);
    let ghost head = out@;
    proof {
        assert(head =~= encode_utf8(magic_text(k)) + varint_bytes(n as u64));
    }
    let base = out.len();
    let mut places: Vec<(u64, u64)> = Vec::new();
    let mut i: usize = 0;
    while i < n
        invariant
            n == sorted@.len(),
            sv == posting_views(sorted@),
            i <= n,
            base == head.len(),
            out@ == head + records_upto(sv, i as int),
            places@.len() == i,
            forall|j: int|
                0 <= j < i ==> (#[trigger] places@[j]).0 == base + records_upto(sv, j).len() && places@[j].1
                    == posting_record(sv[j]).len(),
        decreases n - i,
    {
        let start = out.len();
        write_posting_record(&mut out, &sorted[i]);
        proof {
            assert(sv[i as int] == (sorted@[i as int].0@, sorted@[i as int].1@));
            assert(out@ =~= head + records_upto(sv, i as int + 1));
        }
        let end = out.len();
        places.push((start as u64, (end - start) as u64));
        i = i + 1;
    }
    let dir_offset = out.len();
    let ghost recs = records_upto(sv, n as int);
    write_varint(&mut out, n as u64);
    let ghost mid = out@;
    let mut j: usize = 0;
    while j < n
        invariant
            n == sorted@.len(),
            sv == posting_views(sorted@),
            j <= n,
            base == head.len(),
            places@.len() == n,
            forall|x: int|
                0 <= x < n ==> (#[trigger] places@[x]).0 == base + records_upto(sv, x).len() && places@[x].1
                    == posting_record(sv[x]).len(),
            out@ == mid + dir_upto(sv, head.len() as int, j as int),
        decreases n - j,
    {
        let (offset, len) = places[j];
        write_dir_record(&mut out, &sorted[j].0, offset, len);
        proof {
            assert(sv[j as int].0 == sorted@[j as int].0@);
            assert(out@ =~= mid + dir_upto(sv, head.len() as int, j as int + 1));
        }
        j = j + 1;
    }
    push_le64(&mut out, dir_offset as u64);
    push_bytes(&mut out, index_footer_str(k).as_bytes());
    proof {
        assert(out@ =~= archive_body(k, sv));
    }
    let mut footer: Vec<u8> = Vec::new();
    write_checksum_footer(&mut footer, out.as_slice(), checksum_str(k).as_bytes());
    out.append(&mut footer);
    proof {
        assert(out@ =~= archive_bytes(k, sv));
    }
    out
}


/// The text of the error `String::from_utf8` gives for `bytes`.
pub uninterp spec fn utf8_error_text(bytes: Seq<u8>) -> Seq<char>;

/// `String::from_utf8`: the text whose UTF-8 encoding `bytes` are, or,
/// where they are not valid UTF-8, the text of the error. The decoding is
/// stated through vstd's `decode_utf8`, the error's text through
/// `utf8_error_text`.
#[verifier::external_body]
pub(crate) fn utf8_text(bytes: Vec<u8>) -> (r: Result<String, String>)
    ensures
        r is Ok <==> valid_utf8(bytes@),
        r matches Ok(s) ==> s@ == decode_utf8(bytes@),
        r matches Err(m) ==> m@ == utf8_error_text(bytes@),
{
    match String::from_utf8(bytes) {
        Ok(s) => Ok(s),
        Err(e) => Err(e.to_string()),
    }
}

/// Why an archive could not be read.
#[derive(Debug, Clone, PartialEq, Eq)]
pub enum TermArchiveError {
    /// Reading a number or ids failed.
    Ids(IdsError),
    /// The archive does not start with its magic.
    UnsupportedHeader,
    /// The archive does not end with its checksum footer.
    MissingChecksum,
    /// The checksum does not match the bytes.
    ChecksumMismatch,
    /// A term's length does not fit in memory.
    TermLengthOverflow,
    /// A term is not UTF-8; the decoder's message.
    InvalidUtf8(String),
    /// The archive is too short for its directory footer.
    DirectoryFooterMissing,
    /// The directory's offset is past its end.
    DirectoryOffsetInvalid,
    /// A directory term's length does not fit in memory.
    DirectoryTermLengthOverflow,
    /// A directory term is not UTF-8; the decoder's message.
    DirectoryUtf8(String),
    /// A posting's offset does not fit in memory.
    PostingOffsetOverflow,
    /// A posting's length does not fit in memory.
    PostingLengthOverflow,
    /// A posting's end does not fit in memory.
    PostingRangeOverflow,
    /// A posting ends past the archive.
    PostingOutOfBounds,
    /// A directory entry points at the posting of another term.
    WrongPosting,
    /// The terms of a batch lookup go down.
    BatchUnsorted,
    /// A listed term's length does not fit in memory.
    ListTermLengthOverflow,
    /// A listed term is not UTF-8; the decoder's message.
    ListTermUtf8(String),
}

/// The plain value of an error: the messages as text.
pub enum TermArchiveErrorView {
    Ids(IdsError),
    UnsupportedHeader,
    MissingChecksum,
    ChecksumMismatch,
    TermLengthOverflow,
    InvalidUtf8(Seq<char>),
    DirectoryFooterMissing,
    DirectoryOffsetInvalid,
    DirectoryTermLengthOverflow,
    DirectoryUtf8(Seq<char>),
    PostingOffsetOverflow,
    PostingLengthOverflow,
    PostingRangeOverflow,
    PostingOutOfBounds,
    WrongPosting,
    BatchUnsorted,
    ListTermLengthOverflow,
    ListTermUtf8(Seq<char>),
}

/// The plain value of an error.
pub open spec fn error_view(e: TermArchiveError) -> TermArchiveErrorView {
    match e {
        TermArchiveError::Ids(i) => TermArchiveErrorView::Ids(i),
        TermArchiveError::UnsupportedHeader => TermArchiveErrorView::UnsupportedHeader,
        TermArchiveError::MissingChecksum => TermArchiveErrorView::MissingChecksum,
        TermArchiveError::ChecksumMismatch => TermArchiveErrorView::ChecksumMismatch,
        TermArchiveError::TermLengthOverflow => TermArchiveErrorView::TermLengthOverflow,
        TermArchiveError::InvalidUtf8(m) => TermArchiveErrorView::InvalidUtf8(m@),
        TermArchiveError::DirectoryFooterMissing => TermArchiveErrorView::DirectoryFooterMissing,
        TermArchiveError::DirectoryOffsetInvalid => TermArchiveErrorView::DirectoryOffsetInvalid,
        TermArchiveError::DirectoryTermLengthOverflow => TermArchiveErrorView::DirectoryTermLengthOverflow,
        TermArchiveError::DirectoryUtf8(m) => TermArchiveErrorView::DirectoryUtf8(m@),
        TermArchiveError::PostingOffsetOverflow => TermArchiveErrorView::PostingOffsetOverflow,
        TermArchiveError::PostingLengthOverflow => TermArchiveErrorView::PostingLengthOverflow,
        TermArchiveError::PostingRangeOverflow => TermArchiveErrorView::PostingRangeOverflow,
        TermArchiveError::PostingOutOfBounds => TermArchiveErrorView::PostingOutOfBounds,
        TermArchiveError::WrongPosting => TermArchiveErrorView::WrongPosting,
        TermArchiveError::BatchUnsorted => TermArchiveErrorView::BatchUnsorted,
        TermArchiveError::ListTermLengthOverflow => TermArchiveErrorView::ListTermLengthOverflow,
        TermArchiveError::ListTermUtf8(m) => TermArchiveErrorView::ListTermUtf8(m@),
    }
}

/// The term of the posting record at `p`, and the position after it: its
/// length, then its UTF-8 bytes.
pub open spec fn header_at(bytes: Seq<u8>, p: int) -> Result<(Seq<char>, int), TermArchiveErrorView> {
    match varint_at(bytes, p) {
        Err(e) => Err(TermArchiveErrorView::Ids(e)),
        Ok((len, p1)) => if len > usize::MAX {
            Err(TermArchiveErrorView::TermLengthOverflow)
        } else if p1 + len > bytes.len() {
            Err(TermArchiveErrorView::Ids(IdsError::UnexpectedEof))
        } else {
            let tb = bytes.subrange(p1, p1 + len);
            if !valid_utf8(tb) {
                Err(TermArchiveErrorView::InvalidUtf8(utf8_error_text(tb)))
            } else {
                Ok((decode_utf8(tb), p1 + len))
            }
        },
    }
}

/// The posting record at `p`: its term and ids, and the position after
/// it.
#[verifier::opaque]
pub open spec fn record_at(bytes: Seq<u8>, p: int) -> Result<(TermPostingView, int), TermArchiveErrorView> {
    match header_at(bytes, p) {
        Err(e) => Err(e),
        Ok((t, p1)) => match blocked_decode(bytes, p1) {
            Err(e) => Err(TermArchiveErrorView::Ids(e)),
            Ok((ids, p2)) => Ok(((t, ids), p2)),
        },
    }
}

/// The first `k` posting records read from `p0` on, and the position
/// after them.
pub open spec fn records_read(bytes: Seq<u8>, p0: int, k: int) -> Result<(Seq<TermPostingView>, int), TermArchiveErrorView>
    decreases k,
{
    if k <= 0 {
        Ok((Seq::empty(), p0))
    } else {
        match records_read(bytes, p0, k - 1) {
            Err(e) => Err(e),
            Ok((ps, p)) => match record_at(bytes, p) {
                Err(e) => Err(e),
                Ok((x, q)) => Ok((ps.push(x), q)),
            },
        }
    }
}

/// The postings of an archive read in order: the magic, the checksum
/// footer, the number of postings, then each record.
pub open spec fn term_archive_read(k: TermArchiveKind, bytes: Seq<u8>) -> Result<Seq<TermPostingView>, TermArchiveErrorView> {
    let m = encode_utf8(magic_text(k));
    if bytes.len() < m.len() {
        Err(TermArchiveErrorView::Ids(IdsError::UnexpectedEof))
    } else if bytes.take(m.len() as int) != m {
        Err(TermArchiveErrorView::UnsupportedHeader)
    } else {
        match checksum_footer_check(bytes, encode_utf8(checksum_text(k))) {
            Ok(false) => Err(TermArchiveErrorView::MissingChecksum),
            Err(_) => Err(TermArchiveErrorView::ChecksumMismatch),
            Ok(true) => match varint_at(bytes, m.len() as int) {
                Err(e) => Err(TermArchiveErrorView::Ids(e)),
                Ok((count, p)) => match records_read(bytes, p, count as int) {
                    Err(e) => Err(e),
                    Ok((ps, _)) => Ok(ps),
                },
            },
        }
    }
}

proof fn lemma_records_read_err(bytes: Seq<u8>, p0: int, k: int, n: int)
    requires
        0 <= k <= n,
        records_read(bytes, p0, k) is Err,
    ensures
        records_read(bytes, p0, n) == records_read(bytes, p0, k),
    decreases n - k,
{
    if k < n {
        lemma_records_read_err(bytes, p0, k + 1, n);
    }
}

/// Reads the varint at `pos` as an archive would.
pub(crate) fn archive_varint(bytes: &[u8], pos: usize) -> (r: Result<(u64, usize), TermArchiveError>)
    requires
        pos <= bytes@.len(),
    ensures
        match r {
            Ok((v, q)) => varint_at(bytes@, pos as int) == Ok::<(u64, int), IdsError>((v, q as int)) && pos < q
                <= bytes@.len(),
            Err(e) => varint_at(bytes@, pos as int) matches Err(i) && e == TermArchiveError::Ids(i),
        },
{
    match crate::ids::read_varint_at(bytes, pos) {
        Ok(x) => Ok(x),
        Err(e) => Err(TermArchiveError::Ids(e)),
    }
}

/// Reads the term of the posting record at `p`.
pub(crate) fn read_header(bytes: &[u8], p: usize) -> (r: Result<(String, usize), TermArchiveError>)
    requires
        p <= bytes@.len(),
    ensures
        match header_at(bytes@, p as int) {
            Ok((t, q)) => r matches Ok((v, e)) && v@ == t && e as int == q && q <= bytes@.len(),
            Err(e) => r matches Err(g) && error_view(g) == e,
        },
{
    let (len, p1) = match archive_varint(bytes, p) {
        Ok(x) => x,
        Err(e) => return Err(e),
    };
    if len > usize::MAX as u64 {
        return Err(TermArchiveError::TermLengthOverflow);
    }
    let l = len as usize;
    if l > bytes.len() - p1 {
        return Err(TermArchiveError::Ids(IdsError::UnexpectedEof));
    }
    let mut tb: Vec<u8> = Vec::new();
    push_bytes(&mut tb, vstd::slice::slice_subrange(bytes, p1, p1 + l));
    match utf8_text(tb) {
        Ok(t) => Ok((t, p1 + l)),
        Err(m) => Err(TermArchiveError::InvalidUtf8(m)),
    }
}

/// Reads the posting record at `p`.
pub(crate) fn read_record(bytes: &[u8], p: usize) -> (r: Result<((String, Vec<FileId>), usize), TermArchiveError>)
    requires
        p <= bytes@.len(),
    ensures
        match record_at(bytes@, p as int) {
            Ok((x, q)) => r matches Ok((v, e)) && (v.0@, v.1@) == x && e as int == q && q <= bytes@.len(),
            Err(e) => r matches Err(g) && error_view(g) == e,
        },
{
    proof {
        reveal(record_at);
    }
    let (term, p1) = match read_header(bytes, p) {
        Ok(x) => x,
        Err(e) => return Err(e),
    };
    match read_blocked_file_ids(bytes, p1) {
        Ok((ids, p2)) => Ok(((term, ids), p2)),
        Err(e) => Err(TermArchiveError::Ids(e)),
    }
}

/// Reads every posting of an archive, in order, after checking its magic
/// and its checksum.
pub fn read_term_archive(k: TermArchiveKind, bytes: &[u8]) -> (r: Result<Vec<(String, Vec<FileId>)>, TermArchiveError>)
    ensures
        match term_archive_read(k, bytes@) {
            Ok(ps) => r matches Ok(v) && posting_views(v@) == ps,
            Err(e) => r matches Err(g) && error_view(g) == e,
        },
{
    let m = magic_str(k).as_bytes();
    proof {
        assert(m@ == encode_utf8(magic_text(k)));
    }
    if bytes.len() < m.len() {
        return Err(TermArchiveError::Ids(IdsError::UnexpectedEof));
    }
    let mut i: usize = 0;
    while i < m.len()
        invariant
            m@ == encode_utf8(magic_text(k)),
            m@.len() <= bytes@.len(),
            i <= m@.len(),
            forall|j: int| 0 <= j < i ==> bytes@[j] == m@[j],
        decreases m@.len() - i,
    {
        if bytes[i] != m[i] {
            proof {
                assert(bytes@.take(m@.len() as int)[i as int] != m@[i as int]);
            }
            return Err(TermArchiveError::UnsupportedHeader);
        }
        i = i + 1;
    }
    proof {
        assert(bytes@.take(m@.len() as int) =~= m@);
    }
    match verify_checksum_footer(bytes, checksum_str(k).as_bytes()) {
        Ok(true) => {},
        Ok(false) => return Err(TermArchiveError::MissingChecksum),
        Err(_) => return Err(TermArchiveError::ChecksumMismatch),
    }
    let (count, p0) = match archive_varint(bytes, m.len()) {
        Ok(x) => x,
        Err(e) => return Err(e),
    };
    let mut ps: Vec<(String, Vec<FileId>)> = Vec::new();
    let mut p: usize = p0;
    let mut c: u64 = 0;
    let ghost whole = records_read(bytes@, p0 as int, count as int);
    proof {
        assert(posting_views(ps@) =~= Seq::<TermPostingView>::empty());
        assert(term_archive_read(k, bytes@) == match whole {
            Err(e) => Err(e),
            Ok((v, _)) => Ok::<Seq<TermPostingView>, TermArchiveErrorView>(v),
        });
    }
    while c < count
        invariant
            whole == records_read(bytes@, p0 as int, count as int),
            term_archive_read(k, bytes@) == match whole {
                Err(e) => Err(e),
                Ok((v, _)) => Ok::<Seq<TermPostingView>, TermArchiveErrorView>(v),
            },
            c <= count,
            p <= bytes@.len(),
            records_read(bytes@, p0 as int, c as int) == Ok::<(Seq<TermPostingView>, int), TermArchiveErrorView>(
                (posting_views(ps@), p as int),
            ),
        decreases count - c,
    {
        match read_record(bytes, p) {
            Ok((x, q)) => {
                let ghost before = posting_views(ps@);
                ps.push(x);
                proof {
                    assert(posting_views(ps@) =~= before.push((x.0@, x.1@)));
                }
                p = q;
            },
            Err(e) => {
                proof {
                    lemma_records_read_err(bytes@, p0 as int, c as int + 1, count as int);
                }
                return Err(e);
            },
        }
        c = c + 1;
    }
    Ok(ps)
}

/// What reading gives back of a posting that was written: its normalized
/// term and its ids sorted without repeats.
pub open spec fn read_view(p: TermPostingView) -> TermPostingView {
    (normalized(p.0), sort_ids(p.1))
}

proof fn lemma_records_prefix(ps: Seq<TermPostingView>, j: int, n: int)
    requires
        0 <= j <= n,
    ensures
        records_upto(ps, j).len() <= records_upto(ps, n).len(),
        records_upto(ps, n).take(records_upto(ps, j).len() as int) == records_upto(ps, j),
    decreases n - j,
{
    if j < n {
        lemma_records_prefix(ps, j, n - 1);
        let a = records_upto(ps, n - 1);
        assert((a + posting_record(ps[n - 1])).take(records_upto(ps, j).len() as int) =~= a.take(
            records_upto(ps, j).len() as int,
        ));
    } else {
        assert(records_upto(ps, n).take(records_upto(ps, n).len() as int) =~= records_upto(ps, n));
    }
}

#[verifier::rlimit(80)]
proof fn lemma_record_at(x: TermPostingView, pre: Seq<u8>, rest: Seq<u8>)
    requires
        (pre + posting_record(x) + rest).len() <= usize::MAX,
        sort_ids(x.1).len() <= u64::MAX,
    ensures
        record_at(pre + posting_record(x) + rest, pre.len() as int) == Ok::<(TermPostingView, int), TermArchiveErrorView>(
            (read_view(x), (pre.len() + posting_record(x).len()) as int),
        ),
{
    let b = encode_utf8(normalized(x.0));
    let vb = varint_bytes(b.len() as u64);
    let ids = sort_ids(x.1);
    let ib = blocked_bytes(ids);
    let bytes = pre + posting_record(x) + rest;
    let pos = pre.len() as int;
    reveal(record_at);
    assert(bytes.skip(pos) =~= vb + (b + ib + rest));
    lemma_varint_at(bytes, pos, b.len() as u64, b + ib + rest);
    let p1 = pos + vb.len();
    assert(bytes.subrange(p1, p1 + b.len()) =~= b);
    encode_utf8_valid_utf8(normalized(x.0));
    encode_utf8_decode_utf8(normalized(x.0));
    lemma_sort_ids(x.1);
    let front = bytes.take(p1 + b.len());
    assert(bytes =~= front + ib + rest);
    lemma_blocked_round_trip(ids, front, rest);
}

#[verifier::rlimit(40)]
proof fn lemma_record_in(bytes: Seq<u8>, base: int, ps: Seq<TermPostingView>, j: int)
    requires
        0 <= base,
        0 < j <= ps.len(),
        base + records_upto(ps, ps.len() as int).len() <= bytes.len() <= usize::MAX,
        bytes.subrange(base, base + records_upto(ps, ps.len() as int).len()) == records_upto(ps, ps.len() as int),
        sort_ids(ps[j - 1].1).len() <= u64::MAX,
    ensures
        record_at(bytes, base + records_upto(ps, j - 1).len()) == Ok::<(TermPostingView, int), TermArchiveErrorView>(
            (read_view(ps[j - 1]), base + records_upto(ps, j).len()),
        ),
{
    let n = ps.len() as int;
    let all = records_upto(ps, n);
    let before = records_upto(ps, j - 1);
    let rec = posting_record(ps[j - 1]);
    lemma_records_prefix(ps, j, n);
    let p = base + before.len();
    assert(all.take((before.len() + rec.len()) as int) == before + rec);
    assert(bytes.subrange(p, p + rec.len()) =~= all.take((before.len() + rec.len()) as int).skip(before.len() as int));
    assert((before + rec).skip(before.len() as int) =~= rec);
    let pre = bytes.take(p);
    let rest = bytes.skip(p + rec.len());
    assert(bytes =~= pre + rec + rest);
    lemma_record_at(ps[j - 1], pre, rest);
}

proof fn lemma_records_read(bytes: Seq<u8>, base: int, ps: Seq<TermPostingView>, j: int)
    requires
        0 <= base,
        0 <= j <= ps.len(),
        base + records_upto(ps, ps.len() as int).len() <= bytes.len() <= usize::MAX,
        bytes.subrange(base, base + records_upto(ps, ps.len() as int).len()) == records_upto(ps, ps.len() as int),
        forall|i: int| 0 <= i < ps.len() ==> (#[trigger] sort_ids(ps[i].1)).len() <= u64::MAX,
    ensures
        records_read(bytes, base, j) == Ok::<(Seq<TermPostingView>, int), TermArchiveErrorView>(
            (ps.map_values(|p: TermPostingView| read_view(p)).take(j), base + records_upto(ps, j).len()),
        ),
    decreases j,
{
    let want = ps.map_values(|p: TermPostingView| read_view(p));
    if j == 0 {
        assert(want.take(0) =~= Seq::<TermPostingView>::empty());
    } else {
        lemma_records_read(bytes, base, ps, j - 1);
        assert(sort_ids(ps[j - 1].1).len() <= u64::MAX);
        lemma_record_in(bytes, base, ps, j);
        assert(want.take(j) =~= want.take(j - 1).push(read_view(ps[j - 1])));
    }
}

proof fn lemma_concat_front(m: Seq<u8>, v: Seq<u8>, recs: Seq<u8>, rest: Seq<u8>)
    ensures
        ({
            let bytes = m + (v + (recs + rest));
            &&& bytes.take(m.len() as int) == m
            &&& bytes.skip(m.len() as int) == v + (recs + rest)
            &&& bytes.subrange((m.len() + v.len()) as int, (m.len() + v.len() + recs.len()) as int) == recs
        }),
{
    let bytes = m + (v + (recs + rest));
    assert(bytes.take(m.len() as int) =~= m);
    assert(bytes.skip(m.len() as int) =~= v + (recs + rest));
    assert(bytes.subrange((m.len() + v.len()) as int, (m.len() + v.len() + recs.len()) as int) =~= recs);
}

proof fn lemma_concat_regroup(m: Seq<u8>, v: Seq<u8>, r: Seq<u8>, d: Seq<u8>, l: Seq<u8>, x: Seq<u8>, f: Seq<u8>)
    ensures
        (m + v + r + v + d + l + x) + f == m + (v + (r + (v + d + l + x + f))),
{
    assert((m + v + r + v + d + l + x) + f =~= m + (v + (r + (v + d + l + x + f))));
}

proof fn lemma_archive_split(k: TermArchiveKind, ps: Seq<TermPostingView>)
    ensures
        ({
            let n = ps.len() as int;
            let m = encode_utf8(magic_text(k));
            let head = m + varint_bytes(n as u64);
            let recs = records_upto(ps, n);
            let body = archive_body(k, ps);
            let rest = varint_bytes(n as u64) + dir_upto(ps, head.len() as int, n) + le64_bytes(
                (head.len() + recs.len()) as u64,
            ) + encode_utf8(index_footer_text(k)) + checksum_footer(body, encode_utf8(checksum_text(k)));
            archive_bytes(k, ps) == m + (varint_bytes(n as u64) + (recs + rest))
        }),
{
    let n = ps.len() as int;
    let m = encode_utf8(magic_text(k));
    let v = varint_bytes(n as u64);
    let head = m + v;
    let recs = records_upto(ps, n);
    let d = dir_upto(ps, head.len() as int, n);
    let l = le64_bytes((head.len() + recs.len()) as u64);
    let x = encode_utf8(index_footer_text(k));
    let body = archive_body(k, ps);
    let f = checksum_footer(body, encode_utf8(checksum_text(k)));
    assert(body == m + v + recs + v + d + l + x);
    assert(archive_bytes(k, ps) == body + f);
    lemma_concat_regroup(m, v, recs, d, l, x, f);
}

proof fn lemma_archive_front(k: TermArchiveKind, ps: Seq<TermPostingView>)
    requires
        ps.len() <= u64::MAX,
    ensures
        ({
            let bytes = archive_bytes(k, ps);
            let m = encode_utf8(magic_text(k));
            let head = m + varint_bytes(ps.len() as u64);
            let recs = records_upto(ps, ps.len() as int);
            &&& m.len() <= bytes.len()
            &&& bytes.take(m.len() as int) == m
            &&& checksum_footer_check(bytes, encode_utf8(checksum_text(k))) == Ok::<bool, IntegrityError>(true)
            &&& varint_at(bytes, m.len() as int) == Ok::<(u64, int), IdsError>((ps.len() as u64, head.len() as int))
            &&& head.len() + recs.len() <= bytes.len()
            &&& bytes.subrange(head.len() as int, (head.len() + recs.len()) as int) == recs
        }),
{
    let n = ps.len() as int;
    let m = encode_utf8(magic_text(k));
    let v = varint_bytes(n as u64);
    let head = m + v;
    let recs = records_upto(ps, n);
    let body = archive_body(k, ps);
    let cm = encode_utf8(checksum_text(k));
    let bytes = archive_bytes(k, ps);
    let rest = v + dir_upto(ps, head.len() as int, n) + le64_bytes((head.len() + recs.len()) as u64) + encode_utf8(
        index_footer_text(k),
    ) + checksum_footer(body, cm);
    lemma_archive_split(k, ps);
    assert(bytes == m + (v + (recs + rest)));
    lemma_concat_front(m, v, recs, rest);
    lemma_checksum_footer_verifies(body, cm);
    lemma_varint_at(bytes, m.len() as int, n as u64, recs + rest);
    assert(head.len() == m.len() + v.len());
}

/// Term archive round trip: reading the archive of postings gives back,
/// in the archive's order, each posting's normalized term and its ids
/// sorted without repeats (for an archive that fits in memory).
pub proof fn lemma_term_archive_round_trip(k: TermArchiveKind, ps: Seq<TermPostingView>)
    requires
        archive_bytes(k, ps).len() <= usize::MAX,
        ps.len() <= u64::MAX,
        forall|i: int| 0 <= i < ps.len() ==> (#[trigger] sort_ids(ps[i].1)).len() <= u64::MAX,
    ensures
        term_archive_read(k, archive_bytes(k, ps)) == Ok::<Seq<TermPostingView>, TermArchiveErrorView>(
            ps.map_values(|p: TermPostingView| read_view(p)),
        ),
{
    let n = ps.len() as int;
    let head = encode_utf8(magic_text(k)) + varint_bytes(n as u64);
    let bytes = archive_bytes(k, ps);
    lemma_archive_front(k, ps);
    lemma_records_read(bytes, head.len() as int, ps, n);
    let want = ps.map_values(|p: TermPostingView| read_view(p));
    assert(want.take(n) =~= want);
}

pub(crate) fn label_str(k: TermArchiveKind) -> (s: &'static str)
    ensures
        s@ == kind_label(k),
{
    match k {
        TermArchiveKind::Prefix => "prefix",
        TermArchiveKind::Substring => "substring",
        TermArchiveKind::Fuzzy => "fuzzy",
    }
}

/// What a format error of an archive says before the term decoder's
/// message.
pub open spec fn utf8_reason(k: TermArchiveKind) -> Seq<char> {
    match k {
        TermArchiveKind::Prefix => "invalid UTF-8 prefix in archive: "@,
        TermArchiveKind::Substring => "invalid UTF-8 substring gram in archive: "@,
        TermArchiveKind::Fuzzy => "invalid UTF-8 key: "@,
    }
}

fn utf8_reason_str(k: TermArchiveKind) -> (s: &'static str)
    ensures
        s@ == utf8_reason(k),
{
    match k {
        TermArchiveKind::Prefix => "invalid UTF-8 prefix in archive: ",
        TermArchiveKind::Substring => "invalid UTF-8 substring gram in archive: ",
        TermArchiveKind::Fuzzy => "invalid UTF-8 key: ",
    }
}

/// Why an archive is malformed, as its format error says it.
pub open spec fn archive_reason(k: TermArchiveKind, e: TermArchiveErrorView) -> Seq<char> {
    match e {
        TermArchiveErrorView::Ids(_) => Seq::empty(),
        TermArchiveErrorView::UnsupportedHeader => "unsupported "@ + kind_label(k) + " header"@,
        TermArchiveErrorView::MissingChecksum => "missing "@ + kind_label(k) + " checksum footer"@,
        TermArchiveErrorView::ChecksumMismatch => "checksum mismatch; archive must be rebuilt"@,
        TermArchiveErrorView::TermLengthOverflow => term_length_reason(k),
        TermArchiveErrorView::ListTermLengthOverflow => "term length overflow"@,
        TermArchiveErrorView::ListTermUtf8(m) => "invalid UTF-8 term: "@ + m,
        TermArchiveErrorView::InvalidUtf8(m) => utf8_reason(k) + m,
        TermArchiveErrorView::DirectoryFooterMissing => "missing "@ + kind_label(k) + " directory footer"@,
        TermArchiveErrorView::DirectoryOffsetInvalid => "invalid "@ + kind_label(k) + " directory offset"@,
        TermArchiveErrorView::DirectoryTermLengthOverflow => dir_length_reason(k),
        TermArchiveErrorView::DirectoryUtf8(m) => dir_utf8_reason(k) + m,
        TermArchiveErrorView::PostingOffsetOverflow => "posting offset overflow"@,
        TermArchiveErrorView::PostingLengthOverflow => "posting length overflow"@,
        TermArchiveErrorView::PostingRangeOverflow => "posting range overflow"@,
        TermArchiveErrorView::PostingOutOfBounds => "posting range out of bounds"@,
        TermArchiveErrorView::WrongPosting => kind_label(k) + " directory points at the wrong posting"@,
        TermArchiveErrorView::BatchUnsorted => batch_reason(k),
    }
}

/// Why a posting's term length is refused.
pub open spec fn term_length_reason(k: TermArchiveKind) -> Seq<char> {
    match k {
        TermArchiveKind::Prefix => "prefix length overflow"@,
        TermArchiveKind::Substring => "substring length overflow"@,
        TermArchiveKind::Fuzzy => "key length overflow"@,
    }
}

fn term_length_reason_str(k: TermArchiveKind) -> (s: &'static str)
    ensures
        s@ == term_length_reason(k),
{
    match k {
        TermArchiveKind::Prefix => "prefix length overflow",
        TermArchiveKind::Substring => "substring length overflow",
        TermArchiveKind::Fuzzy => "key length overflow",
    }
}

/// Why a directory term's length is refused.
pub open spec fn dir_length_reason(k: TermArchiveKind) -> Seq<char> {
    match k {
        TermArchiveKind::Prefix => "prefix directory term length overflow"@,
        TermArchiveKind::Substring => "substring directory gram length overflow"@,
        TermArchiveKind::Fuzzy => "directory key length overflow"@,
    }
}

fn dir_length_reason_str(k: TermArchiveKind) -> (s: &'static str)
    ensures
        s@ == dir_length_reason(k),
{
    match k {
        TermArchiveKind::Prefix => "prefix directory term length overflow",
        TermArchiveKind::Substring => "substring directory gram length overflow",
        TermArchiveKind::Fuzzy => "directory key length overflow",
    }
}

/// What a directory term's UTF-8 error says before the decoder's message.
pub open spec fn dir_utf8_reason(k: TermArchiveKind) -> Seq<char> {
    match k {
        TermArchiveKind::Prefix => "invalid UTF-8 prefix in directory: "@,
        TermArchiveKind::Substring => "invalid UTF-8 gram in directory: "@,
        TermArchiveKind::Fuzzy => "invalid UTF-8 directory key: "@,
    }
}

fn dir_utf8_reason_str(k: TermArchiveKind) -> (s: &'static str)
    ensures
        s@ == dir_utf8_reason(k),
{
    match k {
        TermArchiveKind::Prefix => "invalid UTF-8 prefix in directory: ",
        TermArchiveKind::Substring => "invalid UTF-8 gram in directory: ",
        TermArchiveKind::Fuzzy => "invalid UTF-8 directory key: ",
    }
}

/// Why a batch lookup is refused.
pub open spec fn batch_reason(k: TermArchiveKind) -> Seq<char> {
    match k {
        TermArchiveKind::Prefix => "batch prefix lookup terms must be sorted"@,
        TermArchiveKind::Substring => "batch substring lookup grams must be sorted"@,
        TermArchiveKind::Fuzzy => "batch fuzzy lookup keys must be sorted"@,
    }
}

fn batch_reason_str(k: TermArchiveKind) -> (s: &'static str)
    ensures
        s@ == batch_reason(k),
{
    match k {
        TermArchiveKind::Prefix => "batch prefix lookup terms must be sorted",
        TermArchiveKind::Substring => "batch substring lookup grams must be sorted",
        TermArchiveKind::Fuzzy => "batch fuzzy lookup keys must be sorted",
    }
}

/// Whether `g` is the store error of the archive error `e` at `path`: that
/// of the ids for a failed number or ids, else a format error that names
/// the store, the path and the reason.
pub open spec fn is_store_error(g: GfmError, k: TermArchiveKind, path: Seq<char>, e: TermArchiveErrorView) -> bool {
    match e {
        TermArchiveErrorView::Ids(i) => is_id_error(g, path, i),
        _ => g matches GfmError::Format(m) && m@ == "invalid "@ + kind_label(k) + " store "@ + path + ": "@
            + archive_reason(k, e),
    }
}

/// The store error of an archive error at `path`.
pub fn store_error(k: TermArchiveKind, path: &str, e: TermArchiveError) -> (g: GfmError)
    ensures
        is_store_error(g, k, path@, error_view(e)),
{
    if let TermArchiveError::Ids(i) = e {
        return id_error(path, i);
    }
    let ghost ev = error_view(e);
    let mut m = String::from_str("invalid ");
    m.append(label_str(k));
    m.append(" store ");
    m.append(path);
    m.append(": ");
    match e {
        TermArchiveError::UnsupportedHeader => {
            m.append("unsupported ");
            m.append(label_str(k));
            m.append(" header");
        },
        TermArchiveError::MissingChecksum => {
            m.append("missing ");
            m.append(label_str(k));
            m.append(" checksum footer");
        },
        TermArchiveError::ChecksumMismatch => {
            m.append("checksum mismatch; archive must be rebuilt");
        },
        TermArchiveError::TermLengthOverflow => {
            m.append(term_length_reason_str(k));
        },
        TermArchiveError::ListTermLengthOverflow => {
            m.append("term length overflow");
        },
        TermArchiveError::ListTermUtf8(t) => {
            m.append("invalid UTF-8 term: ");
            m.append(t.as_str());
        },
        TermArchiveError::InvalidUtf8(t) => {
            m.append(utf8_reason_str(k));
            m.append(t.as_str());
        },
        TermArchiveError::DirectoryFooterMissing => {
            m.append("missing ");
            m.append(label_str(k));
            m.append(" directory footer");
        },
        TermArchiveError::DirectoryOffsetInvalid => {
            m.append("invalid ");
            m.append(label_str(k));
            m.append(" directory offset");
        },
        TermArchiveError::DirectoryTermLengthOverflow => {
            m.append(dir_length_reason_str(k));
        },
        TermArchiveError::DirectoryUtf8(t) => {
            m.append(dir_utf8_reason_str(k));
            m.append(t.as_str());
        },
        TermArchiveError::PostingOffsetOverflow => {
            m.append("posting offset overflow");
        },
        TermArchiveError::PostingLengthOverflow => {
            m.append("posting length overflow");
        },
        TermArchiveError::PostingRangeOverflow => {
            m.append("posting range overflow");
        },
        TermArchiveError::PostingOutOfBounds => {
            m.append("posting range out of bounds");
        },
        TermArchiveError::WrongPosting => {
            m.append(label_str(k));
            m.append(" directory points at the wrong posting");
        },
        TermArchiveError::BatchUnsorted => {
            m.append(batch_reason_str(k));
        },
        TermArchiveError::Ids(_) => {},
    }
    proof {
        assert(m@ =~= "invalid "@ + kind_label(k) + " store "@ + path@ + ": "@ + archive_reason(k, ev));
    }
    GfmError::Format(m)
}

/// The bytes of the prefix archive of `postings`: sorted by prefix (those
/// with the same prefix in their order), each with its normalized prefix
/// and its blocked ids, with a directory and a checksum footer.
pub fn prefix_archive_bytes(postings: &Vec<PrefixPosting>) -> (bytes: Vec<u8>)
    ensures
        exists|s: Seq<TermPostingView>|
            s.to_multiset() == prefix_entries(postings@).to_multiset() && terms_sorted(s) && bytes@
                == #[trigger] archive_bytes(TermArchiveKind::Prefix, s),
{
    let mut v: Vec<(String, Vec<FileId>)> = Vec::new();
    let mut i: usize = 0;
    while i < postings.len()
        invariant
            i <= postings@.len(),
            posting_views(v@) == prefix_entries(postings@).take(i as int),
        decreases postings@.len() - i,
    {
        let p = &postings[i];
        let t = p.prefix.clone();
        let ids = copy_ids(&p.ids);
        let ghost before = posting_views(v@);
        v.push((t, ids));
        proof {
            assert(posting_views(v@) =~= before.push((p.prefix@, p.ids@)));
            assert(prefix_entries(postings@).take(i as int + 1) =~= prefix_entries(postings@).take(i as int).push(
                (p.prefix@, p.ids@),
            ));
        }
        i = i + 1;
    }
    proof {
        assert(prefix_entries(postings@).take(i as int) =~= prefix_entries(postings@));
    }
    write_term_archive(TermArchiveKind::Prefix, &v)
}

/// The postings of the prefix archive `bytes` read from `path`, in the
/// archive's order; or the store error of why it could not be read.
pub fn prefix_postings_from_bytes(path: &str, bytes: &[u8]) -> (r: Result<Vec<PrefixPosting>, GfmError>)
    ensures
        match term_archive_read(TermArchiveKind::Prefix, bytes@) {
            Ok(ps) => r matches Ok(v) && prefix_entries(v@) == ps,
            Err(e) => r matches Err(g) && is_store_error(g, TermArchiveKind::Prefix, path@, e),
        },
{
    match read_term_archive(TermArchiveKind::Prefix, bytes) {
        Err(e) => Err(store_error(TermArchiveKind::Prefix, path, e)),
        Ok(ps) => {
            let mut out: Vec<PrefixPosting> = Vec::new();
            let mut i: usize = 0;
            while i < ps.len()
                invariant
                    i <= ps@.len(),
                    prefix_entries(out@) == posting_views(ps@).take(i as int),
                decreases ps@.len() - i,
            {
                let p = &ps[i];
                let t = p.0.clone();
                let ids = copy_ids(&p.1);
                let ghost before = prefix_entries(out@);
                out.push(PrefixPosting { prefix: t, ids });
                proof {
                    assert(prefix_entries(out@) =~= before.push((p.0@, p.1@)));
                    assert(posting_views(ps@).take(i as int + 1) =~= posting_views(ps@).take(i as int).push(
                        (p.0@, p.1@),
                    ));
                }
                i = i + 1;
            }
            proof {
                assert(posting_views(ps@).take(i as int) =~= posting_views(ps@));
            }
            Ok(out)
        },
    }
}

/// The bytes of the substring archive of `postings`: sorted by gram (those
/// with the same gram in their order), each with its normalized gram and
/// its blocked ids, with a directory and a checksum footer.
pub fn substring_archive_bytes(postings: &Vec<SubstringPosting>) -> (bytes: Vec<u8>)
    ensures
        exists|s: Seq<TermPostingView>|
            s.to_multiset() == substring_entries(postings@).to_multiset() && terms_sorted(s) && bytes@
                == #[trigger] archive_bytes(TermArchiveKind::Substring, s),
{
    let mut v: Vec<(String, Vec<FileId>)> = Vec::new();
    let mut i: usize = 0;
    while i < postings.len()
        invariant
            i <= postings@.len(),
            posting_views(v@) == substring_entries(postings@).take(i as int),
        decreases postings@.len() - i,
    {
        let p = &postings[i];
        let t = p.gram.clone();
        let ids = copy_ids(&p.ids);
        let ghost before = posting_views(v@);
        v.push((t, ids));
        proof {
            assert(posting_views(v@) =~= before.push((p.gram@, p.ids@)));
            assert(substring_entries(postings@).take(i as int + 1) =~= substring_entries(postings@).take(i as int).push(
                (p.gram@, p.ids@),
            ));
        }
        i = i + 1;
    }
    proof {
        assert(substring_entries(postings@).take(i as int) =~= substring_entries(postings@));
    }
    write_term_archive(TermArchiveKind::Substring, &v)
}

/// The postings of the substring archive `bytes` read from `path`, in the
/// archive's order; or the store error of why it could not be read.
pub fn substring_postings_from_bytes(path: &str, bytes: &[u8]) -> (r: Result<Vec<SubstringPosting>, GfmError>)
    ensures
        match term_archive_read(TermArchiveKind::Substring, bytes@) {
            Ok(ps) => r matches Ok(v) && substring_entries(v@) == ps,
            Err(e) => r matches Err(g) && is_store_error(g, TermArchiveKind::Substring, path@, e),
        },
{
    match read_term_archive(TermArchiveKind::Substring, bytes) {
        Err(e) => Err(store_error(TermArchiveKind::Substring, path, e)),
        Ok(ps) => {
            let mut out: Vec<SubstringPosting> = Vec::new();
            let mut i: usize = 0;
            while i < ps.len()
                invariant
                    i <= ps@.len(),
                    substring_entries(out@) == posting_views(ps@).take(i as int),
                decreases ps@.len() - i,
            {
                let p = &ps[i];
                let t = p.0.clone();
                let ids = copy_ids(&p.1);
                let ghost before = substring_entries(out@);
                out.push(SubstringPosting { gram: t, ids });
                proof {
                    assert(substring_entries(out@) =~= before.push((p.0@, p.1@)));
                    assert(posting_views(ps@).take(i as int + 1) =~= posting_views(ps@).take(i as int).push(
                        (p.0@, p.1@),
                    ));
                }
                i = i + 1;
            }
            proof {
                assert(posting_views(ps@).take(i as int) =~= posting_views(ps@));
            }
            Ok(out)
        },
    }
}

} // verus!
