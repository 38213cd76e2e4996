use vstd::prelude::*;
use vstd::utf8::{decode_utf8, encode_utf8, valid_utf8};

use crate::codec::{
    checksum_footer, checksum_footer_check, varint_bytes, verify_checksum_footer, write_checksum_footer, write_varint,
    IntegrityError,
};
use crate::error::GfmError;
use crate::ids::{read_varint_at, varint_at, IdsError};
use crate::order::{lemma_seq_less_irreflexive, lemma_seq_less_transitive, seq_less, str_less, string_views};
use crate::postings::{fuzzy_entries, FuzzyPosting, LimitedFuzzyPosting};
use crate::termarchive::{
    archive_varint, checksum_str, checksum_text, dir_record, error_view, header_at, index_footer_str,
    index_footer_text, is_store_error, le64_bytes, magic_str, magic_text, push_bytes, push_le64, read_header,
    write_dir_record,
    store_error, utf8_error_text, utf8_text, TermArchiveError, TermArchiveErrorView, TermArchiveKind,
};
use crate::termindex::{
    accepted_upto, advance, dir_parse, dir_sorted, find_entry, posting_range, prev_view, select_accepted, strictly_sorted,
    DirView, TermIndex,
};
use crate::text::str_equal;
use crate::terms::{normalize, normalized};

verus! {

/// The plain value of a fuzzy posting: its key and its terms.
pub type FuzzyView = (Seq<char>, Seq<Seq<char>>);

/// The listed term at `p`: its length, then its UTF-8 bytes; and the
/// position after it.
pub open spec fn list_term_at(bytes: Seq<u8>, p: int) -> Result<(Seq<char>, int), TermArchiveErrorView> {
    match varint_at(bytes, p) {
        Err(e) => Err(TermArchiveErrorView::Ids(e)),
        Ok((len, p1)) => if len > usize::MAX {
            Err(TermArchiveErrorView::ListTermLengthOverflow)
        } else if p1 + len > bytes.len() {
            Err(TermArchiveErrorView::Ids(IdsError::UnexpectedEof))
        } else {
            let tb = bytes.subrange(p1, p1 + len);
            if !valid_utf8(tb) {
                Err(TermArchiveErrorView::ListTermUtf8(utf8_error_text(tb)))
            } else {
                Ok((decode_utf8(tb), p1 + len))
            }
        },
    }
}

/// The first `k` listed terms read from `p0` on, and the position after
/// them.
pub open spec fn list_terms_read(bytes: Seq<u8>, p0: int, k: int) -> Result<(Seq<Seq<char>>, int), TermArchiveErrorView>
    decreases k,
{
    if k <= 0 {
        Ok((Seq::empty(), p0))
    } else {
        match list_terms_read(bytes, p0, k - 1) {
            Err(e) => Err(e),
            Ok((ts, p)) => match list_term_at(bytes, p) {
                Err(e) => Err(e),
                Ok((t, q)) => Ok((ts.push(t), q)),
            },
        }
    }
}

/// The fuzzy posting at `p`: its key, the number of its terms and each
/// term; and the position after it.
#[verifier::opaque]
pub open spec fn fuzzy_record_at(bytes: Seq<u8>, p: int) -> Result<(FuzzyView, int), TermArchiveErrorView> {
    match header_at(bytes, p) {
        Err(e) => Err(e),
        Ok((key, p1)) => match varint_at(bytes, p1) {
            Err(e) => Err(TermArchiveErrorView::Ids(e)),
            Ok((count, p2)) => match list_terms_read(bytes, p2, count as int) {
                Err(e) => Err(e),
                Ok((ts, p3)) => Ok(((key, ts), p3)),
            },
        },
    }
}

/// The first `k` fuzzy postings read from `p0` on, and the position after
/// them.
pub open spec fn fuzzy_records_read(bytes: Seq<u8>, p0: int, k: int) -> Result<(Seq<FuzzyView>, int), TermArchiveErrorView>
    decreases k,
{
    if k <= 0 {
        Ok((Seq::empty(), p0))
    } else {
        match fuzzy_records_read(bytes, p0, k - 1) {
            Err(e) => Err(e),
            Ok((ps, p)) => match fuzzy_record_at(bytes, p) {
                Err(e) => Err(e),
                Ok((x, q)) => Ok((ps.push(x), q)),
            },
        }
    }
}

/// The postings of a fuzzy archive read in order: the magic, the checksum
/// footer, the number of postings, then each posting.
pub open spec fn fuzzy_archive_read(bytes: Seq<u8>) -> Result<Seq<FuzzyView>, TermArchiveErrorView> {
    let m = encode_utf8(magic_text(TermArchiveKind::Fuzzy));
    if bytes.len() < m.len() {
        Err(TermArchiveErrorView::Ids(IdsError::UnexpectedEof))
    } else if bytes.take(m.len() as int) != m {
        Err(TermArchiveErrorView::UnsupportedHeader)
    } else {
        match checksum_footer_check(bytes, encode_utf8(checksum_text(TermArchiveKind::Fuzzy))) {
            Ok(false) => Err(TermArchiveErrorView::MissingChecksum),
            Err(_) => Err(TermArchiveErrorView::ChecksumMismatch),
            Ok(true) => match varint_at(bytes, m.len() as int) {
                Err(e) => Err(TermArchiveErrorView::Ids(e)),
                Ok((count, p)) => match fuzzy_records_read(bytes, p, count as int) {
                    Err(e) => Err(e),
                    Ok((ps, _)) => Ok(ps),
                },
            },
        }
    }
}

/// Where a part sits inside what was written: `bytes` hold `all` from
/// `base` on, and `all` starts with `before` then `r`.
proof fn lemma_part_at(bytes: Seq<u8>, base: int, all: Seq<u8>, before: Seq<u8>, r: Seq<u8>)
    requires
        0 <= base,
        base + all.len() <= bytes.len(),
        bytes.subrange(base, base + all.len()) == all,
        (before + r).len() <= all.len(),
        all.take((before + r).len() as int) == before + r,
    ensures
        bytes == bytes.take(base + before.len()) + r + bytes.skip(base + before.len() + r.len()),
{
    let p = base + before.len();
    assert forall|j: int| 0 <= j < r.len() implies bytes[p + j] == r[j] by {
        let q = before.len() + j;
        assert(bytes.subrange(base, base + all.len())[q] == bytes[base + q]);
        assert(all.take((before + r).len() as int)[q] == all[q]);
        assert((before + r)[q] == r[j]);
    }
    assert(bytes =~= bytes.take(p) + r + bytes.skip(p + r.len()));
}

proof fn lemma_texts_prefix(ts: Seq<Seq<char>>, j: int, n: int)
    requires
        0 <= j <= n,
    ensures
        texts_bytes_upto(ts, j).len() <= texts_bytes_upto(ts, n).len(),
        texts_bytes_upto(ts, n).take(texts_bytes_upto(ts, j).len() as int) == texts_bytes_upto(ts, j),
    decreases n - j,
{
    if j < n {
        lemma_texts_prefix(ts, j, n - 1);
        let a = texts_bytes_upto(ts, n - 1);
        assert((a + text_bytes(ts[n - 1])).take(texts_bytes_upto(ts, j).len() as int) =~= a.take(
            texts_bytes_upto(ts, j).len() as int,
        ));
    } else {
        assert(texts_bytes_upto(ts, n).take(texts_bytes_upto(ts, n).len() as int) =~= texts_bytes_upto(ts, n));
    }
}

proof fn lemma_fuzzy_records_prefix(ps: Seq<FuzzyView>, j: int, n: int)
    requires
        0 <= j <= n,
    ensures
        fuzzy_records_upto(ps, j).len() <= fuzzy_records_upto(ps, n).len(),
        fuzzy_records_upto(ps, n).take(fuzzy_records_upto(ps, j).len() as int) == fuzzy_records_upto(ps, j),
    decreases n - j,
{
    if j < n {
        lemma_fuzzy_records_prefix(ps, j, n - 1);
        let a = fuzzy_records_upto(ps, n - 1);
        assert((a + fuzzy_record(ps[n - 1])).take(fuzzy_records_upto(ps, j).len() as int) =~= a.take(
            fuzzy_records_upto(ps, j).len() as int,
        ));
    } else {
        assert(fuzzy_records_upto(ps, n).take(fuzzy_records_upto(ps, n).len() as int) =~= fuzzy_records_upto(ps, n));
    }
}

/// A text written after `pre` is read back, as a header and as a listed
/// term.
proof fn lemma_text_at(t: Seq<char>, pre: Seq<u8>, rest: Seq<u8>)
    requires
        (pre + text_bytes(t) + rest).len() <= usize::MAX,
    ensures
        header_at(pre + text_bytes(t) + rest, pre.len() as int) == Ok::<(Seq<char>, int), TermArchiveErrorView>(
            (t, (pre.len() + text_bytes(t).len()) as int),
        ),
        list_term_at(pre + text_bytes(t) + rest, pre.len() as int) == Ok::<(Seq<char>, int), TermArchiveErrorView>(
            (t, (pre.len() + text_bytes(t).len()) as int),
        ),
{
    let b = encode_utf8(t);
    let vb = varint_bytes(b.len() as u64);
    let bytes = pre + text_bytes(t) + rest;
    let pos = pre.len() as int;
    assert(bytes.skip(pos) =~= vb + (b + rest));
    crate::ids::lemma_varint_at(bytes, pos, b.len() as u64, b + rest);
    let p1 = pos + vb.len();
    assert(bytes.subrange(p1, p1 + b.len()) =~= b);
    vstd::utf8::encode_utf8_valid_utf8(t);
    vstd::utf8::encode_utf8_decode_utf8(t);
}

proof fn lemma_list_terms(bytes: Seq<u8>, p0: int, ts: Seq<Seq<char>>, k: int)
    requires
        0 <= p0,
        0 <= k <= ts.len(),
        p0 + texts_bytes_upto(ts, ts.len() as int).len() <= bytes.len() <= usize::MAX,
        bytes.subrange(p0, p0 + texts_bytes_upto(ts, ts.len() as int).len()) == texts_bytes_upto(ts, ts.len() as int),
    ensures
        list_terms_read(bytes, p0, k) == Ok::<(Seq<Seq<char>>, int), TermArchiveErrorView>(
            (ts.take(k), p0 + texts_bytes_upto(ts, k).len()),
        ),
    decreases k,
{
    if k == 0 {
        assert(ts.take(0) =~= Seq::<Seq<char>>::empty());
    } else {
        lemma_list_terms(bytes, p0, ts, k - 1);
        let n = ts.len() as int;
        lemma_texts_prefix(ts, k, n);
        let before = texts_bytes_upto(ts, k - 1);
        let r = text_bytes(ts[k - 1]);
        assert(texts_bytes_upto(ts, k) == before + r);
        lemma_part_at(bytes, p0, texts_bytes_upto(ts, n), before, r);
        let pre = bytes.take(p0 + before.len());
        lemma_text_at(ts[k - 1], pre, bytes.skip(p0 + before.len() + r.len()));
        assert(ts.take(k) =~= ts.take(k - 1).push(ts[k - 1]));
    }
}

/// What reading gives back of a fuzzy posting that was written: its key
/// normalized, and its terms.
pub open spec fn fuzzy_read_view(p: FuzzyView) -> FuzzyView {
    (normalized(p.0), p.1)
}

#[verifier::rlimit(40)]
proof fn lemma_fuzzy_record_at(x: FuzzyView, pre: Seq<u8>, rest: Seq<u8>)
    requires
        (pre + fuzzy_record(x) + rest).len() <= usize::MAX,
        x.1.len() <= u64::MAX,
    ensures
        fuzzy_record_at(pre + fuzzy_record(x) + rest, pre.len() as int) == Ok::<(FuzzyView, int), TermArchiveErrorView>(
            (fuzzy_read_view(x), (pre.len() + fuzzy_record(x).len()) as int),
        ),
{
    let bytes = pre + fuzzy_record(x) + rest;
    let kb = text_bytes(normalized(x.0));
    let cb = varint_bytes(x.1.len() as u64);
    let tb = texts_bytes_upto(x.1, x.1.len() as int);
    reveal(fuzzy_record_at);
    assert(bytes =~= pre + kb + (cb + tb + rest));
    lemma_text_at(normalized(x.0), pre, cb + tb + rest);
    let p1 = (pre.len() + kb.len()) as int;
    assert(bytes.skip(p1) =~= cb + (tb + rest));
    crate::ids::lemma_varint_at(bytes, p1, x.1.len() as u64, tb + rest);
    let p2 = p1 + cb.len() as int;
    assert(bytes.subrange(p2, p2 + tb.len()) =~= tb);
    lemma_list_terms(bytes, p2, x.1, x.1.len() as int);
    assert(x.1.take(x.1.len() as int) =~= x.1);
}

proof fn lemma_fuzzy_records_read(bytes: Seq<u8>, base: int, ps: Seq<FuzzyView>, j: int)
    requires
        0 <= base,
        0 <= j <= ps.len(),
        base + fuzzy_records_upto(ps, ps.len() as int).len() <= bytes.len() <= usize::MAX,
        bytes.subrange(base, base + fuzzy_records_upto(ps, ps.len() as int).len()) == fuzzy_records_upto(
            ps,
            ps.len() as int,
        ),
        forall|i: int| 0 <= i < ps.len() ==> (#[trigger] ps[i].1).len() <= u64::MAX,
    ensures
        fuzzy_records_read(bytes, base, j) == Ok::<(Seq<FuzzyView>, int), TermArchiveErrorView>(
            (ps.map_values(|p: FuzzyView| fuzzy_read_view(p)).take(j), base + fuzzy_records_upto(ps, j).len()),
        ),
    decreases j,
{
    let want = ps.map_values(|p: FuzzyView| fuzzy_read_view(p));
    if j == 0 {
        assert(want.take(0) =~= Seq::<FuzzyView>::empty());
    } else {
        lemma_fuzzy_records_read(bytes, base, ps, j - 1);
        let n = ps.len() as int;
        lemma_fuzzy_records_prefix(ps, j, n);
        let before = fuzzy_records_upto(ps, j - 1);
        let r = fuzzy_record(ps[j - 1]);
        assert(fuzzy_records_upto(ps, j) == before + r);
        lemma_part_at(bytes, base, fuzzy_records_upto(ps, n), before, r);
        assert(ps[j - 1].1.len() <= u64::MAX);
        lemma_fuzzy_record_at(ps[j - 1], bytes.take(base + before.len()), bytes.skip(base + before.len() + r.len()));
        assert(want.take(j) =~= want.take(j - 1).push(fuzzy_read_view(ps[j - 1])));
    }
}

proof fn lemma_fuzzy_regroup(m: Seq<u8>, v: Seq<u8>, r: Seq<u8>, d: Seq<u8>, l: Seq<u8>, x: Seq<u8>, f: Seq<u8>)
    ensures
        (m + v + r + v + d + l + x) + f == m + (v + (r + (v + d + l + x + f))),
        ({
            let bytes = m + (v + (r + (v + d + l + x + f)));
            &&& bytes.take(m.len() as int) == m
            &&& bytes.skip(m.len() as int) == v + (r + (v + d + l + x + f))
            &&& bytes.subrange((m.len() + v.len()) as int, (m.len() + v.len() + r.len()) as int) == r
        }),
{
    let bytes = m + (v + (r + (v + d + l + x + f)));
    assert((m + v + r + v + d + l + x) + f =~= bytes);
    assert(bytes.take(m.len() as int) =~= m);
    assert(bytes.skip(m.len() as int) =~= v + (r + (v + d + l + x + f)));
    assert(bytes.subrange((m.len() + v.len()) as int, (m.len() + v.len() + r.len()) as int) =~= r);
}

proof fn lemma_fuzzy_split(ps: Seq<FuzzyView>)
    ensures
        ({
            let k = TermArchiveKind::Fuzzy;
            let n = ps.len() as int;
            let m = encode_utf8(magic_text(k));
            let v = varint_bytes(n as u64);
            let recs = fuzzy_records_upto(ps, n);
            let body = fuzzy_archive_body(ps);
            let rest = v + fuzzy_dir_upto(ps, (m.len() + v.len()) as int, n) + le64_bytes(
                (m.len() + v.len() + recs.len()) as u64,
            ) + encode_utf8(index_footer_text(k)) + checksum_footer(body, encode_utf8(checksum_text(k)));
            let bytes = fuzzy_archive_bytes(ps);
            &&& bytes == m + (v + (recs + rest))
            &&& bytes.take(m.len() as int) == m
            &&& bytes.skip(m.len() as int) == v + (recs + rest)
            &&& bytes.subrange((m.len() + v.len()) as int, (m.len() + v.len() + recs.len()) as int) == recs
        }),
{
    let k = TermArchiveKind::Fuzzy;
    let n = ps.len() as int;
    let m = encode_utf8(magic_text(k));
    let v = varint_bytes(n as u64);
    let recs = fuzzy_records_upto(ps, n);
    let d = fuzzy_dir_upto(ps, (m.len() + v.len()) as int, n);
    let l = le64_bytes((m.len() + v.len() + recs.len()) as u64);
    let x = encode_utf8(index_footer_text(k));
    let body = fuzzy_archive_body(ps);
    let f = checksum_footer(body, encode_utf8(checksum_text(k)));
    assert(body == m + v + recs + v + d + l + x);
    lemma_fuzzy_regroup(m, v, recs, d, l, x, f);
}

proof fn lemma_fuzzy_front(ps: Seq<FuzzyView>)
    requires
        ps.len() <= u64::MAX,
    ensures
        ({
            let k = TermArchiveKind::Fuzzy;
            let bytes = fuzzy_archive_bytes(ps);
            let m = encode_utf8(magic_text(k));
            let head = (m.len() + varint_bytes(ps.len() as u64).len()) as int;
            let recs = fuzzy_records_upto(ps, ps.len() as int);
            &&& m.len() <= bytes.len()
            &&& bytes.take(m.len() as int) == m
            &&& checksum_footer_check(bytes, encode_utf8(checksum_text(k))) == Ok::<bool, IntegrityError>(true)
            &&& varint_at(bytes, m.len() as int) == Ok::<(u64, int), IdsError>((ps.len() as u64, head))
            &&& head + recs.len() <= bytes.len()
            &&& bytes.subrange(head, head + recs.len()) == recs
        }),
{
    let k = TermArchiveKind::Fuzzy;
    let n = ps.len() as int;
    let m = encode_utf8(magic_text(k));
    let v = varint_bytes(n as u64);
    let recs = fuzzy_records_upto(ps, n);
    let body = fuzzy_archive_body(ps);
    let cm = encode_utf8(checksum_text(k));
    let rest = v + fuzzy_dir_upto(ps, (m.len() + v.len()) as int, n) + le64_bytes(
        (m.len() + v.len() + recs.len()) as u64,
    ) + encode_utf8(index_footer_text(k)) + checksum_footer(body, cm);
    let bytes = fuzzy_archive_bytes(ps);
    lemma_fuzzy_split(ps);
    crate::codec::lemma_checksum_footer_verifies(body, cm);
    crate::ids::lemma_varint_at(bytes, m.len() as int, n as u64, recs + rest);
}

proof fn lemma_fuzzy_read_from(bytes: Seq<u8>, count: u64, p: int, want: Seq<FuzzyView>, e: int)
    requires
        encode_utf8(magic_text(TermArchiveKind::Fuzzy)).len() <= bytes.len(),
        bytes.take(encode_utf8(magic_text(TermArchiveKind::Fuzzy)).len() as int) == encode_utf8(
            magic_text(TermArchiveKind::Fuzzy),
        ),
        checksum_footer_check(bytes, encode_utf8(checksum_text(TermArchiveKind::Fuzzy))) == Ok::<bool, IntegrityError>(
            true,
        ),
        varint_at(bytes, encode_utf8(magic_text(TermArchiveKind::Fuzzy)).len() as int) == Ok::<(u64, int), IdsError>(
            (count, p),
        ),
        fuzzy_records_read(bytes, p, count as int) == Ok::<(Seq<FuzzyView>, int), TermArchiveErrorView>((want, e)),
    ensures
        fuzzy_archive_read(bytes) == Ok::<Seq<FuzzyView>, TermArchiveErrorView>(want),
{
}

/// Fuzzy archive round trip: reading the archive of fuzzy postings gives
/// back, in the archive's order, each posting's key normalized and its
/// terms (for an archive that fits in memory).
pub proof fn lemma_fuzzy_archive_round_trip(ps: Seq<FuzzyView>)
    requires
        fuzzy_archive_bytes(ps).len() <= usize::MAX,
        ps.len() <= u64::MAX,
        forall|i: int| 0 <= i < ps.len() ==> (#[trigger] ps[i].1).len() <= u64::MAX,
    ensures
        fuzzy_archive_read(fuzzy_archive_bytes(ps)) == Ok::<Seq<FuzzyView>, TermArchiveErrorView>(
            ps.map_values(|p: FuzzyView| fuzzy_read_view(p)),
        ),
{
    let n = ps.len() as int;
    let m = encode_utf8(magic_text(TermArchiveKind::Fuzzy));
    let head = (m.len() + varint_bytes(n as u64).len()) as int;
    let bytes = fuzzy_archive_bytes(ps);
    lemma_fuzzy_front(ps);
    lemma_fuzzy_records_read(bytes, head, ps, n);
    let want = ps.map_values(|p: FuzzyView| fuzzy_read_view(p));
    assert(want.take(n) =~= want);
    lemma_fuzzy_read_from(bytes, n as u64, head, want, head + fuzzy_records_upto(ps, n).len());
}

/// Reads the listed term at `p`.
fn read_list_term(bytes: &[u8], p: usize) -> (r: Result<(String, usize), TermArchiveError>)
    requires
        p <= bytes@.len(),
    ensures
        match list_term_at(bytes@, p as int) {
            Ok((t, q)) => r matches Ok((v, e)) && v@ == t && e as int == q && q <= bytes@.len(),
            Err(e) => r matches Err(g) && error_view(g) == e,
        },
{
    let (len, p1) = match archive_varint(bytes, p) {
        Ok(x) => x,
        Err(e) => return Err(e),
    };
    if len > usize::MAX as u64 {
        return Err(TermArchiveError::ListTermLengthOverflow);
    }
    let l = len as usize;
    if l > bytes.len() - p1 {
        return Err(TermArchiveError::Ids(IdsError::UnexpectedEof));
    }
    let mut tb: Vec<u8> = Vec::new();
    push_bytes(&mut tb, vstd::slice::slice_subrange(bytes, p1, p1 + l));
    match utf8_text(tb) {
        Ok(t) => Ok((t, p1 + l)),
        Err(m) => Err(TermArchiveError::ListTermUtf8(m)),
    }
}

proof fn lemma_list_terms_read_err(bytes: Seq<u8>, p0: int, k: int, n: int)
    requires
        0 <= k <= n,
        list_terms_read(bytes, p0, k) is Err,
    ensures
        list_terms_read(bytes, p0, n) == list_terms_read(bytes, p0, k),
    decreases n - k,
{
    if k < n {
        lemma_list_terms_read_err(bytes, p0, k + 1, n);
    }
}

/// Reads `k` listed terms from `p0` on.
fn read_list_terms(bytes: &[u8], p0: usize, k: u64) -> (r: Result<(Vec<String>, usize), TermArchiveError>)
    requires
        p0 <= bytes@.len(),
    ensures
        match list_terms_read(bytes@, p0 as int, k as int) {
            Ok((ts, q)) => r matches Ok((v, e)) && string_views(v@) == ts && e as int == q && q <= bytes@.len(),
            Err(e) => r matches Err(g) && error_view(g) == e,
        },
{
    let mut out: Vec<String> = Vec::new();
    let mut p: usize = p0;
    let mut c: u64 = 0;
    proof {
        assert(string_views(out@) =~= Seq::<Seq<char>>::empty());
    }
    while c < k
        invariant
            c <= k,
            p <= bytes@.len(),
            list_terms_read(bytes@, p0 as int, c as int) == Ok::<(Seq<Seq<char>>, int), TermArchiveErrorView>(
                (string_views(out@), p as int),
            ),
        decreases k - c,
    {
        match read_list_term(bytes, p) {
            Ok((t, q)) => {
                let ghost before = string_views(out@);
                let ghost tv = t@;
                out.push(t);
                proof {
                    assert(string_views(out@) =~= before.push(tv));
                }
                p = q;
            },
            Err(e) => {
                proof {
                    lemma_list_terms_read_err(bytes@, p0 as int, c as int + 1, k as int);
                }
                return Err(e);
            },
        }
        c = c + 1;
    }
    Ok((out, p))
}

/// Reads the fuzzy posting at `p`.
pub(crate) fn read_fuzzy_record(bytes: &[u8], p: usize) -> (r: Result<(FuzzyPosting, usize), TermArchiveError>)
    requires
        p <= bytes@.len(),
    ensures
        match fuzzy_record_at(bytes@, p as int) {
            Ok((x, q)) => r matches Ok((v, e)) && (v.key@, string_views(v.terms@)) == x && e as int == q && q
                <= bytes@.len(),
            Err(e) => r matches Err(g) && error_view(g) == e,
        },
{
    proof {
        reveal(fuzzy_record_at);
    }
    let (key, p1) = match read_header(bytes, p) {
        Ok(x) => x,
        Err(e) => return Err(e),
    };
    let (count, p2) = match archive_varint(bytes, p1) {
        Ok(x) => x,
        Err(e) => return Err(e),
    };
    match read_list_terms(bytes, p2, count) {
        Ok((terms, p3)) => Ok((FuzzyPosting { key, terms }, p3)),
        Err(e) => Err(e),
    }
}

proof fn lemma_fuzzy_records_read_err(bytes: Seq<u8>, p0: int, k: int, n: int)
    requires
        0 <= k <= n,
        fuzzy_records_read(bytes, p0, k) is Err,
    ensures
        fuzzy_records_read(bytes, p0, n) == fuzzy_records_read(bytes, p0, k),
    decreases n - k,
{
    if k < n {
        lemma_fuzzy_records_read_err(bytes, p0, k + 1, n);
    }
}

/// The postings of the fuzzy archive `bytes` read from `path`, in the
/// archive's order; or the store error of why it could not be read.
pub fn fuzzy_postings_from_bytes(path: &str, bytes: &[u8]) -> (r: Result<Vec<FuzzyPosting>, GfmError>)
    ensures
        match fuzzy_archive_read(bytes@) {
            Ok(ps) => r matches Ok(v) && fuzzy_entries(v@) == ps,
            Err(e) => r matches Err(g) && is_store_error(g, TermArchiveKind::Fuzzy, path@, e),
        },
{
    let k = TermArchiveKind::Fuzzy;
    let m = magic_str(k).as_bytes();
    proof {
        assert(m@ == encode_utf8(magic_text(k)));
    }
    if bytes.len() < m.len() {
        return Err(store_error(k, path, TermArchiveError::Ids(IdsError::UnexpectedEof)));
    }
    let mut i: usize = 0;
    while i < m.len()
        invariant
            k == TermArchiveKind::Fuzzy,
            m@ == encode_utf8(magic_text(k)),
            m@.len() <= bytes@.len(),
            i <= m@.len(),
            forall|j: int| 0 <= j < i ==> bytes@[j] == m@[j],
        decreases m@.len() - i,
    {
        if bytes[i] != m[i] {
            proof {
                assert(bytes@.take(m@.len() as int)[i as int] != m@[i as int]);
            }
            return Err(store_error(k, path, TermArchiveError::UnsupportedHeader));
        }
        i = i + 1;
    }
    proof {
        assert(bytes@.take(m@.len() as int) =~= m@);
    }
    match verify_checksum_footer(bytes, checksum_str(k).as_bytes()) {
        Ok(true) => {},
        Ok(false) => return Err(store_error(k, path, TermArchiveError::MissingChecksum)),
        Err(_) => return Err(store_error(k, path, TermArchiveError::ChecksumMismatch)),
    }
    let (count, p0) = match archive_varint(bytes, m.len()) {
        Ok(x) => x,
        Err(e) => return Err(store_error(k, path, e)),
    };
    let mut ps: Vec<FuzzyPosting> = Vec::new();
    let mut p: usize = p0;
    let mut c: u64 = 0;
    let ghost whole = fuzzy_records_read(bytes@, p0 as int, count as int);
    proof {
        assert(fuzzy_entries(ps@) =~= Seq::<FuzzyView>::empty());
        assert(fuzzy_archive_read(bytes@) == match whole {
            Err(e) => Err(e),
            Ok((v, _)) => Ok::<Seq<FuzzyView>, TermArchiveErrorView>(v),
        });
    }
    while c < count
        invariant
            k == TermArchiveKind::Fuzzy,
            whole == fuzzy_records_read(bytes@, p0 as int, count as int),
            fuzzy_archive_read(bytes@) == match whole {
                Err(e) => Err(e),
                Ok((v, _)) => Ok::<Seq<FuzzyView>, TermArchiveErrorView>(v),
            },
            c <= count,
            p <= bytes@.len(),
            fuzzy_records_read(bytes@, p0 as int, c as int) == Ok::<(Seq<FuzzyView>, int), TermArchiveErrorView>(
                (fuzzy_entries(ps@), p as int),
            ),
        decreases count - c,
    {
        match read_fuzzy_record(bytes, p) {
            Ok((x, q)) => {
                let ghost before = fuzzy_entries(ps@);
                let ghost xv = (x.key@, string_views(x.terms@));
                ps.push(x);
                proof {
                    assert(fuzzy_entries(ps@) =~= before.push(xv));
                }
                p = q;
            },
            Err(e) => {
                proof {
                    lemma_fuzzy_records_read_err(bytes@, p0 as int, c as int + 1, count as int);
                }
                return Err(store_error(k, path, e));
            },
        }
        c = c + 1;
    }
    Ok(ps)
}

/// The bytes of a text: the length of its UTF-8, then its UTF-8.
pub open spec fn text_bytes(t: Seq<char>) -> Seq<u8> {
    varint_bytes(encode_utf8(t).len() as u64) + encode_utf8(t)
}

/// The bytes of the first `k` texts, one after another.
pub open spec fn texts_bytes_upto(ts: Seq<Seq<char>>, k: int) -> Seq<u8>
    decreases k,
{
    if k <= 0 {
        Seq::empty()
    } else {
        texts_bytes_upto(ts, k - 1) + text_bytes(ts[k - 1])
    }
}

/// The bytes of a fuzzy posting: its normalized key, the number of its
/// terms, then each term.
pub open spec fn fuzzy_record(p: FuzzyView) -> Seq<u8> {
    text_bytes(normalized(p.0)) + varint_bytes(p.1.len() as u64) + texts_bytes_upto(p.1, p.1.len() as int)
}

/// The records of the first `k` fuzzy postings, one after another.
pub open spec fn fuzzy_records_upto(ps: Seq<FuzzyView>, k: int) -> Seq<u8>
    decreases k,
{
    if k <= 0 {
        Seq::empty()
    } else {
        fuzzy_records_upto(ps, k - 1) + fuzzy_record(ps[k - 1])
    }
}

/// The directory entries of the first `k` fuzzy postings, whose records
/// start at `base`.
pub open spec fn fuzzy_dir_upto(ps: Seq<FuzzyView>, base: int, k: int) -> Seq<u8>
    decreases k,
{
    if k <= 0 {
        Seq::empty()
    } else {
        fuzzy_dir_upto(ps, base, k - 1) + dir_record(
            ps[k - 1].0,
            base + fuzzy_records_upto(ps, k - 1).len(),
            fuzzy_record(ps[k - 1]).len() as int,
        )
    }
}

/// The bytes a fuzzy archive of the postings `ps` is made of, before its
/// checksum footer.
pub open spec fn fuzzy_archive_body(ps: Seq<FuzzyView>) -> Seq<u8> {
    let k = TermArchiveKind::Fuzzy;
    let head = encode_utf8(magic_text(k)) + varint_bytes(ps.len() as u64);
    let recs = fuzzy_records_upto(ps, ps.len() as int);
    head + recs + varint_bytes(ps.len() as u64) + fuzzy_dir_upto(ps, head.len() as int, ps.len() as int)
        + le64_bytes((head.len() + recs.len()) as u64) + encode_utf8(index_footer_text(k))
}

/// A fuzzy archive of the postings `ps`: its body, then the checksum footer
/// of the body.
pub open spec fn fuzzy_archive_bytes(ps: Seq<FuzzyView>) -> Seq<u8> {
    fuzzy_archive_body(ps) + checksum_footer(
        fuzzy_archive_body(ps),
        encode_utf8(checksum_text(TermArchiveKind::Fuzzy)),
    )
}

/// Whether `ts` are the terms a posting with the terms `given` is written
/// with: the normalized ones that are not empty, sorted and without
/// repeats.
pub open spec fn written_terms(given: Seq<Seq<char>>, ts: Seq<Seq<char>>) -> bool {
    strictly_sorted(ts) && ts.to_set() == accepted_upto(TermArchiveKind::Fuzzy, given, given.len() as int)
}

/// Whether `c` are the postings `ps` as written: each its key as given,
/// with the terms it is written with.
pub open spec fn written_postings(ps: Seq<FuzzyPosting>, c: Seq<FuzzyView>) -> bool {
    c.len() == ps.len() && forall|i: int|
        0 <= i < c.len() ==> (#[trigger] c[i]).0 == ps[i].key@ && written_terms(string_views(ps[i].terms@), c[i].1)
}

/// Fuzzy postings whose keys do not go down.
pub open spec fn keys_sorted(ps: Seq<FuzzyView>) -> bool {
    forall|i: int, j: int| 0 <= i < j < ps.len() ==> !seq_less(#[trigger] ps[j].0, #[trigger] ps[i].0)
}

/// The plain values of key and term lists.
pub open spec fn pair_views(v: Seq<(String, Vec<String>)>) -> Seq<FuzzyView> {
    v.map_values(|p: (String, Vec<String>)| (p.0@, string_views(p.1@)))
}

/// Appends a text: the length of its UTF-8, then its UTF-8.
fn write_text(out: &mut Vec<u8>, t: &str)
    ensures
        final(out)@ == old(out)@ + text_bytes(t@),
{
    let b = t.as_bytes();
    write_varint(out, b.len() as u64);
    push_bytes(out, b);
    proof {
        assert(final(out)@ =~= old(out)@ + text_bytes(t@));
    }
}

/// Appends the record of one fuzzy posting.
fn write_fuzzy_record(out: &mut Vec<u8>, p: &(String, Vec<String>))
    ensures
        final(out)@ == old(out)@ + fuzzy_record((p.0@, string_views(p.1@))),
{
    let ghost start = out@;
    let key = normalize(p.0.as_str());
    write_text(out, key.as_str());
    write_varint(out, p.1.len() as u64);
    let ghost mid = out@;
    let ghost tv = string_views(p.1@);
    let mut i: usize = 0;
    while i < p.1.len()
        invariant
            tv == string_views(p.1@),
            i <= p.1@.len(),
            out@ == mid + texts_bytes_upto(tv, i as int),
        decreases p.1@.len() - i,
    {
        write_text(out, p.1[i].as_str());
        proof {
            assert(tv[i as int] == p.1@[i as int]@);
            assert(out@ =~= mid + texts_bytes_upto(tv, i as int + 1));
        }
        i = i + 1;
    }
    proof {
        assert(out@ =~= start + fuzzy_record((p.0@, tv)));
    }
}

/// The postings sorted by key, those with the same key in their order.
fn sort_by_key(ps: Vec<(String, Vec<String>)>) -> (s: Vec<(String, Vec<String>)>)
    ensures
        pair_views(s@).to_multiset() == pair_views(ps@).to_multiset(),
        keys_sorted(pair_views(s@)),
{
    let mut s: Vec<(String, Vec<String>)> = Vec::new();
    let ghost all = pair_views(ps@);
    let mut rest = ps;
    let n = rest.len();
    let mut i: usize = 0;
    proof {
        assert(all.take(0) =~= Seq::<FuzzyView>::empty());
        assert(pair_views(s@) =~= Seq::<FuzzyView>::empty());
    }
    while i < n
        invariant
            n == rest@.len(),
            all == pair_views(rest@),
            i <= n,
            pair_views(s@).to_multiset() == all.take(i as int).to_multiset(),
            keys_sorted(pair_views(s@)),
        decreases n - i,
    {
        let x = (rest[i].0.clone(), copy_strings(&rest[i].1));
        let ghost sv = pair_views(s@);
        let ghost xv = (x.0@, string_views(x.1@));
        proof {
            assert(all[i as int] == xv);
        }
        let mut k: usize = 0;
        let mut stop = false;
        while k < s.len() && !stop
            invariant
                sv == pair_views(s@),
                keys_sorted(sv),
                xv == (x.0@, string_views(x.1@)),
                k <= sv.len(),
                forall|j: int| 0 <= j < k ==> !seq_less(xv.0, #[trigger] sv[j].0),
                stop ==> k < sv.len() && seq_less(xv.0, sv[k as int].0),
            decreases sv.len() - k + if stop { 0int } else { 1int },
        {
            proof {
                assert(sv[k as int].0 == s@[k as int].0@);
            }
            if str_less(x.0.as_str(), s[k].0.as_str()) {
                stop = true;
            } else {
                k = k + 1;
            }
        }
        s.insert(k, x);
        proof {
            let nv = pair_views(s@);
            assert(nv =~= sv.insert(k as int, xv));
            assert(all.take(i as int + 1) =~= all.take(i as int).push(xv));
            vstd::seq_lib::to_multiset_insert(sv, k as int, xv);
            vstd::seq_lib::to_multiset_build(all.take(i as int), xv);
            assert forall|a: int, b: int| 0 <= a < b < nv.len() implies !seq_less(#[trigger] nv[b].0, #[trigger] nv[a].0) by {
                if b < k {
                    assert(nv[a] == sv[a] && nv[b] == sv[b]);
                } else if b == k {
                    assert(nv[a] == sv[a]);
                } else if a == k {
                    assert(nv[b] == sv[b - 1]);
                    if seq_less(sv[b - 1].0, xv.0) {
                        if b - 1 == k {
                            lemma_seq_less_irreflexive(xv.0);
                            lemma_seq_less_transitive(xv.0, sv[k as int].0, xv.0);
                        } else {
                            lemma_seq_less_transitive(sv[b - 1].0, xv.0, sv[k as int].0);
                        }
                    }
                } else if a < k {
                    assert(nv[a] == sv[a] && nv[b] == sv[b - 1]);
                } else {
                    assert(nv[a] == sv[a - 1] && nv[b] == sv[b - 1]);
                }
            }
        }
        i = i + 1;
    }
    proof {
        assert(all.take(i as int) =~= all);
    }
    s
}

/// A copy of texts.
fn copy_strings(v: &Vec<String>) -> (c: Vec<String>)
    ensures
        string_views(c@) == string_views(v@),
{
    let mut c: Vec<String> = Vec::new();
    let mut i: usize = 0;
    while i < v.len()
        invariant
            i <= v@.len(),
            string_views(c@) == string_views(v@).take(i as int),
        decreases v@.len() - i,
    {
        let t = v[i].clone();
        let ghost before = string_views(c@);
        c.push(t);
        proof {
            assert(string_views(c@) =~= before.push(v@[i as int]@));
            assert(string_views(v@).take(i as int + 1) =~= string_views(v@).take(i as int).push(v@[i as int]@));
        }
        i = i + 1;
    }
    proof {
        assert(string_views(v@).take(i as int) =~= string_views(v@));
    }
    c
}

/// The bytes of the fuzzy archive of `postings`: each posting with its
/// terms normalized, without empty ones, sorted and without repeats; the
/// postings sorted by key (those with the same key in their order), each
/// record with its normalized key; then a directory of the keys as given,
/// and a checksum footer.
#[verifier::rlimit(40)]
pub fn fuzzy_archive_bytes_of(postings: &Vec<FuzzyPosting>) -> (bytes: Vec<u8>)
    ensures
        exists|c: Seq<FuzzyView>, s: Seq<FuzzyView>|
            #![trigger written_postings(postings@, c), fuzzy_archive_bytes(s)]
            written_postings(postings@, c) && s.to_multiset() == c.to_multiset() && keys_sorted(s) && bytes@
                == fuzzy_archive_bytes(s),
{
    let mut canon: Vec<(String, Vec<String>)> = Vec::new();
    let mut i: usize = 0;
    while i < postings.len()
        invariant
            i <= postings@.len(),
            canon@.len() == i,
            forall|j: int|
                0 <= j < i ==> (#[trigger] pair_views(canon@)[j]).0 == postings@[j].key@ && written_terms(
                    string_views(postings@[j].terms@),
                    pair_views(canon@)[j].1,
                ),
        decreases postings@.len() - i,
    {
        let key = postings[i].key.clone();
        let terms = select_accepted(TermArchiveKind::Fuzzy, &postings[i].terms);
        let ghost old_c = pair_views(canon@);
        let ghost xv = (key@, string_views(terms@));
        proof {
            assert(written_terms(string_views(postings@[i as int].terms@), xv.1));
        }
        canon.push((key, terms));
        proof {
            assert(pair_views(canon@) =~= old_c.push(xv));
            assert forall|j: int| 0 <= j < i + 1 implies (#[trigger] pair_views(canon@)[j]).0 == postings@[j].key@
                && written_terms(string_views(postings@[j].terms@), pair_views(canon@)[j].1) by {
                if j < i {
                    assert(pair_views(canon@)[j] == old_c[j]);
                }
            }
        }
        i = i + 1;
    }
    let ghost c = pair_views(canon@);
    let sorted = sort_by_key(canon);
    let ghost sv = pair_views(sorted@);
    let k = TermArchiveKind::Fuzzy;
    let n = sorted.len();
    let mut out: Vec<u8> = Vec::new();
    push_bytes(&mut out, magic_str(k).as_bytes());
    write_varint(&mut out, n as u64);
    let ghost head = out@;
    proof {
        assert(head =~= encode_utf8(magic_text(k)) + varint_bytes(n as u64));
    }
    let base = out.len();
    let mut places: Vec<(u64, u64)> = Vec::new();
    let mut i: usize = 0;
    while i < n
        invariant
            n == sorted@.len(),
            sv == pair_views(sorted@),
            i <= n,
            base == head.len(),
            out@ == head + fuzzy_records_upto(sv, i as int),
            places@.len() == i,
            forall|j: int|
                0 <= j < i ==> (#[trigger] places@[j]).0 == base + fuzzy_records_upto(sv, j).len() && places@[j].1
                    == fuzzy_record(sv[j]).len(),
        decreases n - i,
    {
        let start = out.len();
        write_fuzzy_record(&mut out, &sorted[i]);
        proof {
            assert(sv[i as int] == (sorted@[i as int].0@, string_views(sorted@[i as int].1@)));
            assert(out@ =~= head + fuzzy_records_upto(sv, i as int + 1));
        }
        let end = out.len();
        places.push((start as u64, (end - start) as u64));
        i = i + 1;
    }
    let dir_offset = out.len();
    write_varint(&mut out, n as u64);
    let ghost mid = out@;
    let mut j: usize = 0;
    while j < n
        invariant
            n == sorted@.len(),
            sv == pair_views(sorted@),
            j <= n,
            base == head.len(),
            places@.len() == n,
            forall|x: int|
                0 <= x < n ==> (#[trigger] places@[x]).0 == base + fuzzy_records_upto(sv, x).len() && places@[x].1
                    == fuzzy_record(sv[x]).len(),
            out@ == mid + fuzzy_dir_upto(sv, head.len() as int, j as int),
        decreases n - j,
    {
        let (offset, len) = places[j];
        write_dir_record(&mut out, &sorted[j].0, offset, len);
        proof {
            assert(sv[j as int].0 == sorted@[j as int].0@);
            assert(out@ =~= mid + fuzzy_dir_upto(sv, head.len() as int, j as int + 1));
        }
        j = j + 1;
    }
    push_le64(&mut out, dir_offset as u64);
    push_bytes(&mut out, index_footer_str(k).as_bytes());
    proof {
        assert(out@ =~= fuzzy_archive_body(sv));
    }
    let mut footer: Vec<u8> = Vec::new();
    write_checksum_footer(&mut footer, out.as_slice(), checksum_str(k).as_bytes());
    out.append(&mut footer);
    proof {
        assert(out@ =~= fuzzy_archive_bytes(sv));
        assert(written_postings(postings@, c));
    }
    out
}

/// The fuzzy posting a directory entry points at.
pub open spec fn fuzzy_posting_of_entry(bytes: Seq<u8>, e: DirView) -> Result<FuzzyView, TermArchiveErrorView> {
    match posting_range(bytes, e) {
        Err(x) => Err(x),
        Ok((a, b)) => match fuzzy_record_at(bytes.subrange(a, b), 0) {
            Err(x) => Err(x),
            Ok((p, _)) => Ok(p),
        },
    }
}

/// The posting of the normalized key `q`: none for an empty key or one the
/// directory does not list, else the posting of its first entry, which
/// must carry the key.
pub open spec fn fuzzy_lookup(d: Seq<DirView>, bytes: Seq<u8>, q: Seq<char>) -> Result<Option<FuzzyView>, TermArchiveErrorView> {
    let t = normalized(q);
    let i = find_entry(d, t);
    if t.len() == 0 || i >= d.len() {
        Ok(None)
    } else {
        match fuzzy_posting_of_entry(bytes, d[i]) {
            Err(x) => Err(x),
            Ok(p) => if p.0 == t {
                Ok(Some(p))
            } else {
                Err(TermArchiveErrorView::WrongPosting)
            },
        }
    }
}

/// The posting an entry points at with its first `limit` terms, and
/// whether more were there: its key must be the entry's.
pub open spec fn fuzzy_limited_of_entry(bytes: Seq<u8>, e: DirView, limit: usize) -> Result<
    (FuzzyView, bool),
    TermArchiveErrorView,
> {
    match posting_range(bytes, e) {
        Err(x) => Err(x),
        Ok((a, b)) => {
            let s = bytes.subrange(a, b);
            match header_at(s, 0) {
                Err(x) => Err(x),
                Ok((key, p)) => if key != e.0 {
                    Err(TermArchiveErrorView::WrongPosting)
                } else {
                    match varint_at(s, p) {
                        Err(x) => Err(TermArchiveErrorView::Ids(x)),
                        Ok((count, p2)) => match list_terms_read(
                            s,
                            p2,
                            if count < limit { count as int } else { limit as int },
                        ) {
                            Err(x) => Err(x),
                            Ok((ts, _)) => Ok(((key, ts), count > limit)),
                        },
                    }
                },
            }
        },
    }
}

/// The first `limit` terms of the normalized key `q`, and whether more
/// were there.
pub open spec fn fuzzy_limited_lookup(d: Seq<DirView>, bytes: Seq<u8>, q: Seq<char>, limit: usize) -> Result<
    (Seq<Seq<char>>, bool),
    TermArchiveErrorView,
> {
    let t = normalized(q);
    let i = find_entry(d, t);
    if t.len() == 0 || limit == 0 || i >= d.len() {
        Ok((Seq::empty(), false))
    } else {
        match fuzzy_limited_of_entry(bytes, d[i], limit) {
            Err(x) => Err(x),
            Ok((p, more)) => Ok((p.1, more)),
        }
    }
}

/// The state of a batch lookup after some keys: the postings found with
/// whether each was cut, the directory position reached, and the last key
/// looked up.
pub type FuzzyBatchState = (Seq<(FuzzyView, bool)>, int, Option<Seq<char>>);

/// A batch lookup over the first `n` keys, as `batch_scan` does for terms.
pub open spec fn fuzzy_batch_scan(d: Seq<DirView>, bytes: Seq<u8>, keys: Seq<Seq<char>>, limit: usize, n: int) -> Result<
    FuzzyBatchState,
    TermArchiveErrorView,
>
    decreases n,
{
    if n <= 0 {
        Ok((Seq::empty(), 0, None))
    } else {
        match fuzzy_batch_scan(d, bytes, keys, limit, n - 1) {
            Err(e) => Err(e),
            Ok((out, i, prev)) => {
                let t = normalized(keys[n - 1]);
                if t.len() == 0 {
                    Ok((out, i, prev))
                } else if prev matches Some(pv) && seq_less(t, pv) {
                    Err(TermArchiveErrorView::BatchUnsorted)
                } else if prev == Some(t) {
                    Ok((out, i, prev))
                } else {
                    let j = advance(d, i, t);
                    if j < d.len() && d[j].0 == t {
                        match fuzzy_limited_of_entry(bytes, d[j], limit) {
                            Err(e) => Err(e),
                            Ok(x) => Ok((out.push(x), j, Some(t))),
                        }
                    } else {
                        Ok((out, j, Some(t)))
                    }
                }
            },
        }
    }
}

/// The postings of a batch lookup of sorted keys, each cut to `limit`
/// terms; none for a limit of zero.
pub open spec fn fuzzy_batch_lookup(d: Seq<DirView>, bytes: Seq<u8>, keys: Seq<Seq<char>>, limit: usize) -> Result<
    Seq<(FuzzyView, bool)>,
    TermArchiveErrorView,
> {
    if limit == 0 {
        Ok(Seq::empty())
    } else {
        match fuzzy_batch_scan(d, bytes, keys, limit, keys.len() as int) {
            Err(e) => Err(e),
            Ok((out, _, _)) => Ok(out),
        }
    }
}

proof fn lemma_fuzzy_batch_err(d: Seq<DirView>, bytes: Seq<u8>, keys: Seq<Seq<char>>, limit: usize, a: int, n: int)
    requires
        0 <= a <= n,
        fuzzy_batch_scan(d, bytes, keys, limit, a) is Err,
    ensures
        fuzzy_batch_scan(d, bytes, keys, limit, n) == fuzzy_batch_scan(d, bytes, keys, limit, a),
    decreases n - a,
{
    if a < n {
        lemma_fuzzy_batch_err(d, bytes, keys, limit, a + 1, n);
    }
}

/// The postings of the first `n` directory entries, in order.
pub open spec fn fuzzy_all_postings(d: Seq<DirView>, bytes: Seq<u8>, n: int) -> Result<Seq<FuzzyView>, TermArchiveErrorView>
    decreases n,
{
    if n <= 0 {
        Ok(Seq::empty())
    } else {
        match fuzzy_all_postings(d, bytes, n - 1) {
            Err(x) => Err(x),
            Ok(ps) => match fuzzy_posting_of_entry(bytes, d[n - 1]) {
                Err(x) => Err(x),
                Ok(p) => Ok(ps.push(p)),
            },
        }
    }
}

proof fn lemma_fuzzy_all_postings_err(d: Seq<DirView>, bytes: Seq<u8>, k: int, n: int)
    requires
        0 <= k <= n,
        fuzzy_all_postings(d, bytes, k) is Err,
    ensures
        fuzzy_all_postings(d, bytes, n) == fuzzy_all_postings(d, bytes, k),
    decreases n - k,
{
    if k < n {
        lemma_fuzzy_all_postings_err(d, bytes, k + 1, n);
    }
}

/// The plain values of limited fuzzy postings.
pub open spec fn limited_fuzzy_views(v: Seq<LimitedFuzzyPosting>) -> Seq<(FuzzyView, bool)> {
    v.map_values(|x: LimitedFuzzyPosting| ((x.posting.key@, string_views(x.posting.terms@)), x.truncated))
}

/// A fuzzy archive opened for lookups: its bytes, as mapped or read, and
/// its directory sorted by key.
pub struct MmapFuzzyArchive {
    index: TermIndex,
}

impl MmapFuzzyArchive {
    /// The archive behind the lookups.
    pub closed spec fn index(&self) -> TermIndex {
        self.index
    }

    #[verifier::type_invariant]
    spec fn kind_fits(&self) -> bool {
        self.index.kind_of() == TermArchiveKind::Fuzzy
    }

    /// Opens the fuzzy archive `bytes` read from `path`.
    pub fn open(path: &str, bytes: Vec<u8>) -> (r: Result<Self, GfmError>)
        ensures
            match dir_parse(TermArchiveKind::Fuzzy, bytes@) {
                Ok(es) => r matches Ok(a) && a.index().kind_of() == TermArchiveKind::Fuzzy && a.index().path_of() == path@
                    && a.index().bytes_of() == bytes@ && a.index().dir_of().to_multiset() == es.to_multiset() && dir_sorted(
                    a.index().dir_of(),
                ),
                Err(e) => r matches Err(g) && is_store_error(g, TermArchiveKind::Fuzzy, path@, e),
            },
    {
        match TermIndex::open(TermArchiveKind::Fuzzy, path, bytes) {
            Ok(index) => Ok(MmapFuzzyArchive { index }),
            Err(g) => Err(g),
        }
    }

    /// The posting of directory entry `i`, with its first `limit` terms.
    fn limited_for_entry(&self, i: usize, limit: usize) -> (r: Result<(FuzzyPosting, bool), TermArchiveError>)
        requires
            i < self.index().dir_of().len(),
        ensures
            match fuzzy_limited_of_entry(self.index().bytes_of(), self.index().dir_of()[i as int], limit) {
                Ok((x, more)) => r matches Ok((v, m)) && (v.key@, string_views(v.terms@)) == x && m == more,
                Err(e) => r matches Err(g) && error_view(g) == e,
            },
    {
        let s = match self.index.posting_bytes(i) {
            Ok(s) => s,
            Err(e) => return Err(e),
        };
        let (key, p) = match read_header(s, 0) {
            Ok(x) => x,
            Err(e) => return Err(e),
        };
        if !str_equal(key.as_str(), self.index.entry_term(i).as_str()) {
            return Err(TermArchiveError::WrongPosting);
        }
        let (count, p2) = match archive_varint(s, p) {
            Ok(x) => x,
            Err(e) => return Err(e),
        };
        let wanted: u64 = if count < limit as u64 { count } else { limit as u64 };
        match read_list_terms(s, p2, wanted) {
            Ok((terms, _)) => Ok((FuzzyPosting { key, terms }, count > limit as u64)),
            Err(e) => Err(e),
        }
    }

    /// The posting of the key `q`, after normalizing it.
    pub fn posting_for(&self, q: &str) -> (r: Result<Option<FuzzyPosting>, GfmError>)
        ensures
            match fuzzy_lookup(self.index().dir_of(), self.index().bytes_of(), q@) {
                Ok(None) => r matches Ok(None),
                Ok(Some(p)) => r matches Ok(Some(v)) && (v.key@, string_views(v.terms@)) == p,
                Err(e) => r matches Err(g) && is_store_error(g, self.index().kind_of(), self.index().path_of(), e),
            },
    {
        let t = normalize(q);
        if t.unicode_len() == 0 {
            return Ok(None);
        }
        let i = self.index.find(t.as_str());
        if i >= self.index.indexed_terms() {
            return Ok(None);
        }
        let s = match self.index.posting_bytes(i) {
            Ok(s) => s,
            Err(e) => return Err(store_error(self.index.kind(), self.index.path(), e)),
        };
        proof {
            reveal(fuzzy_record_at);
        }
        match read_fuzzy_record(s, 0) {
            Err(e) => Err(store_error(self.index.kind(), self.index.path(), e)),
            Ok((p, _)) => {
                if str_equal(p.key.as_str(), t.as_str()) {
                    Ok(Some(p))
                } else {
                    Err(store_error(self.index.kind(), self.index.path(), TermArchiveError::WrongPosting))
                }
            },
        }
    }

    /// The terms of the key `q`; none where it has no posting.
    pub fn terms_for(&self, q: &str) -> (r: Result<Vec<String>, GfmError>)
        ensures
            match fuzzy_lookup(self.index().dir_of(), self.index().bytes_of(), q@) {
                Ok(None) => r matches Ok(v) && v@.len() == 0,
                Ok(Some(p)) => r matches Ok(v) && string_views(v@) == p.1,
                Err(e) => r matches Err(g) && is_store_error(g, self.index().kind_of(), self.index().path_of(), e),
            },
    {
        match self.posting_for(q) {
            Ok(Some(p)) => Ok(p.terms),
            Ok(None) => Ok(Vec::new()),
            Err(g) => Err(g),
        }
    }

    /// The first `limit` terms of the key `q`, and whether more were there.
    pub fn terms_for_limit(&self, q: &str, limit: usize) -> (r: Result<(Vec<String>, bool), GfmError>)
        ensures
            match fuzzy_limited_lookup(self.index().dir_of(), self.index().bytes_of(), q@, limit) {
                Ok((ts, more)) => r matches Ok((v, m)) && string_views(v@) == ts && m == more,
                Err(e) => r matches Err(g) && is_store_error(g, self.index().kind_of(), self.index().path_of(), e),
            },
    {
        let t = normalize(q);
        if t.unicode_len() == 0 || limit == 0 {
            proof {
                assert(string_views(Seq::<String>::empty()) =~= Seq::<Seq<char>>::empty());
            }
            return Ok((Vec::new(), false));
        }
        let i = self.index.find(t.as_str());
        if i >= self.index.indexed_terms() {
            proof {
                assert(string_views(Seq::<String>::empty()) =~= Seq::<Seq<char>>::empty());
            }
            return Ok((Vec::new(), false));
        }
        match self.limited_for_entry(i, limit) {
            Ok((p, more)) => Ok((p.terms, more)),
            Err(e) => Err(store_error(self.index.kind(), self.index.path(), e)),
        }
    }

    /// The postings of the sorted keys `keys`, each cut to `limit` terms,
    /// in one forward pass over the directory.
    #[verifier::rlimit(40)]
    pub fn postings_for_sorted_keys_limit(&self, keys: &Vec<String>, limit: usize) -> (r: Result<
        Vec<LimitedFuzzyPosting>,
        GfmError,
    >)
        ensures
            match fuzzy_batch_lookup(self.index().dir_of(), self.index().bytes_of(), string_views(keys@), limit) {
                Ok(xs) => r matches Ok(v) && limited_fuzzy_views(v@) == xs,
                Err(e) => r matches Err(g) && is_store_error(g, self.index().kind_of(), self.index().path_of(), e),
            },
    {
        if limit == 0 {
            proof {
                assert(limited_fuzzy_views(Seq::<LimitedFuzzyPosting>::empty()) =~= Seq::<(FuzzyView, bool)>::empty());
            }
            return Ok(Vec::new());
        }
        let ghost d = self.index().dir_of();
        let ghost kv = string_views(keys@);
        let n = keys.len();
        let dn = self.index.indexed_terms();
        let mut out: Vec<LimitedFuzzyPosting> = Vec::new();
        let mut idx: usize = 0;
        let mut prev: Option<String> = None;
        let mut c: usize = 0;
        proof {
            assert(limited_fuzzy_views(out@) =~= Seq::<(FuzzyView, bool)>::empty());
        }
        while c < n
            invariant
                n == keys@.len(),
                kv == string_views(keys@),
                d == self.index().dir_of(),
                dn == d.len(),
                limit > 0,
                c <= n,
                idx <= d.len(),
                fuzzy_batch_scan(d, self.index().bytes_of(), kv, limit, c as int) == Ok::<
                    FuzzyBatchState,
                    TermArchiveErrorView,
                >((limited_fuzzy_views(out@), idx as int, prev_view(prev))),
            decreases n - c,
        {
            let t = normalize(keys[c].as_str());
            proof {
                assert(kv[c as int] == keys@[c as int]@);
            }
            if t.unicode_len() > 0 {
                let mut skip = false;
                match &prev {
                    Some(pv) => {
                        if str_less(t.as_str(), pv.as_str()) {
                            proof {
                                lemma_fuzzy_batch_err(d, self.index().bytes_of(), kv, limit, c as int + 1, n as int);
                            }
                            return Err(
                                store_error(self.index.kind(), self.index.path(), TermArchiveError::BatchUnsorted),
                            );
                        }
                        if str_equal(t.as_str(), pv.as_str()) {
                            skip = true;
                        }
                    },
                    None => {},
                }
                if !skip {
                    let ghost i0 = idx as int;
                    while idx < dn && str_less(self.index.entry_term(idx).as_str(), t.as_str())
                        invariant
                            d == self.index().dir_of(),
                            dn == d.len(),
                            i0 <= idx <= d.len(),
                            advance(d, idx as int, t@) == advance(d, i0, t@),
                        decreases d.len() - idx,
                    {
                        idx = idx + 1;
                    }
                    if idx < dn && str_equal(self.index.entry_term(idx).as_str(), t.as_str()) {
                        match self.limited_for_entry(idx, limit) {
                            Ok((p, more)) => {
                                let ghost before = limited_fuzzy_views(out@);
                                let ghost pv = ((p.key@, string_views(p.terms@)), more);
                                out.push(LimitedFuzzyPosting { posting: p, truncated: more });
                                proof {
                                    assert(limited_fuzzy_views(out@) =~= before.push(pv));
                                }
                            },
                            Err(e) => {
                                proof {
                                    lemma_fuzzy_batch_err(d, self.index().bytes_of(), kv, limit, c as int + 1, n as int);
                                }
                                return Err(store_error(self.index.kind(), self.index.path(), e));
                            },
                        }
                    }
                    prev = Some(t);
                }
            }
            c = c + 1;
        }
        Ok(out)
    }

    /// Every posting, in the directory's order.
    pub fn postings(&self) -> (r: Result<Vec<FuzzyPosting>, GfmError>)
        ensures
            match fuzzy_all_postings(self.index().dir_of(), self.index().bytes_of(), self.index().dir_of().len() as int) {
                Ok(ps) => r matches Ok(v) && fuzzy_entries(v@) == ps,
                Err(e) => r matches Err(g) && is_store_error(g, self.index().kind_of(), self.index().path_of(), e),
            },
    {
        let n = self.index.indexed_terms();
        let ghost d = self.index().dir_of();
        let mut out: Vec<FuzzyPosting> = Vec::new();
        let mut i: usize = 0;
        proof {
            assert(fuzzy_entries(out@) =~= Seq::<FuzzyView>::empty());
        }
        while i < n
            invariant
                n == d.len(),
                d == self.index().dir_of(),
                i <= n,
                fuzzy_all_postings(d, self.index().bytes_of(), i as int) == Ok::<Seq<FuzzyView>, TermArchiveErrorView>(
                    fuzzy_entries(out@),
                ),
            decreases n - i,
        {
            let s = match self.index.posting_bytes(i) {
                Ok(s) => s,
                Err(e) => {
                    proof {
                        lemma_fuzzy_all_postings_err(d, self.index().bytes_of(), i as int + 1, n as int);
                    }
                    return Err(store_error(self.index.kind(), self.index.path(), e));
                },
            };
            match read_fuzzy_record(s, 0) {
                Err(e) => {
                    proof {
                        lemma_fuzzy_all_postings_err(d, self.index().bytes_of(), i as int + 1, n as int);
                    }
                    return Err(store_error(self.index.kind(), self.index.path(), e));
                },
                Ok((p, _)) => {
                    let ghost before = fuzzy_entries(out@);
                    let ghost pv = (p.key@, string_views(p.terms@));
                    out.push(p);
                    proof {
                        assert(fuzzy_entries(out@) =~= before.push(pv));
                    }
                },
            }
            i = i + 1;
        }
        Ok(out)
    }

    /// The postings of the keys `keys`, normalized, sorted and without
    /// repeats, with all their terms; keys with no posting are left out.
    pub fn postings_for(&self, keys: &Vec<String>) -> (r: Result<Vec<FuzzyPosting>, GfmError>)
        ensures
            exists|sel: Seq<Seq<char>>|
                strictly_sorted(sel) && sel.to_set() == accepted_upto(TermArchiveKind::Fuzzy, string_views(keys@), keys@.len() as int)
                    && match #[trigger] fuzzy_batch_lookup(self.index().dir_of(), self.index().bytes_of(), sel, usize::MAX) {
                    Ok(xs) => r matches Ok(v) && fuzzy_entries(v@) == xs.map_values(|x: (FuzzyView, bool)| x.0),
                    Err(e) => r matches Err(g) && is_store_error(g, self.index().kind_of(), self.index().path_of(), e),
                },
    {
        let sel = select_accepted(TermArchiveKind::Fuzzy, keys);
        match self.postings_for_sorted_keys_limit(&sel, usize::MAX) {
            Err(g) => Err(g),
            Ok(xs) => {
                let ghost xv = limited_fuzzy_views(xs@);
                let mut out: Vec<FuzzyPosting> = Vec::new();
                let mut rest = xs;
                let n = rest.len();
                let mut i: usize = 0;
                proof {
                    assert(fuzzy_entries(out@) =~= xv.map_values(|x: (FuzzyView, bool)| x.0).take(0));
                }
                while i < n
                    invariant
                        n == rest@.len(),
                        xv == limited_fuzzy_views(rest@),
                        i <= n,
                        fuzzy_entries(out@) == xv.map_values(|x: (FuzzyView, bool)| x.0).take(i as int),
                    decreases n - i,
                {
                    let key = rest[i].posting.key.clone();
                    let terms = copy_strings(&rest[i].posting.terms);
                    let ghost before = fuzzy_entries(out@);
                    let ghost pv = (rest@[i as int].posting.key@, string_views(rest@[i as int].posting.terms@));
                    out.push(FuzzyPosting { key, terms });
                    proof {
                        assert(fuzzy_entries(out@) =~= before.push(pv));
                        assert(xv.map_values(|x: (FuzzyView, bool)| x.0).take(i as int + 1) =~= xv.map_values(
                            |x: (FuzzyView, bool)| x.0,
                        ).take(i as int).push(pv));
                    }
                    i = i + 1;
                }
                proof {
                    assert(xv.map_values(|x: (FuzzyView, bool)| x.0).take(n as int) =~= xv.map_values(
                        |x: (FuzzyView, bool)| x.0,
                    ));
                }
                Ok(out)
            },
        }
    }

    /// How many keys the directory holds.
    pub fn indexed_keys(&self) -> (n: usize)
        ensures
            n == self.index().dir_of().len(),
    {
        self.index.indexed_terms()
    }

    /// How many bytes the archive holds.
    pub fn mapped_len(&self) -> (n: usize)
        ensures
            n == self.index().bytes_of().len(),
    {
        self.index.mapped_len()
    }

    /// Whether the archive ends with a checksum footer that matches it.
    pub fn is_checksummed(&self) -> (b: bool)
        ensures
            b == (checksum_footer_check(self.index().bytes_of(), encode_utf8(checksum_text(self.index().kind_of())))
                == Ok::<bool, IntegrityError>(true)),
    {
        self.index.is_checksummed()
    }
}

} // verus!
