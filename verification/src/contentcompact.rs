use vstd::prelude::*;

use crate::contentcodec::{insert_offset, offsets_increasing};
use crate::order::{lemma_seq_less_irreflexive, lemma_seq_less_total, lemma_seq_less_transitive, seq_less, str_less};
use crate::terms::{lower_normalized, normalize_lower};
use crate::text::str_equal;
use crate::contentsegment::{content_views, segment_view};
use crate::types::{file_id_less, file_id_lt, ContentPositions, ContentPosting, ContentSegment, FileId};

verus! {

/// The map of an association list: each key to its value (the last one
/// where a key repeats).
pub open spec fn assoc<K, V>(s: Seq<(K, V)>) -> Map<K, V>
    decreases s.len(),
{
    if s.len() == 0 {
        Map::empty()
    } else {
        assoc(s.drop_last()).insert(s.last().0, s.last().1)
    }
}

/// Association lists whose keys do not repeat.
pub open spec fn keys_distinct<K, V>(s: Seq<(K, V)>) -> bool {
    forall|i: int, j: int| 0 <= i < j < s.len() ==> (#[trigger] s[i]).0 != (#[trigger] s[j]).0
}

proof fn lemma_assoc_dom<K, V>(s: Seq<(K, V)>, k: K)
    ensures
        assoc(s).dom().contains(k) <==> exists|i: int| 0 <= i < s.len() && (#[trigger] s[i]).0 == k,
    decreases s.len(),
{
    if s.len() > 0 {
        lemma_assoc_dom(s.drop_last(), k);
        if assoc(s.drop_last()).dom().contains(k) {
            let i = choose|i: int| 0 <= i < s.drop_last().len() && (#[trigger] s.drop_last()[i]).0 == k;
            assert(s[i].0 == k);
        }
        if exists|i: int| 0 <= i < s.len() && (#[trigger] s[i]).0 == k {
            let i = choose|i: int| 0 <= i < s.len() && (#[trigger] s[i]).0 == k;
            if i < s.len() - 1 {
                assert(s.drop_last()[i].0 == k);
            }
        }
    }
}

proof fn lemma_assoc_index<K, V>(s: Seq<(K, V)>, i: int)
    requires
        keys_distinct(s),
        0 <= i < s.len(),
    ensures
        assoc(s).dom().contains(s[i].0),
        assoc(s)[s[i].0] == s[i].1,
    decreases s.len(),
{
    if i < s.len() - 1 {
        let d = s.drop_last();
        assert(keys_distinct(d)) by {
            assert forall|a: int, b: int| 0 <= a < b < d.len() implies (#[trigger] d[a]).0 != (#[trigger] d[b]).0 by {
                assert(d[a] == s[a] && d[b] == s[b]);
            }
        }
        assert(d[i] == s[i]);
        lemma_assoc_index(d, i);
        assert(s[i].0 != s[s.len() - 1].0);
    }
}

/// The map of an association list with distinct keys, with one entry's
/// value changed.
proof fn lemma_assoc_update<K, V>(s: Seq<(K, V)>, i: int, v: V)
    requires
        keys_distinct(s),
        0 <= i < s.len(),
    ensures
        keys_distinct(s.update(i, (s[i].0, v))),
        assoc(s.update(i, (s[i].0, v))) == assoc(s).insert(s[i].0, v),
{
    let t = s.update(i, (s[i].0, v));
    assert forall|a: int, b: int| 0 <= a < b < t.len() implies (#[trigger] t[a]).0 != (#[trigger] t[b]).0 by {
        assert(t[a].0 == s[a].0 && t[b].0 == s[b].0);
    }
    let m = assoc(s).insert(s[i].0, v);
    assert forall|k: K| assoc(t).dom().contains(k) <==> m.dom().contains(k) by {
        lemma_assoc_dom(t, k);
        lemma_assoc_dom(s, k);
        if exists|j: int| 0 <= j < t.len() && (#[trigger] t[j]).0 == k {
            let j = choose|j: int| 0 <= j < t.len() && (#[trigger] t[j]).0 == k;
            assert(s[j].0 == k);
        }
        if exists|j: int| 0 <= j < s.len() && (#[trigger] s[j]).0 == k {
            let j = choose|j: int| 0 <= j < s.len() && (#[trigger] s[j]).0 == k;
            assert(t[j].0 == k);
        }
        lemma_assoc_index(s, i);
    }
    assert forall|k: K| #[trigger] assoc(t).dom().contains(k) implies assoc(t)[k] == m[k] by {
        lemma_assoc_dom(t, k);
        let j = choose|j: int| 0 <= j < t.len() && (#[trigger] t[j]).0 == k;
        lemma_assoc_index(t, j);
        if j != i {
            lemma_assoc_index(s, j);
            assert(s[j] == t[j]);
        }
    }
    assert(assoc(t) =~= m);
}

/// The map of an association list with distinct keys, with an entry of a
/// new key inserted.
proof fn lemma_assoc_insert<K, V>(s: Seq<(K, V)>, i: int, k: K, v: V)
    requires
        keys_distinct(s),
        0 <= i <= s.len(),
        forall|j: int| 0 <= j < s.len() ==> (#[trigger] s[j]).0 != k,
    ensures
        keys_distinct(s.insert(i, (k, v))),
        assoc(s.insert(i, (k, v))) == assoc(s).insert(k, v),
{
    let t = s.insert(i, (k, v));
    assert forall|a: int, b: int| 0 <= a < b < t.len() implies (#[trigger] t[a]).0 != (#[trigger] t[b]).0 by {
        if a < i {
            assert(t[a] == s[a]);
        } else if a > i {
            assert(t[a] == s[a - 1]);
        }
        if b < i {
            assert(t[b] == s[b]);
        } else if b > i {
            assert(t[b] == s[b - 1]);
        }
    }
    let m = assoc(s).insert(k, v);
    assert forall|x: K| assoc(t).dom().contains(x) <==> m.dom().contains(x) by {
        lemma_assoc_dom(t, x);
        lemma_assoc_dom(s, x);
        if exists|j: int| 0 <= j < t.len() && (#[trigger] t[j]).0 == x {
            let j = choose|j: int| 0 <= j < t.len() && (#[trigger] t[j]).0 == x;
            if j < i {
                assert(s[j].0 == x);
            } else if j > i {
                assert(s[j - 1].0 == x);
            }
        }
        if exists|j: int| 0 <= j < s.len() && (#[trigger] s[j]).0 == x {
            let j = choose|j: int| 0 <= j < s.len() && (#[trigger] s[j]).0 == x;
            if j < i {
                assert(t[j].0 == x);
            } else {
                assert(t[j + 1].0 == x);
            }
        }
        if x == k {
            assert(t[i].0 == x);
        }
    }
    assert forall|x: K| #[trigger] assoc(t).dom().contains(x) implies assoc(t)[x] == m[x] by {
        lemma_assoc_dom(t, x);
        let j = choose|j: int| 0 <= j < t.len() && (#[trigger] t[j]).0 == x;
        lemma_assoc_index(t, j);
        if j < i {
            lemma_assoc_index(s, j);
            assert(s[j] == t[j]);
        } else if j > i {
            lemma_assoc_index(s, j - 1);
            assert(s[j - 1] == t[j]);
        }
    }
    assert(assoc(t) =~= m);
}

/// The map of an association list with distinct keys, with one entry
/// removed.
proof fn lemma_assoc_remove<K, V>(s: Seq<(K, V)>, i: int)
    requires
        keys_distinct(s),
        0 <= i < s.len(),
    ensures
        keys_distinct(s.remove(i)),
        assoc(s.remove(i)) == assoc(s).remove(s[i].0),
{
    let t = s.remove(i);
    assert forall|a: int, b: int| 0 <= a < b < t.len() implies (#[trigger] t[a]).0 != (#[trigger] t[b]).0 by {
        let a2 = if a < i { a } else { a + 1 };
        let b2 = if b < i { b } else { b + 1 };
        assert(t[a] == s[a2] && t[b] == s[b2]);
    }
    let m = assoc(s).remove(s[i].0);
    assert forall|x: K| assoc(t).dom().contains(x) <==> m.dom().contains(x) by {
        lemma_assoc_dom(t, x);
        lemma_assoc_dom(s, x);
        if exists|j: int| 0 <= j < t.len() && (#[trigger] t[j]).0 == x {
            let j = choose|j: int| 0 <= j < t.len() && (#[trigger] t[j]).0 == x;
            let j2 = if j < i { j } else { j + 1 };
            assert(s[j2].0 == x);
            assert(j2 != i);
        }
        if m.dom().contains(x) {
            let j = choose|j: int| 0 <= j < s.len() && (#[trigger] s[j]).0 == x;
            assert(j != i);
            if j < i {
                assert(t[j].0 == x);
            } else {
                assert(t[j - 1].0 == x);
            }
        }
    }
    assert forall|x: K| #[trigger] assoc(t).dom().contains(x) implies assoc(t)[x] == m[x] by {
        lemma_assoc_dom(t, x);
        let j = choose|j: int| 0 <= j < t.len() && (#[trigger] t[j]).0 == x;
        lemma_assoc_index(t, j);
        let j2 = if j < i { j } else { j + 1 };
        assert(s[j2] == t[j]);
        lemma_assoc_index(s, j2);
    }
    assert(assoc(t) =~= m);
}

/// The files of one term, each with its positions, as kept while merging:
/// ids strictly increasing, positions strictly increasing.
pub type FilePositions = Vec<(FileId, Vec<u32>)>;

/// The plain value of a term's files: each file with the set of its
/// positions.
pub open spec fn file_map(v: Seq<(FileId, Vec<u32>)>) -> Map<FileId, Set<u32>> {
    assoc(v.map_values(|x: (FileId, Vec<u32>)| (x.0, x.1@.to_set())))
}

/// A term's files as kept: ids strictly increasing, positions strictly
/// increasing.
pub open spec fn files_wf(v: Seq<(FileId, Vec<u32>)>) -> bool {
    &&& forall|i: int, j: int| 0 <= i < j < v.len() ==> file_id_less((#[trigger] v[i]).0, (#[trigger] v[j]).0)
    &&& forall|i: int| 0 <= i < v.len() ==> offsets_increasing((#[trigger] v[i]).1@)
}

proof fn lemma_files_distinct(v: Seq<(FileId, Vec<u32>)>)
    requires
        files_wf(v),
    ensures
        keys_distinct(v.map_values(|x: (FileId, Vec<u32>)| (x.0, x.1@.to_set()))),
{
    let w = v.map_values(|x: (FileId, Vec<u32>)| (x.0, x.1@.to_set()));
    assert forall|a: int, b: int| 0 <= a < b < w.len() implies (#[trigger] w[a]).0 != (#[trigger] w[b]).0 by {
        assert(file_id_less(v[a].0, v[b].0));
    }
}

/// The first position whose file does not come before `id`.
fn file_slot(v: &FilePositions, id: FileId) -> (k: usize)
    requires
        files_wf(v@),
    ensures
        k <= v@.len(),
        forall|j: int| 0 <= j < k ==> file_id_less((#[trigger] v@[j]).0, id),
        k < v@.len() ==> !file_id_less(v@[k as int].0, id),
        forall|j: int| k < j < v@.len() ==> file_id_less(id, (#[trigger] v@[j]).0) || v@[k as int].0 != id,
{
    let mut k: usize = 0;
    while k < v.len() && file_id_lt(v[k].0, id)
        invariant
            files_wf(v@),
            k <= v@.len(),
            forall|j: int| 0 <= j < k ==> file_id_less((#[trigger] v@[j]).0, id),
        decreases v@.len() - k,
    {
        k = k + 1;
    }
    proof {
        assert forall|j: int| k < j < v@.len() implies file_id_less(id, (#[trigger] v@[j]).0) || v@[k as int].0 != id by {
            assert(file_id_less(v@[k as int].0, v@[j].0));
        }
    }
    k
}

/// Makes sure `id` is among the files, with no new position.
fn add_file(v: &mut FilePositions, id: FileId)
    requires
        files_wf(old(v)@),
    ensures
        files_wf(final(v)@),
        file_map(final(v)@) == with_id(file_map(old(v)@), id),
{
    let ghost w = old(v)@.map_values(|x: (FileId, Vec<u32>)| (x.0, x.1@.to_set()));
    proof {
        lemma_files_distinct(old(v)@);
    }
    let k = file_slot(v, id);
    if k < v.len() && v[k].0 == id {
        proof {
            assert(w[k as int].0 == id);
            lemma_assoc_index(w, k as int);
        }
        return;
    }
    let ghost ov = v@;
    v.insert(k, (id, Vec::new()));
    proof {
        assert forall|j: int| 0 <= j < w.len() implies (#[trigger] w[j]).0 != id by {
            if j >= k {
                assert(!file_id_less(ov[k as int].0, id));
                if j > k {
                    assert(file_id_less(ov[k as int].0, ov[j].0));
                }
            }
        }
        lemma_assoc_insert(w, k as int, id, Set::<u32>::empty());
        assert(v@[k as int].1@.to_set() =~= Set::<u32>::empty());
        assert(v@.map_values(|x: (FileId, Vec<u32>)| (x.0, x.1@.to_set())) =~= w.insert(k as int, (id, Set::<u32>::empty())));
        lemma_assoc_dom(w, id);
        assert forall|a: int, b: int| 0 <= a < b < v@.len() implies file_id_less((#[trigger] v@[a]).0, (#[trigger] v@[b]).0) by {
            if b < k {
                assert(v@[a] == ov[a] && v@[b] == ov[b]);
            } else if b == k {
                assert(v@[a] == ov[a]);
            } else if a == k {
                assert(v@[b] == ov[b - 1]);
                if b - 1 > k {
                    assert(file_id_less(ov[k as int].0, ov[b - 1].0));
                }
                assert(!file_id_less(ov[k as int].0, id));
            } else if a < k {
                assert(v@[a] == ov[a] && v@[b] == ov[b - 1]);
            } else {
                assert(v@[a] == ov[a - 1] && v@[b] == ov[b - 1]);
            }
        }
        assert forall|i: int| 0 <= i < v@.len() implies offsets_increasing((#[trigger] v@[i]).1@) by {
            if i < k {
                assert(v@[i] == ov[i]);
            } else if i > k {
                assert(v@[i] == ov[i - 1]);
            }
        }
    }
}

/// `m` with `id` among its files, with no new position.
pub open spec fn with_id(m: Map<FileId, Set<u32>>, id: FileId) -> Map<FileId, Set<u32>> {
    if m.dom().contains(id) {
        m
    } else {
        m.insert(id, Set::empty())
    }
}

/// `m` with the positions `ps` added to those of `id`.
pub open spec fn with_positions(m: Map<FileId, Set<u32>>, id: FileId, ps: Set<u32>) -> Map<FileId, Set<u32>> {
    m.insert(id, (if m.dom().contains(id) { m[id] } else { Set::empty() }).union(ps))
}

/// The position of `id` among files that hold it.
fn file_index(v: &FilePositions, id: FileId) -> (k: usize)
    requires
        files_wf(v@),
        file_map(v@).dom().contains(id),
    ensures
        k < v@.len(),
        v@[k as int].0 == id,
{
    let ghost w = v@.map_values(|x: (FileId, Vec<u32>)| (x.0, x.1@.to_set()));
    proof {
        lemma_assoc_dom(w, id);
        let j = choose|j: int| 0 <= j < w.len() && (#[trigger] w[j]).0 == id;
        assert(v@[j].0 == id);
    }
    let k = file_slot(v, id);
    proof {
        let j = choose|j: int| 0 <= j < w.len() && (#[trigger] w[j]).0 == id;
        assert(v@[j].0 == id);
        if j < k {
            assert(file_id_less(v@[j].0, id));
        }
        if k < v@.len() && j > k {
            assert(file_id_less(v@[k as int].0, v@[j].0));
        }
    }
    k
}

/// Adds the positions `ps` to those of `id`.
fn add_positions(v: &mut FilePositions, id: FileId, ps: &Vec<u32>)
    requires
        files_wf(old(v)@),
    ensures
        files_wf(final(v)@),
        file_map(final(v)@) == with_positions(file_map(old(v)@), id, ps@.to_set()),
{
    let ghost m0 = file_map(v@);
    add_file(v, id);
    let ghost v1 = v@;
    let ghost w1 = v1.map_values(|x: (FileId, Vec<u32>)| (x.0, x.1@.to_set()));
    proof {
        lemma_files_distinct(v1);
        assert(file_map(v1).dom().contains(id));
    }
    let k = file_index(v, id);
    let (fid, mut offs) = v.remove(k);
    let ghost start = offs@.to_set();
    let mut i: usize = 0;
    proof {
        assert(ps@.take(0) =~= Seq::<u32>::empty());
        assert(start.union(ps@.take(0).to_set()) =~= start);
    }
    while i < ps.len()
        invariant
            i <= ps@.len(),
            offsets_increasing(offs@),
            offs@.to_set() == start.union(ps@.take(i as int).to_set()),
        decreases ps@.len() - i,
    {
        insert_offset(&mut offs, ps[i]);
        proof {
            assert(ps@.take(i as int + 1) =~= ps@.take(i as int).push(ps@[i as int]));
            ps@.take(i as int).lemma_push_to_set_commute(ps@[i as int]);
            assert(offs@.to_set() =~= start.union(ps@.take(i as int + 1).to_set()));
        }
        i = i + 1;
    }
    proof {
        assert(ps@.take(i as int) =~= ps@);
    }
    let ghost newv = offs@.to_set();
    v.insert(k, (fid, offs));
    proof {
        assert(v@ =~= v1.update(k as int, (fid, v@[k as int].1)));
        lemma_assoc_update(w1, k as int, newv);
        assert(v@.map_values(|x: (FileId, Vec<u32>)| (x.0, x.1@.to_set())) =~= w1.update(k as int, (w1[k as int].0, newv)));
        lemma_assoc_index(w1, k as int);
        assert(with_id(m0, id)[id] == (if m0.dom().contains(id) { m0[id] } else { Set::<u32>::empty() }));
        assert(file_map(v@) =~= with_positions(m0, id, ps@.to_set()));
        assert forall|a: int, b: int| 0 <= a < b < v@.len() implies file_id_less((#[trigger] v@[a]).0, (#[trigger] v@[b]).0) by {
            assert(v@[a].0 == v1[a].0 && v@[b].0 == v1[b].0);
        }
        assert forall|j: int| 0 <= j < v@.len() implies offsets_increasing((#[trigger] v@[j]).1@) by {
            if j != k {
                assert(v@[j] == v1[j]);
            }
        }
    }
}

/// Withdraws `id` from the files.
fn remove_file(v: &mut FilePositions, id: FileId)
    requires
        files_wf(old(v)@),
    ensures
        files_wf(final(v)@),
        file_map(final(v)@) == file_map(old(v)@).remove(id),
{
    let ghost v0 = v@;
    let ghost w = v0.map_values(|x: (FileId, Vec<u32>)| (x.0, x.1@.to_set()));
    proof {
        lemma_files_distinct(v0);
    }
    let k = file_slot(v, id);
    if k < v.len() && v[k].0 == id {
        v.remove(k);
        proof {
            lemma_assoc_remove(w, k as int);
            assert(v@.map_values(|x: (FileId, Vec<u32>)| (x.0, x.1@.to_set())) =~= w.remove(k as int));
            assert forall|a: int, b: int| 0 <= a < b < v@.len() implies file_id_less((#[trigger] v@[a]).0, (#[trigger] v@[b]).0) by {
                let a2 = if a < k { a } else { a + 1 };
                let b2 = if b < k { b } else { b + 1 };
                assert(v@[a] == v0[a2] && v@[b] == v0[b2]);
            }
            assert forall|j: int| 0 <= j < v@.len() implies offsets_increasing((#[trigger] v@[j]).1@) by {
                let j2 = if j < k { j } else { j + 1 };
                assert(v@[j] == v0[j2]);
            }
        }
    } else {
        proof {
            assert forall|j: int| 0 <= j < w.len() implies (#[trigger] w[j]).0 != id by {
                if j >= k && k < v0.len() {
                    if j > k {
                        assert(file_id_less(v0[k as int].0, v0[j].0));
                    }
                }
            }
            lemma_assoc_dom(w, id);
            assert(file_map(v0).remove(id) =~= file_map(v0));
        }
    }
}

/// The files of `ids` added to `m`, each with no new position.
pub open spec fn add_ids(m: Map<FileId, Set<u32>>, ids: Seq<FileId>, k: int) -> Map<FileId, Set<u32>>
    decreases k,
{
    if k <= 0 {
        m
    } else {
        with_id(add_ids(m, ids, k - 1), ids[k - 1])
    }
}

/// The positions entries `es` added to `m`.
pub open spec fn add_entries(m: Map<FileId, Set<u32>>, es: Seq<(FileId, Seq<u32>)>, k: int) -> Map<FileId, Set<u32>>
    decreases k,
{
    if k <= 0 {
        m
    } else {
        with_positions(add_entries(m, es, k - 1), es[k - 1].0, es[k - 1].1.to_set())
    }
}

/// What the merge keeps: for each term, each file with the set of its
/// positions.
pub type ContentTable = Map<Seq<char>, Map<FileId, Set<u32>>>;

/// The table with the posting `p` merged in: under its term, trimmed and in
/// lower case (a posting whose term is then empty is left out), its files
/// and their positions are added.
pub open spec fn merge_posting(s: ContentTable, p: crate::contentcodec::ContentView) -> ContentTable {
    let t = lower_normalized(p.0);
    if t.len() == 0 {
        s
    } else {
        let m0 = if s.dom().contains(t) { s[t] } else { Map::empty() };
        let m1 = add_ids(m0, p.1, p.1.len() as int);
        s.insert(t, add_entries(m1, p.2, p.2.len() as int))
    }
}

/// The table with the first `k` postings of `ps` merged in, in order.
pub open spec fn merge_postings(s: ContentTable, ps: Seq<crate::contentcodec::ContentView>, k: int) -> ContentTable
    decreases k,
{
    if k <= 0 {
        s
    } else {
        merge_posting(merge_postings(s, ps, k - 1), ps[k - 1])
    }
}

/// The table with the file `id` withdrawn from every term; terms left
/// with no file are dropped.
pub open spec fn drop_file(s: ContentTable, id: FileId) -> ContentTable {
    Map::new(
        |t: Seq<char>| s.dom().contains(t) && s[t].remove(id).dom() != Set::<FileId>::empty(),
        |t: Seq<char>| s[t].remove(id),
    )
}

/// The table with the first `k` files of `ids` withdrawn, in order.
pub open spec fn drop_files(s: ContentTable, ids: Seq<FileId>, k: int) -> ContentTable
    decreases k,
{
    if k <= 0 {
        s
    } else {
        drop_file(drop_files(s, ids, k - 1), ids[k - 1])
    }
}

/// The table after a segment: its tombstones withdrawn, then its postings
/// merged in.
pub open spec fn apply_segment(s: ContentTable, seg: crate::contentsegment::SegmentView) -> ContentTable {
    merge_postings(drop_files(s, seg.0, seg.0.len() as int), seg.1, seg.1.len() as int)
}

/// The table after the first `k` segments, in order.
pub open spec fn apply_segments(s: ContentTable, segs: Seq<crate::contentsegment::SegmentView>, k: int) -> ContentTable
    decreases k,
{
    if k <= 0 {
        s
    } else {
        apply_segment(apply_segments(s, segs, k - 1), segs[k - 1])
    }
}

/// No term of the table lists the file `id`.
pub open spec fn file_absent(s: ContentTable, id: FileId) -> bool {
    forall|t: Seq<char>| #[trigger] s.dom().contains(t) ==> !s[t].dom().contains(id)
}

/// The content posting `p` does not mention the file `id`.
pub open spec fn posting_without(p: crate::contentcodec::ContentView, id: FileId) -> bool {
    &&& !p.1.contains(id)
    &&& forall|i: int| 0 <= i < p.2.len() ==> (#[trigger] p.2[i]).0 != id
}

proof fn lemma_add_ids_absent(m: Map<FileId, Set<u32>>, ids: Seq<FileId>, k: int, id: FileId)
    requires
        !m.dom().contains(id),
        !ids.contains(id),
        k <= ids.len(),
    ensures
        !add_ids(m, ids, k).dom().contains(id),
    decreases k,
{
    if k > 0 {
        lemma_add_ids_absent(m, ids, k - 1, id);
        assert(ids[k - 1] != id);
    }
}

proof fn lemma_add_entries_absent(m: Map<FileId, Set<u32>>, es: Seq<(FileId, Seq<u32>)>, k: int, id: FileId)
    requires
        !m.dom().contains(id),
        forall|i: int| 0 <= i < es.len() ==> (#[trigger] es[i]).0 != id,
        k <= es.len(),
    ensures
        !add_entries(m, es, k).dom().contains(id),
    decreases k,
{
    if k > 0 {
        lemma_add_entries_absent(m, es, k - 1, id);
        assert(es[k - 1].0 != id);
    }
}

proof fn lemma_merge_postings_absent(s: ContentTable, ps: Seq<crate::contentcodec::ContentView>, k: int, id: FileId)
    requires
        file_absent(s, id),
        forall|i: int| 0 <= i < ps.len() ==> posting_without(#[trigger] ps[i], id),
        k <= ps.len(),
    ensures
        file_absent(merge_postings(s, ps, k), id),
    decreases k,
{
    if k > 0 {
        lemma_merge_postings_absent(s, ps, k - 1, id);
        let s1 = merge_postings(s, ps, k - 1);
        let p = ps[k - 1];
        assert(posting_without(p, id));
        let t = lower_normalized(p.0);
        if t.len() != 0 {
            let m0 = if s1.dom().contains(t) { s1[t] } else { Map::<FileId, Set<u32>>::empty() };
            lemma_add_ids_absent(m0, p.1, p.1.len() as int, id);
            lemma_add_entries_absent(add_ids(m0, p.1, p.1.len() as int), p.2, p.2.len() as int, id);
        }
    }
}

proof fn lemma_drop_files_absent(s: ContentTable, ids: Seq<FileId>, k: int, a: int)
    requires
        0 <= a < k <= ids.len(),
    ensures
        file_absent(drop_files(s, ids, k), ids[a]),
    decreases k,
{
    if a < k - 1 {
        lemma_drop_files_absent(s, ids, k - 1, a);
    }
}

/// A segment's tombstones take effect: after the segment is applied, no
/// term lists a file that the segment tombstones, unless one of the
/// segment's own postings brings the file back.
pub proof fn lemma_segment_tombstone_removes(s: ContentTable, seg: crate::contentsegment::SegmentView, id: FileId)
    requires
        seg.0.contains(id),
        forall|i: int| 0 <= i < seg.1.len() ==> posting_without(#[trigger] seg.1[i], id),
    ensures
        file_absent(apply_segment(s, seg), id),
{
    let a = choose|a: int| 0 <= a < seg.0.len() && seg.0[a] == id;
    lemma_drop_files_absent(s, seg.0, seg.0.len() as int, a);
    lemma_merge_postings_absent(drop_files(s, seg.0, seg.0.len() as int), seg.1, seg.1.len() as int, id);
}

/// The terms as kept while merging: terms strictly increasing, each with
/// its files as kept.
pub open spec fn table_wf(v: Seq<(String, FilePositions)>) -> bool {
    &&& forall|i: int, j: int| 0 <= i < j < v.len() ==> seq_less((#[trigger] v[i]).0@, (#[trigger] v[j]).0@)
    &&& forall|i: int| 0 <= i < v.len() ==> files_wf((#[trigger] v[i]).1@)
}

/// The pairs of a table as kept: each term with the map of its files.
pub open spec fn table_pairs(v: Seq<(String, FilePositions)>) -> Seq<(Seq<char>, Map<FileId, Set<u32>>)> {
    v.map_values(|e: (String, FilePositions)| (e.0@, file_map(e.1@)))
}

/// The plain value of a table as kept.
pub open spec fn table_map(v: Seq<(String, FilePositions)>) -> ContentTable {
    assoc(table_pairs(v))
}

proof fn lemma_table_distinct(v: Seq<(String, FilePositions)>)
    requires
        table_wf(v),
    ensures
        keys_distinct(table_pairs(v)),
{
    let w = table_pairs(v);
    assert forall|a: int, b: int| 0 <= a < b < w.len() implies (#[trigger] w[a]).0 != (#[trigger] w[b]).0 by {
        assert(seq_less(v[a].0@, v[b].0@));
        lemma_seq_less_irreflexive(v[a].0@);
    }
}

/// The first position whose term does not come before `t`.
fn term_slot(v: &Vec<(String, FilePositions)>, t: &str) -> (k: usize)
    requires
        table_wf(v@),
    ensures
        k <= v@.len(),
        forall|j: int| 0 <= j < k ==> seq_less((#[trigger] v@[j]).0@, t@),
        k < v@.len() ==> !seq_less(v@[k as int].0@, t@),
{
    let mut k: usize = 0;
    while k < v.len() && str_less(v[k].0.as_str(), t)
        invariant
            table_wf(v@),
            k <= v@.len(),
            forall|j: int| 0 <= j < k ==> seq_less((#[trigger] v@[j]).0@, t@),
        decreases v@.len() - k,
    {
        k = k + 1;
    }
    k
}

/// Merges the content posting `p` into the table.
fn merge_into(v: &mut Vec<(String, FilePositions)>, p: &ContentPosting)
    requires
        table_wf(old(v)@),
    ensures
        table_wf(final(v)@),
        table_map(final(v)@) == merge_posting(table_map(old(v)@), crate::contentcodec::content_view(*p)),
{
    let ghost v0 = v@;
    let ghost w0 = table_pairs(v0);
    proof {
        lemma_table_distinct(v0);
    }
    let t = normalize_lower(p.term.as_str());
    if t.unicode_len() == 0 {
        return;
    }
    let k = term_slot(v, t.as_str());
    let found = k < v.len() && str_equal(v[k].0.as_str(), t.as_str());
    let ghost m0: Map<FileId, Set<u32>> = if table_map(v0).dom().contains(t@) { table_map(v0)[t@] } else { Map::empty() };
    proof {
        if found {
            assert(w0[k as int].0 == t@);
            lemma_assoc_index(w0, k as int);
        } else {
            assert forall|j: int| 0 <= j < w0.len() implies (#[trigger] w0[j]).0 != t@ by {
                if j < k {
                    lemma_seq_less_irreflexive(t@);
                } else {
                    if j > k {
                        assert(seq_less(v0[k as int].0@, v0[j].0@));
                    }
                    if v0[j].0@ == t@ && j > k {
                        lemma_seq_less_total(v0[k as int].0@, t@);
                        lemma_seq_less_transitive(v0[k as int].0@, t@, v0[k as int].0@);
                        lemma_seq_less_irreflexive(v0[k as int].0@);
                    }
                }
            }
            lemma_assoc_dom(w0, t@);
        }
    }
    let mut files: FilePositions = if found {
        let (_, f) = v.remove(k);
        f
    } else {
        Vec::new()
    };
    proof {
        if !found {
            assert(file_map(files@) =~= Map::<FileId, Set<u32>>::empty());
        }
        assert(file_map(files@) == m0);
        assert(files_wf(files@));
    }
    let mut i: usize = 0;
    while i < p.ids.len()
        invariant
            i <= p.ids@.len(),
            files_wf(files@),
            file_map(files@) == add_ids(m0, p.ids@, i as int),
        decreases p.ids@.len() - i,
    {
        add_file(&mut files, p.ids[i]);
        i = i + 1;
    }
    let ghost m1 = file_map(files@);
    let ghost es = crate::contentcodec::positions_views(p.positions@);
    let mut j: usize = 0;
    while j < p.positions.len()
        invariant
            j <= p.positions@.len(),
            es == crate::contentcodec::positions_views(p.positions@),
            files_wf(files@),
            file_map(files@) == add_entries(m1, es, j as int),
        decreases p.positions@.len() - j,
    {
        add_positions(&mut files, p.positions[j].id, &p.positions[j].positions);
        proof {
            assert(es[j as int] == (p.positions@[j as int].id, p.positions@[j as int].positions@));
        }
        j = j + 1;
    }
    let ghost fm = file_map(files@);
    let ghost vr = v@;
    v.insert(k, (t, files));
    proof {
        let w = table_pairs(v@);
        if found {
            assert(vr =~= v0.remove(k as int));
            assert(v@ =~= v0.update(k as int, v@[k as int]));
            assert(w =~= w0.update(k as int, (w0[k as int].0, fm)));
            lemma_assoc_update(w0, k as int, fm);
        } else {
            assert(vr == v0);
            assert(w =~= w0.insert(k as int, (t@, fm)));
            lemma_assoc_insert(w0, k as int, t@, fm);
        }
        assert(table_map(v@) =~= merge_posting(table_map(v0), crate::contentcodec::content_view(*p)));
        assert forall|a: int, b: int| 0 <= a < b < v@.len() implies seq_less((#[trigger] v@[a]).0@, (#[trigger] v@[b]).0@) by {
            if found {
                assert(v@[a].0@ == v0[a].0@ && v@[b].0@ == v0[b].0@) by {
                    if a == k {
                        assert(v0[k as int].0@ == t@);
                    }
                    if b == k {
                        assert(v0[k as int].0@ == t@);
                    }
                }
            } else {
                if b < k {
                    assert(v@[a] == v0[a] && v@[b] == v0[b]);
                } else if b == k {
                    assert(v@[a] == v0[a]);
                } else if a == k {
                    assert(v@[b] == v0[b - 1]);
                    if b - 1 > k {
                        assert(seq_less(v0[k as int].0@, v0[b - 1].0@));
                    }
                    if !seq_less(t@, v0[k as int].0@) {
                        lemma_seq_less_total(t@, v0[k as int].0@);
                    }
                    if b - 1 > k {
                        lemma_seq_less_transitive(t@, v0[k as int].0@, v0[b - 1].0@);
                    }
                } else if a < k {
                    assert(v@[a] == v0[a] && v@[b] == v0[b - 1]);
                    if !seq_less(t@, v0[k as int].0@) {
                        lemma_seq_less_total(t@, v0[k as int].0@);
                    }
                    lemma_seq_less_transitive(v0[a].0@, t@, v0[k as int].0@);
                    if b - 1 > k {
                        lemma_seq_less_transitive(v0[a].0@, v0[k as int].0@, v0[b - 1].0@);
                    }
                } else {
                    assert(v@[a] == v0[a - 1] && v@[b] == v0[b - 1]);
                }
            }
        }
        assert forall|x: int| 0 <= x < v@.len() implies files_wf((#[trigger] v@[x]).1@) by {
            if x != k {
                if found {
                    assert(v@[x] == v0[x]);
                } else if x < k {
                    assert(v@[x] == v0[x]);
                } else {
                    assert(v@[x] == v0[x - 1]);
                }
            }
        }
    }
}

/// The first `k` terms of a table as kept, with `id` withdrawn and terms
/// left with no file dropped.
pub open spec fn partial_drop(v: Seq<(String, FilePositions)>, id: FileId, k: int) -> ContentTable
    decreases k,
{
    if k <= 0 {
        Map::empty()
    } else {
        let m = file_map(v[k - 1].1@).remove(id);
        if m.dom() != Set::<FileId>::empty() {
            partial_drop(v, id, k - 1).insert(v[k - 1].0@, m)
        } else {
            partial_drop(v, id, k - 1)
        }
    }
}

proof fn lemma_partial_drop(v: Seq<(String, FilePositions)>, id: FileId, k: int, t: Seq<char>)
    requires
        table_wf(v),
        0 <= k <= v.len(),
    ensures
        partial_drop(v, id, k).dom().contains(t) <==> exists|j: int|
            0 <= j < k && (#[trigger] v[j]).0@ == t && file_map(v[j].1@).remove(id).dom() != Set::<FileId>::empty(),
        forall|j: int|
            0 <= j < k && (#[trigger] v[j]).0@ == t && file_map(v[j].1@).remove(id).dom() != Set::<FileId>::empty()
                ==> partial_drop(v, id, k)[t] == file_map(v[j].1@).remove(id),
    decreases k,
{
    if k > 0 {
        lemma_partial_drop(v, id, k - 1, t);
        assert forall|j: int| 0 <= j < k - 1 implies (#[trigger] v[j]).0@ != v[k - 1].0@ by {
            assert(seq_less(v[j].0@, v[k - 1].0@));
            lemma_seq_less_irreflexive(v[j].0@);
        }
    }
}

proof fn lemma_files_empty(v: Seq<(FileId, Vec<u32>)>)
    ensures
        (file_map(v).dom() == Set::<FileId>::empty()) <==> v.len() == 0,
{
    let w = v.map_values(|x: (FileId, Vec<u32>)| (x.0, x.1@.to_set()));
    if v.len() > 0 {
        lemma_assoc_dom(w, w[0].0);
        assert(file_map(v).dom().contains(w[0].0));
    } else {
        assert(w.len() == 0);
        assert(file_map(v).dom() =~= Set::<FileId>::empty());
    }
}

/// The table with the file `id` withdrawn from every term, and terms left
/// with no file dropped.
fn drop_file_from(v: Vec<(String, FilePositions)>, id: FileId) -> (r: Vec<(String, FilePositions)>)
    requires
        table_wf(v@),
    ensures
        table_wf(r@),
        table_map(r@) == drop_file(table_map(v@), id),
{
    let ghost v0 = v@;
    let mut src = v;
    let n = src.len();
    let mut out: Vec<(String, FilePositions)> = Vec::new();
    let mut i: usize = 0;
    proof {
        assert(src@ =~= v0.skip(0));
        assert(table_map(out@) =~= partial_drop(v0, id, 0));
    }
    while i < n
        invariant
            n == v0.len(),
            table_wf(v0),
            i <= n,
            src@ == v0.skip(i as int),
            table_wf(out@),
            forall|a: int, j: int| 0 <= a < out@.len() && i <= j < n ==> seq_less((#[trigger] out@[a]).0@, (#[trigger] v0[j]).0@),
            table_map(out@) == partial_drop(v0, id, i as int),
        decreases n - i,
    {
        let (t, mut files) = src.remove(0);
        proof {
            assert(v0[i as int] == (t, files));
            assert(src@ =~= v0.skip(i as int + 1));
        }
        remove_file(&mut files, id);
        proof {
            lemma_files_empty(files@);
        }
        if files.len() > 0 {
            let ghost before = out@;
            let ghost fm = file_map(files@);
            out.push((t, files));
            proof {
                assert(table_pairs(out@) =~= table_pairs(before).push((v0[i as int].0@, fm)));
                assert(table_pairs(out@).drop_last() =~= table_pairs(before));
                assert forall|a: int, b: int| 0 <= a < b < out@.len() implies seq_less((#[trigger] out@[a]).0@, (#[trigger] out@[b]).0@) by {
                    if b < before.len() {
                        assert(out@[a] == before[a] && out@[b] == before[b]);
                    } else {
                        assert(out@[a] == before[a]);
                        assert(seq_less(before[a].0@, v0[i as int].0@));
                    }
                }
                assert forall|x: int| 0 <= x < out@.len() implies files_wf((#[trigger] out@[x]).1@) by {
                    if x < before.len() {
                        assert(out@[x] == before[x]);
                    }
                }
                assert forall|a: int, j: int| 0 <= a < out@.len() && i + 1 <= j < n implies seq_less((#[trigger] out@[a]).0@, (#[trigger] v0[j]).0@) by {
                    if a < before.len() {
                        assert(out@[a] == before[a]);
                    } else {
                        assert(seq_less(v0[i as int].0@, v0[j].0@));
                    }
                }
            }
        }
        i = i + 1;
    }
    proof {
        let d = drop_file(table_map(v0), id);
        let w0 = table_pairs(v0);
        lemma_table_distinct(v0);
        assert forall|t: Seq<char>| #[trigger] table_map(out@).dom().contains(t) <==> d.dom().contains(t) by {
            lemma_partial_drop(v0, id, n as int, t);
            lemma_assoc_dom(w0, t);
            if d.dom().contains(t) {
                let j = choose|j: int| 0 <= j < w0.len() && (#[trigger] w0[j]).0 == t;
                lemma_assoc_index(w0, j);
                assert(v0[j].0@ == t);
            }
            if table_map(out@).dom().contains(t) {
                let j = choose|j: int|
                    0 <= j < n && (#[trigger] v0[j]).0@ == t && file_map(v0[j].1@).remove(id).dom() != Set::<FileId>::empty();
                assert(w0[j].0 == t);
                lemma_assoc_index(w0, j);
            }
        }
        assert forall|t: Seq<char>| #[trigger] table_map(out@).dom().contains(t) implies table_map(out@)[t] == d[t] by {
            lemma_partial_drop(v0, id, n as int, t);
            let j = choose|j: int|
                0 <= j < n && (#[trigger] v0[j]).0@ == t && file_map(v0[j].1@).remove(id).dom() != Set::<FileId>::empty();
            assert(w0[j].0 == t);
            lemma_assoc_index(w0, j);
        }
        assert(table_map(out@) =~= d);
    }
    out
}

/// Whether the content posting `p` is the files `m` of its term as written
/// out: its ids are the files, increasing; its positions entries are the
/// files with positions, increasing, each with its positions increasing.
pub open spec fn posting_matches(p: crate::contentcodec::ContentView, m: Map<FileId, Set<u32>>) -> bool {
    &&& crate::postings::ids_sorted(p.1)
    &&& p.1.to_set() == m.dom()
    &&& forall|i: int, j: int| 0 <= i < j < p.2.len() ==> file_id_less((#[trigger] p.2[i]).0, (#[trigger] p.2[j]).0)
    &&& forall|i: int|
        0 <= i < p.2.len() ==> offsets_increasing((#[trigger] p.2[i]).1) && p.2[i].1.len() > 0 && m.dom().contains(
            p.2[i].0,
        ) && m[p.2[i].0] == p.2[i].1.to_set()
    &&& forall|id: FileId|
        m.dom().contains(id) && m[id] != Set::<u32>::empty() ==> exists|i: int| 0 <= i < p.2.len() && (#[trigger] p.2[i]).0 == id
}

/// Whether the content postings `ps` are the table `s` written out: terms
/// strictly increasing, one posting for each term of the table, each the
/// files of its term.
pub open spec fn postings_match(ps: Seq<crate::contentcodec::ContentView>, s: ContentTable) -> bool {
    &&& forall|i: int, j: int| 0 <= i < j < ps.len() ==> seq_less((#[trigger] ps[i]).0, (#[trigger] ps[j]).0)
    &&& forall|t: Seq<char>| s.dom().contains(t) <==> exists|i: int| 0 <= i < ps.len() && (#[trigger] ps[i]).0 == t
    &&& forall|i: int| 0 <= i < ps.len() ==> s.dom().contains((#[trigger] ps[i]).0) && posting_matches(ps[i], s[ps[i].0])
}

/// The files of a term written out as a content posting.
fn posting_of_files(t: String, files: FilePositions) -> (p: ContentPosting)
    requires
        files_wf(files@),
    ensures
        p.term@ == t@,
        posting_matches(crate::contentcodec::content_view(p), file_map(files@)),
{
    let ghost f0 = files@;
    let ghost w = f0.map_values(|x: (FileId, Vec<u32>)| (x.0, x.1@.to_set()));
    proof {
        lemma_files_distinct(f0);
    }
    let mut ids: Vec<FileId> = Vec::new();
    let mut positions: Vec<ContentPositions> = Vec::new();
    let mut src = files;
    let n = src.len();
    let mut i: usize = 0;
    proof {
        assert(src@ =~= f0.skip(0));
    }
    while i < n
        invariant
            n == f0.len(),
            files_wf(f0),
            keys_distinct(w),
            w == f0.map_values(|x: (FileId, Vec<u32>)| (x.0, x.1@.to_set())),
            i <= n,
            src@ == f0.skip(i as int),
            ids@ == f0.take(i as int).map_values(|x: (FileId, Vec<u32>)| x.0),
            forall|a: int, b: int| 0 <= a < b < positions@.len() ==> file_id_less((#[trigger] positions@[a]).id, (#[trigger] positions@[b]).id),
            forall|a: int, j: int| 0 <= a < positions@.len() && i <= j < n ==> file_id_less((#[trigger] positions@[a]).id, (#[trigger] f0[j]).0),
            forall|a: int|
                0 <= a < positions@.len() ==> offsets_increasing((#[trigger] positions@[a]).positions@) && positions@[a].positions@.len() > 0
                    && file_map(f0).dom().contains(positions@[a].id) && file_map(f0)[positions@[a].id] == positions@[a].positions@.to_set(),
            forall|j: int| 0 <= j < i && f0[j].1@.len() > 0 ==> exists|a: int| 0 <= a < positions@.len() && (#[trigger] positions@[a]).id == (#[trigger] f0[j]).0,
        decreases n - i,
    {
        let (id, offs) = src.remove(0);
        proof {
            assert(f0[i as int] == (id, offs));
            assert(src@ =~= f0.skip(i as int + 1));
            lemma_assoc_index(w, i as int);
        }
        ids.push(id);
        proof {
            assert(f0.take(i as int + 1).map_values(|x: (FileId, Vec<u32>)| x.0) =~= f0.take(i as int).map_values(
                |x: (FileId, Vec<u32>)| x.0,
            ).push(id));
        }
        if offs.len() > 0 {
            let ghost before = positions@;
            positions.push(ContentPositions { id, positions: offs });
            proof {
                assert forall|a: int, b: int| 0 <= a < b < positions@.len() implies file_id_less((#[trigger] positions@[a]).id, (#[trigger] positions@[b]).id) by {
                    if b < before.len() {
                        assert(positions@[a] == before[a] && positions@[b] == before[b]);
                    } else {
                        assert(positions@[a] == before[a]);
                    }
                }
                assert forall|a: int, j: int| 0 <= a < positions@.len() && i + 1 <= j < n implies file_id_less((#[trigger] positions@[a]).id, (#[trigger] f0[j]).0) by {
                    if a < before.len() {
                        assert(positions@[a] == before[a]);
                    } else {
                        assert(file_id_less(f0[i as int].0, f0[j].0));
                    }
                }
                assert forall|a: int|
                    0 <= a < positions@.len() implies offsets_increasing((#[trigger] positions@[a]).positions@) && positions@[a].positions@.len() > 0
                        && file_map(f0).dom().contains(positions@[a].id) && file_map(f0)[positions@[a].id] == positions@[a].positions@.to_set() by {
                    if a < before.len() {
                        assert(positions@[a] == before[a]);
                    }
                }
                assert forall|j: int| 0 <= j < i + 1 && f0[j].1@.len() > 0 implies exists|a: int| 0 <= a < positions@.len() && (#[trigger] positions@[a]).id == (#[trigger] f0[j]).0 by {
                    if j < i {
                        let a = choose|a: int| 0 <= a < before.len() && (#[trigger] before[a]).id == f0[j].0;
                        assert(positions@[a] == before[a]);
                    } else {
                        assert(positions@[before.len() as int].id == f0[j].0);
                    }
                }
            }
        }
        i = i + 1;
    }
    let p = ContentPosting { term: t, ids, positions };
    proof {
        let v = crate::contentcodec::content_view(p);
        let m = file_map(f0);
        assert(f0.take(n as int) =~= f0);
        assert forall|a: int, b: int| 0 <= a < b < ids@.len() implies file_id_less(#[trigger] ids@[a], #[trigger] ids@[b]) by {
            assert(ids@[a] == f0[a].0 && ids@[b] == f0[b].0);
        }
        assert forall|x: FileId| ids@.to_set().contains(x) <==> m.dom().contains(x) by {
            lemma_assoc_dom(w, x);
            if ids@.to_set().contains(x) {
                let a = choose|a: int| 0 <= a < ids@.len() && ids@[a] == x;
                assert(w[a].0 == x);
            }
            if m.dom().contains(x) {
                let a = choose|a: int| 0 <= a < w.len() && (#[trigger] w[a]).0 == x;
                assert(ids@[a] == x);
            }
        }
        assert(ids@.to_set() =~= m.dom());
        assert forall|x: FileId| m.dom().contains(x) && m[x] != Set::<u32>::empty() implies exists|i: int| 0 <= i < v.2.len() && (#[trigger] v.2[i]).0 == x by {
            lemma_assoc_dom(w, x);
            let a = choose|a: int| 0 <= a < w.len() && (#[trigger] w[a]).0 == x;
            lemma_assoc_index(w, a);
            if f0[a].1@.len() == 0 {
                assert(f0[a].1@.to_set() =~= Set::<u32>::empty());
            }
            let b = choose|b: int| 0 <= b < positions@.len() && (#[trigger] positions@[b]).id == f0[a].0;
            assert(v.2[b].0 == x);
        }
        assert forall|a: int, b: int| 0 <= a < b < v.2.len() implies file_id_less((#[trigger] v.2[a]).0, (#[trigger] v.2[b]).0) by {
            assert(v.2[a].0 == positions@[a].id && v.2[b].0 == positions@[b].id);
        }
        assert forall|a: int| 0 <= a < v.2.len() implies offsets_increasing((#[trigger] v.2[a]).1) && v.2[a].1.len() > 0
            && m.dom().contains(v.2[a].0) && m[v.2[a].0] == v.2[a].1.to_set() by {
            assert(v.2[a] == (positions@[a].id, positions@[a].positions@));
        }
    }
    p
}


/// The table written out as content postings, in term order.
fn postings_of_table(v: Vec<(String, FilePositions)>) -> (r: Vec<ContentPosting>)
    requires
        table_wf(v@),
    ensures
        postings_match(content_views(r@), table_map(v@)),
{
    let ghost v0 = v@;
    let ghost w0 = table_pairs(v0);
    proof {
        lemma_table_distinct(v0);
    }
    let mut src = v;
    let n = src.len();
    let mut out: Vec<ContentPosting> = Vec::new();
    let mut i: usize = 0;
    proof {
        assert(src@ =~= v0.skip(0));
    }
    while i < n
        invariant
            n == v0.len(),
            table_wf(v0),
            i <= n,
            src@ == v0.skip(i as int),
            out@.len() == i,
            forall|a: int|
                0 <= a < i ==> (#[trigger] out@[a]).term@ == v0[a].0@ && posting_matches(
                    crate::contentcodec::content_view(out@[a]),
                    file_map(v0[a].1@),
                ),
        decreases n - i,
    {
        let (t, files) = src.remove(0);
        proof {
            assert(v0[i as int] == (t, files));
            assert(src@ =~= v0.skip(i as int + 1));
        }
        let p = posting_of_files(t, files);
        out.push(p);
        i = i + 1;
    }
    proof {
        let ps = content_views(out@);
        let s = table_map(v0);
        assert forall|a: int, b: int| 0 <= a < b < ps.len() implies seq_less((#[trigger] ps[a]).0, (#[trigger] ps[b]).0) by {
            assert(ps[a].0 == v0[a].0@ && ps[b].0 == v0[b].0@);
        }
        assert forall|t: Seq<char>| s.dom().contains(t) <==> exists|a: int| 0 <= a < ps.len() && (#[trigger] ps[a]).0 == t by {
            lemma_assoc_dom(w0, t);
            if s.dom().contains(t) {
                let a = choose|a: int| 0 <= a < w0.len() && (#[trigger] w0[a]).0 == t;
                assert(ps[a].0 == t);
            }
            if exists|a: int| 0 <= a < ps.len() && (#[trigger] ps[a]).0 == t {
                let a = choose|a: int| 0 <= a < ps.len() && (#[trigger] ps[a]).0 == t;
                assert(w0[a].0 == t);
            }
        }
        assert forall|a: int| 0 <= a < ps.len() implies s.dom().contains((#[trigger] ps[a]).0) && posting_matches(ps[a], s[ps[a].0]) by {
            lemma_assoc_index(w0, a);
            assert(w0[a] == (v0[a].0@, file_map(v0[a].1@)));
            assert(ps[a] == crate::contentcodec::content_view(out@[a]));
        }
    }
    out
}

/// Compacts content postings: the postings `base` merged into one table,
/// then each segment in turn applied to it (its tombstoned files withdrawn
/// from every term, terms left with no file dropped, then its postings
/// merged in), and the table written out as postings in term order.
pub fn compact_content_postings(base: Vec<ContentPosting>, segments: Vec<ContentSegment>) -> (r: Vec<ContentPosting>)
    ensures
        postings_match(
            content_views(r@),
            apply_segments(
                merge_postings(Map::empty(), content_views(base@), base@.len() as int),
                segments@.map_values(|g: ContentSegment| segment_view(g)),
                segments@.len() as int,
            ),
        ),
{
    let mut table: Vec<(String, FilePositions)> = Vec::new();
    let ghost bv = content_views(base@);
    proof {
        assert(table_pairs(table@) =~= Seq::<(Seq<char>, Map<FileId, Set<u32>>)>::empty());
        assert(table_map(table@) =~= Map::<Seq<char>, Map<FileId, Set<u32>>>::empty());
    }
    let mut i: usize = 0;
    while i < base.len()
        invariant
            bv == content_views(base@),
            i <= base@.len(),
            table_wf(table@),
            table_map(table@) == merge_postings(Map::empty(), bv, i as int),
        decreases base@.len() - i,
    {
        merge_into(&mut table, &base[i]);
        i = i + 1;
    }
    let ghost start = merge_postings(Map::empty(), bv, base@.len() as int);
    let ghost sv = segments@.map_values(|g: ContentSegment| segment_view(g));
    let mut j: usize = 0;
    while j < segments.len()
        invariant
            sv == segments@.map_values(|g: ContentSegment| segment_view(g)),
            j <= segments@.len(),
            table_wf(table@),
            table_map(table@) == apply_segments(start, sv, j as int),
        decreases segments@.len() - j,
    {
        let seg = &segments[j];
        let ghost before = table_map(table@);
        let ghost g = segment_view(*seg);
        proof {
            assert(sv[j as int] == g);
        }
        let mut q: usize = 0;
        while q < seg.tombstones.len()
            invariant
                g == segment_view(*seg),
                q <= seg.tombstones@.len(),
                table_wf(table@),
                table_map(table@) == drop_files(before, g.0, q as int),
            decreases seg.tombstones@.len() - q,
        {
            table = drop_file_from(table, seg.tombstones[q]);
            q = q + 1;
        }
        let ghost dropped = table_map(table@);
        let mut q: usize = 0;
        while q < seg.postings.len()
            invariant
                g == segment_view(*seg),
                q <= seg.postings@.len(),
                table_wf(table@),
                table_map(table@) == merge_postings(dropped, g.1, q as int),
            decreases seg.postings@.len() - q,
        {
            merge_into(&mut table, &seg.postings[q]);
            q = q + 1;
        }
        j = j + 1;
    }
    postings_of_table(table)
}

} // verus!
