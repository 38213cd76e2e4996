use vstd::prelude::*;

use crate::order::{insert_sorted_unique, lemma_seq_less_total, lemma_seq_less_transitive, seq_less, str_less, strictly_sorted, string_views};
use crate::terms::{
    deletion_keys, deletion_set, fuzzy_term, gram_windows, is_fuzzy_term, normalize, normalized,
    substring_grams, token_prefix_list, token_prefixes, tokenize, tokens,
};
use crate::text::str_equal;
use crate::types::{file_id_less, file_id_lt, FileId, FileRecord};

verus! {

/// File ids in strictly increasing order.
pub open spec fn ids_sorted(ids: Seq<FileId>) -> bool {
    forall|i: int, j: int| 0 <= i < j < ids.len() ==> file_id_less(#[trigger] ids[i], #[trigger] ids[j])
}

/// Inserts `id` into the strictly sorted `ids`, unless it is there already.
pub fn insert_id(ids: &mut Vec<FileId>, id: FileId)
    requires
        ids_sorted(old(ids)@),
    ensures
        ids_sorted(final(ids)@),
        final(ids)@.to_set() == old(ids)@.to_set().insert(id),
{
    let ghost old_ids = ids@;
    let mut k: usize = 0;
    while k < ids.len() && file_id_lt(ids[k], id)
        invariant
            old_ids == ids@,
            ids_sorted(old_ids),
            k <= ids@.len(),
            forall|j: int| 0 <= j < k ==> file_id_less(#[trigger] old_ids[j], id),
        decreases ids@.len() - k,
    {
        k = k + 1;
    }
    if k < ids.len() && ids[k] == id {
        proof {
            assert(old_ids.to_set().insert(id) =~= old_ids.to_set());
        }
        return;
    }
    ids.insert(k, id);
    proof {
        let nv = ids@;
        assert(nv =~= old_ids.insert(k as int, id));
        assert forall|i: int, j: int| 0 <= i < j < nv.len() implies file_id_less(#[trigger] nv[i], #[trigger] nv[j]) by {
            if j < k {
                assert(nv[i] == old_ids[i] && nv[j] == old_ids[j]);
            } else if j == k {
                assert(nv[i] == old_ids[i]);
            } else if i < k {
                assert(nv[i] == old_ids[i] && nv[j] == old_ids[j - 1]);
            } else if i == k {
                assert(nv[j] == old_ids[j - 1]);
            } else {
                assert(nv[i] == old_ids[i - 1] && nv[j] == old_ids[j - 1]);
            }
        }
        assert forall|y: FileId| nv.to_set().contains(y) <==> old_ids.to_set().insert(id).contains(y) by {
            if nv.to_set().contains(y) {
                let i = choose|i: int| 0 <= i < nv.len() && #[trigger] nv[i] == y;
                if i < k {
                    assert(old_ids[i] == y);
                } else if i > k {
                    assert(old_ids[i - 1] == y);
                }
            }
            if old_ids.to_set().contains(y) {
                let i = choose|i: int| 0 <= i < old_ids.len() && #[trigger] old_ids[i] == y;
                if i < k {
                    assert(nv[i] == y);
                } else {
                    assert(nv[i + 1] == y);
                }
            }
            if y == id {
                assert(nv[k as int] == y);
            }
        }
        assert(nv.to_set() =~= old_ids.to_set().insert(id));
    }
}

/// The plain values of a posting map.
pub open spec fn entries_view(m: Seq<(String, Vec<FileId>)>) -> Seq<(Seq<char>, Seq<FileId>)> {
    m.map_values(|e: (String, Vec<FileId>)| (e.0@, e.1@))
}

/// Posting entries: keys strictly sorted, each with a nonempty, strictly
/// sorted list of ids.
pub open spec fn id_entries_wf(v: Seq<(Seq<char>, Seq<FileId>)>) -> bool {
    &&& strictly_sorted(v.map_values(|e: (Seq<char>, Seq<FileId>)| e.0))
    &&& forall|i: int| 0 <= i < v.len() ==> ids_sorted(#[trigger] v[i].1) && v[i].1.len() > 0
}

/// The (key, id) pairs of posting entries.
pub open spec fn id_entries_pairs(v: Seq<(Seq<char>, Seq<FileId>)>) -> Set<(Seq<char>, FileId)> {
    Set::new(
        |p: (Seq<char>, FileId)|
            exists|i: int| 0 <= i < v.len() && (#[trigger] v[i]).0 == p.0 && v[i].1.contains(p.1),
    )
}

/// A posting map and its plain view agree on well-formedness and on the
/// (term, id) pairs they hold.
pub proof fn lemma_entries_view(m: Seq<(String, Vec<FileId>)>)
    ensures
        id_map_wf(m) == id_entries_wf(entries_view(m)),
        id_map_pairs(m) == id_entries_pairs(entries_view(m)),
{
    let v = entries_view(m);
    assert(map_keys(m) =~= v.map_values(|e: (Seq<char>, Seq<FileId>)| e.0));
    assert forall|p: (Seq<char>, FileId)| id_map_pairs(m).contains(p) <==> id_entries_pairs(v).contains(p) by {
        if id_map_pairs(m).contains(p) {
            let i = choose|i: int| 0 <= i < m.len() && (#[trigger] m[i]).0@ == p.0 && m[i].1@.contains(p.1);
            assert(v[i] == (m[i].0@, m[i].1@));
        }
        if id_entries_pairs(v).contains(p) {
            let i = choose|i: int| 0 <= i < v.len() && (#[trigger] v[i]).0 == p.0 && v[i].1.contains(p.1);
            assert(v[i] == (m[i].0@, m[i].1@));
        }
    }
    assert(id_map_pairs(m) =~= id_entries_pairs(v));
    assert(id_map_wf(m) == id_entries_wf(v)) by {
        if id_map_wf(m) {
            assert forall|i: int| 0 <= i < v.len() implies ids_sorted(#[trigger] v[i].1) && v[i].1.len() > 0 by {
                assert(v[i] == (m[i].0@, m[i].1@));
            }
        }
        if id_entries_wf(v) {
            assert forall|i: int| 0 <= i < m.len() implies ids_sorted(#[trigger] m[i].1@) && m[i].1@.len() > 0 by {
                assert(v[i] == (m[i].0@, m[i].1@));
                assert(ids_sorted(v[i].1) && v[i].1.len() > 0);
            }
        }
    }
}

/// The keys of a posting map.
pub open spec fn map_keys(m: Seq<(String, Vec<FileId>)>) -> Seq<Seq<char>> {
    m.map_values(|e: (String, Vec<FileId>)| e.0@)
}

/// A posting map: keys strictly sorted, each with a nonempty, strictly
/// sorted list of ids.
pub open spec fn id_map_wf(m: Seq<(String, Vec<FileId>)>) -> bool {
    &&& strictly_sorted(map_keys(m))
    &&& forall|i: int| 0 <= i < m.len() ==> ids_sorted(#[trigger] m[i].1@) && m[i].1@.len() > 0
}

/// The (key, id) pairs that a posting map holds.
pub open spec fn id_map_pairs(m: Seq<(String, Vec<FileId>)>) -> Set<(Seq<char>, FileId)> {
    Set::new(
        |p: (Seq<char>, FileId)|
            exists|i: int|
                0 <= i < m.len() && (#[trigger] m[i]).0@ == p.0 && m[i].1@.contains(p.1),
    )
}

/// Adds `id` under `key`.
pub fn insert_id_posting(m: &mut Vec<(String, Vec<FileId>)>, key: String, id: FileId)
    requires
        id_map_wf(old(m)@),
    ensures
        id_map_wf(final(m)@),
        id_map_pairs(final(m)@) == id_map_pairs(old(m)@).insert((key@, id)),
{
    let ghost old_m = m@;
    let ghost keys = map_keys(m@);
    let mut k: usize = 0;
    while k < m.len() && str_less(m[k].0.as_str(), key.as_str())
        invariant
            old_m == m@,
            keys == map_keys(m@),
            id_map_wf(old_m),
            k <= m@.len(),
            forall|j: int| 0 <= j < k ==> seq_less(#[trigger] keys[j], key@),
        decreases m@.len() - k,
    {
        proof {
            assert(keys[k as int] == m@[k as int].0@);
        }
        k = k + 1;
    }
    if k < m.len() && str_equal(m[k].0.as_str(), key.as_str()) {
        let ghost old_entry = m@[k as int];
        let mut entry = m.remove(k);
        insert_id(&mut entry.1, id);
        m.insert(k, entry);
        proof {
            let nm = m@;
            assert(nm =~= old_m.update(k as int, entry));
            assert(map_keys(nm) =~= keys);
            assert forall|i: int| 0 <= i < nm.len() implies ids_sorted(#[trigger] nm[i].1@) && nm[i].1@.len() > 0 by {
                if i == k {
                    assert(entry.1@.to_set().contains(id));
                }
            }
            assert forall|p: (Seq<char>, FileId)| id_map_pairs(nm).contains(p) <==> id_map_pairs(old_m).insert((key@, id)).contains(p) by {
                if id_map_pairs(nm).contains(p) {
                    let i = choose|i: int| 0 <= i < nm.len() && (#[trigger] nm[i]).0@ == p.0 && nm[i].1@.contains(p.1);
                    if i == k {
                        assert(entry.1@.to_set().contains(p.1));
                        if p.1 != id {
                            assert(old_entry.1@.to_set().contains(p.1));
                            assert(old_m[i].1@.contains(p.1));
                        }
                    } else {
                        assert(old_m[i] == nm[i]);
                    }
                }
                if id_map_pairs(old_m).contains(p) {
                    let i = choose|i: int| 0 <= i < old_m.len() && (#[trigger] old_m[i]).0@ == p.0 && old_m[i].1@.contains(p.1);
                    if i == k {
                        assert(old_entry.1@.to_set().contains(p.1));
                        assert(entry.1@.to_set().contains(p.1));
                        assert(nm[i].1@.contains(p.1));
                    } else {
                        assert(nm[i] == old_m[i]);
                    }
                }
                if p == (key@, id) {
                    assert(entry.1@.to_set().contains(id));
                    assert(nm[k as int].1@.contains(id));
                    assert(nm[k as int].0@ == key@);
                }
            }
            assert(id_map_pairs(nm) =~= id_map_pairs(old_m).insert((key@, id)));
        }
        return;
    }
    proof {
        if k < m@.len() {
            assert(keys[k as int] == m@[k as int].0@);
            assert(!seq_less(keys[k as int], key@));
            assert(keys[k as int] != key@);
            lemma_seq_less_total(keys[k as int], key@);
        }
    }
    let mut ids: Vec<FileId> = Vec::new();
    ids.push(id);
    let ghost new_entry = (key, ids);
    m.insert(k, (key, ids));
    proof {
        let nm = m@;
        assert(nm =~= old_m.insert(k as int, new_entry));
        let nk = map_keys(nm);
        assert(nk =~= keys.insert(k as int, new_entry.0@));
        assert forall|i: int, j: int| 0 <= i < j < nk.len() implies seq_less(#[trigger] nk[i], #[trigger] nk[j]) by {
            if j < k {
                assert(nk[i] == keys[i] && nk[j] == keys[j]);
            } else if j == k {
                assert(nk[i] == keys[i]);
            } else if i < k {
                assert(nk[i] == keys[i] && nk[j] == keys[j - 1]);
                assert(seq_less(new_entry.0@, keys[k as int]));
                if j - 1 > k {
                    lemma_seq_less_transitive(new_entry.0@, keys[k as int], keys[j - 1]);
                }
                lemma_seq_less_transitive(keys[i], new_entry.0@, keys[j - 1]);
            } else if i == k {
                assert(nk[j] == keys[j - 1]);
                if j - 1 > k {
                    lemma_seq_less_transitive(new_entry.0@, keys[k as int], keys[j - 1]);
                }
            } else {
                assert(nk[i] == keys[i - 1] && nk[j] == keys[j - 1]);
            }
        }
        assert forall|i: int| 0 <= i < nm.len() implies ids_sorted(#[trigger] nm[i].1@) && nm[i].1@.len() > 0 by {
            if i < k {
                assert(nm[i] == old_m[i]);
            } else if i > k {
                assert(nm[i] == old_m[i - 1]);
            }
        }
        assert forall|p: (Seq<char>, FileId)| id_map_pairs(nm).contains(p) <==> id_map_pairs(old_m).insert((key@, id)).contains(p) by {
            if id_map_pairs(nm).contains(p) {
                let i = choose|i: int| 0 <= i < nm.len() && (#[trigger] nm[i]).0@ == p.0 && nm[i].1@.contains(p.1);
                if i < k {
                    assert(old_m[i] == nm[i]);
                } else if i > k {
                    assert(old_m[i - 1] == nm[i]);
                } else {
                    assert(nm[i].1@ =~= seq![id]);
                }
            }
            if id_map_pairs(old_m).contains(p) {
                let i = choose|i: int| 0 <= i < old_m.len() && (#[trigger] old_m[i]).0@ == p.0 && old_m[i].1@.contains(p.1);
                if i < k {
                    assert(nm[i] == old_m[i]);
                } else {
                    assert(nm[i + 1] == old_m[i]);
                }
            }
            if p == (key@, id) {
                assert(nm[k as int].1@[0] == id);
                assert(nm[k as int].0@ == key@);
            }
        }
        assert(id_map_pairs(nm) =~= id_map_pairs(old_m).insert((key@, id)));
    }
}

/// Adds `id` under each of `keys`.
pub fn insert_id_postings(m: &mut Vec<(String, Vec<FileId>)>, keys: Vec<String>, id: FileId)
    requires
        id_map_wf(old(m)@),
    ensures
        id_map_wf(final(m)@),
        id_map_pairs(final(m)@) == id_map_pairs(old(m)@).union(
            Set::new(|p: (Seq<char>, FileId)| string_views(keys@).contains(p.0) && p.1 == id),
        ),
{
    let ghost start = id_map_pairs(m@);
    let ghost kv = string_views(keys@);
    let mut keys = keys;
    let mut j: usize = 0;
    let ghost all = keys@;
    proof {
        assert(start.union(Set::new(|p: (Seq<char>, FileId)| kv.take(0).contains(p.0) && p.1 == id)) =~= start);
    }
    while j < keys.len()
        invariant
            keys@ == all,
            kv == string_views(all),
            j <= all.len(),
            id_map_wf(m@),
            id_map_pairs(m@) == start.union(
                Set::new(|p: (Seq<char>, FileId)| kv.take(j as int).contains(p.0) && p.1 == id),
            ),
        decreases all.len() - j,
    {
        let key = keys[j].clone();
        insert_id_posting(m, key, id);
        proof {
            assert(kv[j as int] == key@);
            assert(kv.take(j as int + 1) =~= kv.take(j as int).push(key@));
            assert forall|p: (Seq<char>, FileId)|
                id_map_pairs(m@).contains(p) <==> start.union(
                    Set::new(|p: (Seq<char>, FileId)| kv.take(j as int + 1).contains(p.0) && p.1 == id),
                ).contains(p) by {
                if kv.take(j as int + 1).contains(p.0) && p.0 != key@ {
                    let i = choose|i: int| 0 <= i < kv.take(j as int + 1).len() && #[trigger] kv.take(j as int + 1)[i] == p.0;
                    assert(i < j);
                    assert(kv.take(j as int)[i] == p.0);
                }
                if kv.take(j as int).contains(p.0) {
                    let i = choose|i: int| 0 <= i < kv.take(j as int).len() && #[trigger] kv.take(j as int)[i] == p.0;
                    assert(kv.take(j as int + 1)[i] == p.0);
                }
                if p.0 == key@ {
                    assert(kv.take(j as int + 1)[j as int] == key@);
                }
            }
            assert(id_map_pairs(m@) =~= start.union(
                Set::new(|p: (Seq<char>, FileId)| kv.take(j as int + 1).contains(p.0) && p.1 == id),
            ));
        }
        j = j + 1;
    }
    proof {
        assert(kv.take(j as int) =~= kv);
    }
}


/// The kinds of key that a name gives.
#[derive(Debug, Clone, Copy, PartialEq, Eq, Structural)]
pub enum NameKeys {
    /// The prefixes of the tokens of the normalized name.
    Prefixes,
    /// The windows of three characters of the normalized name.
    Grams,
}

/// The keys of `kind` that `name` gives.
pub open spec fn name_key_set(kind: NameKeys, name: Seq<char>) -> Set<Seq<char>> {
    match kind {
        NameKeys::Prefixes => prefix_key_set(name),
        NameKeys::Grams => gram_windows(normalized(name)).to_set(),
    }
}

/// The (key, id) pairs that the first `n` records give: each key of a
/// record's name, with the record's id.
pub open spec fn record_pairs(records: Seq<FileRecord>, n: int, kind: NameKeys) -> Set<(Seq<char>, FileId)> {
    Set::new(
        |p: (Seq<char>, FileId)|
            exists|a: int|
                0 <= a < n && #[trigger] name_key_set(kind, records[a].name@).contains(p.0) && p.1
                    == records[a].id,
    )
}

/// The keys of `kind` of a record name.
fn name_keys(kind: NameKeys, name: &str) -> (v: Vec<String>)
    ensures
        string_views(v@).to_set() == name_key_set(kind, name@),
{
    match kind {
        NameKeys::Prefixes => record_prefix_keys(name),
        NameKeys::Grams => {
            let normal = normalize(name);
            substring_grams(normal.as_str())
        },
    }
}

/// Builds the posting map of `records` for keys of `kind`.
fn id_postings_from_records(records: &Vec<FileRecord>, kind: NameKeys) -> (m: Vec<(String, Vec<FileId>)>)
    ensures
        id_map_wf(m@),
        id_map_pairs(m@) == record_pairs(records@, records@.len() as int, kind),
{
    let mut m: Vec<(String, Vec<FileId>)> = Vec::new();
    let mut a: usize = 0;
    proof {
        assert(id_map_pairs(m@) =~= record_pairs(records@, 0, kind));
    }
    while a < records.len()
        invariant
            a <= records@.len(),
            id_map_wf(m@),
            id_map_pairs(m@) == record_pairs(records@, a as int, kind),
        decreases records@.len() - a,
    {
        let record = &records[a];
        let ks = name_keys(kind, record.name.as_str());
        let ghost kset = string_views(ks@);
        let ghost before = id_map_pairs(m@);
        insert_id_postings(&mut m, ks, record.id);
        proof {
            assert forall|p: (Seq<char>, FileId)| id_map_pairs(m@).contains(p) <==> record_pairs(records@, a as int + 1, kind).contains(p) by {
                if record_pairs(records@, a as int + 1, kind).contains(p) {
                    let b = choose|b: int|
                        0 <= b < a + 1 && #[trigger] name_key_set(kind, records@[b].name@).contains(p.0) && p.1
                            == records@[b].id;
                    if b < a {
                        assert(record_pairs(records@, a as int, kind).contains(p));
                    } else {
                        assert(kset.to_set().contains(p.0));
                        assert(kset.contains(p.0));
                    }
                }
                if before.contains(p) {
                    let b = choose|b: int|
                        0 <= b < a && #[trigger] name_key_set(kind, records@[b].name@).contains(p.0) && p.1
                            == records@[b].id;
                    assert(0 <= b < a + 1);
                }
                if kset.contains(p.0) && p.1 == record.id {
                    assert(kset.to_set().contains(p.0));
                    assert(name_key_set(kind, records@[a as int].name@).contains(p.0));
                }
            }
            assert(id_map_pairs(m@) =~= record_pairs(records@, a as int + 1, kind));
        }
        a = a + 1;
    }
    m
}

/// A copy of a list of ids.
pub fn copy_ids(ids: &Vec<FileId>) -> (c: Vec<FileId>)
    ensures
        c@ == ids@,
{
    let mut c: Vec<FileId> = Vec::new();
    let mut i: usize = 0;
    while i < ids.len()
        invariant
            i <= ids@.len(),
            c@ == ids@.take(i as int),
        decreases ids@.len() - i,
    {
        c.push(ids[i]);
        proof {
            assert(c@ =~= ids@.take(i as int + 1));
        }
        i = i + 1;
    }
    proof {
        assert(ids@.take(i as int) =~= ids@);
    }
    c
}

/// The prefixes of the tokens of a normalized name.
pub open spec fn prefix_key_set(name: Seq<char>) -> Set<Seq<char>> {
    let toks = tokens(normalized(name));
    Set::new(
        |k: Seq<char>|
            exists|t: int, j: int|
                0 <= t < toks.len() && 0 <= j < token_prefix_list(toks[t]).len() && k
                    == #[trigger] token_prefix_list(toks[t])[j],
    )
}

/// The prefix keys of a record name.
fn record_prefix_keys(name: &str) -> (v: Vec<String>)
    ensures
        string_views(v@).to_set() == prefix_key_set(name@),
{
    let normal = normalize(name);
    let toks = tokenize(normal.as_str());
    let ghost tv = string_views(toks@);
    let mut v: Vec<String> = Vec::new();
    let mut t: usize = 0;
    proof {
        assert(string_views(v@).to_set() =~= Set::<Seq<char>>::empty());
    }
    while t < toks.len()
        invariant
            tv == string_views(toks@),
            tv == tokens(normalized(name@)),
            t <= tv.len(),
            string_views(v@).to_set() == Set::new(
                |k: Seq<char>|
                    exists|u: int, j: int|
                        0 <= u < t && 0 <= j < token_prefix_list(tv[u]).len() && k
                            == #[trigger] token_prefix_list(tv[u])[j],
            ),
        decreases tv.len() - t,
    {
        let mut ps = token_prefixes(toks[t].as_str());
        let ghost pv = string_views(ps@);
        let ghost before = string_views(v@);
        v.append(&mut ps);
        proof {
            assert(tv[t as int] == toks@[t as int]@);
            assert(string_views(v@) =~= before + pv);
            assert forall|k: Seq<char>|
                string_views(v@).to_set().contains(k) <==> (exists|u: int, j: int|
                    0 <= u < t + 1 && 0 <= j < token_prefix_list(tv[u]).len() && k
                        == #[trigger] token_prefix_list(tv[u])[j]) by {
                if string_views(v@).to_set().contains(k) {
                    let i = choose|i: int| 0 <= i < string_views(v@).len() && #[trigger] string_views(v@)[i] == k;
                    if i < before.len() {
                        assert(before[i] == k);
                        assert(before.to_set().contains(k));
                    } else {
                        assert(pv[i - before.len()] == k);
                        assert(k == token_prefix_list(tv[t as int])[i - before.len()]);
                    }
                }
                if exists|u: int, j: int|
                    0 <= u < t + 1 && 0 <= j < token_prefix_list(tv[u]).len() && k
                        == #[trigger] token_prefix_list(tv[u])[j] {
                    let (u, j) = choose|u: int, j: int|
                        0 <= u < t + 1 && 0 <= j < token_prefix_list(tv[u]).len() && k
                            == #[trigger] token_prefix_list(tv[u])[j];
                    if u < t {
                        assert(before.to_set().contains(k));
                        let i = choose|i: int| 0 <= i < before.len() && #[trigger] before[i] == k;
                        assert(string_views(v@)[i] == k);
                    } else {
                        assert(pv[j] == k);
                        assert(string_views(v@)[before.len() + j] == k);
                    }
                }
            }
            assert(string_views(v@).to_set() =~= Set::new(
                |k: Seq<char>|
                    exists|u: int, j: int|
                        0 <= u < t + 1 && 0 <= j < token_prefix_list(tv[u]).len() && k
                            == #[trigger] token_prefix_list(tv[u])[j],
            ));
        }
        t = t + 1;
    }
    proof {
        assert(string_views(v@).to_set() =~= prefix_key_set(name@));
    }
    v
}

/// One prefix and the files whose names have it.
#[derive(Debug, Clone, PartialEq, Eq)]
pub struct PrefixPosting {
    pub prefix: String,
    pub ids: Vec<FileId>,
}

/// A prefix posting, possibly cut short.
#[derive(Debug, Clone, PartialEq, Eq)]
pub struct LimitedPrefixPosting {
    pub posting: PrefixPosting,
    pub truncated: bool,
}

/// The plain values of prefix postings: each prefix with its ids.
pub open spec fn prefix_entries(ps: Seq<PrefixPosting>) -> Seq<(Seq<char>, Seq<FileId>)> {
    ps.map_values(|p: PrefixPosting| (p.prefix@, p.ids@))
}

/// The prefix postings of `records`: for every prefix (of at most 32
/// characters) of every token of every normalized name, the ids of the
/// records whose names give it; prefixes and ids sorted.
pub fn prefix_postings_from_records(records: &Vec<FileRecord>) -> (ps: Vec<PrefixPosting>)
    ensures
        id_entries_wf(prefix_entries(ps@)),
        id_entries_pairs(prefix_entries(ps@)) == record_pairs(
            records@,
            records@.len() as int,
            NameKeys::Prefixes,
        ),
{
    let m = id_postings_from_records(records, NameKeys::Prefixes);
    let ghost mv = entries_view(m@);
    proof {
        lemma_entries_view(m@);
    }
    let mut ps: Vec<PrefixPosting> = Vec::new();
    let mut m = m;
    let mut i: usize = 0;
    while i < m.len()
        invariant
            entries_view(m@) == mv,
            i <= mv.len(),
            prefix_entries(ps@) == mv.take(i as int),
        decreases mv.len() - i,
    {
        let prefix = m[i].0.clone();
        let ids = copy_ids(&m[i].1);
        let ghost before = prefix_entries(ps@);
        proof {
            assert(mv[i as int] == (m@[i as int].0@, m@[i as int].1@));
            assert(prefix@ == m@[i as int].0@);
        }
        let posting = PrefixPosting { prefix, ids };
        ps.push(posting);
        proof {
            assert(prefix_entries(ps@) =~= before.push((posting.prefix@, posting.ids@)));
            assert(prefix_entries(ps@) =~= mv.take(i as int + 1));
        }
        i = i + 1;
    }
    proof {
        assert(mv.take(i as int) =~= mv);
    }
    ps
}


/// One gram and the files whose names have it.
#[derive(Debug, Clone, PartialEq, Eq)]
pub struct SubstringPosting {
    pub gram: String,
    pub ids: Vec<FileId>,
}

/// A substring posting, possibly cut short.
#[derive(Debug, Clone, PartialEq, Eq)]
pub struct LimitedSubstringPosting {
    pub posting: SubstringPosting,
    pub truncated: bool,
}

/// The plain values of substring postings: each gram with its ids.
pub open spec fn substring_entries(ps: Seq<SubstringPosting>) -> Seq<(Seq<char>, Seq<FileId>)> {
    ps.map_values(|p: SubstringPosting| (p.gram@, p.ids@))
}

/// The substring postings of `records`: for every window of three
/// characters of every normalized name, the ids of the records whose names
/// have it; grams and ids sorted.
pub fn substring_postings_from_records(records: &Vec<FileRecord>) -> (ps: Vec<SubstringPosting>)
    ensures
        id_entries_wf(substring_entries(ps@)),
        id_entries_pairs(substring_entries(ps@)) == record_pairs(
            records@,
            records@.len() as int,
            NameKeys::Grams,
        ),
{
    let m = id_postings_from_records(records, NameKeys::Grams);
    let ghost mv = entries_view(m@);
    proof {
        lemma_entries_view(m@);
    }
    let mut ps: Vec<SubstringPosting> = Vec::new();
    let mut i: usize = 0;
    while i < m.len()
        invariant
            entries_view(m@) == mv,
            i <= mv.len(),
            substring_entries(ps@) == mv.take(i as int),
        decreases mv.len() - i,
    {
        let gram = m[i].0.clone();
        let ids = copy_ids(&m[i].1);
        let ghost before = substring_entries(ps@);
        proof {
            assert(mv[i as int] == (m@[i as int].0@, m@[i as int].1@));
            assert(gram@ == m@[i as int].0@);
        }
        let posting = SubstringPosting { gram, ids };
        ps.push(posting);
        proof {
            assert(substring_entries(ps@) =~= before.push((posting.gram@, posting.ids@)));
            assert(substring_entries(ps@) =~= mv.take(i as int + 1));
        }
        i = i + 1;
    }
    proof {
        assert(mv.take(i as int) =~= mv);
    }
    ps
}

/// One deletion key and the terms that give it.
#[derive(Debug, Clone, PartialEq, Eq)]
pub struct FuzzyPosting {
    pub key: String,
    pub terms: Vec<String>,
}

/// A fuzzy posting, possibly cut short.
#[derive(Debug, Clone, PartialEq, Eq)]
pub struct LimitedFuzzyPosting {
    pub posting: FuzzyPosting,
    pub truncated: bool,
}

/// The plain values of fuzzy postings: each key with its terms.
pub open spec fn fuzzy_entries(ps: Seq<FuzzyPosting>) -> Seq<(Seq<char>, Seq<Seq<char>>)> {
    ps.map_values(|p: FuzzyPosting| (p.key@, string_views(p.terms@)))
}

/// Fuzzy entries: keys strictly sorted, each with a nonempty, strictly
/// sorted list of terms.
pub open spec fn fuzzy_entries_wf(v: Seq<(Seq<char>, Seq<Seq<char>>)>) -> bool {
    &&& strictly_sorted(v.map_values(|e: (Seq<char>, Seq<Seq<char>>)| e.0))
    &&& forall|i: int| 0 <= i < v.len() ==> strictly_sorted(#[trigger] v[i].1) && v[i].1.len() > 0
}

/// The (key, term) pairs of fuzzy entries.
pub open spec fn fuzzy_entries_pairs(v: Seq<(Seq<char>, Seq<Seq<char>>)>) -> Set<(Seq<char>, Seq<char>)> {
    Set::new(
        |p: (Seq<char>, Seq<char>)|
            exists|i: int| 0 <= i < v.len() && (#[trigger] v[i]).0 == p.0 && v[i].1.contains(p.1),
    )
}

/// The terms of the first `n` records that the fuzzy archive indexes.
pub open spec fn fuzzy_terms_of(records: Seq<FileRecord>, n: int) -> Set<Seq<char>> {
    Set::new(
        |t: Seq<char>|
            fuzzy_term(t) && exists|a: int|
                0 <= a < n && #[trigger] tokens(normalized(records[a].name@)).contains(t),
    )
}

/// Adds `term` under `key` in a fuzzy posting list.
fn insert_term_posting(v: &mut Vec<FuzzyPosting>, key: String, term: String)
    requires
        fuzzy_entries_wf(fuzzy_entries(old(v)@)),
    ensures
        fuzzy_entries_wf(fuzzy_entries(final(v)@)),
        fuzzy_entries_pairs(fuzzy_entries(final(v)@)) == fuzzy_entries_pairs(fuzzy_entries(old(v)@)).insert(
            (key@, term@),
        ),
{
    let ghost old_v = fuzzy_entries(v@);
    let ghost keys = old_v.map_values(|e: (Seq<char>, Seq<Seq<char>>)| e.0);
    let mut k: usize = 0;
    while k < v.len() && str_less(v[k].key.as_str(), key.as_str())
        invariant
            old_v == fuzzy_entries(v@),
            keys == old_v.map_values(|e: (Seq<char>, Seq<Seq<char>>)| e.0),
            fuzzy_entries_wf(old_v),
            k <= v@.len(),
            forall|j: int| 0 <= j < k ==> seq_less(#[trigger] keys[j], key@),
        decreases v@.len() - k,
    {
        proof {
            assert(keys[k as int] == v@[k as int].key@);
        }
        k = k + 1;
    }
    if k < v.len() && str_equal(v[k].key.as_str(), key.as_str()) {
        let ghost ek = v@[k as int];
        proof {
            assert(old_v[k as int] == (ek.key@, string_views(ek.terms@)));
            assert(strictly_sorted(old_v[k as int].1));
        }
        let mut entry = v.remove(k);
        let ghost old_terms = string_views(entry.terms@);
        proof {
            assert(entry == ek);
            assert(strictly_sorted(old_terms));
        }
        insert_sorted_unique(&mut entry.terms, term);
        let ghost new_terms = string_views(entry.terms@);
        v.insert(k, entry);
        proof {
            let nv = fuzzy_entries(v@);
            assert(nv =~= old_v.update(k as int, (key@, new_terms)));
            assert(nv.map_values(|e: (Seq<char>, Seq<Seq<char>>)| e.0) =~= keys);
            assert forall|i: int| 0 <= i < nv.len() implies strictly_sorted(#[trigger] nv[i].1) && nv[i].1.len() > 0 by {
                if i == k {
                    assert(new_terms.to_set().contains(term@));
                }
            }
            assert forall|p: (Seq<char>, Seq<char>)|
                fuzzy_entries_pairs(nv).contains(p) <==> fuzzy_entries_pairs(old_v).insert((key@, term@)).contains(p) by {
                if fuzzy_entries_pairs(nv).contains(p) {
                    let i = choose|i: int| 0 <= i < nv.len() && (#[trigger] nv[i]).0 == p.0 && nv[i].1.contains(p.1);
                    if i == k {
                        assert(new_terms.to_set().contains(p.1));
                        if p.1 != term@ {
                            assert(old_terms.to_set().contains(p.1));
                        }
                    }
                }
                if fuzzy_entries_pairs(old_v).contains(p) {
                    let i = choose|i: int| 0 <= i < old_v.len() && (#[trigger] old_v[i]).0 == p.0 && old_v[i].1.contains(p.1);
                    if i == k {
                        assert(old_terms.to_set().contains(p.1));
                        assert(new_terms.to_set().contains(p.1));
                        assert(nv[i].1.contains(p.1));
                    } else {
                        assert(nv[i] == old_v[i]);
                    }
                }
                if p == (key@, term@) {
                    assert(new_terms.to_set().contains(term@));
                    assert(nv[k as int].1.contains(term@));
                }
            }
            assert(fuzzy_entries_pairs(nv) =~= fuzzy_entries_pairs(old_v).insert((key@, term@)));
        }
        return;
    }
    proof {
        if k < v@.len() {
            assert(keys[k as int] == v@[k as int].key@);
            lemma_seq_less_total(keys[k as int], key@);
        }
    }
    let mut terms: Vec<String> = Vec::new();
    let ghost tv = term@;
    terms.push(term);
    let posting = FuzzyPosting { key, terms };
    let ghost entry = (posting.key@, string_views(posting.terms@));
    v.insert(k, posting);
    proof {
        let nv = fuzzy_entries(v@);
        assert(string_views(posting.terms@) =~= seq![tv]);
        assert(nv =~= old_v.insert(k as int, entry));
        let nk = nv.map_values(|e: (Seq<char>, Seq<Seq<char>>)| e.0);
        assert(nk =~= keys.insert(k as int, entry.0));
        assert forall|i: int, j: int| 0 <= i < j < nk.len() implies seq_less(#[trigger] nk[i], #[trigger] nk[j]) by {
            if j < k {
                assert(nk[i] == keys[i] && nk[j] == keys[j]);
            } else if j == k {
                assert(nk[i] == keys[i]);
            } else if i < k {
                assert(nk[i] == keys[i] && nk[j] == keys[j - 1]);
                if j - 1 > k {
                    lemma_seq_less_transitive(entry.0, keys[k as int], keys[j - 1]);
                }
                lemma_seq_less_transitive(keys[i], entry.0, keys[j - 1]);
            } else if i == k {
                assert(nk[j] == keys[j - 1]);
                if j - 1 > k {
                    lemma_seq_less_transitive(entry.0, keys[k as int], keys[j - 1]);
                }
            } else {
                assert(nk[i] == keys[i - 1] && nk[j] == keys[j - 1]);
            }
        }
        assert forall|i: int| 0 <= i < nv.len() implies strictly_sorted(#[trigger] nv[i].1) && nv[i].1.len() > 0 by {
            if i < k {
                assert(nv[i] == old_v[i]);
            } else if i > k {
                assert(nv[i] == old_v[i - 1]);
            }
        }
        assert forall|p: (Seq<char>, Seq<char>)|
            fuzzy_entries_pairs(nv).contains(p) <==> fuzzy_entries_pairs(old_v).insert((entry.0, tv)).contains(p) by {
            if fuzzy_entries_pairs(nv).contains(p) {
                let i = choose|i: int| 0 <= i < nv.len() && (#[trigger] nv[i]).0 == p.0 && nv[i].1.contains(p.1);
                if i < k {
                    assert(old_v[i] == nv[i]);
                } else if i > k {
                    assert(old_v[i - 1] == nv[i]);
                }
            }
            if fuzzy_entries_pairs(old_v).contains(p) {
                let i = choose|i: int| 0 <= i < old_v.len() && (#[trigger] old_v[i]).0 == p.0 && old_v[i].1.contains(p.1);
                if i < k {
                    assert(nv[i] == old_v[i]);
                } else {
                    assert(nv[i + 1] == old_v[i]);
                }
            }
            if p == (entry.0, tv) {
                assert(nv[k as int].1[0] == tv);
            }
        }
        assert(fuzzy_entries_pairs(nv) =~= fuzzy_entries_pairs(old_v).insert((entry.0, tv)));
    }
}

/// The fuzzy postings of `records`: for every deletion key (at most two
/// deletions) of every indexable token of every normalized name, the terms
/// that give it; keys and terms sorted.
pub fn fuzzy_postings_from_records(records: &Vec<FileRecord>) -> (ps: Vec<FuzzyPosting>)
    ensures
        fuzzy_entries_wf(fuzzy_entries(ps@)),
        fuzzy_entries_pairs(fuzzy_entries(ps@)) == Set::new(
            |p: (Seq<char>, Seq<char>)|
                fuzzy_terms_of(records@, records@.len() as int).contains(p.1) && deletion_set(
                    p.1,
                    2,
                ).contains(p.0),
        ),
{
    let mut terms: Vec<String> = Vec::new();
    let mut a: usize = 0;
    proof {
        assert(string_views(terms@).to_set() =~= fuzzy_terms_of(records@, 0));
    }
    while a < records.len()
        invariant
            a <= records@.len(),
            strictly_sorted(string_views(terms@)),
            string_views(terms@).to_set() == fuzzy_terms_of(records@, a as int),
        decreases records@.len() - a,
    {
        let normal = normalize(records[a].name.as_str());
        let toks = tokenize(normal.as_str());
        let ghost tv = string_views(toks@);
        let ghost start = string_views(terms@).to_set();
        let mut t: usize = 0;
        while t < toks.len()
            invariant
                tv == string_views(toks@),
                tv == tokens(normalized(records@[a as int].name@)),
                t <= tv.len(),
                strictly_sorted(string_views(terms@)),
                string_views(terms@).to_set() == start.union(
                    Set::new(|x: Seq<char>| fuzzy_term(x) && tv.take(t as int).contains(x)),
                ),
            decreases tv.len() - t,
        {
            proof {
                assert(tv[t as int] == toks@[t as int]@);
                assert(tv.take(t as int + 1) =~= tv.take(t as int).push(tv[t as int]));
            }
            if is_fuzzy_term(toks[t].as_str()) {
                let tok = toks[t].clone();
                insert_sorted_unique(&mut terms, tok);
            }
            proof {
                assert forall|x: Seq<char>|
                    (fuzzy_term(x) && tv.take(t as int + 1).contains(x)) <==> ((fuzzy_term(x)
                        && tv.take(t as int).contains(x)) || (fuzzy_term(x) && x == tv[t as int])) by {
                    if tv.take(t as int + 1).contains(x) && x != tv[t as int] {
                        let i = choose|i: int| 0 <= i < tv.take(t as int + 1).len() && #[trigger] tv.take(t as int + 1)[i] == x;
                        assert(tv.take(t as int)[i] == x);
                    }
                    if tv.take(t as int).contains(x) {
                        let i = choose|i: int| 0 <= i < tv.take(t as int).len() && #[trigger] tv.take(t as int)[i] == x;
                        assert(tv.take(t as int + 1)[i] == x);
                    }
                    if x == tv[t as int] {
                        assert(tv.take(t as int + 1)[t as int] == x);
                    }
                }
                assert(string_views(terms@).to_set() =~= start.union(
                    Set::new(|x: Seq<char>| fuzzy_term(x) && tv.take(t as int + 1).contains(x)),
                ));
            }
            t = t + 1;
        }
        proof {
            assert(tv.take(t as int) =~= tv);
            assert forall|x: Seq<char>|
                string_views(terms@).to_set().contains(x) <==> fuzzy_terms_of(records@, a as int + 1).contains(x) by {
                if fuzzy_terms_of(records@, a as int + 1).contains(x) {
                    let b = choose|b: int| 0 <= b < a + 1 && #[trigger] tokens(normalized(records@[b].name@)).contains(x);
                    if b < a {
                        assert(fuzzy_terms_of(records@, a as int).contains(x));
                    }
                }
                if start.contains(x) {
                    let b = choose|b: int| 0 <= b < a && #[trigger] tokens(normalized(records@[b].name@)).contains(x);
                    assert(0 <= b < a + 1);
                }
            }
            assert(string_views(terms@).to_set() =~= fuzzy_terms_of(records@, a as int + 1));
        }
        a = a + 1;
    }
    let ghost all_terms = string_views(terms@);
    let mut ps: Vec<FuzzyPosting> = Vec::new();
    let mut i: usize = 0;
    proof {
        assert forall|j: int| 0 <= j < all_terms.len() implies fuzzy_term(#[trigger] all_terms[j]) by {
            assert(all_terms.to_set().contains(all_terms[j]));
            assert(fuzzy_terms_of(records@, records@.len() as int).contains(all_terms[j]));
        }
        assert(fuzzy_entries_pairs(fuzzy_entries(ps@)) =~= Set::<(Seq<char>, Seq<char>)>::empty());
        assert(Set::new(
            |p: (Seq<char>, Seq<char>)| all_terms.take(0).contains(p.1) && deletion_set(p.1, 2).contains(p.0),
        ) =~= Set::<(Seq<char>, Seq<char>)>::empty());
    }
    while i < terms.len()
        invariant
            all_terms == string_views(terms@),
            i <= all_terms.len(),
            fuzzy_entries_wf(fuzzy_entries(ps@)),
            fuzzy_entries_pairs(fuzzy_entries(ps@)) == Set::new(
                |p: (Seq<char>, Seq<char>)|
                    all_terms.take(i as int).contains(p.1) && deletion_set(p.1, 2).contains(p.0),
            ),
            forall|j: int| 0 <= j < all_terms.len() ==> fuzzy_term(#[trigger] all_terms[j]),
        decreases all_terms.len() - i,
    {
        let term = &terms[i];
        proof {
            assert(all_terms[i as int] == term@);
        }
        let keys = deletion_keys(term.as_str(), 2);
        let ghost kv = string_views(keys@);
        let ghost start = fuzzy_entries_pairs(fuzzy_entries(ps@));
        let mut j: usize = 0;
        proof {
            assert(start.union(Set::new(|p: (Seq<char>, Seq<char>)| kv.take(0).contains(p.0) && p.1 == term@)) =~= start);
        }
        while j < keys.len()
            invariant
                kv == string_views(keys@),
                j <= kv.len(),
                fuzzy_entries_wf(fuzzy_entries(ps@)),
                fuzzy_entries_pairs(fuzzy_entries(ps@)) == start.union(
                    Set::new(|p: (Seq<char>, Seq<char>)| kv.take(j as int).contains(p.0) && p.1 == term@),
                ),
            decreases kv.len() - j,
        {
            let key = keys[j].clone();
            let tc = term.clone();
            proof {
                assert(tc@ == term@);
            }
            let ghost pairs_before = fuzzy_entries_pairs(fuzzy_entries(ps@));
            let ghost kview = key@;
            insert_term_posting(&mut ps, key, tc);
            proof {
                assert(fuzzy_entries_pairs(fuzzy_entries(ps@)) == pairs_before.insert((kview, term@)));
                assert(kv[j as int] == kview);
                let s0 = Set::new(|p: (Seq<char>, Seq<char>)| kv.take(j as int).contains(p.0) && p.1 == term@);
                let s1 = Set::new(|p: (Seq<char>, Seq<char>)| kv.take(j as int + 1).contains(p.0) && p.1 == term@);
                assert(pairs_before == start.union(s0));
                assert forall|p: (Seq<char>, Seq<char>)|
                    fuzzy_entries_pairs(fuzzy_entries(ps@)).contains(p) <==> start.union(s1).contains(p) by {
                    if kv.take(j as int + 1).contains(p.0) && p.0 != kview {
                        let x = choose|x: int| 0 <= x < kv.take(j as int + 1).len() && #[trigger] kv.take(j as int + 1)[x] == p.0;
                        assert(kv.take(j as int)[x] == p.0);
                    }
                    if kv.take(j as int).contains(p.0) {
                        let x = choose|x: int| 0 <= x < kv.take(j as int).len() && #[trigger] kv.take(j as int)[x] == p.0;
                        assert(kv.take(j as int + 1)[x] == p.0);
                    }
                    if p.0 == kview {
                        assert(kv.take(j as int + 1)[j as int] == kview);
                    }
                    assert(s1.contains(p) <==> (s0.contains(p) || p == (kview, term@)));
                }
                assert(fuzzy_entries_pairs(fuzzy_entries(ps@)) =~= start.union(
                    Set::new(|p: (Seq<char>, Seq<char>)| kv.take(j as int + 1).contains(p.0) && p.1 == term@),
                ));
            }
            j = j + 1;
        }
        proof {
            assert(kv.take(j as int) =~= kv);
            assert(kv.to_set() == deletion_set(term@, 2));
            assert forall|p: (Seq<char>, Seq<char>)|
                fuzzy_entries_pairs(fuzzy_entries(ps@)).contains(p) <==> (all_terms.take(i as int + 1).contains(p.1)
                    && deletion_set(p.1, 2).contains(p.0)) by {
                if all_terms.take(i as int + 1).contains(p.1) && p.1 != term@ {
                    let x = choose|x: int| 0 <= x < all_terms.take(i as int + 1).len() && #[trigger] all_terms.take(i as int + 1)[x] == p.1;
                    assert(all_terms.take(i as int)[x] == p.1);
                }
                if all_terms.take(i as int).contains(p.1) {
                    let x = choose|x: int| 0 <= x < all_terms.take(i as int).len() && #[trigger] all_terms.take(i as int)[x] == p.1;
                    assert(all_terms.take(i as int + 1)[x] == p.1);
                }
                if p.1 == term@ {
                    assert(all_terms.take(i as int + 1)[i as int] == term@);
                    if deletion_set(p.1, 2).contains(p.0) {
                        assert(kv.to_set().contains(p.0));
                    }
                    if kv.contains(p.0) {
                        assert(kv.to_set().contains(p.0));
                    }
                }
            }
            assert(fuzzy_entries_pairs(fuzzy_entries(ps@)) =~= Set::new(
                |p: (Seq<char>, Seq<char>)|
                    all_terms.take(i as int + 1).contains(p.1) && deletion_set(p.1, 2).contains(p.0),
            ));
        }
        i = i + 1;
    }
    proof {
        assert(all_terms.take(i as int) =~= all_terms);
        assert forall|p: (Seq<char>, Seq<char>)|
            (all_terms.contains(p.1) && deletion_set(p.1, 2).contains(p.0)) <==> (fuzzy_terms_of(
                records@,
                records@.len() as int,
            ).contains(p.1) && deletion_set(p.1, 2).contains(p.0)) by {
            if all_terms.contains(p.1) {
                assert(all_terms.to_set().contains(p.1));
            }
            if fuzzy_terms_of(records@, records@.len() as int).contains(p.1) {
                assert(all_terms.to_set().contains(p.1));
            }
        }
        assert(fuzzy_entries_pairs(fuzzy_entries(ps@)) =~= Set::new(
            |p: (Seq<char>, Seq<char>)|
                fuzzy_terms_of(records@, records@.len() as int).contains(p.1) && deletion_set(
                    p.1,
                    2,
                ).contains(p.0),
        ));
    }
    ps
}

} // verus!
