use vstd::prelude::*;

use crate::order::{insert_sorted_unique, lemma_seq_less_irreflexive, strictly_sorted, string_views};
use crate::paths::{
    ancestors, components, extension, parent, path_ancestor_list, path_component_list,
    path_extension, path_parent,
};
use crate::terms::{lower_normalized, normalize_lower, tokenize, tokens};
use crate::text::{opt_chars, str_equal};
use crate::types::{FileKind, FileRecord};

verus! {

/// The terms of the dictionary, and how many distinct terms each class
/// holds.
#[derive(Debug, Clone, PartialEq, Eq)]
pub struct DictionaryTermReport {
    pub terms: Vec<String>,
    pub paths: usize,
    pub path_prefixes: usize,
    pub extensions: usize,
    pub tags: usize,
    pub kinds: usize,
    pub metadata_keys: usize,
    pub comment_tokens: usize,
}

/// The field names that every dictionary holds.
pub open spec fn metadata_key_values() -> Seq<Seq<char>> {
    seq![
        "field:comment"@,
        "field:extension"@,
        "field:kind"@,
        "field:path"@,
        "field:path-prefix"@,
        "field:tag"@,
    ]
}

/// The dictionary term of a kind.
pub open spec fn kind_term_text(kind: FileKind) -> Seq<char> {
    match kind {
        FileKind::Directory => "kind:directory"@,
        FileKind::File => "kind:file"@,
        FileKind::Symlink => "kind:symlink"@,
        FileKind::Other => "kind:other"@,
    }
}

/// The value an option holds, as a sequence of none or one.
pub open spec fn option_values(o: Option<Seq<char>>) -> Seq<Seq<char>> {
    match o {
        Some(v) => seq![v],
        None => Seq::empty(),
    }
}

/// The path values of a record: its path, then its parent's, if any.
pub open spec fn record_path_values(r: FileRecord) -> Seq<Seq<char>> {
    seq![r.path@] + option_values(path_parent(r.path@))
}

/// The kind value of a record.
pub open spec fn record_kind_values(r: FileRecord) -> Seq<Seq<char>> {
    seq![kind_term_text(r.kind)]
}

/// The extension of a record's path, if it has one.
pub open spec fn record_extension_values(r: FileRecord) -> Seq<Seq<char>> {
    option_values(path_extension(r.path@))
}

/// The tags of a record.
pub open spec fn record_tag_values(r: FileRecord) -> Seq<Seq<char>> {
    string_views(r.tags@)
}

/// The tokens of a record's normalized comment.
pub open spec fn record_comment_values(r: FileRecord) -> Seq<Seq<char>> {
    match r.finder_comment {
        Some(c) => tokens(lower_normalized(c@)),
        None => Seq::empty(),
    }
}

/// The name of a record and the components of its path: terms that no
/// class counts.
pub open spec fn record_plain_values(r: FileRecord) -> Seq<Seq<char>> {
    seq![r.name@] + path_component_list(r.path@)
}

/// The classes of raw values that a record gives the dictionary.
#[derive(Debug, Clone, Copy, PartialEq, Eq, Structural)]
pub enum ValueClass {
    Path,
    Kind,
    Extension,
    Tag,
    Comment,
    Plain,
}

/// The raw values of class `c` of a record.
pub open spec fn record_values(c: ValueClass, r: FileRecord) -> Seq<Seq<char>> {
    match c {
        ValueClass::Path => record_path_values(r),
        ValueClass::Kind => record_kind_values(r),
        ValueClass::Extension => record_extension_values(r),
        ValueClass::Tag => record_tag_values(r),
        ValueClass::Comment => record_comment_values(r),
        ValueClass::Plain => record_plain_values(r),
    }
}

/// The raw values of class `c` of the first `k` records, in order.
pub open spec fn values_upto(c: ValueClass, records: Seq<FileRecord>, k: int) -> Seq<Seq<char>>
    decreases k,
{
    if k <= 0 {
        Seq::empty()
    } else {
        values_upto(c, records, k - 1) + record_values(c, records[k - 1])
    }
}

/// The terms that raw values give: each trimmed and in lower case, the
/// empty one left out.
pub open spec fn norm_terms(vals: Seq<Seq<char>>) -> Set<Seq<char>> {
    Set::new(
        |t: Seq<char>|
            t.len() > 0 && exists|i: int| 0 <= i < vals.len() && t == lower_normalized(#[trigger] vals[i]),
    )
}

/// The terms of one class over all records.
pub open spec fn class_terms(c: ValueClass, records: Seq<FileRecord>) -> Set<Seq<char>> {
    norm_terms(values_upto(c, records, records.len() as int))
}

/// Whether `t` is a path prefix term: not empty, not the root, not `.`.
pub open spec fn is_prefix_term(t: Seq<char>) -> bool {
    t.len() > 0 && t != "/"@ && t != "."@
}

/// The prefix terms among the normalized forms of the first `k` of
/// `ancestors`.
pub open spec fn ancestor_prefixes(ancestors: Seq<Seq<char>>, k: int) -> Set<Seq<char>> {
    Set::new(
        |t: Seq<char>|
            is_prefix_term(t) && exists|i: int| 0 <= i < k && t == lower_normalized(#[trigger] ancestors[i]),
    )
}

/// The path prefixes of a record: the normalized ancestors of its parent
/// that are prefix terms.
pub open spec fn record_prefixes(r: FileRecord) -> Set<Seq<char>> {
    match path_parent(r.path@) {
        Some(par) => ancestor_prefixes(path_ancestor_list(par), path_ancestor_list(par).len() as int),
        None => Set::empty(),
    }
}

/// The prefixes that one of the first `k` records has.
pub open spec fn seen_prefixes(records: Seq<FileRecord>, k: int) -> Set<Seq<char>> {
    Set::new(|p: Seq<char>| exists|a: int| 0 <= a < k && #[trigger] record_prefixes(records[a]).contains(p))
}

/// The prefixes that two of the first `k` records have.
pub open spec fn shared_prefixes_upto(records: Seq<FileRecord>, k: int) -> Set<Seq<char>> {
    Set::new(
        |p: Seq<char>|
            exists|a: int, b: int|
                0 <= a < b < k && #[trigger] record_prefixes(records[a]).contains(p)
                    && #[trigger] record_prefixes(records[b]).contains(p),
    )
}

/// The path prefixes that more than one record has.
pub open spec fn shared_prefixes(records: Seq<FileRecord>) -> Set<Seq<char>> {
    shared_prefixes_upto(records, records.len() as int)
}

/// The path terms: paths and parents, and the shared prefixes.
pub open spec fn path_terms(records: Seq<FileRecord>) -> Set<Seq<char>> {
    class_terms(ValueClass::Path, records) + shared_prefixes(records)
}

/// Every term of the dictionary of `records`.
pub open spec fn dictionary_terms(records: Seq<FileRecord>) -> Set<Seq<char>> {
    norm_terms(metadata_key_values()) + class_terms(ValueClass::Kind, records) + path_terms(records)
        + class_terms(ValueClass::Extension, records) + class_terms(ValueClass::Tag, records)
        + class_terms(ValueClass::Comment, records) + class_terms(ValueClass::Plain, records)
}

proof fn lemma_norm_terms_push(vals: Seq<Seq<char>>, v: Seq<char>)
    ensures
        norm_terms(vals.push(v)) == (if lower_normalized(v).len() > 0 {
            norm_terms(vals).insert(lower_normalized(v))
        } else {
            norm_terms(vals)
        }),
{
    let n = vals.push(v);
    assert forall|t: Seq<char>| norm_terms(n).contains(t) implies norm_terms(vals).contains(t) || (t
        == lower_normalized(v) && t.len() > 0) by {
        let i = choose|i: int| 0 <= i < n.len() && t == lower_normalized(#[trigger] n[i]);
        if i < vals.len() {
            assert(n[i] == vals[i]);
        }
    }
    assert forall|t: Seq<char>| norm_terms(vals).contains(t) implies norm_terms(n).contains(t) by {
        let i = choose|i: int| 0 <= i < vals.len() && t == lower_normalized(#[trigger] vals[i]);
        assert(n[i] == vals[i]);
    }
    if lower_normalized(v).len() > 0 {
        assert(n[vals.len() as int] == v);
        assert(norm_terms(n) =~= norm_terms(vals).insert(lower_normalized(v)));
    } else {
        assert(norm_terms(n) =~= norm_terms(vals));
    }
}

proof fn lemma_norm_terms_concat(a: Seq<Seq<char>>, b: Seq<Seq<char>>)
    ensures
        norm_terms(a + b) == norm_terms(a) + norm_terms(b),
{
    let n = a + b;
    assert forall|t: Seq<char>| norm_terms(n).contains(t) implies (norm_terms(a) + norm_terms(b)).contains(t) by {
        let i = choose|i: int| 0 <= i < n.len() && t == lower_normalized(#[trigger] n[i]);
        if i < a.len() {
            assert(n[i] == a[i]);
        } else {
            assert(n[i] == b[i - a.len()]);
        }
    }
    assert forall|t: Seq<char>| (norm_terms(a) + norm_terms(b)).contains(t) implies norm_terms(n).contains(t) by {
        if norm_terms(a).contains(t) {
            let i = choose|i: int| 0 <= i < a.len() && t == lower_normalized(#[trigger] a[i]);
            assert(n[i] == a[i]);
        } else {
            let i = choose|i: int| 0 <= i < b.len() && t == lower_normalized(#[trigger] b[i]);
            assert(n[i + a.len()] == b[i]);
        }
    }
    assert(norm_terms(n) =~= norm_terms(a) + norm_terms(b));
}

proof fn lemma_norm_terms_empty()
    ensures
        norm_terms(Seq::empty()) == Set::<Seq<char>>::empty(),
{
    assert(norm_terms(Seq::empty()) =~= Set::<Seq<char>>::empty());
}

proof fn lemma_values_step(c: ValueClass, records: Seq<FileRecord>, k: int)
    requires
        0 <= k,
    ensures
        norm_terms(values_upto(c, records, k + 1)) == norm_terms(values_upto(c, records, k)) + norm_terms(
            record_values(c, records[k]),
        ),
{
    lemma_norm_terms_concat(values_upto(c, records, k), record_values(c, records[k]));
}

/// A strictly sorted sequence has as many distinct elements as it has
/// elements.
proof fn lemma_sorted_set_len(s: Seq<Seq<char>>)
    requires
        strictly_sorted(s),
    ensures
        s.to_set().len() == s.len(),
{
    assert forall|i: int, j: int| 0 <= i < s.len() && 0 <= j < s.len() && i != j implies s[i] != s[j] by {
        lemma_seq_less_irreflexive(s[i]);
        if i < j {
            assert(crate::order::seq_less(s[i], s[j]));
        } else {
            assert(crate::order::seq_less(s[j], s[i]));
        }
    }
    assert(s.no_duplicates());
    s.unique_seq_to_set();
}

/// Adds the normalized, nonempty forms of `vals` to the sorted set `set`.
fn insert_norm_each(set: &mut Vec<String>, vals: &Vec<String>)
    requires
        strictly_sorted(string_views(old(set)@)),
    ensures
        strictly_sorted(string_views(final(set)@)),
        string_views(final(set)@).to_set() == string_views(old(set)@).to_set() + norm_terms(
            string_views(vals@),
        ),
{
    let ghost start = string_views(set@).to_set();
    let ghost vv = string_views(vals@);
    let mut i: usize = 0;
    proof {
        assert(vv.take(0) =~= Seq::<Seq<char>>::empty());
        lemma_norm_terms_empty();
        assert(start + norm_terms(vv.take(0)) =~= start);
    }
    while i < vals.len()
        invariant
            vv == string_views(vals@),
            i <= vv.len(),
            strictly_sorted(string_views(set@)),
            string_views(set@).to_set() == start + norm_terms(vv.take(i as int)),
        decreases vv.len() - i,
    {
        let t = normalize_lower(vals[i].as_str());
        proof {
            assert(vv[i as int] == vals@[i as int]@);
            assert(vv.take(i as int + 1) =~= vv.take(i as int).push(vv[i as int]));
            lemma_norm_terms_push(vv.take(i as int), vv[i as int]);
        }
        if t.unicode_len() > 0 {
            insert_sorted_unique(set, t);
            proof {
                assert(string_views(set@).to_set() =~= start + norm_terms(vv.take(i as int + 1)));
            }
        }
        i = i + 1;
    }
    proof {
        assert(vv.take(i as int) =~= vv);
    }
}

/// Adds each of `vals` as it is to the sorted set `set`.
fn insert_each(set: &mut Vec<String>, vals: &Vec<String>)
    requires
        strictly_sorted(string_views(old(set)@)),
    ensures
        strictly_sorted(string_views(final(set)@)),
        string_views(final(set)@).to_set() == string_views(old(set)@).to_set() + string_views(vals@).to_set(),
{
    let ghost start = string_views(set@).to_set();
    let ghost vv = string_views(vals@);
    let mut i: usize = 0;
    proof {
        assert(start + vv.take(0).to_set() =~= start);
    }
    while i < vals.len()
        invariant
            vv == string_views(vals@),
            i <= vv.len(),
            strictly_sorted(string_views(set@)),
            string_views(set@).to_set() == start + vv.take(i as int).to_set(),
        decreases vv.len() - i,
    {
        let t = vals[i].clone();
        proof {
            assert(vv[i as int] == t@);
            assert(vv.take(i as int + 1) =~= vv.take(i as int).push(t@));
            crate::terms::lemma_push_to_set(vv.take(i as int), t@);
        }
        insert_sorted_unique(set, t);
        proof {
            assert(string_views(set@).to_set() =~= start + vv.take(i as int + 1).to_set());
        }
        i = i + 1;
    }
    proof {
        assert(vv.take(i as int) =~= vv);
    }
}

/// Whether the sorted set `v` holds `x`.
fn holds(v: &Vec<String>, x: &str) -> (b: bool)
    ensures
        b == string_views(v@).contains(x@),
{
    let mut i: usize = 0;
    while i < v.len()
        invariant
            i <= v@.len(),
            forall|j: int| 0 <= j < i ==> v@[j]@ != x@,
        decreases v@.len() - i,
    {
        if str_equal(v[i].as_str(), x) {
            proof {
                assert(string_views(v@)[i as int] == x@);
            }
            return true;
        }
        i = i + 1;
    }
    proof {
        if string_views(v@).contains(x@) {
            let j = choose|j: int| 0 <= j < string_views(v@).len() && string_views(v@)[j] == x@;
            assert(v@[j]@ == x@);
        }
    }
    false
}

/// The dictionary term of a kind.
fn kind_term(kind: FileKind) -> (s: String)
    ensures
        s@ == kind_term_text(kind),
{
    match kind {
        FileKind::Directory => String::from_str("kind:directory"),
        FileKind::File => String::from_str("kind:file"),
        FileKind::Symlink => String::from_str("kind:symlink"),
        FileKind::Other => String::from_str("kind:other"),
    }
}

/// The strings of an option, as a vector of none or one.
fn option_vec(o: Option<String>) -> (v: Vec<String>)
    ensures
        string_views(v@) == option_values(opt_chars(o)),
{
    let mut v: Vec<String> = Vec::new();
    match o {
        Some(s) => {
            v.push(s);
            proof {
                assert(string_views(v@) =~= option_values(opt_chars(o)));
            }
        },
        None => {
            proof {
                assert(string_views(v@) =~= option_values(opt_chars(o)));
            }
        },
    }
    v
}

/// The field names every dictionary holds.
fn metadata_keys() -> (v: Vec<String>)
    ensures
        string_views(v@) == metadata_key_values(),
{
    let mut v: Vec<String> = Vec::new();
    v.push(String::from_str("field:comment"));
    v.push(String::from_str("field:extension"));
    v.push(String::from_str("field:kind"));
    v.push(String::from_str("field:path"));
    v.push(String::from_str("field:path-prefix"));
    v.push(String::from_str("field:tag"));
    proof {
        assert(string_views(v@) =~= metadata_key_values());
    }
    v
}

/// The path prefixes of a record, sorted.
fn prefixes_of(r: &FileRecord) -> (v: Vec<String>)
    ensures
        strictly_sorted(string_views(v@)),
        string_views(v@).to_set() == record_prefixes(*r),
{
    let mut v: Vec<String> = Vec::new();
    match parent(r.path.as_str()) {
        None => {
            proof {
                assert(string_views(v@).to_set() =~= record_prefixes(*r));
            }
            v
        },
        Some(par) => {
            let anc = ancestors(par.as_str());
            let ghost av = path_ancestor_list(par@);
            let mut i: usize = 0;
            proof {
                assert(string_views(v@).to_set() =~= ancestor_prefixes(av, 0));
            }
            while i < anc.len()
                invariant
                    string_views(anc@) == av,
                    i <= av.len(),
                    strictly_sorted(string_views(v@)),
                    string_views(v@).to_set() == ancestor_prefixes(av, i as int),
                decreases av.len() - i,
            {
                let t = normalize_lower(anc[i].as_str());
                proof {
                    assert(av[i as int] == anc@[i as int]@);
                }
                let keep = t.unicode_len() > 0 && !str_equal(t.as_str(), "/") && !str_equal(t.as_str(), ".");
                let ghost tv = t@;
                if keep {
                    insert_sorted_unique(&mut v, t);
                }
                proof {
                    assert forall|x: Seq<char>| ancestor_prefixes(av, i as int + 1).contains(x) <==> string_views(v@).to_set().contains(x) by {
                        if ancestor_prefixes(av, i as int + 1).contains(x) {
                            let j = choose|j: int| 0 <= j < i + 1 && x == lower_normalized(#[trigger] av[j]);
                            if j < i {
                                assert(ancestor_prefixes(av, i as int).contains(x));
                            }
                        }
                        if ancestor_prefixes(av, i as int).contains(x) {
                            let j = choose|j: int| 0 <= j < i && x == lower_normalized(#[trigger] av[j]);
                            assert(0 <= j < i + 1);
                        }
                    }
                    assert(string_views(v@).to_set() =~= ancestor_prefixes(av, i as int + 1));
                }
                i = i + 1;
            }
            proof {
                assert(string_views(v@).to_set() =~= record_prefixes(*r));
            }
            v
        },
    }
}


/// Copies `src` to the end of `dst`.
fn append_strings(dst: &mut Vec<String>, src: Vec<String>)
    ensures
        string_views(final(dst)@) == string_views(old(dst)@) + string_views(src@),
{
    let ghost start = string_views(dst@);
    let mut i: usize = 0;
    while i < src.len()
        invariant
            i <= src@.len(),
            string_views(dst@) == start + string_views(src@).take(i as int),
        decreases src@.len() - i,
    {
        let x = src[i].clone();
        let ghost before = string_views(dst@);
        let ghost xv = x@;
        proof {
            assert(xv == string_views(src@)[i as int]);
        }
        dst.push(x);
        proof {
            assert(string_views(dst@) =~= before.push(xv));
            assert(string_views(src@).take(i as int + 1) =~= string_views(src@).take(i as int).push(xv));
            assert(string_views(dst@) =~= start + string_views(src@).take(i as int + 1));
        }
        i = i + 1;
    }
    proof {
        assert(string_views(src@).take(i as int) =~= string_views(src@));
    }
}

/// The raw values of class `c` of a record.
fn values_of(c: ValueClass, r: &FileRecord) -> (v: Vec<String>)
    ensures
        string_views(v@) == record_values(c, *r),
{
    let mut v: Vec<String> = Vec::new();
    match c {
        ValueClass::Path => {
            v.push(r.path.clone());
            append_strings(&mut v, option_vec(parent(r.path.as_str())));
            proof {
                assert(string_views(v@) =~= record_path_values(*r));
            }
        },
        ValueClass::Kind => {
            v.push(kind_term(r.kind));
            proof {
                assert(string_views(v@) =~= record_kind_values(*r));
            }
        },
        ValueClass::Extension => {
            append_strings(&mut v, option_vec(extension(r.path.as_str())));
            proof {
                assert(string_views(v@) =~= record_extension_values(*r));
            }
        },
        ValueClass::Tag => {
            let mut i: usize = 0;
            while i < r.tags.len()
                invariant
                    i <= r.tags@.len(),
                    string_views(v@) == string_views(r.tags@).take(i as int),
                decreases r.tags@.len() - i,
            {
                let t = r.tags[i].clone();
                let ghost before = string_views(v@);
                let ghost tv = t@;
                proof {
                    assert(tv == string_views(r.tags@)[i as int]);
                }
                v.push(t);
                proof {
                    assert(string_views(v@) =~= before.push(tv));
                    assert(string_views(r.tags@).take(i as int + 1) =~= string_views(r.tags@).take(i as int).push(tv));
                    assert(string_views(v@) =~= string_views(r.tags@).take(i as int + 1));
                }
                i = i + 1;
            }
            proof {
                assert(string_views(r.tags@).take(i as int) =~= record_tag_values(*r));
            }
        },
        ValueClass::Comment => {
            match &r.finder_comment {
                Some(comment) => {
                    let n = normalize_lower(comment.as_str());
                    append_strings(&mut v, tokenize(n.as_str()));
                    proof {
                        assert(string_views(v@) =~= record_comment_values(*r));
                    }
                },
                None => {
                    proof {
                        assert(string_views(v@) =~= record_comment_values(*r));
                    }
                },
            }
        },
        ValueClass::Plain => {
            v.push(r.name.clone());
            append_strings(&mut v, components(r.path.as_str()));
            proof {
                assert(string_views(v@) =~= record_plain_values(*r));
            }
        },
    }
    v
}

/// Notes the prefixes `rp` of one more record: those seen before become
/// shared, the others seen.
fn note_prefixes(seen: &mut Vec<String>, shared: &mut Vec<String>, rp: &Vec<String>)
    requires
        strictly_sorted(string_views(old(seen)@)),
        strictly_sorted(string_views(old(shared)@)),
        strictly_sorted(string_views(rp@)),
    ensures
        strictly_sorted(string_views(final(seen)@)),
        strictly_sorted(string_views(final(shared)@)),
        string_views(final(seen)@).to_set() == string_views(old(seen)@).to_set() + string_views(rp@).to_set(),
        string_views(final(shared)@).to_set() == string_views(old(shared)@).to_set() + string_views(
            rp@,
        ).to_set().intersect(string_views(old(seen)@).to_set()),
{
    let ghost seen0 = string_views(seen@).to_set();
    let ghost shared0 = string_views(shared@).to_set();
    let ghost rv = string_views(rp@);
    let mut j: usize = 0;
    proof {
        assert(seen0 + rv.take(0).to_set() =~= seen0);
        assert(shared0 + rv.take(0).to_set().intersect(seen0) =~= shared0);
    }
    while j < rp.len()
        invariant
            rv == string_views(rp@),
            strictly_sorted(rv),
            j <= rv.len(),
            strictly_sorted(string_views(seen@)),
            strictly_sorted(string_views(shared@)),
            string_views(seen@).to_set() == seen0 + rv.take(j as int).to_set(),
            string_views(shared@).to_set() == shared0 + rv.take(j as int).to_set().intersect(seen0),
        decreases rv.len() - j,
    {
        let p = rp[j].clone();
        proof {
            assert(rv[j as int] == p@);
            assert(rv.take(j as int + 1) =~= rv.take(j as int).push(p@));
            crate::terms::lemma_push_to_set(rv.take(j as int), p@);
            assert(!rv.take(j as int).to_set().contains(p@)) by {
                if rv.take(j as int).to_set().contains(p@) {
                    let k = choose|k: int| 0 <= k < rv.take(j as int).len() && rv.take(j as int)[k] == p@;
                    assert(rv[k] == rv.take(j as int)[k]);
                    assert(crate::order::seq_less(rv[k], rv[j as int]));
                    lemma_seq_less_irreflexive(p@);
                }
            }
        }
        if holds(seen, p.as_str()) {
            proof {
                assert(string_views(seen@).to_set().contains(p@));
                assert(seen0.contains(p@));
            }
            insert_sorted_unique(shared, p);
            proof {
                assert(string_views(seen@).to_set() =~= seen0 + rv.take(j as int + 1).to_set());
                assert(string_views(shared@).to_set() =~= shared0 + rv.take(j as int + 1).to_set().intersect(
                    seen0,
                ));
            }
        } else {
            proof {
                if seen0.contains(p@) {
                    assert(string_views(seen@).to_set().contains(p@));
                    assert(string_views(seen@).contains(p@));
                }
            }
            insert_sorted_unique(seen, p);
            proof {
                assert(string_views(seen@).to_set() =~= seen0 + rv.take(j as int + 1).to_set());
                assert(string_views(shared@).to_set() =~= shared0 + rv.take(j as int + 1).to_set().intersect(
                    seen0,
                ));
            }
        }
        j = j + 1;
    }
    proof {
        assert(rv.take(j as int) =~= rv);
    }
}

proof fn lemma_prefix_step(records: Seq<FileRecord>, a: int)
    requires
        0 <= a < records.len(),
    ensures
        seen_prefixes(records, a + 1) == seen_prefixes(records, a) + record_prefixes(records[a]),
        shared_prefixes_upto(records, a + 1) == shared_prefixes_upto(records, a) + record_prefixes(
            records[a],
        ).intersect(seen_prefixes(records, a)),
{
    assert forall|p: Seq<char>| seen_prefixes(records, a + 1).contains(p) <==> (seen_prefixes(records, a)
        + record_prefixes(records[a])).contains(p) by {
        if seen_prefixes(records, a + 1).contains(p) {
            let x = choose|x: int| 0 <= x < a + 1 && #[trigger] record_prefixes(records[x]).contains(p);
            if x < a {
                assert(seen_prefixes(records, a).contains(p));
            }
        }
        if seen_prefixes(records, a).contains(p) {
            let x = choose|x: int| 0 <= x < a && #[trigger] record_prefixes(records[x]).contains(p);
            assert(0 <= x < a + 1);
        }
    }
    assert(seen_prefixes(records, a + 1) =~= seen_prefixes(records, a) + record_prefixes(records[a]));
    let rhs = shared_prefixes_upto(records, a) + record_prefixes(records[a]).intersect(seen_prefixes(records, a));
    assert forall|p: Seq<char>| shared_prefixes_upto(records, a + 1).contains(p) <==> rhs.contains(p) by {
        if shared_prefixes_upto(records, a + 1).contains(p) {
            let (x, y) = choose|x: int, y: int|
                0 <= x < y < a + 1 && #[trigger] record_prefixes(records[x]).contains(p)
                    && #[trigger] record_prefixes(records[y]).contains(p);
            if y < a {
                assert(shared_prefixes_upto(records, a).contains(p));
            } else {
                assert(seen_prefixes(records, a).contains(p));
            }
        }
        if shared_prefixes_upto(records, a).contains(p) {
            let (x, y) = choose|x: int, y: int|
                0 <= x < y < a && #[trigger] record_prefixes(records[x]).contains(p)
                    && #[trigger] record_prefixes(records[y]).contains(p);
            assert(0 <= x < y < a + 1);
        }
        if record_prefixes(records[a]).contains(p) && seen_prefixes(records, a).contains(p) {
            let x = choose|x: int| 0 <= x < a && #[trigger] record_prefixes(records[x]).contains(p);
            assert(0 <= x < a < a + 1);
        }
    }
    assert(shared_prefixes_upto(records, a + 1) =~= rhs);
}


/// The terms that the field names and the values of the first `k` records
/// give, before the shared prefixes join them.
pub open spec fn value_terms_upto(records: Seq<FileRecord>, k: int) -> Set<Seq<char>> {
    norm_terms(metadata_key_values()) + norm_terms(values_upto(ValueClass::Kind, records, k)) + norm_terms(
        values_upto(ValueClass::Path, records, k),
    ) + norm_terms(values_upto(ValueClass::Extension, records, k)) + norm_terms(
        values_upto(ValueClass::Tag, records, k),
    ) + norm_terms(values_upto(ValueClass::Comment, records, k)) + norm_terms(
        values_upto(ValueClass::Plain, records, k),
    )
}

proof fn lemma_value_terms_step(records: Seq<FileRecord>, k: int)
    requires
        0 <= k < records.len(),
    ensures
        value_terms_upto(records, k + 1) == value_terms_upto(records, k) + norm_terms(
            record_values(ValueClass::Path, records[k]),
        ) + norm_terms(record_values(ValueClass::Kind, records[k])) + norm_terms(
            record_values(ValueClass::Extension, records[k]),
        ) + norm_terms(record_values(ValueClass::Tag, records[k])) + norm_terms(
            record_values(ValueClass::Comment, records[k]),
        ) + norm_terms(record_values(ValueClass::Plain, records[k])),
{
    lemma_values_step(ValueClass::Kind, records, k);
    lemma_values_step(ValueClass::Path, records, k);
    lemma_values_step(ValueClass::Extension, records, k);
    lemma_values_step(ValueClass::Tag, records, k);
    lemma_values_step(ValueClass::Comment, records, k);
    lemma_values_step(ValueClass::Plain, records, k);
    assert(value_terms_upto(records, k + 1) =~= value_terms_upto(records, k) + norm_terms(
        record_values(ValueClass::Path, records[k]),
    ) + norm_terms(record_values(ValueClass::Kind, records[k])) + norm_terms(
        record_values(ValueClass::Extension, records[k]),
    ) + norm_terms(record_values(ValueClass::Tag, records[k])) + norm_terms(
        record_values(ValueClass::Comment, records[k]),
    ) + norm_terms(record_values(ValueClass::Plain, records[k])));
}

/// Adds the values of class `c` of `r` to the class set and to the terms.
fn add_class(terms: &mut Vec<String>, class: &mut Vec<String>, c: ValueClass, r: &FileRecord)
    requires
        strictly_sorted(string_views(old(terms)@)),
        strictly_sorted(string_views(old(class)@)),
    ensures
        strictly_sorted(string_views(final(terms)@)),
        strictly_sorted(string_views(final(class)@)),
        string_views(final(terms)@).to_set() == string_views(old(terms)@).to_set() + norm_terms(
            record_values(c, *r),
        ),
        string_views(final(class)@).to_set() == string_views(old(class)@).to_set() + norm_terms(
            record_values(c, *r),
        ),
{
    let vals = values_of(c, r);
    insert_norm_each(class, &vals);
    insert_norm_each(terms, &vals);
}

/// The dictionary terms of `records` and how many each class holds. The
/// terms are the six field names, and for every record its name, kind,
/// path, path components, parent, extension, tags and comment tokens, all
/// trimmed and in lower case, the empty one left out; and the path
/// prefixes that more than one record's parent has. Paths count the paths,
/// parents and shared prefixes.
pub fn dictionary_term_report_from_records(records: &[FileRecord]) -> (report: DictionaryTermReport)
    ensures
        strictly_sorted(string_views(report.terms@)),
        string_views(report.terms@).to_set() == dictionary_terms(records@),
        report.paths == path_terms(records@).len(),
        report.path_prefixes == shared_prefixes(records@).len(),
        report.extensions == class_terms(ValueClass::Extension, records@).len(),
        report.tags == class_terms(ValueClass::Tag, records@).len(),
        report.kinds == class_terms(ValueClass::Kind, records@).len(),
        report.metadata_keys == norm_terms(metadata_key_values()).len(),
        report.comment_tokens == class_terms(ValueClass::Comment, records@).len(),
{
    let keys = metadata_keys();
    let mut terms: Vec<String> = Vec::new();
    let mut meta: Vec<String> = Vec::new();
    proof {
        assert(string_views(terms@).to_set() =~= Set::<Seq<char>>::empty());
        assert(string_views(meta@).to_set() =~= Set::<Seq<char>>::empty());
    }
    insert_norm_each(&mut meta, &keys);
    insert_norm_each(&mut terms, &keys);
    let mut paths: Vec<String> = Vec::new();
    let mut kinds: Vec<String> = Vec::new();
    let mut exts: Vec<String> = Vec::new();
    let mut tags: Vec<String> = Vec::new();
    let mut comments: Vec<String> = Vec::new();
    let mut seen: Vec<String> = Vec::new();
    let mut shared: Vec<String> = Vec::new();
    proof {
        lemma_norm_terms_empty();
        assert(string_views(paths@).to_set() =~= Set::<Seq<char>>::empty());
        assert(string_views(seen@).to_set() =~= seen_prefixes(records@, 0));
        assert(string_views(shared@).to_set() =~= shared_prefixes_upto(records@, 0));
        assert(string_views(meta@).to_set() =~= norm_terms(metadata_key_values()));
        assert(string_views(terms@).to_set() =~= value_terms_upto(records@, 0));
    }
    let mut a: usize = 0;
    while a < records.len()
        invariant
            a <= records@.len(),
            strictly_sorted(string_views(terms@)),
            strictly_sorted(string_views(meta@)),
            strictly_sorted(string_views(paths@)),
            strictly_sorted(string_views(kinds@)),
            strictly_sorted(string_views(exts@)),
            strictly_sorted(string_views(tags@)),
            strictly_sorted(string_views(comments@)),
            strictly_sorted(string_views(seen@)),
            strictly_sorted(string_views(shared@)),
            string_views(meta@).to_set() == norm_terms(metadata_key_values()),
            string_views(paths@).to_set() == norm_terms(values_upto(ValueClass::Path, records@, a as int)),
            string_views(kinds@).to_set() == norm_terms(values_upto(ValueClass::Kind, records@, a as int)),
            string_views(exts@).to_set() == norm_terms(values_upto(ValueClass::Extension, records@, a as int)),
            string_views(tags@).to_set() == norm_terms(values_upto(ValueClass::Tag, records@, a as int)),
            string_views(comments@).to_set() == norm_terms(values_upto(ValueClass::Comment, records@, a as int)),
            string_views(terms@).to_set() == value_terms_upto(records@, a as int),
            string_views(seen@).to_set() == seen_prefixes(records@, a as int),
            string_views(shared@).to_set() == shared_prefixes_upto(records@, a as int),
        decreases records@.len() - a,
    {
        let r = &records[a];
        let ghost t0 = string_views(terms@).to_set();
        add_class(&mut terms, &mut paths, ValueClass::Path, r);
        add_class(&mut terms, &mut kinds, ValueClass::Kind, r);
        add_class(&mut terms, &mut exts, ValueClass::Extension, r);
        add_class(&mut terms, &mut tags, ValueClass::Tag, r);
        add_class(&mut terms, &mut comments, ValueClass::Comment, r);
        let plain = values_of(ValueClass::Plain, r);
        insert_norm_each(&mut terms, &plain);
        let rp = prefixes_of(r);
        note_prefixes(&mut seen, &mut shared, &rp);
        proof {
            lemma_value_terms_step(records@, a as int);
            lemma_values_step(ValueClass::Path, records@, a as int);
            lemma_values_step(ValueClass::Kind, records@, a as int);
            lemma_values_step(ValueClass::Extension, records@, a as int);
            lemma_values_step(ValueClass::Tag, records@, a as int);
            lemma_values_step(ValueClass::Comment, records@, a as int);
            lemma_prefix_step(records@, a as int);
            assert(string_views(terms@).to_set() =~= value_terms_upto(records@, a as int + 1));
        }
        a = a + 1;
    }
    insert_each(&mut paths, &shared);
    insert_each(&mut terms, &shared);
    proof {
        lemma_sorted_set_len(string_views(terms@));
        lemma_sorted_set_len(string_views(paths@));
        lemma_sorted_set_len(string_views(shared@));
        lemma_sorted_set_len(string_views(exts@));
        lemma_sorted_set_len(string_views(tags@));
        lemma_sorted_set_len(string_views(kinds@));
        lemma_sorted_set_len(string_views(meta@));
        lemma_sorted_set_len(string_views(comments@));
        assert(string_views(terms@).to_set() =~= dictionary_terms(records@));
    }
    DictionaryTermReport {
        terms,
        paths: paths.len(),
        path_prefixes: shared.len(),
        extensions: exts.len(),
        tags: tags.len(),
        kinds: kinds.len(),
        metadata_keys: meta.len(),
        comment_tokens: comments.len(),
    }
}

/// The dictionary terms of `records`, sorted.
pub fn dictionary_terms_from_records(records: &[FileRecord]) -> (terms: Vec<String>)
    ensures
        strictly_sorted(string_views(terms@)),
        string_views(terms@).to_set() == dictionary_terms(records@),
{
    dictionary_term_report_from_records(records).terms
}

} // verus!
