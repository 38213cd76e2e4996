use vstd::prelude::*;

use crate::order::string_views;
use crate::postings::{
    copy_ids, entries_view, id_entries_pairs, id_entries_wf, id_map_pairs, id_map_wf,
    insert_id_postings,
};
use crate::terms::{lower_normalized, normalize_lower, tokenize, tokens};
use crate::text::str_equal;
use crate::types::{FileId, FileRecord};

verus! {

/// The metadata fields that the metadata archive indexes.
#[derive(Debug, Clone, Copy, PartialEq, Eq, PartialOrd, Ord, Hash, Structural)]
pub enum MetadataField {
    Tag,
    Comment,
}

/// The name of a metadata field.
pub open spec fn field_name(field: MetadataField) -> Seq<char> {
    match field {
        MetadataField::Tag => "tag"@,
        MetadataField::Comment => "comment"@,
    }
}

/// The field a name denotes.
pub open spec fn field_of_name(name: Seq<char>) -> Option<MetadataField> {
    if name == "tag"@ {
        Some(MetadataField::Tag)
    } else if name == "comment"@ {
        Some(MetadataField::Comment)
    } else {
        None
    }
}

/// The byte that codes a field in the metadata archive.
pub open spec fn field_code(field: MetadataField) -> u8 {
    match field {
        MetadataField::Tag => 116,
        MetadataField::Comment => 99,
    }
}

impl MetadataField {
    /// The field's name.
    pub fn as_str(self) -> (s: &'static str)
        ensures
            s@ == field_name(self),
    {
        match self {
            MetadataField::Tag => "tag",
            MetadataField::Comment => "comment",
        }
    }

    /// The field a name denotes, if any.
    pub fn parse(input: &str) -> (f: Option<MetadataField>)
        ensures
            f == field_of_name(input@),
    {
        if str_equal(input, "tag") {
            Some(MetadataField::Tag)
        } else if str_equal(input, "comment") {
            Some(MetadataField::Comment)
        } else {
            None
        }
    }
}

/// The byte that codes a field.
pub fn metadata_field_code(field: MetadataField) -> (b: u8)
    ensures
        b == field_code(field),
{
    match field {
        MetadataField::Tag => 116u8,
        MetadataField::Comment => 99u8,
    }
}

/// The field a code denotes, if any.
pub fn metadata_field_from_code(code: u8) -> (f: Option<MetadataField>)
    ensures
        f matches Some(field) ==> field_code(field) == code,
        f is None ==> code != 116 && code != 99,
{
    if code == 116u8 {
        Some(MetadataField::Tag)
    } else if code == 99u8 {
        Some(MetadataField::Comment)
    } else {
        None
    }
}

/// One metadata term and the files that carry it.
#[derive(Debug, Clone, PartialEq, Eq)]
pub struct MetadataPosting {
    pub field: MetadataField,
    pub term: String,
    pub ids: Vec<FileId>,
}

/// A metadata posting, possibly cut short.
#[derive(Debug, Clone, PartialEq, Eq)]
pub struct LimitedMetadataPosting {
    pub posting: MetadataPosting,
    pub truncated: bool,
}

/// The terms of `field` that a record carries: its normalized, nonempty
/// tags, or the tokens of its normalized comment.
pub open spec fn record_field_terms(r: FileRecord, field: MetadataField) -> Set<Seq<char>> {
    match field {
        MetadataField::Tag => Set::new(
            |t: Seq<char>|
                t.len() > 0 && exists|i: int|
                    0 <= i < r.tags@.len() && t == lower_normalized(#[trigger] r.tags@[i]@),
        ),
        MetadataField::Comment => match r.finder_comment {
            Some(c) => tokens(lower_normalized(c@)).to_set(),
            None => Set::empty(),
        },
    }
}

/// The (term, id) pairs of `field` that the first `n` records give.
pub open spec fn metadata_pairs(records: Seq<FileRecord>, n: int, field: MetadataField) -> Set<(Seq<char>, FileId)> {
    Set::new(
        |p: (Seq<char>, FileId)|
            exists|a: int|
                0 <= a < n && #[trigger] record_field_terms(records[a], field).contains(p.0) && p.1
                    == records[a].id,
    )
}

/// The terms of `field` of a record.
fn field_terms(r: &FileRecord, field: MetadataField) -> (v: Vec<String>)
    ensures
        string_views(v@).to_set() == record_field_terms(*r, field),
{
    match field {
        MetadataField::Tag => {
            let mut v: Vec<String> = Vec::new();
            let mut i: usize = 0;
            proof {
                assert(string_views(v@).to_set() =~= Set::<Seq<char>>::empty());
            }
            while i < r.tags.len()
                invariant
                    i <= r.tags@.len(),
                    string_views(v@).to_set() == Set::new(
                        |t: Seq<char>|
                            t.len() > 0 && exists|j: int|
                                0 <= j < i && t == lower_normalized(#[trigger] r.tags@[j]@),
                    ),
                decreases r.tags@.len() - i,
            {
                let t = normalize_lower(r.tags[i].as_str());
                let ghost before = string_views(v@);
                let ghost tv = t@;
                if t.unicode_len() > 0 {
                    v.push(t);
                    proof {
                        assert(string_views(v@) =~= before.push(tv));
                        crate::terms::lemma_push_to_set(before, tv);
                    }
                }
                proof {
                    assert(string_views(v@).to_set() =~= Set::new(
                        |t: Seq<char>|
                            t.len() > 0 && exists|j: int|
                                0 <= j < i + 1 && t == lower_normalized(#[trigger] r.tags@[j]@),
                    ));
                }
                i = i + 1;
            }
            proof {
                assert(string_views(v@).to_set() =~= record_field_terms(*r, field));
            }
            v
        },
        MetadataField::Comment => match &r.finder_comment {
            Some(c) => {
                let n = normalize_lower(c.as_str());
                tokenize(n.as_str())
            },
            None => {
                let v: Vec<String> = Vec::new();
                proof {
                    assert(string_views(v@).to_set() =~= Set::<Seq<char>>::empty());
                }
                v
            },
        },
    }
}

/// The posting map of `field` over `records`.
fn field_postings(records: &Vec<FileRecord>, field: MetadataField) -> (m: Vec<(String, Vec<FileId>)>)
    ensures
        id_map_wf(m@),
        id_map_pairs(m@) == metadata_pairs(records@, records@.len() as int, field),
{
    let mut m: Vec<(String, Vec<FileId>)> = Vec::new();
    let mut a: usize = 0;
    proof {
        assert(id_map_pairs(m@) =~= metadata_pairs(records@, 0, field));
    }
    while a < records.len()
        invariant
            a <= records@.len(),
            id_map_wf(m@),
            id_map_pairs(m@) == metadata_pairs(records@, a as int, field),
        decreases records@.len() - a,
    {
        let record = &records[a];
        let ks = field_terms(record, field);
        let ghost kset = string_views(ks@);
        let ghost before = id_map_pairs(m@);
        insert_id_postings(&mut m, ks, record.id);
        proof {
            assert forall|p: (Seq<char>, FileId)|
                id_map_pairs(m@).contains(p) <==> metadata_pairs(records@, a as int + 1, field).contains(p) by {
                if metadata_pairs(records@, a as int + 1, field).contains(p) {
                    let b = choose|b: int|
                        0 <= b < a + 1 && #[trigger] record_field_terms(records@[b], field).contains(p.0)
                            && p.1 == records@[b].id;
                    if b < a {
                        assert(metadata_pairs(records@, a as int, field).contains(p));
                    } else {
                        assert(kset.to_set().contains(p.0));
                        assert(kset.contains(p.0));
                    }
                }
                if before.contains(p) {
                    let b = choose|b: int|
                        0 <= b < a && #[trigger] record_field_terms(records@[b], field).contains(p.0)
                            && p.1 == records@[b].id;
                    assert(0 <= b < a + 1);
                }
                if kset.contains(p.0) && p.1 == record.id {
                    assert(kset.to_set().contains(p.0));
                    assert(record_field_terms(records@[a as int], field).contains(p.0));
                }
            }
            assert(id_map_pairs(m@) =~= metadata_pairs(records@, a as int + 1, field));
        }
        a = a + 1;
    }
    m
}

/// The plain values of metadata postings of one field.
pub open spec fn metadata_entries(ps: Seq<MetadataPosting>) -> Seq<(Seq<char>, Seq<FileId>)> {
    ps.map_values(|p: MetadataPosting| (p.term@, p.ids@))
}

/// Appends the postings of `field` from a posting map.
fn push_field_postings(ps: &mut Vec<MetadataPosting>, m: &Vec<(String, Vec<FileId>)>, field: MetadataField)
    ensures
        final(ps)@.len() == old(ps)@.len() + m@.len(),
        final(ps)@.take(old(ps)@.len() as int) == old(ps)@,
        metadata_entries(final(ps)@.skip(old(ps)@.len() as int)) == entries_view(m@),
        forall|i: int|
            old(ps)@.len() <= i < final(ps)@.len() ==> (#[trigger] final(ps)@[i]).field == field,
{
    let ghost start = ps@;
    let mut i: usize = 0;
    proof {
        assert(ps@.take(start.len() as int) =~= start);
        assert(metadata_entries(ps@.skip(start.len() as int)) =~= entries_view(m@).take(0));
    }
    while i < m.len()
        invariant
            i <= m@.len(),
            ps@.len() == start.len() + i,
            ps@.take(start.len() as int) == start,
            metadata_entries(ps@.skip(start.len() as int)) == entries_view(m@).take(i as int),
            forall|k: int| start.len() <= k < ps@.len() ==> (#[trigger] ps@[k]).field == field,
        decreases m@.len() - i,
    {
        let term = m[i].0.clone();
        let ids = copy_ids(&m[i].1);
        let ghost before = ps@;
        let posting = MetadataPosting { field, term, ids };
        ps.push(posting);
        proof {
            assert(ps@.take(start.len() as int) =~= start);
            assert(ps@.skip(start.len() as int) =~= before.skip(start.len() as int).push(posting));
            assert(entries_view(m@)[i as int] == (m@[i as int].0@, m@[i as int].1@));
            assert(metadata_entries(ps@.skip(start.len() as int)) =~= entries_view(m@).take(i as int + 1));
        }
        i = i + 1;
    }
    proof {
        assert(entries_view(m@).take(i as int) =~= entries_view(m@));
    }
}

/// `ps` holds, in its first `n` postings, the tag postings of `records`,
/// and after them the comment postings, each part with terms strictly
/// ascending and id lists sorted and free of repeats.
pub open spec fn metadata_split(ps: Seq<MetadataPosting>, n: int, records: Seq<FileRecord>) -> bool {
    &&& 0 <= n <= ps.len()
    &&& forall|i: int| 0 <= i < n ==> (#[trigger] ps[i]).field == MetadataField::Tag
    &&& forall|i: int| n <= i < ps.len() ==> (#[trigger] ps[i]).field == MetadataField::Comment
    &&& id_entries_wf(metadata_entries(ps.take(n)))
    &&& id_entries_pairs(metadata_entries(ps.take(n))) == metadata_pairs(
        records,
        records.len() as int,
        MetadataField::Tag,
    )
    &&& id_entries_wf(metadata_entries(ps.skip(n)))
    &&& id_entries_pairs(metadata_entries(ps.skip(n))) == metadata_pairs(
        records,
        records.len() as int,
        MetadataField::Comment,
    )
}

/// The metadata postings of `records`: first, for every normalized tag, the
/// ids of the records that carry it; then, for every token of every
/// normalized comment, the ids of the records whose comment has it; terms
/// and ids sorted within each field.
pub fn metadata_postings_from_records(records: &Vec<FileRecord>) -> (ps: Vec<MetadataPosting>)
    ensures
        exists|n: int| #[trigger] metadata_split(ps@, n, records@),
{
    let tag_map = field_postings(records, MetadataField::Tag);
    let comment_map = field_postings(records, MetadataField::Comment);
    proof {
        crate::postings::lemma_entries_view(tag_map@);
        crate::postings::lemma_entries_view(comment_map@);
    }
    let mut ps: Vec<MetadataPosting> = Vec::new();
    push_field_postings(&mut ps, &tag_map, MetadataField::Tag);
    let ghost n = ps@.len() as int;
    let ghost first = ps@;
    proof {
        assert(first.skip(0) =~= first);
    }
    push_field_postings(&mut ps, &comment_map, MetadataField::Comment);
    proof {
        assert(ps@.take(n) == first);
        assert(first =~= ps@.take(n).skip(0));
        assert(n == tag_map@.len());
        assert(metadata_entries(ps@.take(n)) == entries_view(tag_map@));
        assert(metadata_entries(ps@.skip(n)) == entries_view(comment_map@));
        assert(forall|i: int| 0 <= i < n ==> (#[trigger] ps@[i]).field == MetadataField::Tag) by {
            assert forall|i: int| 0 <= i < n implies (#[trigger] ps@[i]).field == MetadataField::Tag by {
                assert(ps@[i] == first[i]);
            }
        }
        assert(metadata_split(ps@, n, records@));
    }
    ps
}

} // verus!
