use gfm_store::metadata::{metadata_postings_from_records, MetadataField};
use gfm_store::terms::{deletion_keys, is_fuzzy_term, normalize, substring_grams, token_prefixes, tokenize};
use gfm_store::types::{FileId, FileKind, FileRecord, VolumeId};

fn record(node: u64, tags: &[&str], comment: Option<&str>) -> FileRecord {
    FileRecord {
        id: FileId::new(VolumeId(1), node),
        parent: None,
        path: format!("/tmp/{node}.txt"),
        name: format!("{node}.txt"),
        kind: FileKind::File,
        len: 0,
        created: None,
        modified: None,
        changed: None,
        mode: 0,
        owner: 0,
        group: 0,
        hidden: false,
        tags: tags.iter().map(|t| t.to_string()).collect(),
        finder_comment: comment.map(|c| c.to_string()),
        xattrs_digest: 0,
    }
}

#[test]
fn tokenize_splits_on_non_alphanumerics() {
    assert_eq!(tokenize("project-plan v2.md"), vec!["project", "plan", "v2", "md"]);
    assert!(tokenize("--").is_empty());
}

#[test]
fn normalize_trims_and_lowers_ascii() {
    assert_eq!(normalize("  Project Plan.MD \t"), "project plan.md");
}

#[test]
fn token_prefixes_start_at_one_character() {
    assert_eq!(token_prefixes("abc"), vec!["a", "ab", "abc"]);
}

#[test]
fn substring_grams_are_sorted_unique_trigrams() {
    assert_eq!(substring_grams("aaaa"), vec!["aaa"]);
    assert_eq!(substring_grams("abcd"), vec!["abc", "bcd"]);
}

#[test]
fn fuzzy_terms_skip_numbers_and_long_digit_runs() {
    assert!(is_fuzzy_term("project"));
    assert!(!is_fuzzy_term("00012345"));
    assert!(!is_fuzzy_term("packageproject00012345"));
}

#[test]
fn deletion_keys_cover_up_to_two_deletions() {
    let keys = deletion_keys("abc", 2);
    for key in ["abc", "ab", "ac", "bc", "a", "b", "c"] {
        assert!(keys.contains(&key.to_string()), "{key}");
    }
}

#[test]
fn metadata_postings_group_tags_and_comment_tokens() {
    let postings = metadata_postings_from_records(&vec![
        record(2, &["Important", " review "], Some("Client handoff")),
        record(1, &["important"], Some("client call")),
    ]);
    let tags: Vec<_> = postings.iter().filter(|p| p.field == MetadataField::Tag).collect();
    let comments: Vec<_> = postings.iter().filter(|p| p.field == MetadataField::Comment).collect();
    assert_eq!(tags.len(), 2);
    assert_eq!(tags[0].term, "important");
    assert_eq!(tags[0].ids, vec![FileId::new(VolumeId(1), 1), FileId::new(VolumeId(1), 2)]);
    assert_eq!(tags[1].term, "review");
    let client = comments.iter().find(|p| p.term == "client").unwrap();
    assert_eq!(client.ids.len(), 2);
    assert!(postings.iter().position(|p| p.field == MetadataField::Comment).unwrap() >= 2);
}

#[test]
fn metadata_fields_have_names_and_codes() {
    assert_eq!(MetadataField::Tag.as_str(), "tag");
    assert_eq!(MetadataField::parse("comment"), Some(MetadataField::Comment));
    assert_eq!(MetadataField::parse("nope"), None);
}
