use gfm_store::postings::{
    fuzzy_postings_from_records, prefix_postings_from_records, substring_postings_from_records,
};
use gfm_store::types::{FileId, FileKind, FileRecord, VolumeId};

fn record(node: u64, path: &str, name: &str) -> FileRecord {
    FileRecord {
        id: FileId::new(VolumeId(1), node),
        parent: None,
        path: path.to_string(),
        name: name.to_string(),
        kind: FileKind::File,
        len: 0,
        created: Some(0),
        modified: Some(1_700_000_000_000_000_000),
        changed: Some(1_700_000_000_000_000_000),
        mode: 0o644,
        owner: 501,
        group: 20,
        hidden: false,
        tags: Vec::new(),
        finder_comment: None,
        xattrs_digest: 0,
    }
}

#[test]
fn prefix_postings_from_records_include_name_prefixes() {
    let first = record(1, "/tmp/project-plan.md", "project-plan.md");
    let second = record(2, "/tmp/profile.txt", "profile.txt");
    let postings = prefix_postings_from_records(&vec![first, second]);

    let pro = postings.iter().find(|posting| posting.prefix == "pro").unwrap();
    let proj = postings.iter().find(|posting| posting.prefix == "proj").unwrap();

    assert_eq!(pro.ids.len(), 2);
    assert_eq!(proj.ids.len(), 1);
}

#[test]
fn substring_postings_from_records_include_name_trigrams() {
    let postings = substring_postings_from_records(&vec![
        record(1, "/tmp/report.pdf", "report.pdf"),
        record(2, "/tmp/notes.txt", "notes.txt"),
    ]);

    let por = postings.iter().find(|posting| posting.gram == "por").unwrap();
    let ote = postings.iter().find(|posting| posting.gram == "ote").unwrap();

    assert_eq!(por.ids, vec![FileId::new(VolumeId(1), 1)]);
    assert_eq!(ote.ids, vec![FileId::new(VolumeId(1), 2)]);
}

#[test]
fn fuzzy_postings_from_records_include_deletion_keys() {
    let postings = fuzzy_postings_from_records(&vec![record(1, "/tmp/tagged.md", "tagged.md")]);
    let tagge = postings.iter().find(|posting| posting.key == "tagge").unwrap();
    let md = postings.iter().find(|posting| posting.key == "md").unwrap();

    assert_eq!(tagge.terms, vec!["tagged"]);
    assert_eq!(md.terms, vec!["md"]);
}

#[test]
fn fuzzy_postings_skip_numeric_only_and_digit_run_terms() {
    let postings = fuzzy_postings_from_records(&vec![record(
        1,
        "/tmp/project-PackageProject00012345.md",
        "project-PackageProject00012345.md",
    )]);

    assert!(postings
        .iter()
        .any(|posting| posting.terms == vec!["project".to_string()]));
    assert!(!postings
        .iter()
        .any(|posting| posting.terms.iter().any(|term| term == "00012345")));
    assert!(!postings.iter().any(|posting| posting
        .terms
        .iter()
        .any(|term| term == "packageproject00012345")));
}

#[test]
fn prefix_postings_are_sorted_and_hold_each_id_once() {
    let postings = prefix_postings_from_records(&vec![
        record(2, "/tmp/alpha.txt", "alpha.txt"),
        record(1, "/tmp/alps.txt", "alps.txt"),
        record(2, "/tmp/alpha.txt", "alpha.txt"),
    ]);
    for pair in postings.windows(2) {
        assert!(pair[0].prefix < pair[1].prefix);
    }
    let alp = postings.iter().find(|posting| posting.prefix == "alp").unwrap();
    assert_eq!(alp.ids, vec![FileId::new(VolumeId(1), 1), FileId::new(VolumeId(1), 2)]);
}

#[test]
fn postings_of_no_records_are_empty() {
    assert!(prefix_postings_from_records(&Vec::new()).is_empty());
    assert!(substring_postings_from_records(&Vec::new()).is_empty());
    assert!(fuzzy_postings_from_records(&Vec::new()).is_empty());
}
