use gfm_store::dictionary::{dictionary_term_report_from_records, dictionary_terms_from_records};
use gfm_store::types::{FileId, FileKind, FileRecord, VolumeId};

fn record(node: u64, path: &str, name: &str, tags: &[&str], comment: Option<&str>) -> FileRecord {
    FileRecord {
        id: FileId::new(VolumeId(4), node),
        parent: None,
        path: path.to_string(),
        name: name.to_string(),
        kind: FileKind::File,
        len: 1,
        mode: 0,
        owner: 0,
        group: 0,
        xattrs_digest: 0,
        created: None,
        modified: None,
        changed: None,
        hidden: false,
        tags: tags.iter().map(|t| t.to_string()).collect(),
        finder_comment: comment.map(|c| c.to_string()),
    }
}

#[test]
fn dictionary_terms_include_record_paths_tags_kinds_metadata_keys_and_shared_prefixes() {
    let first = record(
        12,
        "/Users/deepsaint/Documents/Report.md",
        "Report.md",
        &["Important"],
        Some("Client handoff"),
    );
    let second = record(
        13,
        "/Users/deepsaint/Documents/Project/Notes.txt",
        "Notes.txt",
        &["Client"],
        None,
    );

    let report = dictionary_term_report_from_records(&[first, second]);
    let terms = report.terms;

    assert!(terms.contains(&"field:tag".to_string()));
    assert!(terms.contains(&"field:path-prefix".to_string()));
    assert!(terms.contains(&"kind:file".to_string()));
    assert!(terms.contains(&"important".to_string()));
    assert!(terms.contains(&"md".to_string()));
    assert!(terms.contains(&"txt".to_string()));
    assert!(terms.contains(&"client".to_string()));
    assert!(terms.contains(&"/users/deepsaint/documents/report.md".to_string()));
    assert!(terms.contains(&"/users/deepsaint/documents".to_string()));
    assert!(terms.contains(&"/users/deepsaint".to_string()));
    assert_eq!(report.path_prefixes, 3);
    assert_eq!(report.extensions, 2);
    assert_eq!(report.tags, 2);
    assert_eq!(report.kinds, 1);
    assert_eq!(report.metadata_keys, 6);
    assert_eq!(report.comment_tokens, 2);
}

#[test]
fn dictionary_of_no_records_holds_the_field_names() {
    let report = dictionary_term_report_from_records(&[]);
    assert_eq!(
        report.terms,
        vec![
            "field:comment",
            "field:extension",
            "field:kind",
            "field:path",
            "field:path-prefix",
            "field:tag"
        ]
    );
    assert_eq!(report.metadata_keys, 6);
    assert_eq!(report.paths, 0);
    assert_eq!(report.path_prefixes, 0);
}

#[test]
fn dictionary_terms_are_sorted_and_unique() {
    let records = [
        record(1, "/a/b/c.txt", "c.txt", &["X", "x"], Some("one two one")),
        record(2, "/a/b/d.txt", "d.txt", &[], None),
    ];
    let terms = dictionary_terms_from_records(&records);
    for pair in terms.windows(2) {
        assert!(pair[0] < pair[1]);
    }
    let report = dictionary_term_report_from_records(&records);
    assert_eq!(report.tags, 1);
    assert_eq!(report.comment_tokens, 2);
    assert_eq!(report.extensions, 1);
    // Both parents share "/a/b" and "/a".
    assert_eq!(report.path_prefixes, 2);
    assert!(terms.contains(&"/a/b".to_string()));
    assert!(terms.contains(&"/a".to_string()));
}
