use gfm_store::escape::{escape_text, unescape_text, EscapeError};
use gfm_store::records::{encode_record, parse_record, parse_records_lines, records_text, StoreVersion};
use gfm_store::types::{FileId, FileKind, FileRecord, VolumeId};

fn sample() -> FileRecord {
    FileRecord {
        id: FileId::new(VolumeId(4), 12),
        parent: Some(FileId::new(VolumeId(4), 1)),
        path: "/tmp/a b/report.txt".to_string(),
        name: "report.txt".to_string(),
        kind: FileKind::File,
        len: 42,
        mode: 0o100644,
        owner: 501,
        group: 20,
        xattrs_digest: 99,
        created: None,
        modified: Some(10_000_000_000),
        changed: None,
        hidden: false,
        tags: vec!["Important".to_string(), "Review, Later".to_string()],
        finder_comment: Some("handoff notes".to_string()),
    }
}

fn lines_of(text: &str) -> Vec<String> {
    text.lines().map(|l| l.to_string()).collect()
}

#[test]
fn record_lines_round_trip() {
    let record = sample();
    let line = encode_record(&record);
    assert_eq!(parse_record(&line, StoreVersion::V3).unwrap(), record);
}

#[test]
fn record_archive_text_round_trips() {
    let mut other = sample();
    other.id = FileId::new(VolumeId(4), 13);
    other.path = "/tmp/tab\there/line\nbreak.txt".to_string();
    other.name = "line\nbreak.txt".to_string();
    other.kind = FileKind::Directory;
    other.tags = Vec::new();
    other.finder_comment = None;
    other.hidden = true;
    other.parent = None;
    let records = vec![sample(), other];
    let text = records_text(&records);
    assert!(text.starts_with("gfm-store-v3\n"));
    assert!(text.ends_with('\n'));
    let read = parse_records_lines("/tmp/store.idx", &lines_of(&text)).unwrap();
    assert_eq!(read, records);
}

#[test]
fn reads_legacy_record_lines_without_tags() {
    let lines = lines_of("gfm-store-v1\n4\t12\t1\tf\t42\t0\t0\t0\t0\t/tmp/legacy.txt\n");
    let read = parse_records_lines("/tmp/legacy.idx", &lines).unwrap();
    assert_eq!(read.len(), 1);
    assert_eq!(read[0].name, "legacy.txt");
    assert!(read[0].tags.is_empty());
    assert_eq!(read[0].id, FileId::new(VolumeId(4), 12));
}

#[test]
fn record_parsing_reports_bad_kinds() {
    let line = "4\t12\t1\tz\t42\t0\t0\t0\t0\t/tmp/legacy.txt";
    let err = parse_record(line, StoreVersion::V1).unwrap_err();
    assert!(err.contains("invalid file kind `z`"), "{err}");
}

#[test]
fn record_archive_rejects_unknown_headers() {
    let err = parse_records_lines("/tmp/x.idx", &lines_of("gfm-store-v9\n")).unwrap_err();
    assert!(err.message().contains("gfm-store-v9"), "{}", err.message());
}

#[test]
fn escaping_round_trips_and_removes_line_breaks() {
    for text in ["plain", "tab\tand\nline", "back\\slash", "comma, here", ""] {
        let escaped = escape_text(text, true);
        assert!(!escaped.contains('\n') && !escaped.contains('\t'));
        assert_eq!(unescape_text(&escaped, true).unwrap(), text);
    }
    assert_eq!(escape_text("a,b", true), "a\\,b");
    assert_eq!(escape_text("a,b", false), "a,b");
}

#[test]
fn unescaping_rejects_unknown_and_trailing_escapes() {
    assert_eq!(unescape_text("bad\\q", false), Err(EscapeError::Invalid('q')));
    assert_eq!(unescape_text("trailing\\", false), Err(EscapeError::Trailing));
}
