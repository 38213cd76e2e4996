use gfm_store::error::GfmError;
use gfm_store::postings::{PrefixPosting, SubstringPosting};
use gfm_store::termarchive::{
    prefix_archive_bytes, prefix_postings_from_bytes, read_term_archive, substring_archive_bytes,
    substring_postings_from_bytes, write_term_archive, TermArchiveError, TermArchiveKind,
};
use gfm_store::types::{FileId, VolumeId};

const PREFIX_MAGIC_LEN: usize = 14;

fn prefix(term: &str, ids: Vec<FileId>) -> PrefixPosting {
    PrefixPosting { prefix: term.to_string(), ids }
}

#[test]
fn full_prefix_reader_round_trips_after_checksum_validation() {
    let postings = vec![
        prefix("pro", vec![FileId::new(VolumeId(1), 2)]),
        prefix("proj", vec![FileId::new(VolumeId(1), 4), FileId::new(VolumeId(2), 1)]),
    ];

    let bytes = prefix_archive_bytes(&postings);
    let read = prefix_postings_from_bytes("/tmp/a.gfmprefix", &bytes).unwrap();

    assert_eq!(read, postings);
}

#[test]
fn full_substring_reader_round_trips_after_checksum_validation() {
    let postings = vec![
        SubstringPosting { gram: "pro".to_string(), ids: vec![FileId::new(VolumeId(1), 2)] },
        SubstringPosting {
            gram: "roj".to_string(),
            ids: vec![FileId::new(VolumeId(1), 4), FileId::new(VolumeId(2), 1)],
        },
    ];

    let bytes = substring_archive_bytes(&postings);
    let read = substring_postings_from_bytes("/tmp/a.gfmsubstr", &bytes).unwrap();

    assert_eq!(read, postings);
}

#[test]
fn checksummed_prefix_archive_rejects_corruption() {
    let mut bytes = prefix_archive_bytes(&[prefix("pro", vec![FileId::new(VolumeId(1), 2)])].to_vec());
    bytes[PREFIX_MAGIC_LEN + 2] ^= 0x10;

    let error = prefix_postings_from_bytes("/tmp/c.gfmprefix", &bytes).unwrap_err();

    assert!(error.message().contains("checksum mismatch"));
    assert_eq!(
        error,
        GfmError::Format(
            "invalid prefix store /tmp/c.gfmprefix: checksum mismatch; archive must be rebuilt".to_string()
        )
    );
}

#[test]
fn checksummed_substring_archive_rejects_corruption() {
    let mut bytes = substring_archive_bytes(
        &[SubstringPosting { gram: "por".to_string(), ids: vec![FileId::new(VolumeId(1), 2)] }].to_vec(),
    );
    bytes[17 + 2] ^= 0x10;

    let error = substring_postings_from_bytes("/tmp/c.gfmsubstr", &bytes).unwrap_err();

    assert!(error.message().contains("checksum mismatch"));
}

#[test]
fn archives_sort_postings_and_normalize_terms_and_ids() {
    let postings = vec![
        prefix("  Proj ", vec![FileId::new(VolumeId(2), 9), FileId::new(VolumeId(1), 3), FileId::new(VolumeId(2), 9)]),
        prefix("alp", vec![FileId::new(VolumeId(1), 1)]),
    ];

    let bytes = prefix_archive_bytes(&postings);
    let read = prefix_postings_from_bytes("/tmp/s.gfmprefix", &bytes).unwrap();

    // Postings are ordered by the prefix as given, so "  Proj " comes first.
    assert_eq!(
        read,
        vec![
            prefix("proj", vec![FileId::new(VolumeId(1), 3), FileId::new(VolumeId(2), 9)]),
            prefix("alp", vec![FileId::new(VolumeId(1), 1)]),
        ]
    );
}

#[test]
fn empty_archive_round_trips() {
    let bytes = write_term_archive(TermArchiveKind::Prefix, &Vec::new());
    assert!(bytes.starts_with(b"gfm-prefix-v1\n"));
    assert!(bytes.ends_with(b"gfm-prefix-checksum-v1\n"));
    assert_eq!(read_term_archive(TermArchiveKind::Prefix, &bytes).unwrap(), Vec::new());
}

#[test]
fn archive_of_one_kind_is_refused_as_the_other() {
    let bytes = prefix_archive_bytes(&vec![prefix("pro", vec![FileId::new(VolumeId(1), 2)])]);

    assert_eq!(read_term_archive(TermArchiveKind::Substring, &bytes), Err(TermArchiveError::UnsupportedHeader));
    assert_eq!(
        substring_postings_from_bytes("/tmp/x", &bytes).unwrap_err(),
        GfmError::Format("invalid substring store /tmp/x: unsupported substring header".to_string())
    );
}

#[test]
fn short_or_unfooted_archives_are_refused() {
    assert_eq!(
        prefix_postings_from_bytes("/tmp/e", b"gfm").unwrap_err(),
        GfmError::Io { path: "/tmp/e".to_string(), message: "failed to fill whole buffer".to_string() }
    );
    let mut bytes = prefix_archive_bytes(&vec![prefix("pro", vec![FileId::new(VolumeId(1), 2)])]);
    bytes.pop();
    assert_eq!(read_term_archive(TermArchiveKind::Prefix, &bytes), Err(TermArchiveError::MissingChecksum));
    assert_eq!(
        prefix_postings_from_bytes("/tmp/e", &bytes).unwrap_err(),
        GfmError::Format("invalid prefix store /tmp/e: missing prefix checksum footer".to_string())
    );
}
