use gfm_store::contentarchive::{content_archive_bytes, content_postings_from_bytes, MmapContentArchive};
use gfm_store::contentcompact::compact_content_postings;
use gfm_store::types::{ContentPositions, ContentPosting, FileId, VolumeId};

fn postings() -> Vec<ContentPosting> {
    vec![
        ContentPosting {
            term: "alpha".to_string(),
            ids: vec![FileId::new(VolumeId(4), 12), FileId::new(VolumeId(4), 15)],
            positions: vec![
                ContentPositions { id: FileId::new(VolumeId(4), 12), positions: vec![1, 3] },
                ContentPositions { id: FileId::new(VolumeId(4), 15), positions: vec![2] },
            ],
        },
        ContentPosting {
            term: "beta".to_string(),
            ids: vec![FileId::new(VolumeId(5), 3)],
            positions: vec![ContentPositions { id: FileId::new(VolumeId(5), 3), positions: vec![0] }],
        },
    ]
}

#[test]
fn round_trips_content_postings() {
    let postings = postings();
    let bytes = content_archive_bytes(&postings);
    let read = content_postings_from_bytes("/tmp/store.idx", &bytes).unwrap();
    let archive = MmapContentArchive::open("/tmp/store.idx", bytes).unwrap();

    assert_eq!(read, postings);
    assert_eq!(archive.postings().unwrap(), postings);
    let terms: Vec<String> = ["beta", "missing", "alpha", "alpha"].iter().map(|t| t.to_string()).collect();
    assert_eq!(archive.postings_for_terms(&terms).unwrap(), postings);
    assert!(archive.postings_for_terms(&vec!["missing".to_string()]).unwrap().is_empty());
}

#[test]
fn checksummed_content_archive_rejects_corruption() {
    let mut bytes = content_archive_bytes(&vec![ContentPosting {
        term: "needle".to_string(),
        ids: vec![FileId::new(VolumeId(8), 20_000)],
        positions: Vec::new(),
    }]);
    let offset = bytes.windows(b"needle".len()).position(|window| window == b"needle").expect("archive should contain the test term");
    bytes[offset] = b'z';
    let read_error = content_postings_from_bytes("/tmp/c.gfmcontent", &bytes).unwrap_err().message();
    let mmap_error = MmapContentArchive::open("/tmp/c.gfmcontent", bytes).unwrap_err().message();
    assert!(read_error.contains("checksum mismatch"), "{read_error}");
    assert!(mmap_error.contains("checksum mismatch"), "{mmap_error}");
}

#[test]
fn content_archive_layout_is_exact() {
    let id = FileId::new(VolumeId(1), 2);
    let bytes = content_archive_bytes(&vec![ContentPosting { term: "Ab ".to_string(), ids: vec![id], positions: Vec::new() }]);
    assert!(bytes.starts_with(b"gfm-content-v5\n\x01"));
    assert!(bytes.ends_with(b"gfm-content-checksum-v1\n"));
    let index = b"gfm-content-index-v1\n";
    let footer_start = bytes.len() - 4 - b"gfm-content-checksum-v1\n".len();
    assert_eq!(&bytes[footer_start - index.len()..footer_start], index);
    let offset_at = footer_start - index.len() - 8;
    let mut le = [0u8; 8];
    le.copy_from_slice(&bytes[offset_at..offset_at + 8]);
    let directory = u64::from_le_bytes(le) as usize;
    // one entry: the normalized term, then the record's offset and length
    assert_eq!(bytes[directory], 1);
    assert_eq!(&bytes[directory + 1..directory + 4], b"\x02ab");
    assert_eq!(bytes[directory + 4] as usize, 16);
    assert_eq!(bytes[directory + 4 + 1] as usize, directory - 16);
}

#[test]
fn content_archive_rejects_unknown_header_and_missing_footer() {
    let error = content_postings_from_bytes("/tmp/x", b"gfm-content-v9\n\x00").unwrap_err().message();
    assert_eq!(error, "unsupported content store header in /tmp/x");
    let error = content_postings_from_bytes("/tmp/x", b"gfm-content-v5\n\x00").unwrap_err().message();
    assert_eq!(error, "invalid content store /tmp/x: missing content checksum footer");
    let read = content_postings_from_bytes("/tmp/x", b"gfm-content-v2\n\x00").unwrap();
    assert!(read.is_empty());
}

#[test]
fn compacted_postings_reload_from_their_archive() {
    let a = FileId::new(VolumeId(2), 9);
    let base = vec![ContentPosting {
        term: "Needle".to_string(),
        ids: vec![a],
        positions: vec![ContentPositions { id: a, positions: vec![4] }],
    }];
    let compacted = compact_content_postings(base, Vec::new());
    let reloaded = content_postings_from_bytes("/tmp/c", &content_archive_bytes(&compacted)).unwrap();
    assert_eq!(compacted, reloaded);
}

fn two_postings(with_positions: bool) -> Vec<ContentPosting> {
    let alpha = FileId::new(VolumeId(4), 12);
    let beta = FileId::new(VolumeId(4), 15);
    vec![
        ContentPosting {
            term: "alpha".to_string(),
            ids: vec![alpha],
            positions: if with_positions { vec![ContentPositions { id: alpha, positions: vec![1, 2] }] } else { Vec::new() },
        },
        ContentPosting {
            term: "beta".to_string(),
            ids: vec![beta],
            positions: if with_positions { vec![ContentPositions { id: beta, positions: vec![8] }] } else { Vec::new() },
        },
    ]
}

#[test]
fn content_archive_reads_one_term_from_directory() {
    let beta = FileId::new(VolumeId(4), 15);
    let archive = MmapContentArchive::open("/tmp/a.gfmcontent", content_archive_bytes(&two_postings(false))).unwrap();

    assert_eq!(archive.indexed_terms(), 2);
    assert_eq!(archive.ids_for_term("beta").unwrap(), vec![beta]);
    assert!(archive.ids_for_term("missing").unwrap().is_empty());
}

#[test]
fn mmap_content_archive_reads_terms_without_file_seeks() {
    let beta = FileId::new(VolumeId(4), 15);
    let archive = MmapContentArchive::open("/tmp/m.gfmcontent", content_archive_bytes(&two_postings(true))).unwrap();
    let posting = archive.posting_for_term("beta").unwrap().unwrap();

    assert_eq!(archive.indexed_terms(), 2);
    assert!(archive.mapped_len() > 0);
    assert!(archive.is_checksummed());
    assert_eq!(archive.ids_for_term("beta").unwrap(), vec![beta]);
    assert_eq!(posting.positions[0].positions, vec![8]);
    assert!(archive.ids_for_term("missing").unwrap().is_empty());
}

#[test]
fn mmap_content_archive_normalizes_lookups_and_refuses_legacy() {
    let archive = MmapContentArchive::open("/tmp/n", content_archive_bytes(&two_postings(false))).unwrap();
    assert_eq!(archive.posting_for_term("  BETA ").unwrap().unwrap().term, "beta");
    assert!(archive.posting_for_term("   ").unwrap().is_none());
    let error = MmapContentArchive::open("/tmp/l", b"gfm-content-v1\n\x00".to_vec()).unwrap_err().message();
    assert_eq!(error, "invalid content store /tmp/l: legacy content archives are not mmap indexed");
    let error = MmapContentArchive::open("/tmp/s", b"gfm-content-v2\n\x00".to_vec()).unwrap_err().message();
    assert_eq!(error, "invalid content store /tmp/s: missing content directory footer");
}

#[test]
fn mmap_content_archive_reads_bounded_compressed_posting() {
    let ids = (0..300).map(|node| FileId::new(VolumeId(8), 20_000 + node)).collect::<Vec<_>>();
    let posting = ContentPosting {
        term: "needle".to_string(),
        ids: ids.clone(),
        positions: ids.iter().map(|id| ContentPositions { id: *id, positions: vec![1, 3] }).collect(),
    };

    let archive = MmapContentArchive::open("/tmp/b.gfmcontent", content_archive_bytes(&vec![posting])).unwrap();
    let (bounded, truncated) = archive.posting_for_term_limit("needle", 3).unwrap();
    let bounded = bounded.unwrap();

    assert!(truncated);
    assert_eq!(bounded.ids, ids[..3]);
    assert_eq!(bounded.positions.len(), 3);
    assert_eq!(bounded.positions[0].positions, vec![1, 3]);
    assert_eq!(archive.posting_for_term_limit("missing", 3).unwrap(), (None, false));
}

#[test]
fn mmap_content_archive_reads_bounded_sorted_terms_in_one_pass() {
    let alpha_ids = (0..4).map(|node| FileId::new(VolumeId(8), 30_000 + node)).collect::<Vec<_>>();
    let beta_ids = (0..2).map(|node| FileId::new(VolumeId(8), 40_000 + node)).collect::<Vec<_>>();
    let postings = vec![
        ContentPosting {
            term: "alpha".to_string(),
            ids: alpha_ids.clone(),
            positions: alpha_ids.iter().map(|id| ContentPositions { id: *id, positions: vec![2] }).collect(),
        },
        ContentPosting {
            term: "beta".to_string(),
            ids: beta_ids.clone(),
            positions: beta_ids.iter().map(|id| ContentPositions { id: *id, positions: vec![4] }).collect(),
        },
    ];

    let archive = MmapContentArchive::open("/tmp/batch.gfmcontent", content_archive_bytes(&postings)).unwrap();
    let terms: Vec<String> = ["alpha", "alpha", "beta", "missing"].iter().map(|t| t.to_string()).collect();
    let batch = archive.postings_for_sorted_terms_limit(&terms, 2).unwrap();

    assert_eq!(batch.len(), 2);
    assert_eq!(batch[0].posting.term, "alpha");
    assert_eq!(batch[0].posting.ids, alpha_ids[..2]);
    assert_eq!(batch[0].posting.positions.len(), 2);
    assert!(batch[0].truncated);
    assert_eq!(batch[1].posting.term, "beta");
    assert_eq!(batch[1].posting.ids, beta_ids);
    assert!(!batch[1].truncated);
    let unsorted: Vec<String> = ["beta", "alpha"].iter().map(|t| t.to_string()).collect();
    let error = archive.postings_for_sorted_terms_limit(&unsorted, 2).unwrap_err().message();
    assert_eq!(error, "invalid content store /tmp/batch.gfmcontent: batch content lookup terms must be sorted");
    assert!(archive.postings_for_sorted_terms_limit(&terms, 0).unwrap().is_empty());
}
