use gfm_store::postings::{PrefixPosting, SubstringPosting};
use gfm_store::termarchive::{prefix_archive_bytes, substring_archive_bytes};
use gfm_store::termindex::{MmapPrefixArchive, MmapSubstringArchive};
use gfm_store::types::{FileId, VolumeId};

fn ids(volume: u64, from: u64, count: u64) -> Vec<FileId> {
    (0..count).map(|node| FileId::new(VolumeId(volume), from + node)).collect()
}

fn strings(items: &[&str]) -> Vec<String> {
    items.iter().map(|s| s.to_string()).collect()
}

fn prefix_archive(postings: &[PrefixPosting]) -> MmapPrefixArchive {
    let bytes = prefix_archive_bytes(&postings.to_vec());
    MmapPrefixArchive::open("/tmp/test.gfmprefix", bytes).unwrap()
}

fn substring_archive(postings: &[SubstringPosting]) -> MmapSubstringArchive {
    let bytes = substring_archive_bytes(&postings.to_vec());
    MmapSubstringArchive::open("/tmp/test.gfmsubstr", bytes).unwrap()
}

#[test]
fn mmap_prefix_archive_reads_one_compressed_id_block() {
    let posting = PrefixPosting { prefix: "pro".to_string(), ids: ids(5, 10_000, 300) };

    let archive = prefix_archive(std::slice::from_ref(&posting));
    let all = archive.ids_for("pro").unwrap();
    let block = archive.id_block_for("pro", 1).unwrap();
    let (limited, truncated) = archive.ids_for_limit("pro", 129).unwrap();
    let (all_limited, all_truncated) = archive.ids_for_limit("pro", 400).unwrap();

    assert_eq!(all, posting.ids);
    assert_eq!(block.len(), 128);
    assert_eq!(block[0], FileId::new(VolumeId(5), 10_128));
    assert!(truncated);
    assert_eq!(limited.len(), 129);
    assert_eq!(limited[0], FileId::new(VolumeId(5), 10_000));
    assert_eq!(limited[128], FileId::new(VolumeId(5), 10_128));
    assert!(!all_truncated);
    assert_eq!(all_limited, posting.ids);
}

#[test]
fn mmap_substring_archive_reads_one_compressed_id_block() {
    let posting = SubstringPosting { gram: "por".to_string(), ids: ids(5, 10_000, 300) };

    let archive = substring_archive(std::slice::from_ref(&posting));
    let all = archive.ids_for("POR").unwrap();
    let block = archive.id_block_for("por", 1).unwrap();
    let (limited, truncated) = archive.ids_for_limit("por", 129).unwrap();

    assert_eq!(all, posting.ids);
    assert_eq!(block.len(), 128);
    assert_eq!(block[0], FileId::new(VolumeId(5), 10_128));
    assert!(truncated);
    assert_eq!(limited.len(), 129);
    assert_eq!(limited[128], FileId::new(VolumeId(5), 10_128));
}

#[test]
fn mmap_prefix_archive_limits_ids_by_volume_without_global_hydration() {
    let mut all = ids(1, 1_000, 192);
    all.extend(ids(2, 2_000, 192));
    all.extend(ids(3, 3_000, 32));
    let posting = PrefixPosting { prefix: "pro".to_string(), ids: all };

    let archive = prefix_archive(std::slice::from_ref(&posting));
    let (volume_two, truncated) = archive.ids_for_volume_limit("pro", VolumeId(2), 130).unwrap();
    let (missing, missing_truncated) = archive.ids_for_volume_limit("pro", VolumeId(9), 130).unwrap();

    assert!(truncated);
    assert_eq!(volume_two.len(), 130);
    assert_eq!(volume_two[0], FileId::new(VolumeId(2), 2_000));
    assert_eq!(volume_two[129], FileId::new(VolumeId(2), 2_129));
    assert!(missing.is_empty());
    assert!(!missing_truncated);
}

#[test]
fn mmap_prefix_archive_reads_limited_ids_for_one_volume() {
    let mut all = ids(1, 1_000, 140);
    all.extend(ids(2, 2_000, 140));
    all.extend(ids(3, 3_000, 5));
    let posting = PrefixPosting { prefix: "pro".to_string(), ids: all };

    let archive = prefix_archive(std::slice::from_ref(&posting));
    let (volume_two, volume_two_truncated) = archive.ids_for_volume_limit("PRO", VolumeId(2), 129).unwrap();
    let (volume_three, volume_three_truncated) = archive.ids_for_volume_limit("pro", VolumeId(3), 129).unwrap();
    let (missing, missing_truncated) = archive.ids_for_volume_limit("pro", VolumeId(9), 129).unwrap();

    assert_eq!(volume_two.len(), 129);
    assert_eq!(volume_two[0], FileId::new(VolumeId(2), 2_000));
    assert_eq!(volume_two[128], FileId::new(VolumeId(2), 2_128));
    assert!(volume_two_truncated);
    assert_eq!(volume_three, ids(3, 3_000, 5));
    assert!(!volume_three_truncated);
    assert!(missing.is_empty());
    assert!(!missing_truncated);
}

#[test]
fn mmap_prefix_archive_reads_all_postings_for_startup_import() {
    let postings = vec![
        PrefixPosting {
            prefix: "pro".to_string(),
            ids: vec![FileId::new(VolumeId(1), 1), FileId::new(VolumeId(2), 2)],
        },
        PrefixPosting { prefix: "proj".to_string(), ids: vec![FileId::new(VolumeId(1), 1)] },
    ];

    let archive = prefix_archive(&postings);

    assert_eq!(archive.postings().unwrap(), postings);
    assert_eq!(archive.postings_for(&strings(&["proj", "missing", "proj"])).unwrap(), vec![postings[1].clone()]);
    assert_eq!(archive.indexed_prefixes(), 2);
    assert!(archive.is_checksummed());
}

#[test]
fn mmap_prefix_archive_reads_bounded_sorted_postings_in_one_pass() {
    let postings = vec![
        PrefixPosting { prefix: "alpha".to_string(), ids: ids(1, 100, 4) },
        PrefixPosting { prefix: "project".to_string(), ids: ids(1, 200, 6) },
    ];

    let archive = prefix_archive(&postings);
    let batch = archive
        .postings_for_sorted_prefixes_limit(&strings(&["alpha", "alpha", "missing", "project"]), 3)
        .unwrap();

    assert_eq!(batch.len(), 2);
    assert_eq!(batch[0].posting.prefix, "alpha");
    assert_eq!(batch[0].posting.ids, postings[0].ids[..3]);
    assert!(batch[0].truncated);
    assert_eq!(batch[1].posting.prefix, "project");
    assert_eq!(batch[1].posting.ids, postings[1].ids[..3]);
    assert!(batch[1].truncated);
    assert!(archive.postings_for_sorted_prefixes_limit(&strings(&["project", "alpha"]), 3).is_err());
}

#[test]
fn mmap_substring_archive_reads_selected_postings_for_startup_import() {
    let postings = vec![
        SubstringPosting {
            gram: "por".to_string(),
            ids: vec![FileId::new(VolumeId(1), 1), FileId::new(VolumeId(2), 2)],
        },
        SubstringPosting { gram: "rep".to_string(), ids: vec![FileId::new(VolumeId(1), 1)] },
    ];

    let archive = substring_archive(&postings);

    assert_eq!(archive.postings().unwrap(), postings);
    assert_eq!(archive.postings_for(&strings(&["rep", "missing", "REP"])).unwrap(), vec![postings[1].clone()]);
}

#[test]
fn mmap_substring_archive_reads_bounded_selected_postings_for_query_import() {
    let postings = vec![
        SubstringPosting { gram: "por".to_string(), ids: ids(1, 1, 8) },
        SubstringPosting {
            gram: "rep".to_string(),
            ids: vec![FileId::new(VolumeId(2), 1), FileId::new(VolumeId(2), 2)],
        },
    ];

    let archive = substring_archive(&postings);
    let limited = archive.postings_for_limit(&strings(&["REP", "missing", "por", "por"]), 3).unwrap();

    assert_eq!(limited.len(), 2);
    assert_eq!(limited[0].gram, "por");
    assert_eq!(limited[0].ids.len(), 3);
    assert_eq!(limited[0].ids[0], FileId::new(VolumeId(1), 1));
    assert_eq!(limited[1], postings[1]);
}

#[test]
fn mmap_substring_archive_reads_bounded_sorted_postings_in_one_pass() {
    let postings = vec![
        SubstringPosting { gram: "alp".to_string(), ids: ids(1, 100, 4) },
        SubstringPosting { gram: "pro".to_string(), ids: ids(1, 200, 6) },
    ];

    let archive = substring_archive(&postings);
    let batch = archive
        .postings_for_sorted_grams_limit(&strings(&["alp", "alp", "bad", "missing", "pro"]), 3)
        .unwrap();

    assert_eq!(batch.len(), 2);
    assert_eq!(batch[0].posting.gram, "alp");
    assert_eq!(batch[0].posting.ids, postings[0].ids[..3]);
    assert!(batch[0].truncated);
    assert_eq!(batch[1].posting.gram, "pro");
    assert_eq!(batch[1].posting.ids, postings[1].ids[..3]);
    assert!(batch[1].truncated);
    assert!(archive.postings_for_sorted_grams_limit(&strings(&["pro", "alp"]), 3).is_err());
}

#[test]
fn mmap_archives_reject_corruption_and_foreign_headers() {
    let mut bytes = prefix_archive_bytes(&vec![PrefixPosting {
        prefix: "pro".to_string(),
        ids: vec![FileId::new(VolumeId(1), 2)],
    }]);
    assert!(MmapSubstringArchive::open("/tmp/x", bytes.clone())
        .err()
        .unwrap()
        .message()
        .contains("unsupported substring header"));
    bytes[14 + 2] ^= 0x10;
    let error = MmapPrefixArchive::open("/tmp/x", bytes).err().unwrap().message();
    assert!(error.contains("checksum mismatch"));
    assert!(MmapPrefixArchive::open("/tmp/x", b"gfm".to_vec()).err().unwrap().message().contains("unsupported prefix header"));
}

#[test]
fn mmap_archive_lookups_of_unlisted_or_refused_terms_are_empty() {
    let archive = prefix_archive(&[PrefixPosting { prefix: "pro".to_string(), ids: ids(1, 1, 3) }]);
    assert_eq!(archive.posting_for("  ").unwrap(), None);
    assert_eq!(archive.posting_for("zzz").unwrap(), None);
    assert_eq!(archive.ids_for_limit("pro", 0).unwrap(), (Vec::new(), false));
    assert_eq!(archive.id_block_for("nope", 0).unwrap(), Vec::new());
    assert_eq!(archive.posting_for(" PRO ").unwrap(), Some(PrefixPosting { prefix: "pro".to_string(), ids: ids(1, 1, 3) }));

    let grams = substring_archive(&[SubstringPosting { gram: "pro".to_string(), ids: ids(1, 1, 3) }]);
    assert_eq!(grams.posting_for("pr").unwrap(), None);
    assert_eq!(grams.indexed_grams(), 1);
}
