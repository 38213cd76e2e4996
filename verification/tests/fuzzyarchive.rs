use gfm_store::fuzzyarchive::{fuzzy_archive_bytes_of, fuzzy_postings_from_bytes, MmapFuzzyArchive};
use gfm_store::postings::FuzzyPosting;

fn strings(items: &[&str]) -> Vec<String> {
    items.iter().map(|s| s.to_string()).collect()
}

fn fuzzy(key: &str, terms: &[&str]) -> FuzzyPosting {
    FuzzyPosting { key: key.to_string(), terms: strings(terms) }
}

fn archive(postings: &[FuzzyPosting]) -> MmapFuzzyArchive {
    let bytes = fuzzy_archive_bytes_of(&postings.to_vec());
    MmapFuzzyArchive::open("/tmp/test.gfmfuzzy", bytes).unwrap()
}

#[test]
fn mmap_fuzzy_archive_reads_candidate_terms() {
    let posting = fuzzy("plan", &["plane", "plans"]);

    let archive = archive(std::slice::from_ref(&posting));

    assert_eq!(archive.terms_for("PLAN").unwrap(), strings(&["plane", "plans"]));
    assert_eq!(archive.terms_for_limit("PLAN", 1).unwrap(), (strings(&["plane"]), true));
    assert_eq!(archive.terms_for_limit("plan", 4).unwrap(), (strings(&["plane", "plans"]), false));
    assert_eq!(archive.postings_for(&strings(&["missing", "PLAN", "plan"])).unwrap(), vec![posting]);
    assert!(archive.is_checksummed());
}

#[test]
fn mmap_fuzzy_archive_reads_bounded_sorted_postings_in_one_pass() {
    let postings = vec![
        fuzzy("aplha", &["alpha", "alphanum", "alphas"]),
        fuzzy("projet", &["project", "projected", "projects", "projectx"]),
    ];

    let archive = archive(&postings);
    let batch = archive
        .postings_for_sorted_keys_limit(&strings(&["", "aplha", "aplha", "missing", "projet"]), 2)
        .unwrap();

    assert_eq!(batch.len(), 2);
    assert_eq!(batch[0].posting.key, "aplha");
    assert_eq!(batch[0].posting.terms, postings[0].terms[..2]);
    assert!(batch[0].truncated);
    assert_eq!(batch[1].posting.key, "projet");
    assert_eq!(batch[1].posting.terms, postings[1].terms[..2]);
    assert!(batch[1].truncated);
    assert!(archive.postings_for_sorted_keys_limit(&strings(&["projet", "aplha"]), 2).is_err());
}

#[test]
fn checksummed_fuzzy_archive_rejects_corruption() {
    let mut bytes = fuzzy_archive_bytes_of(&vec![fuzzy("tagge", &["tagged"])]);
    bytes[13 + 2] ^= 0x10;

    let read_error = fuzzy_postings_from_bytes("/tmp/f", &bytes).unwrap_err().message();
    let mmap_error = MmapFuzzyArchive::open("/tmp/f", bytes).err().unwrap().message();

    assert!(read_error.contains("checksum mismatch"));
    assert!(mmap_error.contains("checksum mismatch"));
}

#[test]
fn fuzzy_archive_writes_normalized_sorted_terms_and_reads_them_back() {
    let bytes = fuzzy_archive_bytes_of(&vec![
        fuzzy("tagge", &[" Tagged ", "", "tagged", "stagged"]),
        fuzzy("md", &["md"]),
    ]);

    let read = fuzzy_postings_from_bytes("/tmp/f", &bytes).unwrap();

    assert_eq!(read, vec![fuzzy("md", &["md"]), fuzzy("tagge", &["stagged", "tagged"])]);
    let archive = MmapFuzzyArchive::open("/tmp/f", bytes).unwrap();
    assert_eq!(archive.postings().unwrap(), read);
    assert_eq!(archive.indexed_keys(), 2);
    assert_eq!(archive.posting_for("").unwrap(), None);
    assert_eq!(archive.terms_for("nope").unwrap(), Vec::<String>::new());
}
