use gfm_store::contentmerge::ContentMergeTier;
use gfm_store::contentset::{ContentArchiveManifest, ContentArchiveManifestEntry, ContentManifestPromotionJournal};

fn entry(tier: ContentMergeTier, path: &str) -> ContentArchiveManifestEntry {
    ContentArchiveManifestEntry { tier, path: path.to_string() }
}

fn lines_of(text: &str) -> Vec<String> {
    text.lines().map(|l| l.to_string()).collect()
}

#[test]
fn content_manifest_text_round_trips_and_resolves_relative_paths() {
    let manifest = ContentArchiveManifest::new(vec![
        entry(ContentMergeTier::Hot, "hot.gfmcontent"),
        entry(ContentMergeTier::Warm, "tier/warm.gfmcontent"),
    ])
    .unwrap();
    let text = manifest.to_text().unwrap();
    let reloaded = ContentArchiveManifest::parse_lines("/store/content.gfmmanifest", &lines_of(&text)).unwrap();
    assert_eq!(reloaded, manifest);
    assert_eq!(
        reloaded.resolved_archive_paths("/store/content.gfmmanifest"),
        vec!["/store/hot.gfmcontent", "/store/tier/warm.gfmcontent"]
    );
}

#[test]
fn content_manifest_rejects_duplicate_persisted_paths_with_line_number() {
    let lines = lines_of(
        "gfm-content-manifest-v1\narchive\thot\tactive.gfmcontent\narchive\twarm\tactive.gfmcontent\n",
    );
    let err = ContentArchiveManifest::parse_lines("/store/content.gfmmanifest", &lines).unwrap_err();
    let message = err.message();
    assert!(message.contains("/store/content.gfmmanifest line 3"), "{message}");
    assert!(message.contains("duplicate content archive path `active.gfmcontent`"), "{message}");
}

#[test]
fn content_manifest_promotes_new_archive_and_reports_retirement_state() {
    let manifest = ContentArchiveManifest::new(vec![
        entry(ContentMergeTier::Hot, "hot-a.gfmcontent"),
        entry(ContentMergeTier::Hot, "hot-b.gfmcontent"),
        entry(ContentMergeTier::Warm, "warm-a.gfmcontent"),
    ])
    .unwrap();
    let promotion = manifest
        .promote_archive(
            "/store/content.gfmmanifest",
            entry(ContentMergeTier::Warm, "warm-b.gfmcontent"),
            &vec!["hot-a.gfmcontent".to_string(), "missing.gfmcontent".to_string()],
        )
        .unwrap();
    assert_eq!(promotion.retired_archives, vec!["/store/hot-a.gfmcontent"]);
    assert_eq!(promotion.missing_retirements, vec!["/store/missing.gfmcontent"]);
    assert_eq!(
        promotion.manifest.archives,
        vec![
            entry(ContentMergeTier::Hot, "hot-b.gfmcontent"),
            entry(ContentMergeTier::Warm, "warm-a.gfmcontent"),
            entry(ContentMergeTier::Warm, "warm-b.gfmcontent"),
        ]
    );
}

#[test]
fn promotion_journal_text_round_trips() {
    let previous = ContentArchiveManifest::new(vec![entry(ContentMergeTier::Hot, "hot-a.gfmcontent")]).unwrap();
    let journal = ContentManifestPromotionJournal::new(
        previous,
        entry(ContentMergeTier::Warm, "warm-b.gfmcontent"),
        vec!["hot-a.gfmcontent".to_string()],
    )
    .unwrap();
    let text = journal.to_text();
    let reloaded =
        ContentManifestPromotionJournal::parse_lines("/store/content.gfmpromotion", &lines_of(&text)).unwrap();
    assert_eq!(reloaded, journal);
}

#[test]
fn content_manifest_of_no_archives_is_refused() {
    assert!(ContentArchiveManifest::new(Vec::new()).is_err());
}
