use gfm_store::contentmerge::ContentMergeTier;
use gfm_store::contentset::{ContentArchiveManifest, ContentArchiveManifestEntry, ContentManifestPromotionJournal};

#[test]
fn content_archive_manifest_rejects_duplicate_constructed_archive_paths() {
    let err = ContentArchiveManifest::new(vec![
        ContentArchiveManifestEntry {
            tier: ContentMergeTier::Hot,
            path: "active.gfmcontent".to_string(),
        },
        ContentArchiveManifestEntry {
            tier: ContentMergeTier::Warm,
            path: "active.gfmcontent".to_string(),
        },
    ])
    .unwrap_err();

    assert!(err
        .message()
        .contains("content manifest has duplicate archive path `active.gfmcontent`"));
}

#[test]
fn content_promotion_journal_rejects_duplicate_retired_paths() {
    let previous = ContentArchiveManifest::new(vec![ContentArchiveManifestEntry {
        tier: ContentMergeTier::Hot,
        path: "hot-a.gfmcontent".to_string(),
    }])
    .unwrap();

    let err = ContentManifestPromotionJournal::new(
        previous,
        ContentArchiveManifestEntry {
            tier: ContentMergeTier::Warm,
            path: "warm-b.gfmcontent".to_string(),
        },
        vec!["hot-a.gfmcontent".to_string(), "hot-a.gfmcontent".to_string()],
    )
    .unwrap_err();

    assert!(err.message().contains(
        "content promotion journal has duplicate retired archive path `hot-a.gfmcontent`"
    ));
}
