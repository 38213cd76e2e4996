use gfm_store::cleanup::{ArchiveFileState, ContentArchiveCleanupProbe};
use gfm_store::contentmerge::ContentMergeTier;
use gfm_store::contentset::{
    ContentArchiveCleanupAction, ContentArchiveCleanupPolicy, ContentArchiveManifest,
    ContentArchiveManifestEntry,
};
use gfm_store::error::GfmError;

fn manifest() -> ContentArchiveManifest {
    ContentArchiveManifest::new(vec![ContentArchiveManifestEntry {
        tier: ContentMergeTier::Hot,
        path: "active.gfmcontent".to_string(),
    }])
    .unwrap()
}

fn candidates() -> Vec<String> {
    vec![
        "b-retired.gfmcontent".to_string(),
        "a-retired.gfmcontent".to_string(),
        "active.gfmcontent".to_string(),
        "missing.gfmcontent".to_string(),
    ]
}

fn probe() -> ContentArchiveCleanupProbe {
    ContentArchiveCleanupProbe {
        active: vec![ArchiveFileState::Len(40)],
        candidates: vec![
            ArchiveFileState::Len(20),
            ArchiveFileState::Len(10),
            ArchiveFileState::Len(40),
            ArchiveFileState::Missing,
        ],
    }
}

#[test]
fn cleanup_plan_defers_until_enough_archives_retire() {
    let plan = manifest()
        .plan_inactive_archive_cleanup(
            "/store/content.gfmmanifest",
            &candidates(),
            &ContentArchiveCleanupPolicy {
                min_retired_archives: 3,
                min_retired_bytes: u64::MAX,
                max_cleanup_archives: 1,
            },
            &probe(),
        )
        .unwrap();
    assert_eq!(plan.action, ContentArchiveCleanupAction::Skip);
    assert!(plan.cleanup_archives.is_empty());
    assert_eq!(
        plan.deferred_archives,
        vec!["/store/a-retired.gfmcontent", "/store/b-retired.gfmcontent"]
    );
    assert_eq!(plan.deferred_bytes, 30);
    assert_eq!(plan.cleanup_bytes, 0);
}

#[test]
fn cleanup_plan_batches_retired_archives_in_path_order() {
    let plan = manifest()
        .plan_inactive_archive_cleanup(
            "/store/content.gfmmanifest",
            &candidates(),
            &ContentArchiveCleanupPolicy {
                min_retired_archives: 2,
                min_retired_bytes: u64::MAX,
                max_cleanup_archives: 1,
            },
            &probe(),
        )
        .unwrap();
    assert_eq!(plan.action, ContentArchiveCleanupAction::Cleanup);
    assert_eq!(plan.cleanup_archives, vec!["/store/a-retired.gfmcontent"]);
    assert_eq!(plan.deferred_archives, vec!["/store/b-retired.gfmcontent"]);
    assert_eq!(plan.active_archives, vec!["/store/active.gfmcontent"]);
    assert_eq!(plan.missing_archives, vec!["/store/missing.gfmcontent"]);
    assert_eq!(plan.active_bytes, 40);
    assert_eq!(plan.cleanup_bytes, 10);
    assert_eq!(plan.deferred_bytes, 20);
}

#[test]
fn cleanup_plan_counts_bytes_against_the_threshold() {
    let plan = manifest()
        .plan_inactive_archive_cleanup(
            "/store/content.gfmmanifest",
            &candidates(),
            &ContentArchiveCleanupPolicy {
                min_retired_archives: 10,
                min_retired_bytes: 30,
                max_cleanup_archives: 0,
            },
            &probe(),
        )
        .unwrap();
    // Thirty bytes meet the byte threshold; a maximum of zero still cleans one.
    assert_eq!(plan.cleanup_archives, vec!["/store/a-retired.gfmcontent"]);
    assert_eq!(plan.deferred_archives, vec!["/store/b-retired.gfmcontent"]);
}

#[test]
fn cleanup_plan_stops_at_the_first_unreadable_candidate() {
    let mut p = probe();
    p.candidates[1] = ArchiveFileState::Failed("permission denied".to_string());
    p.candidates[3] = ArchiveFileState::Failed("later".to_string());
    let err = manifest()
        .plan_inactive_archive_cleanup(
            "/store/content.gfmmanifest",
            &candidates(),
            &ContentArchiveCleanupPolicy::default(),
            &p,
        )
        .unwrap_err();
    assert_eq!(
        err,
        GfmError::Io {
            path: "/store/a-retired.gfmcontent".to_string(),
            message: "permission denied".to_string()
        }
    );
}

#[test]
fn cleanup_plan_stops_at_an_unreadable_active_archive() {
    let mut p = probe();
    p.active[0] = ArchiveFileState::Failed("io".to_string());
    let err = manifest()
        .plan_inactive_archive_cleanup(
            "/store/content.gfmmanifest",
            &candidates(),
            &ContentArchiveCleanupPolicy::default(),
            &p,
        )
        .unwrap_err();
    assert_eq!(
        err,
        GfmError::Io {
            path: "/store/active.gfmcontent".to_string(),
            message: "io".to_string()
        }
    );
}

#[test]
fn cleanup_plan_counts_an_active_path_named_twice_once() {
    let manifest = ContentArchiveManifest::new(vec![
        ContentArchiveManifestEntry {
            tier: ContentMergeTier::Hot,
            path: "x.gfmcontent".to_string(),
        },
        ContentArchiveManifestEntry {
            tier: ContentMergeTier::Warm,
            path: "y.gfmcontent".to_string(),
        },
    ])
    .unwrap();
    let plan = manifest
        .plan_inactive_archive_cleanup(
            "/store/content.gfmmanifest",
            &vec!["y.gfmcontent".to_string(), "/store/y.gfmcontent".to_string()],
            &ContentArchiveCleanupPolicy::default(),
            &ContentArchiveCleanupProbe {
                active: vec![ArchiveFileState::Len(5), ArchiveFileState::Missing],
                candidates: vec![ArchiveFileState::Len(1), ArchiveFileState::Len(1)],
            },
        )
        .unwrap();
    assert_eq!(plan.active_bytes, 5);
    assert_eq!(plan.active_archives.len(), 2);
    assert_eq!(plan.action, ContentArchiveCleanupAction::Skip);
}
