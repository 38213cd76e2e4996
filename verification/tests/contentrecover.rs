use gfm_store::contentmerge::ContentMergeTier;
use gfm_store::contentrecover::{
    manifest_recovery_refusal, plan_content_manifest_recovery, recovered_entries, ContentManifestProbe,
    ContentManifestRecoveryAction, ContentManifestState,
};
use gfm_store::contentset::ContentArchiveManifestEntry;
use gfm_store::error::GfmError;

fn entry(path: &str) -> ContentArchiveManifestEntry {
    ContentArchiveManifestEntry { tier: ContentMergeTier::Hot, path: path.to_string() }
}

#[test]
fn missing_manifest_is_written_from_valid_discovered_archives() {
    let discovered = vec![entry("a.gfmcontent"), entry("b.gfmcontent")];
    let probe = ContentManifestProbe {
        manifest: ContentManifestState::Missing,
        manifest_archive_errors: Vec::new(),
        discovered_archive_errors: vec![None, Some("broken".to_string())],
    };
    let plan = plan_content_manifest_recovery("/s/content.gfmmanifest", &discovered, &probe);
    assert_eq!(plan.action, ContentManifestRecoveryAction::WriteDiscoveredManifest);
    let kept = recovered_entries(&plan);
    assert_eq!(kept, vec![entry("a.gfmcontent")]);
}

#[test]
fn refused_manifest_recovery_names_the_manifest() {
    let probe = ContentManifestProbe {
        manifest: ContentManifestState::ProbeFailed("denied".to_string()),
        manifest_archive_errors: Vec::new(),
        discovered_archive_errors: Vec::new(),
    };
    let plan = plan_content_manifest_recovery("/s/m", &Vec::new(), &probe);
    assert_eq!(plan.action, ContentManifestRecoveryAction::CannotRecover);
    match manifest_recovery_refusal("/s/m", &plan) {
        GfmError::Format(m) => {
            assert_eq!(m, "/s/m cannot be recovered: content manifest existence unavailable: denied")
        },
        other => panic!("unexpected {other:?}"),
    }
}
