use gfm_store::contentrecover::{ContentManifestProbe, ContentManifestState};
use gfm_store::rebuild::{plan_archive_rebuilds, ArchiveRebuildInputs, ArchiveRebuildProbes, ArchiveRebuildRoute};
use gfm_store::schema::ArchiveProbe;

fn missing() -> ArchiveProbe {
    ArchiveProbe {
        exists: Ok(false),
        header: Err("not found".to_string()),
        validation: Ok(()),
    }
}

#[test]
fn rebuild_plan_blocks_sidecars_without_records() {
    let inputs = ArchiveRebuildInputs {
        records_path: "/s/missing.gfmidx".to_string(),
        columns_path: "/s/records.gfmcols".to_string(),
        metadata_path: "/s/records.gfmmeta".to_string(),
        prefixes_path: "/s/records.gfmprefix".to_string(),
        substrings_path: "/s/records.gfmsubstr".to_string(),
        fuzzy_path: "/s/records.gfmfuzzy".to_string(),
        dictionary_path: "/s/records.gfmdict".to_string(),
        content_path: "/s/content.gfmcontent".to_string(),
        manifest_path: "/s/content.gfmmanifest".to_string(),
        discovered_content_archives: Vec::new(),
    };
    let probes = ArchiveRebuildProbes {
        records: missing(),
        columns: missing(),
        metadata: missing(),
        prefixes: missing(),
        substrings: missing(),
        fuzzy: missing(),
        dictionary: missing(),
        content: missing(),
        manifest: ContentManifestProbe {
            manifest: ContentManifestState::Missing,
            manifest_archive_errors: Vec::new(),
            discovered_archive_errors: Vec::new(),
        },
    };

    let plan = plan_archive_rebuilds(&inputs, &probes);

    assert_eq!(plan.entries.len(), 9);
    assert_eq!(plan.rebuild_count(), 2);
    assert_eq!(plan.blocked_count(), 7);
    assert_eq!(
        plan.ready_count() + plan.migration_count() + plan.rebuild_count() + plan.recovery_count()
            + plan.blocked_count(),
        9
    );
    assert!(plan.entries.iter().any(|entry| entry.kind == "records"
        && entry.route == ArchiveRebuildRoute::Rebuild
        && entry.source == "filesystem-scan"));
    assert!(plan
        .entries
        .iter()
        .any(|entry| entry.kind == "prefixes" && entry.route == ArchiveRebuildRoute::CannotRecover));
    assert!(plan
        .entries
        .iter()
        .any(|entry| entry.kind == "content-manifest" && entry.route == ArchiveRebuildRoute::CannotRecover));
}
