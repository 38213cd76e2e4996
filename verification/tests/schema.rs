use gfm_store::probes::validate_archive_bytes;
use gfm_store::rebuild::{
    plan_derived_sidecar_rebuild, rebuild_backup, rebuild_finish, rebuild_start, DerivedSidecarRebuildAction,
    RebuildStart,
};
use gfm_store::schema::{
    archive_header_from_bytes, inspect_archive_schema, ArchiveHeader, ArchiveProbe, ArchiveSchemaKind,
    ArchiveSchemaStatus,
};
use gfm_store::error::GfmError;
use gfm_store::sidecar::SidecarKind;
use gfm_store::termarchive::prefix_archive_bytes;

fn unavailable() -> ArchiveProbe {
    ArchiveProbe {
        exists: Err("File name too long (os error 36)".to_string()),
        header: Err(String::new()),
        validation: Ok(()),
    }
}

fn current_records() -> ArchiveProbe {
    ArchiveProbe {
        exists: Ok(true),
        header: Ok(ArchiveHeader::FirstLine(Some("gfm-store-v3".to_string()))),
        validation: Ok(()),
    }
}

#[test]
fn archive_schema_inspection_surfaces_path_probe_failures() {
    let path = format!("/tmp/gfm-schema-probe/{}", "archive-schema-unavailable".repeat(64));
    let report = inspect_archive_schema(ArchiveSchemaKind::Records, &path, &unavailable());

    assert_eq!(report.status, ArchiveSchemaStatus::Unreadable);
    assert!(report.detail.as_deref().is_some_and(|detail| detail.contains("archive schema existence unavailable")));
    assert_eq!(report.kind, ArchiveSchemaKind::Records);
    assert_eq!(report.path, path);
    assert!(report.schema.is_none());
}

#[test]
fn derived_sidecar_rebuild_surfaces_sidecar_path_probe_failures() {
    let prefixes = format!("/tmp/gfm-derived/{}", "derived-sidecar-unavailable".repeat(64));
    let plan = plan_derived_sidecar_rebuild(
        "/tmp/gfm-derived/records.gfmidx",
        &current_records(),
        SidecarKind::Prefixes,
        &prefixes,
        &unavailable(),
    );
    assert_eq!(plan.action, DerivedSidecarRebuildAction::Rebuild);
    assert_eq!(plan.sidecar.status, ArchiveSchemaStatus::Unreadable);
    assert!(plan.sidecar.detail.as_deref().is_some_and(|detail| detail.contains("archive schema existence unavailable")));

    let status = plan.sidecar.status;
    let plan = match rebuild_start(&prefixes, plan) {
        RebuildStart::Proceed(plan) => plan,
        _ => panic!("the rebuild should go on"),
    };
    let err = rebuild_backup(&prefixes, SidecarKind::Prefixes, status, Err("File name too long".to_string())).unwrap_err();
    assert!(err.message().contains("derived sidecar existence unavailable"));
    assert_eq!(plan.kind, SidecarKind::Prefixes);
}

#[test]
fn rebuild_decisions_cover_ready_refused_and_finish() {
    let missing = ArchiveProbe { exists: Ok(false), header: Err(String::new()), validation: Ok(()) };
    let refused = plan_derived_sidecar_rebuild("/r", &missing, SidecarKind::Fuzzy, "/s", &missing);
    assert_eq!(refused.action, DerivedSidecarRebuildAction::CannotRebuild);
    match rebuild_start("/s", refused) {
        RebuildStart::Refused(GfmError::Format(m)) => assert!(m.starts_with("/s cannot be rebuilt: ")),
        _ => panic!("a refused plan is refused"),
    }
    assert_eq!(rebuild_backup("/s", SidecarKind::Fuzzy, ArchiveSchemaStatus::Legacy, Ok(true)).unwrap(), Some("legacy"));
    assert_eq!(rebuild_backup("/s", SidecarKind::Fuzzy, ArchiveSchemaStatus::Missing, Ok(false)).unwrap(), None);

    let plan = plan_derived_sidecar_rebuild("/r", &current_records(), SidecarKind::Fuzzy, "/s", &missing);
    let after = inspect_archive_schema(ArchiveSchemaKind::Fuzzy, "/s", &missing);
    let err = rebuild_finish("/s", plan, after, 3, None).unwrap_err();
    assert_eq!(err.message(), "/s rebuild produced missing instead of current schema");
}

#[test]
fn archive_headers_come_from_bytes() {
    assert_eq!(
        archive_header_from_bytes(ArchiveSchemaKind::Records, "/r", b"gfm-store-v3\r\nrest").unwrap(),
        ArchiveHeader::FirstLine(Some("gfm-store-v3".to_string()))
    );
    assert_eq!(archive_header_from_bytes(ArchiveSchemaKind::Records, "/r", b"").unwrap(), ArchiveHeader::FirstLine(None));
    assert_eq!(
        archive_header_from_bytes(ArchiveSchemaKind::ContentManifest, "/m", b"\xff\xfe\n").unwrap_err(),
        "/m: stream did not contain valid UTF-8"
    );
    assert_eq!(
        archive_header_from_bytes(ArchiveSchemaKind::Prefixes, "/p", b"gfm-prefix-v1\nxyz").unwrap(),
        ArchiveHeader::Magic(b"gfm-prefix-v1\nxyz".to_vec())
    );
}

#[test]
fn archives_are_validated_by_their_readers() {
    let good = prefix_archive_bytes(&Vec::new());
    assert!(matches!(validate_archive_bytes(ArchiveSchemaKind::Prefixes, "/p", good.clone()), Some(Ok(()))));
    let mut bad = good;
    let last = bad.len() - 1;
    bad[last - 30] ^= 0xff;
    assert!(matches!(validate_archive_bytes(ArchiveSchemaKind::Prefixes, "/p", bad), Some(Err(_))));
    assert!(validate_archive_bytes(ArchiveSchemaKind::Columns, "/c", Vec::new()).is_none());
}
