use vstd::prelude::*;

use crate::contentrecover::{
    content_manifest_recovery_action_name, manifest_recovery_action, manifest_recovery_detail,
    plan_content_manifest_recovery, probe_matches, recovery_action_text,
    ContentManifestProbe, ContentManifestRecoveryAction, ContentManifestRecoveryPlan,
};
use crate::contentset::ContentArchiveManifestEntry;
use crate::error::GfmError;
use crate::schema::{
    content_migration_detail, current_schema_name, inspect_archive_schema, inspect_outcome,
    kind_name, plan_content_archive_migration, plan_record_archive_migration,
    record_migration_detail, report_is, status_name, ArchiveProbe, ArchiveSchemaKind,
    ArchiveSchemaReport, ArchiveSchemaStatus, ContentArchiveMigrationAction,
    ContentArchiveMigrationPlan, RecordArchiveMigrationAction, RecordArchiveMigrationPlan,
};
use crate::sidecar::{sidecar_kind_name, sidecar_kind_text, SidecarKind};
use crate::text::{
    decimal, field_or_dash, field_text, opt_chars, or_dash, push_decimal, push_field_or_dash,
    push_or_dash, escape_field,
};

verus! {

/// What rebuilding a derived sidecar will do.
#[derive(Debug, Clone, Copy, PartialEq, Eq, Structural)]
pub enum DerivedSidecarRebuildAction {
    Ready,
    Rebuild,
    CannotRebuild,
}

/// The name of a rebuild action (shared by derived sidecars and columns).
pub open spec fn rebuild_action_text(ready: bool, rebuild: bool) -> Seq<char> {
    if ready {
        "ready"@
    } else if rebuild {
        "rebuild"@
    } else {
        "cannot-rebuild"@
    }
}

/// The name of a derived sidecar rebuild action.
pub open spec fn derived_action_text(action: DerivedSidecarRebuildAction) -> Seq<char> {
    rebuild_action_text(
        action == DerivedSidecarRebuildAction::Ready,
        action == DerivedSidecarRebuildAction::Rebuild,
    )
}

impl DerivedSidecarRebuildAction {
    pub fn as_str(self) -> (s: &'static str)
        ensures
            s@ == derived_action_text(self),
    {
        match self {
            DerivedSidecarRebuildAction::Ready => "ready",
            DerivedSidecarRebuildAction::Rebuild => "rebuild",
            DerivedSidecarRebuildAction::CannotRebuild => "cannot-rebuild",
        }
    }
}

/// The archive kind of a sidecar kind.
pub open spec fn sidecar_archive_kind(kind: SidecarKind) -> ArchiveSchemaKind {
    match kind {
        SidecarKind::Columns => ArchiveSchemaKind::Columns,
        SidecarKind::Metadata => ArchiveSchemaKind::Metadata,
        SidecarKind::Prefixes => ArchiveSchemaKind::Prefixes,
        SidecarKind::Substrings => ArchiveSchemaKind::Substrings,
        SidecarKind::Fuzzy => ArchiveSchemaKind::Fuzzy,
        SidecarKind::Dictionary => ArchiveSchemaKind::Dictionary,
    }
}

/// The archive kind of a sidecar kind.
pub fn archive_kind_for_sidecar(kind: SidecarKind) -> (k: ArchiveSchemaKind)
    ensures
        k == sidecar_archive_kind(kind),
{
    match kind {
        SidecarKind::Columns => ArchiveSchemaKind::Columns,
        SidecarKind::Metadata => ArchiveSchemaKind::Metadata,
        SidecarKind::Prefixes => ArchiveSchemaKind::Prefixes,
        SidecarKind::Substrings => ArchiveSchemaKind::Substrings,
        SidecarKind::Fuzzy => ArchiveSchemaKind::Fuzzy,
        SidecarKind::Dictionary => ArchiveSchemaKind::Dictionary,
    }
}

/// Whether a record archive in `status` can be read.
pub open spec fn records_readable(status: ArchiveSchemaStatus) -> bool {
    status == ArchiveSchemaStatus::Current || status == ArchiveSchemaStatus::Legacy
}

/// The action for a sidecar: nothing can be rebuilt without readable
/// records; a current sidecar is ready; any other is rebuilt.
pub open spec fn derived_action(
    records: ArchiveSchemaStatus,
    sidecar: ArchiveSchemaStatus,
) -> DerivedSidecarRebuildAction {
    if !records_readable(records) {
        DerivedSidecarRebuildAction::CannotRebuild
    } else if sidecar == ArchiveSchemaStatus::Current {
        DerivedSidecarRebuildAction::Ready
    } else {
        DerivedSidecarRebuildAction::Rebuild
    }
}

/// Derived sidecars are rebuilt unless current: with a record archive that
/// reads (current or legacy), a sidecar is ready exactly when it is
/// current, and is rebuilt in every other status (legacy, missing,
/// unsupported, unreadable); with a record archive that is missing,
/// unsupported or unreadable nothing can be rebuilt.
pub proof fn lemma_derived_action_rebuilds_unless_current(
    records: ArchiveSchemaStatus,
    sidecar: ArchiveSchemaStatus,
)
    ensures
        (records == ArchiveSchemaStatus::Current || records == ArchiveSchemaStatus::Legacy) ==> (
        (derived_action(records, sidecar) == DerivedSidecarRebuildAction::Ready <==> sidecar
            == ArchiveSchemaStatus::Current) && (sidecar != ArchiveSchemaStatus::Current ==> derived_action(
            records,
            sidecar,
        ) == DerivedSidecarRebuildAction::Rebuild)),
        (records == ArchiveSchemaStatus::Missing || records == ArchiveSchemaStatus::Unsupported || records
            == ArchiveSchemaStatus::Unreadable) ==> derived_action(records, sidecar)
            == DerivedSidecarRebuildAction::CannotRebuild,
        (records == ArchiveSchemaStatus::Current || records == ArchiveSchemaStatus::Legacy) ==> (columns_action_of(
            derived_action(records, sidecar),
        ) == ColumnsArchiveRebuildAction::Ready <==> sidecar == ArchiveSchemaStatus::Current),
{
}

/// Why a sidecar gets its action.
pub open spec fn derived_detail(
    kind: SidecarKind,
    records: ArchiveSchemaStatus,
    sidecar: ArchiveSchemaStatus,
) -> Seq<char> {
    let name = sidecar_kind_text(kind);
    if !records_readable(records) {
        match records {
            ArchiveSchemaStatus::Missing => "missing record archive prevents derived sidecar rebuild"@,
            ArchiveSchemaStatus::Unsupported => "unsupported record archive prevents derived sidecar rebuild"@,
            _ => "unreadable record archive prevents derived sidecar rebuild"@,
        }
    } else {
        match sidecar {
            ArchiveSchemaStatus::Current => name + " sidecar is already current"@,
            ArchiveSchemaStatus::Legacy => "legacy "@ + name
                + " sidecar is derived data and will be rebuilt from durable records"@,
            ArchiveSchemaStatus::Missing => "missing "@ + name
                + " sidecar will be rebuilt from durable records"@,
            ArchiveSchemaStatus::Unsupported => "unsupported "@ + name
                + " sidecar will be backed up and rebuilt from durable records"@,
            ArchiveSchemaStatus::Unreadable => "unreadable "@ + name
                + " sidecar will be backed up and rebuilt from durable records"@,
        }
    }
}

/// The rebuild plan of one derived sidecar.
#[derive(Debug, Clone, PartialEq, Eq)]
pub struct DerivedSidecarRebuildPlan {
    pub action: DerivedSidecarRebuildAction,
    pub kind: SidecarKind,
    pub records: ArchiveSchemaReport,
    pub sidecar: ArchiveSchemaReport,
    pub detail: Option<String>,
}

impl DerivedSidecarRebuildPlan {
    /// `derived-sidecar-rebuild-plan` line.
    pub fn as_tsv(&self) -> (s: String)
        ensures
            s@ == "derived-sidecar-rebuild-plan\taction="@ + derived_action_text(self.action)
                + "\tkind="@ + sidecar_kind_text(self.kind) + "\trecords-status="@ + status_name(
                self.records.status,
            ) + "\tsidecar-status="@ + status_name(self.sidecar.status) + "\tsidecar-schema="@
                + or_dash(opt_chars(self.sidecar.schema)) + "\tcurrent="@
                + self.sidecar.current_schema@ + "\trecords="@ + field_text(self.records.path@)
                + "\tsidecar="@ + field_text(self.sidecar.path@) + "\tdetail="@ + field_or_dash(
                opt_chars(self.detail),
            ),
    {
        let mut s = String::from_str("derived-sidecar-rebuild-plan\taction=");
        s.append(self.action.as_str());
        s.append("\tkind=");
        s.append(sidecar_kind_name(self.kind));
        s.append("\trecords-status=");
        s.append(self.records.status.as_str());
        s.append("\tsidecar-status=");
        s.append(self.sidecar.status.as_str());
        s.append("\tsidecar-schema=");
        push_or_dash(&mut s, &self.sidecar.schema);
        s.append("\tcurrent=");
        s.append(self.sidecar.current_schema);
        s.append("\trecords=");
        let r = escape_field(self.records.path.as_str());
        s.append(r.as_str());
        s.append("\tsidecar=");
        let p = escape_field(self.sidecar.path.as_str());
        s.append(p.as_str());
        s.append("\tdetail=");
        push_field_or_dash(&mut s, &self.detail);
        s
    }
}

/// The outcome of rebuilding a derived sidecar.
#[derive(Debug, Clone, PartialEq, Eq)]
pub struct DerivedSidecarRebuild {
    pub before: DerivedSidecarRebuildPlan,
    pub after: ArchiveSchemaReport,
    pub rebuilt_records: usize,
    pub backup_path: Option<String>,
}

impl DerivedSidecarRebuild {
    /// `derived-sidecar-rebuild` line.
    pub fn as_tsv(&self) -> (s: String)
        ensures
            s@ == "derived-sidecar-rebuild\trebuilt-records="@ + decimal(
                self.rebuilt_records as nat,
            ) + "\tkind="@ + sidecar_kind_text(self.before.kind) + "\trecords-status="@
                + status_name(self.before.records.status) + "\tbefore-status="@ + status_name(
                self.before.sidecar.status,
            ) + "\tafter-status="@ + status_name(self.after.status) + "\tbackup="@
                + field_or_dash(opt_chars(self.backup_path)) + "\tpath="@ + field_text(
                self.after.path@,
            ),
    {
        let mut s = String::from_str("derived-sidecar-rebuild\trebuilt-records=");
        push_decimal(&mut s, self.rebuilt_records as u64);
        s.append("\tkind=");
        s.append(sidecar_kind_name(self.before.kind));
        s.append("\trecords-status=");
        s.append(self.before.records.status.as_str());
        s.append("\tbefore-status=");
        s.append(self.before.sidecar.status.as_str());
        s.append("\tafter-status=");
        s.append(self.after.status.as_str());
        s.append("\tbackup=");
        push_field_or_dash(&mut s, &self.backup_path);
        s.append("\tpath=");
        let p = escape_field(self.after.path.as_str());
        s.append(p.as_str());
        s
    }
}

/// How an archive gets back to a current state.
#[derive(Debug, Clone, Copy, PartialEq, Eq, Structural)]
pub enum ArchiveRebuildRoute {
    Ready,
    Migrate,
    Rebuild,
    Recover,
    CannotRecover,
}

/// The name of a rebuild route.
pub open spec fn route_text(route: ArchiveRebuildRoute) -> Seq<char> {
    match route {
        ArchiveRebuildRoute::Ready => "ready"@,
        ArchiveRebuildRoute::Migrate => "migrate"@,
        ArchiveRebuildRoute::Rebuild => "rebuild"@,
        ArchiveRebuildRoute::Recover => "recover"@,
        ArchiveRebuildRoute::CannotRecover => "cannot-recover"@,
    }
}

impl ArchiveRebuildRoute {
    pub fn as_str(self) -> (s: &'static str)
        ensures
            s@ == route_text(self),
    {
        match self {
            ArchiveRebuildRoute::Ready => "ready",
            ArchiveRebuildRoute::Migrate => "migrate",
            ArchiveRebuildRoute::Rebuild => "rebuild",
            ArchiveRebuildRoute::Recover => "recover",
            ArchiveRebuildRoute::CannotRecover => "cannot-recover",
        }
    }
}

/// One archive of a store-wide rebuild plan.
#[derive(Debug, Clone, PartialEq, Eq)]
pub struct ArchiveRebuildPlanEntry {
    pub kind: &'static str,
    pub path: String,
    pub status: String,
    pub route: ArchiveRebuildRoute,
    pub source: &'static str,
    pub detail: Option<String>,
}

/// The plain values of a plan entry: kind, path, status, route, source and
/// detail.
pub ghost struct EntryView {
    pub kind: Seq<char>,
    pub path: Seq<char>,
    pub status: Seq<char>,
    pub route: ArchiveRebuildRoute,
    pub source: Seq<char>,
    pub detail: Option<Seq<char>>,
}

/// The plain values of a plan entry.
pub open spec fn entry_view(e: ArchiveRebuildPlanEntry) -> EntryView {
    EntryView {
        kind: e.kind@,
        path: e.path@,
        status: e.status@,
        route: e.route,
        source: e.source@,
        detail: opt_chars(e.detail),
    }
}

/// The `archive-rebuild-entry` line of an entry.
pub open spec fn entry_tsv(e: ArchiveRebuildPlanEntry) -> Seq<char> {
    "archive-rebuild-entry\tkind="@ + e.kind@ + "\troute="@ + route_text(e.route) + "\tstatus="@
        + e.status@ + "\tsource="@ + e.source@ + "\tpath="@ + field_text(e.path@) + "\tdetail="@
        + field_or_dash(opt_chars(e.detail))
}

impl ArchiveRebuildPlanEntry {
    /// `archive-rebuild-entry` line.
    pub fn as_tsv(&self) -> (s: String)
        ensures
            s@ == entry_tsv(*self),
    {
        let mut s = String::from_str("archive-rebuild-entry\tkind=");
        s.append(self.kind);
        s.append("\troute=");
        s.append(self.route.as_str());
        s.append("\tstatus=");
        s.append(self.status.as_str());
        s.append("\tsource=");
        s.append(self.source);
        s.append("\tpath=");
        let p = escape_field(self.path.as_str());
        s.append(p.as_str());
        s.append("\tdetail=");
        push_field_or_dash(&mut s, &self.detail);
        s
    }
}

/// The routes of every archive of a store.
#[derive(Debug, Clone, PartialEq, Eq)]
pub struct ArchiveRebuildPlan {
    pub entries: Vec<ArchiveRebuildPlanEntry>,
}

/// The paths of every archive of a store, and the content archives found
/// beside the content manifest.
#[derive(Debug, Clone, PartialEq, Eq)]
pub struct ArchiveRebuildInputs {
    pub records_path: String,
    pub columns_path: String,
    pub metadata_path: String,
    pub prefixes_path: String,
    pub substrings_path: String,
    pub fuzzy_path: String,
    pub dictionary_path: String,
    pub content_path: String,
    pub manifest_path: String,
    pub discovered_content_archives: Vec<ContentArchiveManifestEntry>,
}

/// What storage tells about every archive of a store.
#[derive(Debug, PartialEq, Eq)]
pub struct ArchiveRebuildProbes {
    pub records: ArchiveProbe,
    pub columns: ArchiveProbe,
    pub metadata: ArchiveProbe,
    pub prefixes: ArchiveProbe,
    pub substrings: ArchiveProbe,
    pub fuzzy: ArchiveProbe,
    pub dictionary: ArchiveProbe,
    pub content: ArchiveProbe,
    pub manifest: ContentManifestProbe,
}

/// How many entries take `route`.
pub open spec fn route_count(entries: Seq<ArchiveRebuildPlanEntry>, route: ArchiveRebuildRoute) -> nat
    decreases entries.len(),
{
    if entries.len() == 0 {
        0
    } else {
        route_count(entries.drop_last(), route) + if entries.last().route == route {
            1nat
        } else {
            0nat
        }
    }
}

/// The `archive-rebuild-plan` header line.
pub open spec fn plan_header(entries: Seq<ArchiveRebuildPlanEntry>) -> Seq<char> {
    "archive-rebuild-plan\tentries="@ + decimal(entries.len()) + "\tready="@ + decimal(
        route_count(entries, ArchiveRebuildRoute::Ready),
    ) + "\tmigrate="@ + decimal(route_count(entries, ArchiveRebuildRoute::Migrate))
        + "\trebuild="@ + decimal(route_count(entries, ArchiveRebuildRoute::Rebuild))
        + "\trecover="@ + decimal(route_count(entries, ArchiveRebuildRoute::Recover))
        + "\tblocked="@ + decimal(route_count(entries, ArchiveRebuildRoute::CannotRecover))
}

proof fn lemma_route_count_bounded(entries: Seq<ArchiveRebuildPlanEntry>, route: ArchiveRebuildRoute)
    ensures
        route_count(entries, route) <= entries.len(),
    decreases entries.len(),
{
    if entries.len() > 0 {
        lemma_route_count_bounded(entries.drop_last(), route);
    }
}

/// Every entry takes exactly one route, so the counts of the five routes
/// add up to the number of entries.
pub proof fn lemma_route_counts_partition(entries: Seq<ArchiveRebuildPlanEntry>)
    ensures
        route_count(entries, ArchiveRebuildRoute::Ready) + route_count(
            entries,
            ArchiveRebuildRoute::Migrate,
        ) + route_count(entries, ArchiveRebuildRoute::Rebuild) + route_count(
            entries,
            ArchiveRebuildRoute::Recover,
        ) + route_count(entries, ArchiveRebuildRoute::CannotRecover) == entries.len(),
    decreases entries.len(),
{
    if entries.len() > 0 {
        lemma_route_counts_partition(entries.drop_last());
    }
}

impl ArchiveRebuildPlan {
    fn count_route(&self, route: ArchiveRebuildRoute) -> (n: usize)
        ensures
            n == route_count(self.entries@, route),
    {
        let mut n: usize = 0;
        let mut i: usize = 0;
        while i < self.entries.len()
            invariant
                i <= self.entries@.len(),
                n == route_count(self.entries@.take(i as int), route),
            decreases self.entries@.len() - i,
        {
            proof {
                assert(self.entries@.take(i as int + 1).drop_last() =~= self.entries@.take(i as int));
                lemma_route_count_bounded(self.entries@.take(i as int), route);
            }
            if self.entries[i].route == route {
                n = n + 1;
            }
            i = i + 1;
        }
        proof {
            assert(self.entries@.take(i as int) =~= self.entries@);
        }
        n
    }

    /// How many archives are ready.
    pub fn ready_count(&self) -> (n: usize)
        ensures
            n == route_count(self.entries@, ArchiveRebuildRoute::Ready),
    {
        self.count_route(ArchiveRebuildRoute::Ready)
    }

    /// How many archives are migrated.
    pub fn migration_count(&self) -> (n: usize)
        ensures
            n == route_count(self.entries@, ArchiveRebuildRoute::Migrate),
    {
        self.count_route(ArchiveRebuildRoute::Migrate)
    }

    /// How many archives are rebuilt.
    pub fn rebuild_count(&self) -> (n: usize)
        ensures
            n == route_count(self.entries@, ArchiveRebuildRoute::Rebuild),
    {
        self.count_route(ArchiveRebuildRoute::Rebuild)
    }

    /// How many archives are recovered.
    pub fn recovery_count(&self) -> (n: usize)
        ensures
            n == route_count(self.entries@, ArchiveRebuildRoute::Recover),
    {
        self.count_route(ArchiveRebuildRoute::Recover)
    }

    /// How many archives cannot be recovered.
    pub fn blocked_count(&self) -> (n: usize)
        ensures
            n == route_count(self.entries@, ArchiveRebuildRoute::CannotRecover),
    {
        self.count_route(ArchiveRebuildRoute::CannotRecover)
    }

    /// The header line, then one line per entry.
    pub fn as_tsv_lines(&self) -> (lines: Vec<String>)
        ensures
            lines@.len() == self.entries@.len() + 1,
            lines@[0]@ == plan_header(self.entries@),
            forall|i: int|
                0 <= i < self.entries@.len() ==> #[trigger] lines@[i + 1]@ == entry_tsv(
                    self.entries@[i],
                ),
    {
        let mut header = String::from_str("archive-rebuild-plan\tentries=");
        push_decimal(&mut header, self.entries.len() as u64);
        header.append("\tready=");
        push_decimal(&mut header, self.ready_count() as u64);
        header.append("\tmigrate=");
        push_decimal(&mut header, self.migration_count() as u64);
        header.append("\trebuild=");
        push_decimal(&mut header, self.rebuild_count() as u64);
        header.append("\trecover=");
        push_decimal(&mut header, self.recovery_count() as u64);
        header.append("\tblocked=");
        push_decimal(&mut header, self.blocked_count() as u64);
        let mut lines: Vec<String> = Vec::new();
        lines.push(header);
        let mut i: usize = 0;
        while i < self.entries.len()
            invariant
                i <= self.entries@.len(),
                lines@.len() == i + 1,
                lines@[0]@ == plan_header(self.entries@),
                forall|k: int| 0 <= k < i ==> #[trigger] lines@[k + 1]@ == entry_tsv(self.entries@[k]),
            decreases self.entries@.len() - i,
        {
            lines.push(self.entries[i].as_tsv());
            i = i + 1;
        }
        lines
    }
}

/// What rebuilding the columns archive will do.
#[derive(Debug, Clone, Copy, PartialEq, Eq, Structural)]
pub enum ColumnsArchiveRebuildAction {
    Ready,
    Rebuild,
    CannotRebuild,
}

/// The name of a columns rebuild action.
pub open spec fn columns_action_text(action: ColumnsArchiveRebuildAction) -> Seq<char> {
    rebuild_action_text(
        action == ColumnsArchiveRebuildAction::Ready,
        action == ColumnsArchiveRebuildAction::Rebuild,
    )
}

impl ColumnsArchiveRebuildAction {
    pub fn as_str(self) -> (s: &'static str)
        ensures
            s@ == columns_action_text(self),
    {
        match self {
            ColumnsArchiveRebuildAction::Ready => "ready",
            ColumnsArchiveRebuildAction::Rebuild => "rebuild",
            ColumnsArchiveRebuildAction::CannotRebuild => "cannot-rebuild",
        }
    }
}

/// The rebuild plan of the columns archive.
#[derive(Debug, Clone, PartialEq, Eq)]
pub struct ColumnsArchiveRebuildPlan {
    pub action: ColumnsArchiveRebuildAction,
    pub records: ArchiveSchemaReport,
    pub columns: ArchiveSchemaReport,
    pub detail: Option<String>,
}

impl ColumnsArchiveRebuildPlan {
    /// `columns-archive-rebuild-plan` line.
    pub fn as_tsv(&self) -> (s: String)
        ensures
            s@ == "columns-archive-rebuild-plan\taction="@ + columns_action_text(self.action)
                + "\trecords-status="@ + status_name(self.records.status) + "\tcolumns-status="@
                + status_name(self.columns.status) + "\tcolumns-schema="@ + or_dash(
                opt_chars(self.columns.schema),
            ) + "\tcurrent="@ + self.columns.current_schema@ + "\trecords="@ + field_text(
                self.records.path@,
            ) + "\tcolumns="@ + field_text(self.columns.path@) + "\tdetail="@ + field_or_dash(
                opt_chars(self.detail),
            ),
    {
        let mut s = String::from_str("columns-archive-rebuild-plan\taction=");
        s.append(self.action.as_str());
        s.append("\trecords-status=");
        s.append(self.records.status.as_str());
        s.append("\tcolumns-status=");
        s.append(self.columns.status.as_str());
        s.append("\tcolumns-schema=");
        push_or_dash(&mut s, &self.columns.schema);
        s.append("\tcurrent=");
        s.append(self.columns.current_schema);
        s.append("\trecords=");
        let r = escape_field(self.records.path.as_str());
        s.append(r.as_str());
        s.append("\tcolumns=");
        let c = escape_field(self.columns.path.as_str());
        s.append(c.as_str());
        s.append("\tdetail=");
        push_field_or_dash(&mut s, &self.detail);
        s
    }
}

/// The outcome of rebuilding the columns archive.
#[derive(Debug, Clone, PartialEq, Eq)]
pub struct ColumnsArchiveRebuild {
    pub before: ColumnsArchiveRebuildPlan,
    pub after: ArchiveSchemaReport,
    pub rebuilt_records: usize,
    pub backup_path: Option<String>,
}

impl ColumnsArchiveRebuild {
    /// `columns-archive-rebuild` line.
    pub fn as_tsv(&self) -> (s: String)
        ensures
            s@ == "columns-archive-rebuild\trebuilt-records="@ + decimal(
                self.rebuilt_records as nat,
            ) + "\trecords-status="@ + status_name(self.before.records.status)
                + "\tbefore-status="@ + status_name(self.before.columns.status)
                + "\tafter-status="@ + status_name(self.after.status) + "\tbackup="@
                + field_or_dash(opt_chars(self.backup_path)) + "\tpath="@ + field_text(
                self.after.path@,
            ),
    {
        let mut s = String::from_str("columns-archive-rebuild\trebuilt-records=");
        push_decimal(&mut s, self.rebuilt_records as u64);
        s.append("\trecords-status=");
        s.append(self.before.records.status.as_str());
        s.append("\tbefore-status=");
        s.append(self.before.columns.status.as_str());
        s.append("\tafter-status=");
        s.append(self.after.status.as_str());
        s.append("\tbackup=");
        push_field_or_dash(&mut s, &self.backup_path);
        s.append("\tpath=");
        let p = escape_field(self.after.path.as_str());
        s.append(p.as_str());
        s
    }
}

/// The rebuild plan for a sidecar of `kind`, from the reports on the record
/// archive and on the sidecar.
pub fn derived_plan_from_reports(
    records: ArchiveSchemaReport,
    kind: SidecarKind,
    sidecar: ArchiveSchemaReport,
) -> (plan: DerivedSidecarRebuildPlan)
    ensures
        plan.records == records,
        plan.sidecar == sidecar,
        plan.kind == kind,
        plan.action == derived_action(records.status, sidecar.status),
        opt_chars(plan.detail) == Some(derived_detail(kind, records.status, sidecar.status)),
{
    let readable = match records.status {
        ArchiveSchemaStatus::Current | ArchiveSchemaStatus::Legacy => true,
        _ => false,
    };
    let (action, detail) = if !readable {
        let d = match records.status {
            ArchiveSchemaStatus::Missing => String::from_str(
                "missing record archive prevents derived sidecar rebuild",
            ),
            ArchiveSchemaStatus::Unsupported => String::from_str(
                "unsupported record archive prevents derived sidecar rebuild",
            ),
            _ => String::from_str("unreadable record archive prevents derived sidecar rebuild"),
        };
        (DerivedSidecarRebuildAction::CannotRebuild, d)
    } else {
        let name = sidecar_kind_name(kind);
        match sidecar.status {
            ArchiveSchemaStatus::Current => {
                let mut d = String::from_str(name);
                d.append(" sidecar is already current");
                (DerivedSidecarRebuildAction::Ready, d)
            },
            ArchiveSchemaStatus::Legacy => {
                let mut d = String::from_str("legacy ");
                d.append(name);
                d.append(" sidecar is derived data and will be rebuilt from durable records");
                (DerivedSidecarRebuildAction::Rebuild, d)
            },
            ArchiveSchemaStatus::Missing => {
                let mut d = String::from_str("missing ");
                d.append(name);
                d.append(" sidecar will be rebuilt from durable records");
                (DerivedSidecarRebuildAction::Rebuild, d)
            },
            ArchiveSchemaStatus::Unsupported => {
                let mut d = String::from_str("unsupported ");
                d.append(name);
                d.append(" sidecar will be backed up and rebuilt from durable records");
                (DerivedSidecarRebuildAction::Rebuild, d)
            },
            ArchiveSchemaStatus::Unreadable => {
                let mut d = String::from_str("unreadable ");
                d.append(name);
                d.append(" sidecar will be backed up and rebuilt from durable records");
                (DerivedSidecarRebuildAction::Rebuild, d)
            },
        }
    };
    DerivedSidecarRebuildPlan { action, kind, records, sidecar, detail: Some(detail) }
}

/// Plans the rebuild of the sidecar of `kind` at `sidecar_path` from the
/// record archive at `records_path`, with `records_probe` and
/// `sidecar_probe` what storage tells about the two archives.
pub fn plan_derived_sidecar_rebuild(
    records_path: &str,
    records_probe: &ArchiveProbe,
    kind: SidecarKind,
    sidecar_path: &str,
    sidecar_probe: &ArchiveProbe,
) -> (plan: DerivedSidecarRebuildPlan)
    ensures
        report_is(
            plan.records,
            ArchiveSchemaKind::Records,
            records_path@,
            inspect_outcome(ArchiveSchemaKind::Records, *records_probe),
        ),
        report_is(
            plan.sidecar,
            sidecar_archive_kind(kind),
            sidecar_path@,
            inspect_outcome(sidecar_archive_kind(kind), *sidecar_probe),
        ),
        plan.kind == kind,
        plan.action == derived_action(plan.records.status, plan.sidecar.status),
        opt_chars(plan.detail) == Some(
            derived_detail(kind, plan.records.status, plan.sidecar.status),
        ),
{
    let records = inspect_archive_schema(ArchiveSchemaKind::Records, records_path, records_probe);
    let sidecar = inspect_archive_schema(archive_kind_for_sidecar(kind), sidecar_path, sidecar_probe);
    derived_plan_from_reports(records, kind, sidecar)
}

/// The columns action of a derived sidecar action.
pub open spec fn columns_action_of(action: DerivedSidecarRebuildAction) -> ColumnsArchiveRebuildAction {
    match action {
        DerivedSidecarRebuildAction::Ready => ColumnsArchiveRebuildAction::Ready,
        DerivedSidecarRebuildAction::Rebuild => ColumnsArchiveRebuildAction::Rebuild,
        DerivedSidecarRebuildAction::CannotRebuild => ColumnsArchiveRebuildAction::CannotRebuild,
    }
}

/// The columns action of a derived sidecar action.
pub fn columns_action_from_derived(action: DerivedSidecarRebuildAction) -> (a:
    ColumnsArchiveRebuildAction)
    ensures
        a == columns_action_of(action),
{
    match action {
        DerivedSidecarRebuildAction::Ready => ColumnsArchiveRebuildAction::Ready,
        DerivedSidecarRebuildAction::Rebuild => ColumnsArchiveRebuildAction::Rebuild,
        DerivedSidecarRebuildAction::CannotRebuild => ColumnsArchiveRebuildAction::CannotRebuild,
    }
}

/// The columns plan of a derived plan for the columns sidecar.
pub fn columns_plan_from_derived(plan: DerivedSidecarRebuildPlan) -> (c: ColumnsArchiveRebuildPlan)
    ensures
        c.action == columns_action_of(plan.action),
        c.records == plan.records,
        c.columns == plan.sidecar,
        c.detail == plan.detail,
{
    ColumnsArchiveRebuildPlan {
        action: columns_action_from_derived(plan.action),
        records: plan.records,
        columns: plan.sidecar,
        detail: plan.detail,
    }
}

/// Plans the rebuild of the columns archive at `columns_path` from the
/// record archive at `records_path`.
pub fn plan_columns_archive_rebuild(
    records_path: &str,
    records_probe: &ArchiveProbe,
    columns_path: &str,
    columns_probe: &ArchiveProbe,
) -> (plan: ColumnsArchiveRebuildPlan)
    ensures
        report_is(
            plan.records,
            ArchiveSchemaKind::Records,
            records_path@,
            inspect_outcome(ArchiveSchemaKind::Records, *records_probe),
        ),
        report_is(
            plan.columns,
            ArchiveSchemaKind::Columns,
            columns_path@,
            inspect_outcome(ArchiveSchemaKind::Columns, *columns_probe),
        ),
        plan.action == columns_action_of(derived_action(plan.records.status, plan.columns.status)),
        opt_chars(plan.detail) == Some(
            derived_detail(SidecarKind::Columns, plan.records.status, plan.columns.status),
        ),
{
    let plan = plan_derived_sidecar_rebuild(
        records_path,
        records_probe,
        SidecarKind::Columns,
        columns_path,
        columns_probe,
    );
    columns_plan_from_derived(plan)
}

/// The message of a refused derived sidecar rebuild.
pub open spec fn rebuild_refusal_text(sidecar_path: Seq<char>, detail: Option<Seq<char>>) -> Seq<char> {
    sidecar_path + " cannot be rebuilt: "@ + match detail {
        Some(d) => d,
        None => "record archive is not readable"@,
    }
}

/// The error a rebuild that its plan refuses returns.
pub fn rebuild_refusal(sidecar_path: &str, plan: &DerivedSidecarRebuildPlan) -> (e: GfmError)
    ensures
        e matches GfmError::Format(m) && m@ == rebuild_refusal_text(
            sidecar_path@,
            opt_chars(plan.detail),
        ),
{
    let mut m = String::from_str(sidecar_path);
    m.append(" cannot be rebuilt: ");
    match &plan.detail {
        Some(d) => m.append(d.as_str()),
        None => m.append("record archive is not readable"),
    }
    GfmError::Format(m)
}

/// The label of the backup of a sidecar that is rebuilt over.
pub open spec fn backup_label_text(kind: SidecarKind, status: ArchiveSchemaStatus) -> Seq<char> {
    match status {
        ArchiveSchemaStatus::Legacy => "legacy"@,
        ArchiveSchemaStatus::Unsupported => "unsupported"@,
        ArchiveSchemaStatus::Unreadable => "unreadable"@,
        _ => sidecar_kind_text(kind),
    }
}

/// The label of the backup of a sidecar in `status` that is rebuilt over.
pub fn backup_label(kind: SidecarKind, status: ArchiveSchemaStatus) -> (s: &'static str)
    ensures
        s@ == backup_label_text(kind, status),
{
    match status {
        ArchiveSchemaStatus::Legacy => "legacy",
        ArchiveSchemaStatus::Unsupported => "unsupported",
        ArchiveSchemaStatus::Unreadable => "unreadable",
        _ => sidecar_kind_name(kind),
    }
}

/// The message of a rebuild that did not produce a current sidecar.
pub open spec fn not_current_text(sidecar_path: Seq<char>, status: ArchiveSchemaStatus) -> Seq<char> {
    sidecar_path + " rebuild produced "@ + status_name(status) + " instead of current schema"@
}

/// Accepts a rebuilt sidecar only in the current schema.
pub fn check_rebuilt_sidecar(sidecar_path: &str, after: &ArchiveSchemaReport) -> (r: Result<(), GfmError>)
    ensures
        after.status == ArchiveSchemaStatus::Current <==> r is Ok,
        r matches Err(e) ==> (e matches GfmError::Format(m) && m@ == not_current_text(
            sidecar_path@,
            after.status,
        )),
{
    match after.status {
        ArchiveSchemaStatus::Current => Ok(()),
        _ => {
            let mut m = String::from_str(sidecar_path);
            m.append(" rebuild produced ");
            m.append(after.status.as_str());
            m.append(" instead of current schema");
            Err(GfmError::Format(m))
        },
    }
}

/// How a sidecar rebuild goes on after its plan: finished at once, refused,
/// or going on with the plan.
pub enum RebuildStart {
    /// The sidecar was ready; nothing was written.
    Finished(DerivedSidecarRebuild),
    /// The plan refuses the rebuild.
    Refused(GfmError),
    /// The sidecar is to be rebuilt.
    Proceed(DerivedSidecarRebuildPlan),
}

/// `x` reports a ready sidecar of `plan` as it is: the plan, the sidecar's
/// report, no record rebuilt and no backup.
pub open spec fn ready_rebuild(plan: DerivedSidecarRebuildPlan, x: DerivedSidecarRebuild) -> bool {
    &&& x.before == plan
    &&& x.after.kind == plan.sidecar.kind
    &&& x.after.path@ == plan.sidecar.path@
    &&& x.after.status == plan.sidecar.status
    &&& opt_chars(x.after.schema) == opt_chars(plan.sidecar.schema)
    &&& x.after.current_schema == plan.sidecar.current_schema
    &&& opt_chars(x.after.detail) == opt_chars(plan.sidecar.detail)
    &&& x.rebuilt_records == 0
    &&& x.backup_path is None
}

/// The first decision of a rebuild of the sidecar at `path` under `plan`.
pub open spec fn start_decision(path: Seq<char>, plan: DerivedSidecarRebuildPlan, r: RebuildStart) -> bool {
    match plan.action {
        DerivedSidecarRebuildAction::Ready => r matches RebuildStart::Finished(x) && ready_rebuild(plan, x),
        DerivedSidecarRebuildAction::CannotRebuild => r matches RebuildStart::Refused(e) && (e matches GfmError::Format(
            m,
        ) && m@ == rebuild_refusal_text(path, opt_chars(plan.detail))),
        DerivedSidecarRebuildAction::Rebuild => r matches RebuildStart::Proceed(p) && p == plan,
    }
}

/// The first decision of a sidecar rebuild, from its plan: a ready sidecar
/// is reported as it is, with no record rebuilt and no backup; one that
/// cannot be rebuilt is refused; otherwise the rebuild goes on.
pub fn rebuild_start(sidecar_path: &str, plan: DerivedSidecarRebuildPlan) -> (r: RebuildStart)
    ensures
        start_decision(sidecar_path@, plan, r),
{
    match plan.action {
        DerivedSidecarRebuildAction::Ready => {
            let after = plan.sidecar.copy();
            RebuildStart::Finished(DerivedSidecarRebuild { before: plan, after, rebuilt_records: 0, backup_path: None })
        },
        DerivedSidecarRebuildAction::CannotRebuild => RebuildStart::Refused(rebuild_refusal(sidecar_path, &plan)),
        DerivedSidecarRebuildAction::Rebuild => RebuildStart::Proceed(plan),
    }
}

/// What a rebuild does about the sidecar at `path`, once storage has told
/// whether it is present: an error where that could not be told, a backup
/// under its label where it is present, nothing where it is not.
pub open spec fn backup_decision(
    path: Seq<char>,
    kind: SidecarKind,
    status: ArchiveSchemaStatus,
    present: Result<bool, String>,
    r: Result<Option<&'static str>, GfmError>,
) -> bool {
    match present {
        Err(e) => r matches Err(g) && (g matches GfmError::Io { path: p, message } && p@ == path && message@
            == "derived sidecar existence unavailable: "@ + e@),
        Ok(true) => r matches Ok(Some(l)) && l@ == backup_label_text(kind, status),
        Ok(false) => r matches Ok(None),
    }
}

/// What a rebuild does about an existing sidecar (see `backup_decision`).
pub fn rebuild_backup(
    sidecar_path: &str,
    kind: SidecarKind,
    status: ArchiveSchemaStatus,
    present: Result<bool, String>,
) -> (r: Result<Option<&'static str>, GfmError>)
    ensures
        backup_decision(sidecar_path@, kind, status, present, r),
{
    match present {
        Err(e) => {
            let mut message = String::from_str("derived sidecar existence unavailable: ");
            message.append(e.as_str());
            Err(GfmError::Io { path: sidecar_path.to_string(), message })
        },
        Ok(true) => Ok(Some(backup_label(kind, status))),
        Ok(false) => Ok(None),
    }
}

/// The outcome of a rebuild of the sidecar at `path` once it is written and
/// inspected again as `after`.
pub open spec fn finish_decision(
    path: Seq<char>,
    before: DerivedSidecarRebuildPlan,
    after: ArchiveSchemaReport,
    rebuilt_records: usize,
    backup_path: Option<String>,
    r: Result<DerivedSidecarRebuild, GfmError>,
) -> bool {
    if after.status == ArchiveSchemaStatus::Current {
        r matches Ok(x) && x.before == before && x.after == after && x.rebuilt_records == rebuilt_records
            && x.backup_path == backup_path
    } else {
        r matches Err(e) && (e matches GfmError::Format(m) && m@ == not_current_text(path, after.status))
    }
}

/// The outcome of a rebuild once the sidecar is written and inspected
/// again: accepted only in the current schema.
pub fn rebuild_finish(
    sidecar_path: &str,
    before: DerivedSidecarRebuildPlan,
    after: ArchiveSchemaReport,
    rebuilt_records: usize,
    backup_path: Option<String>,
) -> (r: Result<DerivedSidecarRebuild, GfmError>)
    ensures
        finish_decision(sidecar_path@, before, after, rebuilt_records, backup_path, r),
{
    match check_rebuilt_sidecar(sidecar_path, &after) {
        Ok(()) => Ok(DerivedSidecarRebuild { before, after, rebuilt_records, backup_path }),
        Err(e) => Err(e),
    }
}

/// The route of an archive whose migration action is `ready`/`migrate` or
/// neither, in `status`: an archive that cannot be migrated is rebuilt
/// where it is missing or unreadable, and blocked otherwise.
pub open spec fn migration_route(ready: bool, migrate: bool, status: ArchiveSchemaStatus) -> ArchiveRebuildRoute {
    if ready {
        ArchiveRebuildRoute::Ready
    } else if migrate {
        ArchiveRebuildRoute::Migrate
    } else if status == ArchiveSchemaStatus::Missing || status == ArchiveSchemaStatus::Unreadable {
        ArchiveRebuildRoute::Rebuild
    } else {
        ArchiveRebuildRoute::CannotRecover
    }
}

/// The source of a record archive on `route`.
pub open spec fn record_source(route: ArchiveRebuildRoute) -> Seq<char> {
    match route {
        ArchiveRebuildRoute::Ready => "current-records"@,
        ArchiveRebuildRoute::Migrate => "legacy-records"@,
        ArchiveRebuildRoute::Rebuild => "filesystem-scan"@,
        _ => "operator"@,
    }
}

/// The source of a content archive on `route`.
pub open spec fn content_source(route: ArchiveRebuildRoute) -> Seq<char> {
    match route {
        ArchiveRebuildRoute::Ready => "current-content"@,
        ArchiveRebuildRoute::Migrate => "legacy-content"@,
        ArchiveRebuildRoute::Rebuild => "extraction-segments"@,
        _ => "operator"@,
    }
}

/// The source of a derived sidecar on `route`.
pub open spec fn sidecar_source(route: ArchiveRebuildRoute) -> Seq<char> {
    match route {
        ArchiveRebuildRoute::Ready => "current-sidecar"@,
        ArchiveRebuildRoute::Rebuild => "durable-records"@,
        _ => "operator"@,
    }
}

/// The source of the content manifest on `route`.
pub open spec fn manifest_source(route: ArchiveRebuildRoute) -> Seq<char> {
    match route {
        ArchiveRebuildRoute::Ready => "current-manifest"@,
        ArchiveRebuildRoute::Recover => "validated-content-archives"@,
        _ => "operator"@,
    }
}

/// The entry of the record archive at `path` in `status`.
pub open spec fn record_entry(path: Seq<char>, status: ArchiveSchemaStatus) -> EntryView {
    let route = migration_route(
        status == ArchiveSchemaStatus::Current,
        status == ArchiveSchemaStatus::Legacy,
        status,
    );
    EntryView {
        kind: kind_name(ArchiveSchemaKind::Records),
        path,
        status: status_name(status),
        route,
        source: record_source(route),
        detail: Some(record_migration_detail(status)),
    }
}

/// The entry of the content archive at `path` in `status`.
pub open spec fn content_entry(path: Seq<char>, status: ArchiveSchemaStatus) -> EntryView {
    let route = migration_route(
        status == ArchiveSchemaStatus::Current,
        status == ArchiveSchemaStatus::Legacy,
        status,
    );
    EntryView {
        kind: kind_name(ArchiveSchemaKind::Content),
        path,
        status: status_name(status),
        route,
        source: content_source(route),
        detail: Some(content_migration_detail(status)),
    }
}

/// The route of a derived sidecar with a rebuild action.
pub open spec fn derived_route(action: DerivedSidecarRebuildAction) -> ArchiveRebuildRoute {
    match action {
        DerivedSidecarRebuildAction::Ready => ArchiveRebuildRoute::Ready,
        DerivedSidecarRebuildAction::Rebuild => ArchiveRebuildRoute::Rebuild,
        DerivedSidecarRebuildAction::CannotRebuild => ArchiveRebuildRoute::CannotRecover,
    }
}

/// The entry of the sidecar of `kind` at `path` in `sidecar`, beside a
/// record archive in `records`.
pub open spec fn derived_entry(
    kind: SidecarKind,
    path: Seq<char>,
    records: ArchiveSchemaStatus,
    sidecar: ArchiveSchemaStatus,
) -> EntryView {
    let route = derived_route(derived_action(records, sidecar));
    EntryView {
        kind: sidecar_kind_text(kind),
        path,
        status: status_name(sidecar),
        route,
        source: sidecar_source(route),
        detail: Some(derived_detail(kind, records, sidecar)),
    }
}

/// In a store rebuild plan, a derived sidecar beside a readable record
/// archive is routed ready exactly when it is current, and to a rebuild
/// otherwise.
pub proof fn lemma_derived_route_rebuilds_unless_current(
    kind: SidecarKind,
    path: Seq<char>,
    records: ArchiveSchemaStatus,
    sidecar: ArchiveSchemaStatus,
)
    requires
        records == ArchiveSchemaStatus::Current || records == ArchiveSchemaStatus::Legacy,
    ensures
        (derived_entry(kind, path, records, sidecar).route == ArchiveRebuildRoute::Ready) <==> sidecar
            == ArchiveSchemaStatus::Current,
        sidecar != ArchiveSchemaStatus::Current ==> derived_entry(kind, path, records, sidecar).route
            == ArchiveRebuildRoute::Rebuild,
{
    lemma_derived_action_rebuilds_unless_current(records, sidecar);
}

/// The route of the content manifest with a recovery action.
pub open spec fn manifest_route(action: ContentManifestRecoveryAction) -> ArchiveRebuildRoute {
    match action {
        ContentManifestRecoveryAction::Ready => ArchiveRebuildRoute::Ready,
        ContentManifestRecoveryAction::CannotRecover => ArchiveRebuildRoute::CannotRecover,
        _ => ArchiveRebuildRoute::Recover,
    }
}

/// The entry of the content manifest at `path` whose recovery takes
/// `action` with `detail`.
pub open spec fn manifest_entry(
    path: Seq<char>,
    action: ContentManifestRecoveryAction,
    detail: Option<Seq<char>>,
) -> EntryView {
    let route = manifest_route(action);
    EntryView {
        kind: kind_name(ArchiveSchemaKind::ContentManifest),
        path,
        status: recovery_action_text(action),
        route,
        source: manifest_source(route),
        detail,
    }
}

fn record_rebuild_entry(plan: RecordArchiveMigrationPlan) -> (e: ArchiveRebuildPlanEntry)
    requires
        plan.action == crate::schema::record_migration_action(plan.before.status),
        opt_chars(plan.detail) == Some(record_migration_detail(plan.before.status)),
    ensures
        entry_view(e) == record_entry(plan.before.path@, plan.before.status),
{
    let status = plan.before.status;
    let route = match plan.action {
        RecordArchiveMigrationAction::Ready => ArchiveRebuildRoute::Ready,
        RecordArchiveMigrationAction::Migrate => ArchiveRebuildRoute::Migrate,
        RecordArchiveMigrationAction::CannotMigrate => match status {
            ArchiveSchemaStatus::Missing | ArchiveSchemaStatus::Unreadable => ArchiveRebuildRoute::Rebuild,
            _ => ArchiveRebuildRoute::CannotRecover,
        },
    };
    let source = match route {
        ArchiveRebuildRoute::Ready => "current-records",
        ArchiveRebuildRoute::Migrate => "legacy-records",
        ArchiveRebuildRoute::Rebuild => "filesystem-scan",
        _ => "operator",
    };
    ArchiveRebuildPlanEntry {
        kind: ArchiveSchemaKind::Records.as_str(),
        path: plan.before.path,
        status: String::from_str(status.as_str()),
        route,
        source,
        detail: plan.detail,
    }
}

fn content_rebuild_entry(plan: ContentArchiveMigrationPlan) -> (e: ArchiveRebuildPlanEntry)
    requires
        plan.action == crate::schema::content_migration_action(plan.before.status),
        opt_chars(plan.detail) == Some(content_migration_detail(plan.before.status)),
    ensures
        entry_view(e) == content_entry(plan.before.path@, plan.before.status),
{
    let status = plan.before.status;
    let route = match plan.action {
        ContentArchiveMigrationAction::Ready => ArchiveRebuildRoute::Ready,
        ContentArchiveMigrationAction::Migrate => ArchiveRebuildRoute::Migrate,
        ContentArchiveMigrationAction::CannotMigrate => match status {
            ArchiveSchemaStatus::Missing | ArchiveSchemaStatus::Unreadable => ArchiveRebuildRoute::Rebuild,
            _ => ArchiveRebuildRoute::CannotRecover,
        },
    };
    let source = match route {
        ArchiveRebuildRoute::Ready => "current-content",
        ArchiveRebuildRoute::Migrate => "legacy-content",
        ArchiveRebuildRoute::Rebuild => "extraction-segments",
        _ => "operator",
    };
    ArchiveRebuildPlanEntry {
        kind: ArchiveSchemaKind::Content.as_str(),
        path: plan.before.path,
        status: String::from_str(status.as_str()),
        route,
        source,
        detail: plan.detail,
    }
}

fn derived_rebuild_entry(plan: DerivedSidecarRebuildPlan) -> (e: ArchiveRebuildPlanEntry)
    requires
        plan.action == derived_action(plan.records.status, plan.sidecar.status),
        opt_chars(plan.detail) == Some(
            derived_detail(plan.kind, plan.records.status, plan.sidecar.status),
        ),
    ensures
        entry_view(e) == derived_entry(
            plan.kind,
            plan.sidecar.path@,
            plan.records.status,
            plan.sidecar.status,
        ),
{
    let route = match plan.action {
        DerivedSidecarRebuildAction::Ready => ArchiveRebuildRoute::Ready,
        DerivedSidecarRebuildAction::Rebuild => ArchiveRebuildRoute::Rebuild,
        DerivedSidecarRebuildAction::CannotRebuild => ArchiveRebuildRoute::CannotRecover,
    };
    let source = match route {
        ArchiveRebuildRoute::Ready => "current-sidecar",
        ArchiveRebuildRoute::Rebuild => "durable-records",
        _ => "operator",
    };
    ArchiveRebuildPlanEntry {
        kind: sidecar_kind_name(plan.kind),
        path: plan.sidecar.path,
        status: String::from_str(plan.sidecar.status.as_str()),
        route,
        source,
        detail: plan.detail,
    }
}

fn content_manifest_rebuild_entry(plan: ContentManifestRecoveryPlan) -> (e: ArchiveRebuildPlanEntry)
    ensures
        entry_view(e) == manifest_entry(plan.manifest_path@, plan.action, opt_chars(plan.detail)),
{
    let route = match plan.action {
        ContentManifestRecoveryAction::Ready => ArchiveRebuildRoute::Ready,
        ContentManifestRecoveryAction::CannotRecover => ArchiveRebuildRoute::CannotRecover,
        _ => ArchiveRebuildRoute::Recover,
    };
    let source = match route {
        ArchiveRebuildRoute::Ready => "current-manifest",
        ArchiveRebuildRoute::Recover => "validated-content-archives",
        _ => "operator",
    };
    ArchiveRebuildPlanEntry {
        kind: ArchiveSchemaKind::ContentManifest.as_str(),
        path: plan.manifest_path,
        status: String::from_str(content_manifest_recovery_action_name(plan.action)),
        route,
        source,
        detail: plan.detail,
    }
}

/// The status an inspection of `kind` finds from `probe`.
pub open spec fn probed_status(kind: ArchiveSchemaKind, probe: ArchiveProbe) -> ArchiveSchemaStatus {
    inspect_outcome(kind, probe).status
}

/// The entry of the sidecar of `kind` at `path` probed by `probe`, beside
/// the record archive probed by `records`.
pub open spec fn probed_derived_entry(
    kind: SidecarKind,
    path: Seq<char>,
    records: ArchiveProbe,
    probe: ArchiveProbe,
) -> EntryView {
    derived_entry(
        kind,
        path,
        probed_status(ArchiveSchemaKind::Records, records),
        probed_status(sidecar_archive_kind(kind), probe),
    )
}

/// Plans how every archive of a store gets back to a current state: the
/// record archive, the six derived sidecars, the content archive and the
/// content manifest, in that order.
pub fn plan_archive_rebuilds(inputs: &ArchiveRebuildInputs, probes: &ArchiveRebuildProbes) -> (plan:
    ArchiveRebuildPlan)
    requires
        probe_matches(probes.manifest, inputs.discovered_content_archives@),
    ensures
        plan.entries@.len() == 9,
        entry_view(plan.entries@[0]) == record_entry(
            inputs.records_path@,
            probed_status(ArchiveSchemaKind::Records, probes.records),
        ),
        entry_view(plan.entries@[1]) == probed_derived_entry(
            SidecarKind::Columns,
            inputs.columns_path@,
            probes.records,
            probes.columns,
        ),
        entry_view(plan.entries@[2]) == probed_derived_entry(
            SidecarKind::Metadata,
            inputs.metadata_path@,
            probes.records,
            probes.metadata,
        ),
        entry_view(plan.entries@[3]) == probed_derived_entry(
            SidecarKind::Prefixes,
            inputs.prefixes_path@,
            probes.records,
            probes.prefixes,
        ),
        entry_view(plan.entries@[4]) == probed_derived_entry(
            SidecarKind::Substrings,
            inputs.substrings_path@,
            probes.records,
            probes.substrings,
        ),
        entry_view(plan.entries@[5]) == probed_derived_entry(
            SidecarKind::Fuzzy,
            inputs.fuzzy_path@,
            probes.records,
            probes.fuzzy,
        ),
        entry_view(plan.entries@[6]) == probed_derived_entry(
            SidecarKind::Dictionary,
            inputs.dictionary_path@,
            probes.records,
            probes.dictionary,
        ),
        entry_view(plan.entries@[7]) == content_entry(
            inputs.content_path@,
            probed_status(ArchiveSchemaKind::Content, probes.content),
        ),
        entry_view(plan.entries@[8]) == manifest_entry(
            inputs.manifest_path@,
            manifest_recovery_action(probes.manifest),
            manifest_recovery_detail(probes.manifest),
        ),
{
    let records_path = inputs.records_path.as_str();
    let record_plan = plan_record_archive_migration(records_path, &probes.records);
    let content_plan = plan_content_archive_migration(inputs.content_path.as_str(), &probes.content);
    let manifest_plan = plan_content_manifest_recovery(
        inputs.manifest_path.as_str(),
        &inputs.discovered_content_archives,
        &probes.manifest,
    );
    let mut entries: Vec<ArchiveRebuildPlanEntry> = Vec::new();
    entries.push(record_rebuild_entry(record_plan));
    entries.push(
        derived_rebuild_entry(
            plan_derived_sidecar_rebuild(
                records_path,
                &probes.records,
                SidecarKind::Columns,
                inputs.columns_path.as_str(),
                &probes.columns,
            ),
        ),
    );
    entries.push(
        derived_rebuild_entry(
            plan_derived_sidecar_rebuild(
                records_path,
                &probes.records,
                SidecarKind::Metadata,
                inputs.metadata_path.as_str(),
                &probes.metadata,
            ),
        ),
    );
    entries.push(
        derived_rebuild_entry(
            plan_derived_sidecar_rebuild(
                records_path,
                &probes.records,
                SidecarKind::Prefixes,
                inputs.prefixes_path.as_str(),
                &probes.prefixes,
            ),
        ),
    );
    entries.push(
        derived_rebuild_entry(
            plan_derived_sidecar_rebuild(
                records_path,
                &probes.records,
                SidecarKind::Substrings,
                inputs.substrings_path.as_str(),
                &probes.substrings,
            ),
        ),
    );
    entries.push(
        derived_rebuild_entry(
            plan_derived_sidecar_rebuild(
                records_path,
                &probes.records,
                SidecarKind::Fuzzy,
                inputs.fuzzy_path.as_str(),
                &probes.fuzzy,
            ),
        ),
    );
    entries.push(
        derived_rebuild_entry(
            plan_derived_sidecar_rebuild(
                records_path,
                &probes.records,
                SidecarKind::Dictionary,
                inputs.dictionary_path.as_str(),
                &probes.dictionary,
            ),
        ),
    );
    entries.push(content_rebuild_entry(content_plan));
    entries.push(content_manifest_rebuild_entry(manifest_plan));
    ArchiveRebuildPlan { entries }
}

/// Without a readable record archive, every derived sidecar is blocked
/// and none is rebuilt.
pub proof fn lemma_sidecars_blocked_without_records(
    kind: SidecarKind,
    path: Seq<char>,
    records: ArchiveSchemaStatus,
    sidecar: ArchiveSchemaStatus,
)
    requires
        !records_readable(records),
    ensures
        derived_entry(kind, path, records, sidecar).route == ArchiveRebuildRoute::CannotRecover,
{
}

} // verus!
