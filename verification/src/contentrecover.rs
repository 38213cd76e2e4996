use vstd::prelude::*;

use crate::contentset::{
    entry_view, resolve_manifest_path, resolved_path, ContentArchiveManifest, ContentArchiveManifestEntry,
};
use crate::error::GfmError;
use crate::text::{contains_text, opt_chars, or_dash, push_decimal, push_or_dash, decimal, str_contains};

verus! {

/// What recovering a content manifest will do.
#[derive(Debug, Clone, Copy, PartialEq, Eq, Structural)]
pub enum ContentManifestRecoveryAction {
    Ready,
    WriteDiscoveredManifest,
    QuarantineManifestAndWriteDiscovered,
    PruneInvalidArchives,
    CannotRecover,
}

/// Why a content manifest needs recovery, or that it does not.
#[derive(Debug, Clone, Copy, PartialEq, Eq, Structural)]
pub enum ContentManifestRecoveryReason {
    Healthy,
    MissingManifest,
    UnreadableManifest,
    MissingArchive,
    UnreadableArchive,
    NoUsableArchives,
}

/// The name of a content manifest recovery action.
pub open spec fn recovery_action_text(action: ContentManifestRecoveryAction) -> Seq<char> {
    match action {
        ContentManifestRecoveryAction::Ready => "ready"@,
        ContentManifestRecoveryAction::WriteDiscoveredManifest => "write-discovered-manifest"@,
        ContentManifestRecoveryAction::QuarantineManifestAndWriteDiscovered => "quarantine-manifest-and-write-discovered"@,
        ContentManifestRecoveryAction::PruneInvalidArchives => "prune-invalid-archives"@,
        ContentManifestRecoveryAction::CannotRecover => "cannot-recover"@,
    }
}

/// The name of a content manifest recovery reason.
pub open spec fn recovery_reason_text(reason: ContentManifestRecoveryReason) -> Seq<char> {
    match reason {
        ContentManifestRecoveryReason::Healthy => "healthy"@,
        ContentManifestRecoveryReason::MissingManifest => "missing-manifest"@,
        ContentManifestRecoveryReason::UnreadableManifest => "unreadable-manifest"@,
        ContentManifestRecoveryReason::MissingArchive => "missing-archive"@,
        ContentManifestRecoveryReason::UnreadableArchive => "unreadable-archive"@,
        ContentManifestRecoveryReason::NoUsableArchives => "no-usable-archives"@,
    }
}

/// The name of a content manifest recovery action.
pub fn content_manifest_recovery_action_name(action: ContentManifestRecoveryAction) -> (s:
    &'static str)
    ensures
        s@ == recovery_action_text(action),
{
    match action {
        ContentManifestRecoveryAction::Ready => "ready",
        ContentManifestRecoveryAction::WriteDiscoveredManifest => "write-discovered-manifest",
        ContentManifestRecoveryAction::QuarantineManifestAndWriteDiscovered => "quarantine-manifest-and-write-discovered",
        ContentManifestRecoveryAction::PruneInvalidArchives => "prune-invalid-archives",
        ContentManifestRecoveryAction::CannotRecover => "cannot-recover",
    }
}

/// The name of a content manifest recovery reason.
pub fn content_manifest_recovery_reason_name(reason: ContentManifestRecoveryReason) -> (s:
    &'static str)
    ensures
        s@ == recovery_reason_text(reason),
{
    match reason {
        ContentManifestRecoveryReason::Healthy => "healthy",
        ContentManifestRecoveryReason::MissingManifest => "missing-manifest",
        ContentManifestRecoveryReason::UnreadableManifest => "unreadable-manifest",
        ContentManifestRecoveryReason::MissingArchive => "missing-archive",
        ContentManifestRecoveryReason::UnreadableArchive => "unreadable-archive",
        ContentManifestRecoveryReason::NoUsableArchives => "no-usable-archives",
    }
}

/// The health of one archive named by a manifest or found on disk.
#[derive(Debug, Clone, PartialEq, Eq)]
pub struct ContentArchiveHealth {
    pub entry: ContentArchiveManifestEntry,
    pub resolved_path: String,
    pub valid: bool,
    pub detail: Option<String>,
}

/// The recovery plan of a content manifest.
#[derive(Debug, Clone, PartialEq, Eq)]
pub struct ContentManifestRecoveryPlan {
    pub action: ContentManifestRecoveryAction,
    pub reason: ContentManifestRecoveryReason,
    pub manifest_path: String,
    pub valid_archives: Vec<ContentArchiveHealth>,
    pub invalid_archives: Vec<ContentArchiveHealth>,
    pub detail: Option<String>,
}

impl ContentManifestRecoveryPlan {
    /// Whether nothing needs recovery.
    pub fn ready(&self) -> (b: bool)
        ensures
            b == (self.action == ContentManifestRecoveryAction::Ready),
    {
        match self.action {
            ContentManifestRecoveryAction::Ready => true,
            _ => false,
        }
    }

    /// `content-manifest-recovery-plan` line: action, reason, manifest,
    /// the counts of valid and invalid archives, and detail.
    pub fn as_tsv(&self) -> (s: String)
        ensures
            s@ == "content-manifest-recovery-plan\taction="@ + recovery_action_text(self.action)
                + "\treason="@ + recovery_reason_text(self.reason) + "\tmanifest="@
                + self.manifest_path@ + "\tvalid="@ + decimal(self.valid_archives@.len() as nat)
                + "\tinvalid="@ + decimal(self.invalid_archives@.len() as nat) + "\tdetail="@
                + or_dash(opt_chars(self.detail)),
    {
        let mut s = String::from_str("content-manifest-recovery-plan\taction=");
        s.append(content_manifest_recovery_action_name(self.action));
        s.append("\treason=");
        s.append(content_manifest_recovery_reason_name(self.reason));
        s.append("\tmanifest=");
        s.append(self.manifest_path.as_str());
        s.append("\tvalid=");
        push_decimal(&mut s, self.valid_archives.len() as u64);
        s.append("\tinvalid=");
        push_decimal(&mut s, self.invalid_archives.len() as u64);
        s.append("\tdetail=");
        push_or_dash(&mut s, &self.detail);
        s
    }
}

/// The outcome of recovering a content manifest.
#[derive(Debug, Clone, PartialEq, Eq)]
pub struct ContentManifestRecovery {
    pub before: ContentManifestRecoveryPlan,
    pub after: ContentManifestRecoveryPlan,
    pub wrote_manifest: bool,
    pub quarantined_manifest_path: Option<String>,
}

/// What storage tells about the manifest file.
#[derive(Debug, Clone, PartialEq, Eq)]
pub enum ContentManifestState {
    /// Whether it exists could not be told; the error text.
    ProbeFailed(String),
    /// It does not exist.
    Missing,
    /// It exists and reading it failed; the error text.
    Unreadable(String),
    /// It exists and reads as this manifest.
    Read(ContentArchiveManifest),
}

/// What storage tells about a content manifest and the archives around it:
/// the manifest, and for each archive that it names and each discovered
/// archive, `None` where the archive opens and the error text where it
/// does not.
#[derive(Debug, Clone, PartialEq, Eq)]
pub struct ContentManifestProbe {
    pub manifest: ContentManifestState,
    pub manifest_archive_errors: Vec<Option<String>>,
    pub discovered_archive_errors: Vec<Option<String>>,
}

/// `h` records the archive `entry` of the manifest at `manifest_path`, which
/// opened where `err` is `None`.
pub open spec fn archive_health_is(
    h: ContentArchiveHealth,
    manifest_path: Seq<char>,
    entry: ContentArchiveManifestEntry,
    err: Option<String>,
) -> bool {
    &&& entry_view(h.entry) == entry_view(entry)
    &&& h.resolved_path@ == resolved_path(manifest_path, entry.path@)
    &&& h.valid == (err is None)
    &&& opt_chars(h.detail) == opt_chars(err)
}

/// The positions, among the first `n`, of the archives that opened (or, for
/// `valid == false`, did not).
pub open spec fn open_positions(errs: Seq<Option<String>>, n: int, valid: bool) -> Seq<int>
    decreases n,
{
    if n <= 0 {
        Seq::empty()
    } else {
        let rest = open_positions(errs, n - 1, valid);
        if (errs[n - 1] is None) == valid {
            rest.push(n - 1)
        } else {
            rest
        }
    }
}

/// The positions of all archives that opened (or did not).
pub open spec fn all_open_positions(errs: Seq<Option<String>>, valid: bool) -> Seq<int> {
    open_positions(errs, errs.len() as int, valid)
}

/// `healths` records, in order, the archives at `positions`.
pub open spec fn archive_healths_are(
    healths: Seq<ContentArchiveHealth>,
    manifest_path: Seq<char>,
    entries: Seq<ContentArchiveManifestEntry>,
    errs: Seq<Option<String>>,
    positions: Seq<int>,
) -> bool {
    &&& healths.len() == positions.len()
    &&& forall|i: int|
        0 <= i < healths.len() ==> #[trigger] archive_health_is(
            healths[i],
            manifest_path,
            entries[positions[i]],
            errs[positions[i]],
        )
}

/// An error text that says the archive is not there.
pub open spec fn is_missing_text(d: Seq<char>) -> bool {
    ||| contains_text(d, "No such file"@)
    ||| contains_text(d, "no such file"@)
    ||| contains_text(d, "os error 2"@)
    ||| contains_text(d, "not found"@)
}

/// Whether the detail of `h` says its archive is not there.
pub open spec fn health_missing(h: ContentArchiveHealth) -> bool {
    match h.detail {
        Some(d) => is_missing_text(d@),
        None => false,
    }
}

/// Whether an invalid archive is a missing one.
pub open spec fn any_missing_archive(healths: Seq<ContentArchiveHealth>) -> bool {
    exists|i: int| 0 <= i < healths.len() && health_missing(#[trigger] healths[i])
}

/// The reason invalid archives give: a missing one wins over an unreadable
/// one.
pub open spec fn invalid_reason_of(healths: Seq<ContentArchiveHealth>) -> ContentManifestRecoveryReason {
    if any_missing_archive(healths) {
        ContentManifestRecoveryReason::MissingArchive
    } else {
        ContentManifestRecoveryReason::UnreadableArchive
    }
}

/// Whether the text `d` says that an archive is not there.
pub open spec fn says_not_there(d: Seq<char>) -> bool {
    contains_text(d, "No such file"@) || contains_text(d, "no such file"@) || contains_text(d, "os error 2"@)
        || contains_text(d, "not found"@)
}

/// Invalid archives give the reason "missing archive" exactly when the
/// detail of one of them says that it is not there (no such file, OS
/// error 2, not found), and "unreadable archive" otherwise.
pub proof fn lemma_invalid_reason_missing_exactly(healths: Seq<ContentArchiveHealth>)
    ensures
        (invalid_reason_of(healths) == ContentManifestRecoveryReason::MissingArchive) <==> exists|i: int|
            0 <= i < healths.len() && ((#[trigger] healths[i]).detail matches Some(d) && says_not_there(d@)),
        (invalid_reason_of(healths) == ContentManifestRecoveryReason::UnreadableArchive) <==> !exists|i: int|
            0 <= i < healths.len() && ((#[trigger] healths[i]).detail matches Some(d) && says_not_there(d@)),
{
    if exists|i: int| 0 <= i < healths.len() && ((#[trigger] healths[i]).detail matches Some(d) && says_not_there(d@)) {
        let i = choose|i: int| 0 <= i < healths.len() && ((#[trigger] healths[i]).detail matches Some(d) && says_not_there(d@));
        assert(health_missing(healths[i]));
    }
    if any_missing_archive(healths) {
        let i = choose|i: int| 0 <= i < healths.len() && health_missing(#[trigger] healths[i]);
        assert((healths[i].detail matches Some(d) && says_not_there(d@)));
    }
}

proof fn lemma_open_positions(errs: Seq<Option<String>>, n: int, valid: bool)
    requires
        0 <= n <= errs.len(),
    ensures
        forall|i: int|
            0 <= i < open_positions(errs, n, valid).len() ==> 0 <= #[trigger] open_positions(errs, n, valid)[i] < n
                && (errs[open_positions(errs, n, valid)[i]] is None) == valid,
        forall|j: int| 0 <= j < n && (errs[j] is None) == valid ==> #[trigger] open_positions(errs, n, valid).contains(j),
    decreases n,
{
    if n > 0 {
        lemma_open_positions(errs, n - 1, valid);
        let rest = open_positions(errs, n - 1, valid);
        let ps = open_positions(errs, n, valid);
        assert forall|j: int| 0 <= j < n && (errs[j] is None) == valid implies #[trigger] ps.contains(j) by {
            if j < n - 1 {
                assert(rest.contains(j));
                let k = choose|k: int| 0 <= k < rest.len() && rest[k] == j;
                assert(ps[k] == j);
            } else {
                assert(ps[ps.len() - 1] == j);
            }
        }
    }
}

/// Recovering a manifest that reads, where some of its archives open and
/// some do not, prunes the ones that do not; the reason is "missing
/// archive" exactly when the error of one of them says that it is not
/// there, and "unreadable archive" otherwise.
pub proof fn lemma_prune_reason(
    plan: ContentManifestRecoveryPlan,
    manifest_path: Seq<char>,
    m: ContentArchiveManifest,
    merrs: Seq<Option<String>>,
    discovered: Seq<ContentArchiveManifestEntry>,
    derrs: Seq<Option<String>>,
)
    requires
        read_plan_is(plan, manifest_path, m, merrs, discovered, derrs),
        exists|j: int| 0 <= j < merrs.len() && (#[trigger] merrs[j]) is None,
        exists|j: int| 0 <= j < merrs.len() && (#[trigger] merrs[j]) is Some,
    ensures
        plan.action == ContentManifestRecoveryAction::PruneInvalidArchives,
        (plan.reason == ContentManifestRecoveryReason::MissingArchive) <==> exists|j: int|
            0 <= j < merrs.len() && ((#[trigger] merrs[j]) matches Some(e) && says_not_there(e@)),
        (plan.reason == ContentManifestRecoveryReason::UnreadableArchive) <==> !exists|j: int|
            0 <= j < merrs.len() && ((#[trigger] merrs[j]) matches Some(e) && says_not_there(e@)),
{
    let n = merrs.len() as int;
    lemma_open_positions(merrs, n, true);
    lemma_open_positions(merrs, n, false);
    let mvalid = all_open_positions(merrs, true);
    let minvalid = all_open_positions(merrs, false);
    let a = choose|j: int| 0 <= j < merrs.len() && (#[trigger] merrs[j]) is None;
    let b = choose|j: int| 0 <= j < merrs.len() && (#[trigger] merrs[j]) is Some;
    assert(mvalid.contains(a));
    assert(minvalid.contains(b));
    let inv = plan.invalid_archives@;
    lemma_invalid_reason_missing_exactly(inv);
    if exists|j: int| 0 <= j < merrs.len() && ((#[trigger] merrs[j]) matches Some(e) && says_not_there(e@)) {
        let j = choose|j: int| 0 <= j < merrs.len() && ((#[trigger] merrs[j]) matches Some(e) && says_not_there(e@));
        assert(minvalid.contains(j));
        let i = choose|i: int| 0 <= i < minvalid.len() && minvalid[i] == j;
        assert(archive_health_is(inv[i], manifest_path, m.archives@[minvalid[i]], merrs[minvalid[i]]));
        assert((inv[i].detail matches Some(d) && says_not_there(d@)));
    }
    if exists|i: int| 0 <= i < inv.len() && ((#[trigger] inv[i]).detail matches Some(d) && says_not_there(d@)) {
        let i = choose|i: int| 0 <= i < inv.len() && ((#[trigger] inv[i]).detail matches Some(d) && says_not_there(d@));
        let j = minvalid[i];
        assert(archive_health_is(inv[i], manifest_path, m.archives@[minvalid[i]], merrs[minvalid[i]]));
        assert((merrs[j] matches Some(e) && says_not_there(e@)));
    }
}

/// The plan built from the discovered archives alone, where the manifest is
/// missing or unreadable: with no valid one nothing can be recovered;
/// otherwise the discovered valid archives make the new manifest, after the
/// unreadable manifest is put aside.
pub open spec fn discovered_plan_is(
    plan: ContentManifestRecoveryPlan,
    manifest_path: Seq<char>,
    discovered: Seq<ContentArchiveManifestEntry>,
    errs: Seq<Option<String>>,
    reason: ContentManifestRecoveryReason,
    detail: Option<Seq<char>>,
) -> bool {
    let valid = all_open_positions(errs, true);
    &&& archive_healths_are(plan.valid_archives@, manifest_path, discovered, errs, valid)
    &&& archive_healths_are(
        plan.invalid_archives@,
        manifest_path,
        discovered,
        errs,
        all_open_positions(errs, false),
    )
    &&& if valid.len() == 0 {
        &&& plan.action == ContentManifestRecoveryAction::CannotRecover
        &&& plan.reason == ContentManifestRecoveryReason::NoUsableArchives
        &&& opt_chars(plan.detail) == match detail {
            Some(d) => Some(d),
            None => Some("no valid discovered content archives are available"@),
        }
    } else {
        &&& plan.action == if reason == ContentManifestRecoveryReason::UnreadableManifest {
            ContentManifestRecoveryAction::QuarantineManifestAndWriteDiscovered
        } else {
            ContentManifestRecoveryAction::WriteDiscoveredManifest
        }
        &&& plan.reason == reason
        &&& opt_chars(plan.detail) == detail
    }
}

/// The plan for a manifest that reads as `m`: ready with every archive
/// valid; pruning with some valid; otherwise the discovered archives are
/// the way out, and with none of them valid nothing can be recovered.
pub open spec fn read_plan_is(
    plan: ContentManifestRecoveryPlan,
    manifest_path: Seq<char>,
    m: ContentArchiveManifest,
    merrs: Seq<Option<String>>,
    discovered: Seq<ContentArchiveManifestEntry>,
    derrs: Seq<Option<String>>,
) -> bool {
    let mvalid = all_open_positions(merrs, true);
    let minvalid = all_open_positions(merrs, false);
    let dvalid = all_open_positions(derrs, true);
    let dinvalid = all_open_positions(derrs, false);
    if minvalid.len() == 0 {
        &&& plan.action == ContentManifestRecoveryAction::Ready
        &&& plan.reason == ContentManifestRecoveryReason::Healthy
        &&& archive_healths_are(plan.valid_archives@, manifest_path, m.archives@, merrs, mvalid)
        &&& plan.invalid_archives@.len() == 0
        &&& plan.detail is None
    } else if mvalid.len() > 0 {
        &&& plan.action == ContentManifestRecoveryAction::PruneInvalidArchives
        &&& plan.reason == invalid_reason_of(plan.invalid_archives@)
        &&& archive_healths_are(plan.valid_archives@, manifest_path, m.archives@, merrs, mvalid)
        &&& archive_healths_are(plan.invalid_archives@, manifest_path, m.archives@, merrs, minvalid)
        &&& plan.detail is None
    } else {
        let n = minvalid.len() as int;
        &&& plan.invalid_archives@.len() == n + dinvalid.len()
        &&& archive_healths_are(
            plan.invalid_archives@.take(n),
            manifest_path,
            m.archives@,
            merrs,
            minvalid,
        )
        &&& archive_healths_are(
            plan.invalid_archives@.skip(n),
            manifest_path,
            discovered,
            derrs,
            dinvalid,
        )
        &&& if dvalid.len() > 0 {
            &&& plan.action == ContentManifestRecoveryAction::WriteDiscoveredManifest
            &&& plan.reason == invalid_reason_of(plan.invalid_archives@)
            &&& archive_healths_are(plan.valid_archives@, manifest_path, discovered, derrs, dvalid)
            &&& opt_chars(plan.detail) == Some("manifest contains no usable active archives"@)
        } else {
            &&& plan.action == ContentManifestRecoveryAction::CannotRecover
            &&& plan.reason == ContentManifestRecoveryReason::NoUsableArchives
            &&& plan.valid_archives@.len() == 0
            &&& opt_chars(plan.detail) == Some(
                "no valid content archives are available for recovery"@,
            )
        }
    }
}

/// The action that recovering a manifest in the state `probe` describes
/// takes.
pub open spec fn manifest_recovery_action(probe: ContentManifestProbe) -> ContentManifestRecoveryAction {
    let dvalid = all_open_positions(probe.discovered_archive_errors@, true).len();
    let mvalid = all_open_positions(probe.manifest_archive_errors@, true).len();
    let minvalid = all_open_positions(probe.manifest_archive_errors@, false).len();
    match probe.manifest {
        ContentManifestState::ProbeFailed(_) => ContentManifestRecoveryAction::CannotRecover,
        ContentManifestState::Missing => if dvalid == 0 {
            ContentManifestRecoveryAction::CannotRecover
        } else {
            ContentManifestRecoveryAction::WriteDiscoveredManifest
        },
        ContentManifestState::Unreadable(_) => if dvalid == 0 {
            ContentManifestRecoveryAction::CannotRecover
        } else {
            ContentManifestRecoveryAction::QuarantineManifestAndWriteDiscovered
        },
        ContentManifestState::Read(_) => if minvalid == 0 {
            ContentManifestRecoveryAction::Ready
        } else if mvalid > 0 {
            ContentManifestRecoveryAction::PruneInvalidArchives
        } else if dvalid > 0 {
            ContentManifestRecoveryAction::WriteDiscoveredManifest
        } else {
            ContentManifestRecoveryAction::CannotRecover
        },
    }
}

/// The detail of the recovery plan of a manifest in the state `probe`
/// describes.
pub open spec fn manifest_recovery_detail(probe: ContentManifestProbe) -> Option<Seq<char>> {
    let dvalid = all_open_positions(probe.discovered_archive_errors@, true).len();
    let mvalid = all_open_positions(probe.manifest_archive_errors@, true).len();
    let minvalid = all_open_positions(probe.manifest_archive_errors@, false).len();
    match probe.manifest {
        ContentManifestState::ProbeFailed(e) => Some("content manifest existence unavailable: "@ + e@),
        ContentManifestState::Missing => if dvalid == 0 {
            Some("no valid discovered content archives are available"@)
        } else {
            None
        },
        ContentManifestState::Unreadable(e) => Some(e@),
        ContentManifestState::Read(_) => if minvalid == 0 || mvalid > 0 {
            None
        } else if dvalid > 0 {
            Some("manifest contains no usable active archives"@)
        } else {
            Some("no valid content archives are available for recovery"@)
        },
    }
}

/// A probe that gives one outcome for each archive it speaks of, and whose
/// manifest, where it reads, names at least one archive (the manifest
/// reader refuses an empty manifest).
pub open spec fn probe_matches(
    probe: ContentManifestProbe,
    discovered: Seq<ContentArchiveManifestEntry>,
) -> bool {
    &&& probe.discovered_archive_errors@.len() == discovered.len()
    &&& probe.manifest matches ContentManifestState::Read(m) ==> probe.manifest_archive_errors@.len()
        == m.archives@.len()
    &&& probe.manifest matches ContentManifestState::Read(m) ==> m.archives@.len() > 0
}

/// A copy of a manifest entry.
pub fn copy_entry(e: &ContentArchiveManifestEntry) -> (c: ContentArchiveManifestEntry)
    ensures
        entry_view(c) == entry_view(*e),
{
    ContentArchiveManifestEntry { tier: e.tier, path: e.path.clone() }
}

fn archive_health(manifest_path: &str, entry: &ContentArchiveManifestEntry, err: &Option<String>) -> (h:
    ContentArchiveHealth)
    ensures
        archive_health_is(h, manifest_path@, *entry, *err),
{
    let detail = match err {
        Some(e) => Some(e.clone()),
        None => None,
    };
    ContentArchiveHealth {
        entry: copy_entry(entry),
        resolved_path: resolve_manifest_path(manifest_path, entry.path.as_str()),
        valid: err.is_none(),
        detail,
    }
}

proof fn lemma_open_positions_bounded(errs: Seq<Option<String>>, n: int, valid: bool)
    ensures
        forall|j: int|
            0 <= j < open_positions(errs, n, valid).len() ==> 0 <= #[trigger] open_positions(
                errs,
                n,
                valid,
            )[j] < n,
    decreases n,
{
    if n > 0 {
        lemma_open_positions_bounded(errs, n - 1, valid);
        let rest = open_positions(errs, n - 1, valid);
        let all = open_positions(errs, n, valid);
        assert forall|j: int| 0 <= j < all.len() implies 0 <= #[trigger] all[j] < n by {
            if j < rest.len() {
                assert(all[j] == rest[j]);
            }
        }
    }
}

/// Splits `archives` into the valid and the invalid ones, each in manifest
/// order, resolving their paths against `manifest_path`.
fn classify_archives(
    manifest_path: &str,
    archives: &Vec<ContentArchiveManifestEntry>,
    errs: &Vec<Option<String>>,
) -> (r: (Vec<ContentArchiveHealth>, Vec<ContentArchiveHealth>))
    requires
        archives@.len() == errs@.len(),
    ensures
        archive_healths_are(r.0@, manifest_path@, archives@, errs@, all_open_positions(errs@, true)),
        archive_healths_are(r.1@, manifest_path@, archives@, errs@, all_open_positions(errs@, false)),
{
    let mut valid: Vec<ContentArchiveHealth> = Vec::new();
    let mut invalid: Vec<ContentArchiveHealth> = Vec::new();
    let mut i: usize = 0;
    while i < errs.len()
        invariant
            archives@.len() == errs@.len(),
            i <= errs@.len(),
            archive_healths_are(valid@, manifest_path@, archives@, errs@, open_positions(errs@, i as int, true)),
            archive_healths_are(invalid@, manifest_path@, archives@, errs@, open_positions(errs@, i as int, false)),
        decreases errs@.len() - i,
    {
        let h = archive_health(manifest_path, &archives[i], &errs[i]);
        proof {
            lemma_open_positions_bounded(errs@, i as int, true);
            lemma_open_positions_bounded(errs@, i as int, false);
        }
        if h.valid {
            valid.push(h);
        } else {
            invalid.push(h);
        }
        i = i + 1;
    }
    (valid, invalid)
}

/// Whether `detail` says that the archive is not there.
fn is_missing_archive(detail: &str) -> (b: bool)
    ensures
        b == is_missing_text(detail@),
{
    str_contains(detail, "No such file") || str_contains(detail, "no such file") || str_contains(
        detail,
        "os error 2",
    ) || str_contains(detail, "not found")
}

/// The reason that invalid archives give.
fn invalid_reason(invalid: &Vec<ContentArchiveHealth>) -> (r: ContentManifestRecoveryReason)
    ensures
        r == invalid_reason_of(invalid@),
{
    let mut i: usize = 0;
    while i < invalid.len()
        invariant
            i <= invalid@.len(),
            forall|j: int|
                0 <= j < i ==> !health_missing(#[trigger] invalid@[j]),
        decreases invalid@.len() - i,
    {
        if let Some(d) = &invalid[i].detail {
            if is_missing_archive(d.as_str()) {
                return ContentManifestRecoveryReason::MissingArchive;
            }
        }
        i = i + 1;
    }
    ContentManifestRecoveryReason::UnreadableArchive
}

/// The plan from the discovered archives alone.
fn plan_from_discovered(
    manifest_path: String,
    valid_archives: Vec<ContentArchiveHealth>,
    invalid_archives: Vec<ContentArchiveHealth>,
    reason: ContentManifestRecoveryReason,
    detail: Option<String>,
) -> (plan: ContentManifestRecoveryPlan)
    ensures
        plan.manifest_path == manifest_path,
        plan.valid_archives == valid_archives,
        plan.invalid_archives == invalid_archives,
        if valid_archives@.len() == 0 {
            &&& plan.action == ContentManifestRecoveryAction::CannotRecover
            &&& plan.reason == ContentManifestRecoveryReason::NoUsableArchives
            &&& opt_chars(plan.detail) == match opt_chars(detail) {
                Some(d) => Some(d),
                None => Some("no valid discovered content archives are available"@),
            }
        } else {
            &&& plan.action == if reason == ContentManifestRecoveryReason::UnreadableManifest {
                ContentManifestRecoveryAction::QuarantineManifestAndWriteDiscovered
            } else {
                ContentManifestRecoveryAction::WriteDiscoveredManifest
            }
            &&& plan.reason == reason
            &&& opt_chars(plan.detail) == opt_chars(detail)
        },
{
    if valid_archives.len() == 0 {
        let detail = match detail {
            Some(d) => Some(d),
            None => Some(String::from_str("no valid discovered content archives are available")),
        };
        return ContentManifestRecoveryPlan {
            action: ContentManifestRecoveryAction::CannotRecover,
            reason: ContentManifestRecoveryReason::NoUsableArchives,
            manifest_path,
            valid_archives,
            invalid_archives,
            detail,
        };
    }
    let action = match reason {
        ContentManifestRecoveryReason::UnreadableManifest => ContentManifestRecoveryAction::QuarantineManifestAndWriteDiscovered,
        _ => ContentManifestRecoveryAction::WriteDiscoveredManifest,
    };
    ContentManifestRecoveryPlan {
        action,
        reason,
        manifest_path,
        valid_archives,
        invalid_archives,
        detail,
    }
}

/// Plans the recovery of the content manifest at `manifest_path`, with
/// `discovered_archives` the archives found beside it and `probe` what
/// storage tells about the manifest and each archive.
pub fn plan_content_manifest_recovery(
    manifest_path: &str,
    discovered_archives: &Vec<ContentArchiveManifestEntry>,
    probe: &ContentManifestProbe,
) -> (plan: ContentManifestRecoveryPlan)
    requires
        probe_matches(*probe, discovered_archives@),
    ensures
        plan.manifest_path@ == manifest_path@,
        plan.action == manifest_recovery_action(*probe),
        opt_chars(plan.detail) == manifest_recovery_detail(*probe),
        match probe.manifest {
            ContentManifestState::ProbeFailed(e) => {
                &&& plan.action == ContentManifestRecoveryAction::CannotRecover
                &&& plan.reason == ContentManifestRecoveryReason::UnreadableManifest
                &&& plan.valid_archives@.len() == 0
                &&& plan.invalid_archives@.len() == 0
                &&& opt_chars(plan.detail) == Some(
                    "content manifest existence unavailable: "@ + e@,
                )
            },
            ContentManifestState::Missing => discovered_plan_is(
                plan,
                manifest_path@,
                discovered_archives@,
                probe.discovered_archive_errors@,
                ContentManifestRecoveryReason::MissingManifest,
                None,
            ),
            ContentManifestState::Unreadable(e) => discovered_plan_is(
                plan,
                manifest_path@,
                discovered_archives@,
                probe.discovered_archive_errors@,
                ContentManifestRecoveryReason::UnreadableManifest,
                Some(e@),
            ),
            ContentManifestState::Read(m) => read_plan_is(
                plan,
                manifest_path@,
                m,
                probe.manifest_archive_errors@,
                discovered_archives@,
                probe.discovered_archive_errors@,
            ),
        },
{
    let path = String::from_str(manifest_path);
    match &probe.manifest {
        ContentManifestState::ProbeFailed(e) => {
            let mut d = String::from_str("content manifest existence unavailable: ");
            d.append(e.as_str());
            ContentManifestRecoveryPlan {
                action: ContentManifestRecoveryAction::CannotRecover,
                reason: ContentManifestRecoveryReason::UnreadableManifest,
                manifest_path: path,
                valid_archives: Vec::new(),
                invalid_archives: Vec::new(),
                detail: Some(d),
            }
        },
        ContentManifestState::Missing => {
            let (valid, invalid) = classify_archives(
                manifest_path,
                discovered_archives,
                &probe.discovered_archive_errors,
            );
            plan_from_discovered(
                path,
                valid,
                invalid,
                ContentManifestRecoveryReason::MissingManifest,
                None,
            )
        },
        ContentManifestState::Unreadable(e) => {
            let (valid, invalid) = classify_archives(
                manifest_path,
                discovered_archives,
                &probe.discovered_archive_errors,
            );
            plan_from_discovered(
                path,
                valid,
                invalid,
                ContentManifestRecoveryReason::UnreadableManifest,
                Some(e.clone()),
            )
        },
        ContentManifestState::Read(m) => {
            let (valid, invalid) = classify_archives(
                manifest_path,
                &m.archives,
                &probe.manifest_archive_errors,
            );
            if invalid.len() == 0 {
                return ContentManifestRecoveryPlan {
                    action: ContentManifestRecoveryAction::Ready,
                    reason: ContentManifestRecoveryReason::Healthy,
                    manifest_path: path,
                    valid_archives: valid,
                    invalid_archives: invalid,
                    detail: None,
                };
            }
            if valid.len() > 0 {
                let reason = invalid_reason(&invalid);
                return ContentManifestRecoveryPlan {
                    action: ContentManifestRecoveryAction::PruneInvalidArchives,
                    reason,
                    manifest_path: path,
                    valid_archives: valid,
                    invalid_archives: invalid,
                    detail: None,
                };
            }
            let (discovered_valid, mut discovered_invalid) = classify_archives(
                manifest_path,
                discovered_archives,
                &probe.discovered_archive_errors,
            );
            let mut invalid_archives = invalid;
            let ghost first = invalid_archives@;
            let ghost second = discovered_invalid@;
            invalid_archives.append(&mut discovered_invalid);
            proof {
                assert(invalid_archives@.take(first.len() as int) =~= first);
                assert(invalid_archives@.skip(first.len() as int) =~= second);
            }
            if discovered_valid.len() > 0 {
                let reason = invalid_reason(&invalid_archives);
                return ContentManifestRecoveryPlan {
                    action: ContentManifestRecoveryAction::WriteDiscoveredManifest,
                    reason,
                    manifest_path: path,
                    valid_archives: discovered_valid,
                    invalid_archives,
                    detail: Some(String::from_str("manifest contains no usable active archives")),
                };
            }
            ContentManifestRecoveryPlan {
                action: ContentManifestRecoveryAction::CannotRecover,
                reason: ContentManifestRecoveryReason::NoUsableArchives,
                manifest_path: path,
                valid_archives: Vec::new(),
                invalid_archives,
                detail: Some(
                    String::from_str("no valid content archives are available for recovery"),
                ),
            }
        },
    }
}


/// The message of a manifest recovery that its plan refuses.
pub open spec fn manifest_recovery_refusal_text(mp: Seq<char>, detail: Option<Seq<char>>) -> Seq<char> {
    mp + " cannot be recovered: "@ + match detail {
        Some(d) => d,
        None => "no usable content archives"@,
    }
}

/// The error a manifest recovery that its plan refuses returns.
pub fn manifest_recovery_refusal(manifest_path: &str, plan: &ContentManifestRecoveryPlan) -> (e: GfmError)
    ensures
        e matches GfmError::Format(m) && m@ == manifest_recovery_refusal_text(manifest_path@, opt_chars(plan.detail)),
{
    let mut m = String::from_str(manifest_path);
    m.append(" cannot be recovered: ");
    match &plan.detail {
        Some(d) => m.append(d.as_str()),
        None => m.append("no usable content archives"),
    }
    GfmError::Format(m)
}

/// The entries of the archives that a recovery plan keeps, in order.
pub fn recovered_entries(plan: &ContentManifestRecoveryPlan) -> (v: Vec<ContentArchiveManifestEntry>)
    ensures
        v@.len() == plan.valid_archives@.len(),
        forall|i: int| 0 <= i < v@.len() ==> entry_view(#[trigger] v@[i]) == entry_view(plan.valid_archives@[i].entry),
{
    let mut v: Vec<ContentArchiveManifestEntry> = Vec::new();
    let mut i: usize = 0;
    while i < plan.valid_archives.len()
        invariant
            i <= plan.valid_archives@.len(),
            v@.len() == i,
            forall|k: int| 0 <= k < i ==> entry_view(#[trigger] v@[k]) == entry_view(plan.valid_archives@[k].entry),
        decreases plan.valid_archives@.len() - i,
    {
        v.push(copy_entry(&plan.valid_archives[i].entry));
        i = i + 1;
    }
    v
}

} // verus!
