use vstd::prelude::*;

use crate::contentmerge::ContentMergeTier;
use crate::error::GfmError;
use crate::paths::{
    file_name, is_absolute, join, parent, path_equivalent, path_file_name, path_is_absolute,
    path_join, path_parent, path_with_file_name, paths_equal, with_file_name,
};
use crate::text::{opt_chars, or_dash, push_or_dash};

verus! {

/// One archive of a content manifest.
#[derive(Debug, Clone, PartialEq, Eq)]
pub struct ContentArchiveManifestEntry {
    pub tier: ContentMergeTier,
    pub path: String,
}

/// The active content archives.
#[derive(Debug, Clone, PartialEq, Eq)]
pub struct ContentArchiveManifest {
    pub archives: Vec<ContentArchiveManifestEntry>,
}

/// A manifest after promoting an archive, with the archives it retired and
/// the requested retirements it did not hold.
#[derive(Debug, Clone, PartialEq, Eq)]
pub struct ContentManifestPromotion {
    pub manifest: ContentArchiveManifest,
    pub retired_archives: Vec<String>,
    pub missing_retirements: Vec<String>,
}

/// The record of a promotion in progress: the manifest before it, the new
/// archive and the archives it retires.
#[derive(Debug, Clone, PartialEq, Eq)]
pub struct ContentManifestPromotionJournal {
    pub previous: ContentArchiveManifest,
    pub new_archive: ContentArchiveManifestEntry,
    pub retired_paths: Vec<String>,
}

/// The name of a tier in a manifest.
pub open spec fn tier_text(tier: ContentMergeTier) -> Seq<char> {
    match tier {
        ContentMergeTier::Hot => "hot"@,
        ContentMergeTier::Warm => "warm"@,
        ContentMergeTier::Cold => "cold"@,
    }
}

/// The name of a tier in a manifest.
pub fn tier_name(tier: ContentMergeTier) -> (s: &'static str)
    ensures
        s@ == tier_text(tier),
{
    match tier {
        ContentMergeTier::Hot => "hot",
        ContentMergeTier::Warm => "warm",
        ContentMergeTier::Cold => "cold",
    }
}

/// The tier a manifest name denotes.
pub open spec fn tier_from_text(value: Seq<char>) -> Option<ContentMergeTier> {
    if value == "hot"@ {
        Some(ContentMergeTier::Hot)
    } else if value == "warm"@ {
        Some(ContentMergeTier::Warm)
    } else if value == "cold"@ {
        Some(ContentMergeTier::Cold)
    } else {
        None
    }
}

/// The plain value of a manifest entry: its tier and path.
pub open spec fn entry_view(e: ContentArchiveManifestEntry) -> (ContentMergeTier, Seq<char>) {
    (e.tier, e.path@)
}

/// The plain values of manifest entries.
pub open spec fn entry_views(entries: Seq<ContentArchiveManifestEntry>) -> Seq<(ContentMergeTier, Seq<char>)> {
    entries.map_values(|e: ContentArchiveManifestEntry| entry_view(e))
}

/// The tier a manifest name denotes.
pub fn parse_tier(value: &str) -> (t: Option<ContentMergeTier>)
    ensures
        t == tier_from_text(value@),
{
    proof {
        reveal_strlit("hot");
        reveal_strlit("warm");
        reveal_strlit("cold");
    }
    if crate::text::str_equal(value, "hot") {
        Some(ContentMergeTier::Hot)
    } else if crate::text::str_equal(value, "warm") {
        Some(ContentMergeTier::Warm)
    } else if crate::text::str_equal(value, "cold") {
        Some(ContentMergeTier::Cold)
    } else {
        None
    }
}

/// Where an archive path of a manifest points: an absolute path as is, a
/// relative one beside the manifest.
pub open spec fn resolved_path(manifest_path: Seq<char>, path: Seq<char>) -> Seq<char> {
    if path_is_absolute(path) {
        path
    } else {
        match path_parent(manifest_path) {
            Some(dir) => path_join(dir, path),
            None => path,
        }
    }
}

/// Resolves an archive path of the manifest at `manifest_path`.
pub fn resolve_manifest_path(manifest_path: &str, path: &str) -> (r: String)
    ensures
        r@ == resolved_path(manifest_path@, path@),
{
    if is_absolute(path) {
        String::from_str(path)
    } else {
        match parent(manifest_path) {
            Some(dir) => join(dir.as_str(), path),
            None => String::from_str(path),
        }
    }
}

/// Whether an earlier path than `paths[j]` is the same path.
pub open spec fn has_earlier_equivalent(paths: Seq<Seq<char>>, j: int) -> bool {
    exists|i: int| 0 <= i < j && path_equivalent(#[trigger] paths[i], paths[j])
}

/// The first position, among the first `n`, holding a path that an earlier
/// one equals.
pub open spec fn first_duplicate(paths: Seq<Seq<char>>, n: int) -> Option<int>
    decreases n,
{
    if n <= 0 {
        None
    } else {
        match first_duplicate(paths, n - 1) {
            Some(j) => Some(j),
            None => if has_earlier_equivalent(paths, n - 1) {
                Some(n - 1)
            } else {
                None
            },
        }
    }
}

/// The duplicate found among the first `n` paths is one of them.
pub proof fn lemma_first_duplicate_bounds(paths: Seq<Seq<char>>, n: int)
    ensures
        first_duplicate(paths, n) matches Some(j) ==> 0 <= j < n,
    decreases n,
{
    if n > 0 {
        lemma_first_duplicate_bounds(paths, n - 1);
    }
}

pub proof fn lemma_first_duplicate_stable(paths: Seq<Seq<char>>, k: int, n: int)
    requires
        k <= n,
        first_duplicate(paths, k) is Some,
    ensures
        first_duplicate(paths, n) == first_duplicate(paths, k),
    decreases n - k,
{
    if k < n {
        lemma_first_duplicate_stable(paths, k, n - 1);
    }
}

/// The archive paths of manifest entries.
pub open spec fn entry_paths(entries: Seq<ContentArchiveManifestEntry>) -> Seq<Seq<char>> {
    entries.map_values(|e: ContentArchiveManifestEntry| e.path@)
}

/// The message for a manifest without archives.
pub open spec fn empty_manifest_message() -> Seq<char> {
    "content manifest requires at least one archive"@
}

/// The message for a duplicate archive path.
pub open spec fn duplicate_path_message(path: Seq<char>) -> Seq<char> {
    "content manifest has duplicate archive path `"@ + path + "`"@
}

/// Whether the first `j` paths hold one equal to `paths[j]`.
fn earlier_equivalent(entries: &Vec<ContentArchiveManifestEntry>, j: usize) -> (b: bool)
    requires
        j < entries@.len(),
    ensures
        b == has_earlier_equivalent(entry_paths(entries@), j as int),
{
    let ghost paths = entry_paths(entries@);
    let mut i: usize = 0;
    while i < j
        invariant
            j < entries@.len(),
            paths == entry_paths(entries@),
            i <= j,
            forall|k: int| 0 <= k < i ==> !path_equivalent(#[trigger] paths[k], paths[j as int]),
        decreases j - i,
    {
        if paths_equal(entries[i].path.as_str(), entries[j].path.as_str()) {
            assert(path_equivalent(paths[i as int], paths[j as int]));
            return true;
        }
        i = i + 1;
    }
    false
}

impl ContentArchiveManifest {
    /// A manifest of `archives`; it must hold at least one archive and no
    /// path twice.
    pub fn new(archives: Vec<ContentArchiveManifestEntry>) -> (r: Result<
        ContentArchiveManifest,
        GfmError,
    >)
        ensures
            archives@.len() == 0 ==> (r matches Err(GfmError::Format(m)) && m@
                == empty_manifest_message()),
            archives@.len() > 0 ==> match first_duplicate(
                entry_paths(archives@),
                archives@.len() as int,
            ) {
                Some(j) => (r matches Err(GfmError::Format(m)) && m@ == duplicate_path_message(
                    archives@[j].path@,
                )),
                None => r == Ok::<ContentArchiveManifest, GfmError>(
                    ContentArchiveManifest { archives },
                ),
            },
    {
        if archives.len() == 0 {
            return Err(GfmError::Format(String::from_str("content manifest requires at least one archive")));
        }
        let ghost paths = entry_paths(archives@);
        let mut j: usize = 0;
        while j < archives.len()
            invariant
                j <= archives@.len(),
                paths == entry_paths(archives@),
                first_duplicate(paths, j as int) is None,
            decreases archives@.len() - j,
        {
            if earlier_equivalent(&archives, j) {
                proof {
                    assert(first_duplicate(paths, j as int + 1) == Some(j as int));
                    lemma_first_duplicate_stable(paths, j as int + 1, archives@.len() as int);
                }
                let mut m = String::from_str("content manifest has duplicate archive path `");
                m.append(archives[j].path.as_str());
                m.append("`");
                return Err(GfmError::Format(m));
            }
            j = j + 1;
        }
        Ok(ContentArchiveManifest { archives })
    }

    /// The archive paths, each resolved against the manifest's own path.
    pub fn resolved_archive_paths(&self, manifest_path: &str) -> (v: Vec<String>)
        ensures
            v@.len() == self.archives@.len(),
            forall|i: int|
                0 <= i < v@.len() ==> #[trigger] v@[i]@ == resolved_path(
                    manifest_path@,
                    self.archives@[i].path@,
                ),
    {
        let mut v: Vec<String> = Vec::new();
        let mut i: usize = 0;
        while i < self.archives.len()
            invariant
                i <= self.archives@.len(),
                v@.len() == i,
                forall|k: int|
                    0 <= k < i ==> #[trigger] v@[k]@ == resolved_path(
                        manifest_path@,
                        self.archives@[k].path@,
                    ),
            decreases self.archives@.len() - i,
        {
            v.push(resolve_manifest_path(manifest_path, self.archives[i].path.as_str()));
            i = i + 1;
        }
        v
    }
}

/// The name of the promotion journal of a manifest: `.<name>.promotion-journal`
/// beside it, with `content.gfmmanifest` for a manifest path without a file
/// name.
pub open spec fn promotion_journal_path(manifest_path: Seq<char>) -> Seq<char> {
    let name = match path_file_name(manifest_path) {
        Some(n) => n,
        None => "content.gfmmanifest"@,
    };
    path_with_file_name(manifest_path, "."@ + name + ".promotion-journal"@)
}

/// The path of the promotion journal of the manifest at `manifest_path`.
pub fn content_manifest_promotion_journal_path(manifest_path: &str) -> (p: String)
    ensures
        p@ == promotion_journal_path(manifest_path@),
{
    let name = match file_name(manifest_path) {
        Some(n) => n,
        None => String::from_str("content.gfmmanifest"),
    };
    let mut journal_name = String::from_str(".");
    journal_name.append(name.as_str());
    journal_name.append(".promotion-journal");
    with_file_name(manifest_path, journal_name.as_str())
}

/// What recovering an interrupted promotion will do.
#[derive(Debug, Clone, Copy, PartialEq, Eq, Structural)]
pub enum ContentManifestPromotionRecoveryAction {
    Ready,
    CompletePromotion,
    RemoveStaleJournal,
    CannotRecover,
}

/// The name of a promotion recovery action.
pub open spec fn promotion_action_text(action: ContentManifestPromotionRecoveryAction) -> Seq<char> {
    match action {
        ContentManifestPromotionRecoveryAction::Ready => "ready"@,
        ContentManifestPromotionRecoveryAction::CompletePromotion => "complete-promotion"@,
        ContentManifestPromotionRecoveryAction::RemoveStaleJournal => "remove-stale-journal"@,
        ContentManifestPromotionRecoveryAction::CannotRecover => "cannot-recover"@,
    }
}

impl ContentManifestPromotionRecoveryAction {
    pub fn as_str(self) -> (s: &'static str)
        ensures
            s@ == promotion_action_text(self),
    {
        match self {
            ContentManifestPromotionRecoveryAction::Ready => "ready",
            ContentManifestPromotionRecoveryAction::CompletePromotion => "complete-promotion",
            ContentManifestPromotionRecoveryAction::RemoveStaleJournal => "remove-stale-journal",
            ContentManifestPromotionRecoveryAction::CannotRecover => "cannot-recover",
        }
    }
}

/// The plan for an interrupted promotion.
#[derive(Debug, Clone, PartialEq, Eq)]
pub struct ContentManifestPromotionRecoveryPlan {
    pub action: ContentManifestPromotionRecoveryAction,
    pub manifest_path: String,
    pub journal_path: String,
    pub detail: Option<String>,
}

impl ContentManifestPromotionRecoveryPlan {
    /// `content-manifest-promotion-recovery-plan` line: action, manifest,
    /// journal and detail.
    pub fn as_tsv(&self) -> (s: String)
        ensures
            s@ == "content-manifest-promotion-recovery-plan\taction="@ + promotion_action_text(
                self.action,
            ) + "\tmanifest="@ + self.manifest_path@ + "\tjournal="@ + self.journal_path@
                + "\tdetail="@ + or_dash(opt_chars(self.detail)),
    {
        let mut s = String::from_str("content-manifest-promotion-recovery-plan\taction=");
        s.append(self.action.as_str());
        s.append("\tmanifest=");
        s.append(self.manifest_path.as_str());
        s.append("\tjournal=");
        s.append(self.journal_path.as_str());
        s.append("\tdetail=");
        push_or_dash(&mut s, &self.detail);
        s
    }
}

/// The outcome of recovering an interrupted promotion.
#[derive(Debug, Clone, PartialEq, Eq)]
pub struct ContentManifestPromotionRecovery {
    pub before: ContentManifestPromotionRecoveryPlan,
    pub after: ContentManifestPromotionRecoveryPlan,
    pub completed_promotion: bool,
    pub removed_journal: bool,
}

/// Which inactive archives a cleanup removed, kept active or found missing.
#[derive(Debug, Clone, PartialEq, Eq)]
pub struct ContentArchiveCleanupReport {
    pub removed_archives: Vec<String>,
    pub active_archives: Vec<String>,
    pub missing_archives: Vec<String>,
}

/// When to clean up retired archives and how many at once.
#[derive(Debug, Clone, PartialEq, Eq)]
pub struct ContentArchiveCleanupPolicy {
    pub min_retired_archives: usize,
    pub min_retired_bytes: u64,
    pub max_cleanup_archives: usize,
}

impl Default for ContentArchiveCleanupPolicy {
    /// Clean up from one retired archive on, at most 64 at once.
    fn default() -> (p: ContentArchiveCleanupPolicy)
        ensures
            p == (ContentArchiveCleanupPolicy {
                min_retired_archives: 1,
                min_retired_bytes: 0,
                max_cleanup_archives: 64,
            }),
    {
        ContentArchiveCleanupPolicy {
            min_retired_archives: 1,
            min_retired_bytes: 0,
            max_cleanup_archives: 64,
        }
    }
}

/// Whether a cleanup removes archives.
#[derive(Debug, Clone, Copy, PartialEq, Eq, Structural)]
pub enum ContentArchiveCleanupAction {
    Skip,
    Cleanup,
}

/// The plan of a cleanup of retired archives.
#[derive(Debug, Clone, PartialEq, Eq)]
pub struct ContentArchiveCleanupPlan {
    pub action: ContentArchiveCleanupAction,
    pub cleanup_archives: Vec<String>,
    pub deferred_archives: Vec<String>,
    pub active_archives: Vec<String>,
    pub missing_archives: Vec<String>,
    pub active_bytes: u64,
    pub cleanup_bytes: u64,
    pub deferred_bytes: u64,
}

} // verus!
