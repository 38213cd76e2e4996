use vstd::prelude::*;

use crate::text::{decimal, opt_chars, or_dash, push_decimal, push_or_dash, str_equal};

verus! {

/// The derived archives kept beside the record archive.
#[derive(Debug, Clone, Copy, PartialEq, Eq, PartialOrd, Ord, Structural)]
pub enum SidecarKind {
    Columns,
    Metadata,
    Prefixes,
    Substrings,
    Fuzzy,
    Dictionary,
}

/// What sidecar recovery will do.
#[derive(Debug, Clone, Copy, PartialEq, Eq, Structural)]
pub enum SidecarRecoveryAction {
    Ready,
    Rebuild,
    CannotRecover,
}

/// Why sidecar recovery takes its action.
#[derive(Debug, Clone, Copy, PartialEq, Eq, Structural)]
pub enum SidecarRecoveryReason {
    Healthy,
    UnreadableRecords,
    MissingSidecar,
    UnreadableSidecar,
}

/// The name of a sidecar kind.
pub open spec fn sidecar_kind_text(kind: SidecarKind) -> Seq<char> {
    match kind {
        SidecarKind::Columns => "columns"@,
        SidecarKind::Metadata => "metadata"@,
        SidecarKind::Prefixes => "prefixes"@,
        SidecarKind::Substrings => "substrings"@,
        SidecarKind::Fuzzy => "fuzzy"@,
        SidecarKind::Dictionary => "dictionary"@,
    }
}

/// The name of a recovery action.
pub open spec fn sidecar_action_text(action: SidecarRecoveryAction) -> Seq<char> {
    match action {
        SidecarRecoveryAction::Ready => "ready"@,
        SidecarRecoveryAction::Rebuild => "rebuild"@,
        SidecarRecoveryAction::CannotRecover => "cannot-recover"@,
    }
}

/// The name of a recovery reason.
pub open spec fn sidecar_reason_text(reason: SidecarRecoveryReason) -> Seq<char> {
    match reason {
        SidecarRecoveryReason::Healthy => "healthy"@,
        SidecarRecoveryReason::UnreadableRecords => "unreadable-records"@,
        SidecarRecoveryReason::MissingSidecar => "missing-sidecar"@,
        SidecarRecoveryReason::UnreadableSidecar => "unreadable-sidecar"@,
    }
}

pub fn sidecar_kind_name(kind: SidecarKind) -> (s: &'static str)
    ensures
        s@ == sidecar_kind_text(kind),
{
    match kind {
        SidecarKind::Columns => "columns",
        SidecarKind::Metadata => "metadata",
        SidecarKind::Prefixes => "prefixes",
        SidecarKind::Substrings => "substrings",
        SidecarKind::Fuzzy => "fuzzy",
        SidecarKind::Dictionary => "dictionary",
    }
}

pub fn sidecar_recovery_action_name(action: SidecarRecoveryAction) -> (s: &'static str)
    ensures
        s@ == sidecar_action_text(action),
{
    match action {
        SidecarRecoveryAction::Ready => "ready",
        SidecarRecoveryAction::Rebuild => "rebuild",
        SidecarRecoveryAction::CannotRecover => "cannot-recover",
    }
}

pub fn sidecar_recovery_reason_name(reason: SidecarRecoveryReason) -> (s: &'static str)
    ensures
        s@ == sidecar_reason_text(reason),
{
    match reason {
        SidecarRecoveryReason::Healthy => "healthy",
        SidecarRecoveryReason::UnreadableRecords => "unreadable-records",
        SidecarRecoveryReason::MissingSidecar => "missing-sidecar",
        SidecarRecoveryReason::UnreadableSidecar => "unreadable-sidecar",
    }
}

/// Where each configured sidecar lives.
#[derive(Debug, Clone, Default, PartialEq, Eq)]
pub struct SidecarPaths {
    pub columns: Option<String>,
    pub metadata: Option<String>,
    pub prefixes: Option<String>,
    pub substrings: Option<String>,
    pub fuzzy: Option<String>,
    pub dictionary: Option<String>,
}

/// `(kind, path)` for a configured sidecar, nothing otherwise.
pub open spec fn present(kind: SidecarKind, path: Option<String>) -> Seq<(SidecarKind, Seq<char>)> {
    match path {
        Some(p) => seq![(kind, p@)],
        None => Seq::empty(),
    }
}

/// The configured sidecars in kind order.
pub open spec fn present_sidecars(paths: SidecarPaths) -> Seq<(SidecarKind, Seq<char>)> {
    present(SidecarKind::Columns, paths.columns) + present(SidecarKind::Metadata, paths.metadata)
        + present(SidecarKind::Prefixes, paths.prefixes) + present(
        SidecarKind::Substrings,
        paths.substrings,
    ) + present(SidecarKind::Fuzzy, paths.fuzzy) + present(
        SidecarKind::Dictionary,
        paths.dictionary,
    )
}

fn push_present(out: &mut Vec<(SidecarKind, String)>, kind: SidecarKind, path: &Option<String>)
    ensures
        final(out)@.map_values(|e: (SidecarKind, String)| (e.0, e.1@)) == old(out)@.map_values(
            |e: (SidecarKind, String)| (e.0, e.1@),
        ) + present(kind, *path),
{
    if let Some(p) = path {
        out.push((kind, p.clone()));
    }
    assert(out@.map_values(|e: (SidecarKind, String)| (e.0, e.1@)) =~= old(out)@.map_values(
        |e: (SidecarKind, String)| (e.0, e.1@),
    ) + present(kind, *path));
}

impl SidecarPaths {
    /// The configured sidecars, in kind order.
    pub fn iter(&self) -> (v: Vec<(SidecarKind, String)>)
        ensures
            v@.map_values(|e: (SidecarKind, String)| (e.0, e.1@)) == present_sidecars(*self),
    {
        let mut v: Vec<(SidecarKind, String)> = Vec::new();
        push_present(&mut v, SidecarKind::Columns, &self.columns);
        push_present(&mut v, SidecarKind::Metadata, &self.metadata);
        push_present(&mut v, SidecarKind::Prefixes, &self.prefixes);
        push_present(&mut v, SidecarKind::Substrings, &self.substrings);
        push_present(&mut v, SidecarKind::Fuzzy, &self.fuzzy);
        push_present(&mut v, SidecarKind::Dictionary, &self.dictionary);
        assert(v@.map_values(|e: (SidecarKind, String)| (e.0, e.1@)) =~= present_sidecars(*self));
        v
    }

    /// No sidecar is configured.
    pub fn is_empty(&self) -> (b: bool)
        ensures
            b == (present_sidecars(*self).len() == 0),
    {
        self.columns.is_none() && self.metadata.is_none() && self.prefixes.is_none()
            && self.substrings.is_none() && self.fuzzy.is_none() && self.dictionary.is_none()
    }
}

/// What storage tells about one configured sidecar.
#[derive(Debug, Clone, PartialEq, Eq)]
pub enum SidecarState {
    /// It exists and its reader opens it.
    Valid,
    /// It does not exist.
    Missing,
    /// Whether it exists could not be told; the error text.
    ProbeFailed(String),
    /// Its reader rejects it; the error text.
    Unreadable(String),
}

/// The detail recorded for a sidecar in a state: none for a valid one.
pub open spec fn state_detail(state: SidecarState) -> Option<Seq<char>> {
    match state {
        SidecarState::Valid => None,
        SidecarState::Missing => Some("missing sidecar archive"@),
        SidecarState::ProbeFailed(e) => Some("sidecar archive existence unavailable: "@ + e@),
        SidecarState::Unreadable(e) => Some(e@),
    }
}

/// The health of one sidecar.
#[derive(Debug, Clone, PartialEq, Eq)]
pub struct SidecarHealth {
    pub kind: SidecarKind,
    pub path: String,
    pub valid: bool,
    pub detail: Option<String>,
}

/// `h` records the sidecar `(kind, path)` in `state`.
pub open spec fn health_is(h: SidecarHealth, entry: (SidecarKind, Seq<char>), state: SidecarState) -> bool {
    &&& h.kind == entry.0
    &&& h.path@ == entry.1
    &&& h.valid == (state is Valid)
    &&& opt_chars(h.detail) == state_detail(state)
}

/// The positions, among the first `n`, of the sidecars whose state is (or is
/// not, for `valid == false`) `Valid`.
pub open spec fn state_positions(states: Seq<SidecarState>, n: int, valid: bool) -> Seq<int>
    decreases n,
{
    if n <= 0 {
        Seq::empty()
    } else {
        let rest = state_positions(states, n - 1, valid);
        if (states[n - 1] is Valid) == valid {
            rest.push(n - 1)
        } else {
            rest
        }
    }
}

/// `healths` records, in order, the sidecars at `positions`.
pub open spec fn healths_are(
    healths: Seq<SidecarHealth>,
    entries: Seq<(SidecarKind, Seq<char>)>,
    states: Seq<SidecarState>,
    positions: Seq<int>,
) -> bool {
    &&& healths.len() == positions.len()
    &&& forall|i: int|
        0 <= i < healths.len() ==> #[trigger] health_is(
            healths[i],
            entries[positions[i]],
            states[positions[i]],
        )
}

/// The recovery plan for the sidecars of a record archive.
#[derive(Debug, Clone, PartialEq, Eq)]
pub struct SidecarRecoveryPlan {
    pub action: SidecarRecoveryAction,
    pub reason: SidecarRecoveryReason,
    pub records_path: String,
    pub record_count: Option<usize>,
    pub valid_sidecars: Vec<SidecarHealth>,
    pub invalid_sidecars: Vec<SidecarHealth>,
    pub detail: Option<String>,
}

/// The text of an optional count, or `-`.
pub open spec fn count_or_dash(c: Option<usize>) -> Seq<char> {
    match c {
        Some(n) => decimal(n as nat),
        None => "-"@,
    }
}

impl SidecarRecoveryPlan {
    /// Nothing needs recovery.
    pub fn ready(&self) -> (b: bool)
        ensures
            b == (self.action == SidecarRecoveryAction::Ready),
    {
        match self.action {
            SidecarRecoveryAction::Ready => true,
            _ => false,
        }
    }

    /// `sidecar-recovery-plan` line: action, reason, records path, record
    /// count, numbers of valid and invalid sidecars, and detail.
    pub fn as_tsv(&self) -> (s: String)
        ensures
            s@ == "sidecar-recovery-plan\taction="@ + sidecar_action_text(self.action)
                + "\treason="@ + sidecar_reason_text(self.reason) + "\trecords="@
                + self.records_path@ + "\trecord-count="@ + count_or_dash(self.record_count)
                + "\tvalid="@ + decimal(self.valid_sidecars@.len()) + "\tinvalid="@ + decimal(
                self.invalid_sidecars@.len(),
            ) + "\tdetail="@ + or_dash(opt_chars(self.detail)),
    {
        let mut s = String::from_str("sidecar-recovery-plan\taction=");
        s.append(sidecar_recovery_action_name(self.action));
        s.append("\treason=");
        s.append(sidecar_recovery_reason_name(self.reason));
        s.append("\trecords=");
        s.append(self.records_path.as_str());
        s.append("\trecord-count=");
        match self.record_count {
            Some(n) => push_decimal(&mut s, n as u64),
            None => s.append("-"),
        }
        s.append("\tvalid=");
        push_decimal(&mut s, self.valid_sidecars.len() as u64);
        s.append("\tinvalid=");
        push_decimal(&mut s, self.invalid_sidecars.len() as u64);
        s.append("\tdetail=");
        push_or_dash(&mut s, &self.detail);
        s
    }
}

/// The outcome of sidecar recovery.
#[derive(Debug, Clone, PartialEq, Eq)]
pub struct SidecarRecovery {
    pub before: SidecarRecoveryPlan,
    pub after: SidecarRecoveryPlan,
    pub rebuilt_sidecars: Vec<SidecarKind>,
    pub quarantined_sidecars: Vec<String>,
}

fn health_for(kind: SidecarKind, path: &String, state: &SidecarState) -> (h: SidecarHealth)
    ensures
        health_is(h, (kind, path@), *state),
{
    let detail = match state {
        SidecarState::Valid => None,
        SidecarState::Missing => Some(String::from_str("missing sidecar archive")),
        SidecarState::ProbeFailed(e) => {
            let mut d = String::from_str("sidecar archive existence unavailable: ");
            d.append(e.as_str());
            Some(d)
        },
        SidecarState::Unreadable(e) => Some(e.clone()),
    };
    let valid = match state {
        SidecarState::Valid => true,
        _ => false,
    };
    SidecarHealth { kind, path: path.clone(), valid, detail }
}

/// Splits the configured sidecars into valid and invalid ones, each in
/// kind order.
fn classify_sidecars(entries: &Vec<(SidecarKind, String)>, states: &[SidecarState]) -> (r: (
    Vec<SidecarHealth>,
    Vec<SidecarHealth>,
))
    requires
        entries@.len() == states@.len(),
    ensures
        healths_are(
            r.0@,
            entries@.map_values(|e: (SidecarKind, String)| (e.0, e.1@)),
            states@,
            state_positions(states@, states@.len() as int, true),
        ),
        healths_are(
            r.1@,
            entries@.map_values(|e: (SidecarKind, String)| (e.0, e.1@)),
            states@,
            state_positions(states@, states@.len() as int, false),
        ),
{
    let ghost views = entries@.map_values(|e: (SidecarKind, String)| (e.0, e.1@));
    let mut valid: Vec<SidecarHealth> = Vec::new();
    let mut invalid: Vec<SidecarHealth> = Vec::new();
    let mut i: usize = 0;
    while i < states.len()
        invariant
            entries@.len() == states@.len(),
            views == entries@.map_values(|e: (SidecarKind, String)| (e.0, e.1@)),
            i <= states@.len(),
            healths_are(valid@, views, states@, state_positions(states@, i as int, true)),
            healths_are(invalid@, views, states@, state_positions(states@, i as int, false)),
            forall|j: int|
                0 <= j < state_positions(states@, i as int, true).len() ==> 0
                    <= #[trigger] state_positions(states@, i as int, true)[j] < i,
            forall|j: int|
                0 <= j < state_positions(states@, i as int, false).len() ==> 0
                    <= #[trigger] state_positions(states@, i as int, false)[j] < i,
        decreases states@.len() - i,
    {
        let h = health_for(entries[i].0, &entries[i].1, &states[i]);
        proof {
            assert(views[i as int] == (entries@[i as int].0, entries@[i as int].1@));
        }
        if h.valid {
            valid.push(h);
        } else {
            invalid.push(h);
        }
        i = i + 1;
    }
    (valid, invalid)
}

/// Whether any invalid sidecar is a missing one.
pub open spec fn any_missing(healths: Seq<SidecarHealth>) -> bool {
    exists|i: int| 0 <= i < healths.len() && opt_chars(#[trigger] healths[i].detail) == Some("missing sidecar archive"@)
}

/// The reason to rebuild: a missing sidecar wins over an unreadable one.
fn invalid_sidecar_reason(invalid_sidecars: &Vec<SidecarHealth>) -> (r: SidecarRecoveryReason)
    ensures
        r == if any_missing(invalid_sidecars@) {
            SidecarRecoveryReason::MissingSidecar
        } else {
            SidecarRecoveryReason::UnreadableSidecar
        },
{
    proof {
        reveal_strlit("missing sidecar archive");
    }
    let mut i: usize = 0;
    while i < invalid_sidecars.len()
        invariant
            i <= invalid_sidecars@.len(),
            forall|j: int|
                0 <= j < i ==> opt_chars(#[trigger] invalid_sidecars@[j].detail) != Some(
                    "missing sidecar archive"@,
                ),
        decreases invalid_sidecars@.len() - i,
    {
        if let Some(d) = &invalid_sidecars[i].detail {
            if str_equal(d.as_str(), "missing sidecar archive") {
                return SidecarRecoveryReason::MissingSidecar;
            }
        }
        i = i + 1;
    }
    SidecarRecoveryReason::UnreadableSidecar
}

/// Plans the recovery of the sidecars of the record archive at
/// `records_path`. `records` is the number of records that the record
/// archive holds, or the text of the error that reading it raised;
/// `states[i]` is the state of the `i`-th configured sidecar in kind order.
/// With unreadable records nothing can be recovered; with every sidecar
/// valid all is ready; otherwise the invalid sidecars are rebuilt.
pub fn plan_sidecar_recovery(
    records_path: &str,
    sidecars: &SidecarPaths,
    records: Result<usize, String>,
    states: &[SidecarState],
) -> (plan: SidecarRecoveryPlan)
    requires
        states@.len() == present_sidecars(*sidecars).len(),
    ensures
        plan.records_path@ == records_path@,
        match records {
            Err(e) => {
                &&& plan.action == SidecarRecoveryAction::CannotRecover
                &&& plan.reason == SidecarRecoveryReason::UnreadableRecords
                &&& plan.record_count is None
                &&& plan.valid_sidecars@.len() == 0
                &&& plan.invalid_sidecars@.len() == 0
                &&& opt_chars(plan.detail) == Some(e@)
            },
            Ok(count) => {
                &&& plan.record_count == Some(count)
                &&& plan.detail is None
                &&& healths_are(
                    plan.valid_sidecars@,
                    present_sidecars(*sidecars),
                    states@,
                    state_positions(states@, states@.len() as int, true),
                )
                &&& healths_are(
                    plan.invalid_sidecars@,
                    present_sidecars(*sidecars),
                    states@,
                    state_positions(states@, states@.len() as int, false),
                )
                &&& if plan.invalid_sidecars@.len() == 0 {
                    plan.action == SidecarRecoveryAction::Ready && plan.reason
                        == SidecarRecoveryReason::Healthy
                } else {
                    &&& plan.action == SidecarRecoveryAction::Rebuild
                    &&& plan.reason == if any_missing(plan.invalid_sidecars@) {
                        SidecarRecoveryReason::MissingSidecar
                    } else {
                        SidecarRecoveryReason::UnreadableSidecar
                    }
                }
            },
        },
{
    let records_path = String::from_str(records_path);
    let count = match records {
        Err(e) => {
            return SidecarRecoveryPlan {
                action: SidecarRecoveryAction::CannotRecover,
                reason: SidecarRecoveryReason::UnreadableRecords,
                records_path,
                record_count: None,
                valid_sidecars: Vec::new(),
                invalid_sidecars: Vec::new(),
                detail: Some(e),
            };
        },
        Ok(count) => count,
    };
    let entries = sidecars.iter();
    let (valid_sidecars, invalid_sidecars) = classify_sidecars(&entries, states);
    if invalid_sidecars.len() == 0 {
        return SidecarRecoveryPlan {
            action: SidecarRecoveryAction::Ready,
            reason: SidecarRecoveryReason::Healthy,
            records_path,
            record_count: Some(count),
            valid_sidecars,
            invalid_sidecars,
            detail: None,
        };
    }
    let reason = invalid_sidecar_reason(&invalid_sidecars);
    SidecarRecoveryPlan {
        action: SidecarRecoveryAction::Rebuild,
        reason,
        records_path,
        record_count: Some(count),
        valid_sidecars,
        invalid_sidecars,
        detail: None,
    }
}

} // verus!
