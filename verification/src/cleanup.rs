use vstd::prelude::*;

use crate::contentset::{
    resolve_manifest_path, resolved_path, ContentArchiveCleanupAction, ContentArchiveCleanupPlan,
    ContentArchiveCleanupPolicy, ContentArchiveManifest,
};
use crate::error::GfmError;
use crate::contentset::entry_views;
use crate::manifest::{line_views, resolved_paths, seen_contains, seen_equivalent};
use crate::promotion::resolved_all;
use crate::paths::{path_equivalent, path_less, path_precedes, paths_equal};

verus! {

/// What a metadata query found at an archive path: its length, nothing, or
/// a failure with its message.
#[derive(Debug, Clone, PartialEq, Eq)]
pub enum ArchiveFileState {
    Len(u64),
    Missing,
    Failed(String),
}

/// The metadata a cleanup plan rests on: the state of each archive of the
/// manifest, in order, and of each candidate, in order.
#[derive(Debug, Clone, PartialEq, Eq)]
pub struct ContentArchiveCleanupProbe {
    pub active: Vec<ArchiveFileState>,
    pub candidates: Vec<ArchiveFileState>,
}

/// Paths in strictly ascending path order.
pub open spec fn path_sorted(s: Seq<Seq<char>>) -> bool {
    forall|i: int, j: int| 0 <= i < j < s.len() ==> path_precedes(#[trigger] s[i], #[trigger] s[j])
}

/// Whether `ms` holds `x` itself or a path equal to it.
pub open spec fn covered(ms: Seq<Seq<char>>, x: Seq<char>) -> bool {
    exists|q: int| 0 <= q < ms.len() && (#[trigger] ms[q] == x || path_equivalent(ms[q], x))
}

/// `a + b`, or `u64::MAX` where that overflows.
pub open spec fn sat_add(a: u64, b: u64) -> u64 {
    if a + b > u64::MAX {
        u64::MAX
    } else {
        (a + b) as u64
    }
}

/// The saturating sum of `s`.
pub open spec fn sat_sum(s: Seq<u64>) -> u64
    decreases s.len(),
{
    if s.len() == 0 {
        0
    } else {
        sat_add(sat_sum(s.drop_last()), s.last())
    }
}

/// The paths of keyed entries.
pub open spec fn entry_keys(m: Seq<(Seq<char>, u64)>) -> Seq<Seq<char>> {
    m.map_values(|e: (Seq<char>, u64)| e.0)
}

/// The values of keyed entries.
pub open spec fn entry_values(m: Seq<(Seq<char>, u64)>) -> Seq<u64> {
    m.map_values(|e: (Seq<char>, u64)| e.1)
}

/// The plain values of keyed entries.
pub open spec fn keyed_view(m: Seq<(String, u64)>) -> Seq<(Seq<char>, u64)> {
    m.map_values(|e: (String, u64)| (e.0@, e.1))
}

/// Inserts `key` into `m`, kept in path order: where an equal path is
/// there, its value becomes `value` if `replace` holds; else `key` goes in
/// before the first path it precedes. Returns the index of the equal path,
/// if there was one.
fn insert_keyed(m: &mut Vec<(String, u64)>, key: String, value: u64, replace: bool) -> (found: Option<usize>)
    requires
        path_sorted(entry_keys(keyed_view(old(m)@))),
    ensures
        path_sorted(entry_keys(keyed_view(final(m)@))),
        match found {
            Some(i) => {
                &&& i < old(m)@.len()
                &&& path_equivalent(entry_keys(keyed_view(old(m)@))[i as int], key@)
                &&& entry_keys(keyed_view(final(m)@)) == entry_keys(keyed_view(old(m)@))
                &&& entry_values(keyed_view(final(m)@)) == if replace {
                    entry_values(keyed_view(old(m)@)).update(i as int, value)
                } else {
                    entry_values(keyed_view(old(m)@))
                }
            },
            None => exists|k: int|
                0 <= k <= old(m)@.len() && keyed_view(final(m)@) == #[trigger] keyed_view(old(m)@).insert(
                    k,
                    (key@, value),
                ),
        },
{
    let ghost keys = entry_keys(keyed_view(m@));
    let mut k: usize = 0;
    let mut stop = false;
    while k < m.len() && !stop
        invariant
            keys == entry_keys(keyed_view(m@)),
            path_sorted(keys),
            k <= m@.len(),
            forall|j: int| 0 <= j < k ==> path_precedes(#[trigger] keys[j], key@),
            stop ==> k < m@.len() && (path_precedes(key@, keys[k as int]) || path_equivalent(
                keys[k as int],
                key@,
            )),
        decreases m@.len() - k + if stop { 0int } else { 1int },
    {
        proof {
            assert(keys[k as int] == m@[k as int].0@);
        }
        if path_less(m[k].0.as_str(), key.as_str()) {
            k = k + 1;
        } else {
            stop = true;
        }
    }
    if k < m.len() {
        proof {
            assert(keys[k as int] == m@[k as int].0@);
        }
        if !path_less(key.as_str(), m[k].0.as_str()) {
            if replace {
                let kept = m[k].0.clone();
                let ghost before = keyed_view(m@);
                m.set(k, (kept, value));
                proof {
                    assert(keyed_view(m@) =~= before.update(k as int, (before[k as int].0, value)));
                    assert(entry_keys(keyed_view(m@)) =~= keys);
                    assert(entry_values(keyed_view(m@)) =~= entry_values(before).update(k as int, value));
                }
            }
            return Some(k);
        }
    }
    let ghost before = keyed_view(m@);
    let ghost kv = key@;
    m.insert(k, (key, value));
    proof {
        assert(keyed_view(m@) =~= before.insert(k as int, (kv, value)));
        let nk = entry_keys(keyed_view(m@));
        assert(nk =~= keys.insert(k as int, kv));
        assert forall|i: int, j: int| 0 <= i < j < nk.len() implies path_precedes(#[trigger] nk[i], #[trigger] nk[j]) by {
            if j < k {
                assert(nk[i] == keys[i] && nk[j] == keys[j]);
            } else if j == k {
                assert(nk[i] == keys[i]);
            } else if i == k {
                assert(nk[j] == keys[j - 1]);
                if j - 1 > k {
                    assert(path_precedes(keys[k as int], keys[j - 1]));
                }
            } else if i < k {
                assert(nk[i] == keys[i] && nk[j] == keys[j - 1]);
            } else {
                assert(nk[i] == keys[i - 1] && nk[j] == keys[j - 1]);
            }
        }
    }
    None
}


/// The total length of the active archives `reps` stand for, their states
/// taken from `states` by archive index, or the first failure among them:
/// its path and message. A missing archive counts nothing.
pub open spec fn active_total(reps: Seq<(Seq<char>, u64)>, states: Seq<ArchiveFileState>, k: int) -> Result<
    u64,
    (Seq<char>, Seq<char>),
>
    decreases k,
{
    if k <= 0 {
        Ok(0)
    } else {
        match active_total(reps, states, k - 1) {
            Err(e) => Err(e),
            Ok(t) => match states[reps[k - 1].1 as int] {
                ArchiveFileState::Len(n) => Ok(sat_add(t, n)),
                ArchiveFileState::Missing => Ok(t),
                ArchiveFileState::Failed(m) => Err((reps[k - 1].0, m@)),
            },
        }
    }
}

/// `reps` stand for the active paths `active`: in path order, each the
/// path of the archive whose index it carries, and every active path equal
/// to one of them.
pub open spec fn reps_ok(reps: Seq<(Seq<char>, u64)>, active: Seq<Seq<char>>) -> bool {
    &&& path_sorted(entry_keys(reps))
    &&& forall|i: int|
        0 <= i < reps.len() ==> (#[trigger] reps[i]).1 < active.len() && active[reps[i].1 as int] == reps[i].0
    &&& forall|a: int| 0 <= a < active.len() ==> covered(entry_keys(reps), #[trigger] active[a])
}

/// The first of the first `k` candidates that is not active and whose state
/// is a failure.
pub open spec fn first_failure(
    keys: Seq<Seq<char>>,
    cands: Seq<Seq<char>>,
    states: Seq<ArchiveFileState>,
    k: int,
) -> Option<int>
    decreases k,
{
    if k <= 0 {
        None
    } else {
        match first_failure(keys, cands, states, k - 1) {
            Some(j) => Some(j),
            None => if !seen_equivalent(keys, cands[k - 1]) && states[k - 1] is Failed {
                Some(k - 1)
            } else {
                None
            },
        }
    }
}

/// The first `k` candidates that are active, in order.
pub open spec fn active_candidates(keys: Seq<Seq<char>>, cands: Seq<Seq<char>>, k: int) -> Seq<Seq<char>>
    decreases k,
{
    if k <= 0 {
        Seq::empty()
    } else if seen_equivalent(keys, cands[k - 1]) {
        active_candidates(keys, cands, k - 1).push(cands[k - 1])
    } else {
        active_candidates(keys, cands, k - 1)
    }
}

/// The first `k` candidates that are not active and missing, in order.
pub open spec fn missing_candidates(
    keys: Seq<Seq<char>>,
    cands: Seq<Seq<char>>,
    states: Seq<ArchiveFileState>,
    k: int,
) -> Seq<Seq<char>>
    decreases k,
{
    if k <= 0 {
        Seq::empty()
    } else if !seen_equivalent(keys, cands[k - 1]) && states[k - 1] is Missing {
        missing_candidates(keys, cands, states, k - 1).push(cands[k - 1])
    } else {
        missing_candidates(keys, cands, states, k - 1)
    }
}

/// Candidate `j`, one of the first `n`, is retired: not active, and found
/// with a length.
pub open spec fn is_retired(
    keys: Seq<Seq<char>>,
    cands: Seq<Seq<char>>,
    states: Seq<ArchiveFileState>,
    n: int,
    j: int,
) -> bool {
    0 <= j < n && !seen_equivalent(keys, cands[j]) && states[j] is Len
}

/// Entry `i` of `retired` is the path of a retired candidate among the
/// first `n`, and has the length of a retired candidate equal to it.
pub open spec fn retired_entry_ok(
    retired: Seq<(Seq<char>, u64)>,
    keys: Seq<Seq<char>>,
    cands: Seq<Seq<char>>,
    states: Seq<ArchiveFileState>,
    n: int,
    i: int,
) -> bool {
    &&& exists|j: int| #[trigger] is_retired(keys, cands, states, n, j) && cands[j] == retired[i].0
    &&& exists|j: int|
        #[trigger] is_retired(keys, cands, states, n, j) && (cands[j] == retired[i].0 || path_equivalent(
            retired[i].0,
            cands[j],
        )) && states[j] == ArchiveFileState::Len(retired[i].1)
}

/// `retired` holds the retired archives among the first `n` candidates: in
/// path order, each the path of a retired candidate and the length of a
/// retired candidate equal to it, and every retired candidate equal to one
/// of them.
pub open spec fn retired_ok(
    retired: Seq<(Seq<char>, u64)>,
    keys: Seq<Seq<char>>,
    cands: Seq<Seq<char>>,
    states: Seq<ArchiveFileState>,
    n: int,
) -> bool {
    &&& path_sorted(entry_keys(retired))
    &&& forall|i: int| 0 <= i < retired.len() ==> #[trigger] retired_entry_ok(retired, keys, cands, states, n, i)
    &&& forall|j: int| #[trigger] is_retired(keys, cands, states, n, j) ==> covered(entry_keys(retired), cands[j])
}

/// How many retired archives a cleanup removes: none unless there are at
/// least `min_retired_archives` of them (at least one) or they hold at
/// least `min_retired_bytes`; else all of them, up to
/// `max_cleanup_archives` (at least one).
pub open spec fn selected_count(policy: ContentArchiveCleanupPolicy, retired: Seq<(Seq<char>, u64)>) -> int {
    let count = retired.len() as int;
    let min_count = if policy.min_retired_archives >= 1 { policy.min_retired_archives as int } else { 1 };
    let max_count = if policy.max_cleanup_archives >= 1 { policy.max_cleanup_archives as int } else { 1 };
    if count >= min_count || sat_sum(entry_values(retired)) >= policy.min_retired_bytes {
        if count <= max_count {
            count
        } else {
            max_count
        }
    } else {
        0
    }
}

/// The plan that the retired archives `retired` give.
pub open spec fn plan_matches(
    plan: ContentArchiveCleanupPlan,
    policy: ContentArchiveCleanupPolicy,
    retired: Seq<(Seq<char>, u64)>,
    active_bytes: u64,
    keys: Seq<Seq<char>>,
    cands: Seq<Seq<char>>,
    states: Seq<ArchiveFileState>,
) -> bool {
    let sel = selected_count(policy, retired);
    &&& line_views(plan.cleanup_archives@) == entry_keys(retired).take(sel)
    &&& line_views(plan.deferred_archives@) == entry_keys(retired).skip(sel)
    &&& line_views(plan.active_archives@) == active_candidates(keys, cands, cands.len() as int)
    &&& line_views(plan.missing_archives@) == missing_candidates(keys, cands, states, cands.len() as int)
    &&& plan.active_bytes == active_bytes
    &&& plan.cleanup_bytes == sat_sum(entry_values(retired).take(sel))
    &&& plan.deferred_bytes == sat_sum(entry_values(retired).skip(sel))
    &&& plan.action == if sel == 0 {
        ContentArchiveCleanupAction::Skip
    } else {
        ContentArchiveCleanupAction::Cleanup
    }
}

/// The message of a failed state.
pub open spec fn failure_message(s: ArchiveFileState) -> Seq<char> {
    match s {
        ArchiveFileState::Failed(m) => m@,
        _ => Seq::empty(),
    }
}

/// What planning a cleanup gives, with `reps` standing for the active
/// archives and `retired` for the retired candidates: the first failure
/// among the active archives, in path order; else the first failure among
/// the candidates that are not active, in order; else the plan.
pub open spec fn cleanup_outcome(
    active: Seq<Seq<char>>,
    cands: Seq<Seq<char>>,
    active_states: Seq<ArchiveFileState>,
    states: Seq<ArchiveFileState>,
    policy: ContentArchiveCleanupPolicy,
    reps: Seq<(Seq<char>, u64)>,
    retired: Seq<(Seq<char>, u64)>,
    r: Result<ContentArchiveCleanupPlan, GfmError>,
) -> bool {
    let keys = entry_keys(reps);
    &&& reps_ok(reps, active)
    &&& match active_total(reps, active_states, reps.len() as int) {
        Err((p, m)) => r matches Err(GfmError::Io { path, message }) && path@ == p && message@ == m,
        Ok(total) => match first_failure(keys, cands, states, cands.len() as int) {
            Some(j) => {
                &&& r matches Err(GfmError::Io { path, message }) && path@ == cands[j]
                    && message@ == failure_message(states[j])
            },
            None => {
                &&& retired_ok(retired, keys, cands, states, cands.len() as int)
                &&& r matches Ok(plan) && plan_matches(plan, policy, retired, total, keys, cands, states)
            },
        },
    }
}


/// The representatives of the active paths: each distinct path, in path
/// order, with the index of the first archive that has it.
fn active_reps(active: &Vec<String>) -> (reps: Vec<(String, u64)>)
    ensures
        reps_ok(keyed_view(reps@), line_views(active@)),
{
    let ghost av = line_views(active@);
    let mut reps: Vec<(String, u64)> = Vec::new();
    let mut a: usize = 0;
    proof {
        assert(entry_keys(keyed_view(reps@)) =~= Seq::<Seq<char>>::empty());
    }
    while a < active.len()
        invariant
            av == line_views(active@),
            a <= av.len(),
            path_sorted(entry_keys(keyed_view(reps@))),
            forall|i: int|
                0 <= i < reps@.len() ==> (#[trigger] keyed_view(reps@)[i]).1 < a && av[keyed_view(reps@)[i].1 as int]
                    == keyed_view(reps@)[i].0,
            forall|b: int| 0 <= b < a ==> covered(entry_keys(keyed_view(reps@)), #[trigger] av[b]),
        decreases av.len() - a,
    {
        let ghost before = keyed_view(reps@);
        let p = active[a].clone();
        proof {
            assert(av[a as int] == p@);
        }
        let found = insert_keyed(&mut reps, p, a as u64, false);
        proof {
            let now = keyed_view(reps@);
            let nk = entry_keys(now);
            let ok = entry_keys(before);
            match found {
                Some(i) => {
                    assert(nk == ok);
                    assert forall|x: int| 0 <= x < reps@.len() implies (#[trigger] keyed_view(reps@)[x]).1 < a + 1
                        && av[keyed_view(reps@)[x].1 as int] == keyed_view(reps@)[x].0 by {
                        assert(now[x].0 == nk[x] && before[x].0 == ok[x]);
                        assert(now[x].1 == entry_values(now)[x] && before[x].1 == entry_values(before)[x]);
                    }
                    assert forall|b: int| 0 <= b < a + 1 implies covered(nk, #[trigger] av[b]) by {
                        if b == a {
                            assert(nk[i as int] == ok[i as int]);
                        }
                    }
                },
                None => {
                    let k = choose|k: int|
                        0 <= k <= before.len() && keyed_view(reps@) == #[trigger] before.insert(k, (av[a as int], a as u64));
                    assert(now == before.insert(k, (av[a as int], a as u64)));
                    assert forall|x: int| 0 <= x < reps@.len() implies (#[trigger] keyed_view(reps@)[x]).1 < a + 1
                        && av[keyed_view(reps@)[x].1 as int] == keyed_view(reps@)[x].0 by {
                        if x < k {
                            assert(now[x] == before[x]);
                        } else if x > k {
                            assert(now[x] == before[x - 1]);
                        }
                    }
                    assert forall|b: int| 0 <= b < a + 1 implies covered(nk, #[trigger] av[b]) by {
                        if b == a {
                            assert(nk[k] == av[a as int]);
                        } else {
                            assert(covered(ok, av[b]));
                            let q = choose|q: int| 0 <= q < ok.len() && (#[trigger] ok[q] == av[b] || path_equivalent(ok[q], av[b]));
                            if q < k {
                                assert(nk[q] == ok[q]);
                            } else {
                                assert(nk[q + 1] == ok[q]);
                            }
                        }
                    }
                },
            }
        }
        a = a + 1;
    }
    reps
}

/// The total length of the active archives, or the first failure among
/// them in path order.
fn active_bytes_of(reps: &Vec<(String, u64)>, states: &Vec<ArchiveFileState>) -> (r: Result<u64, GfmError>)
    requires
        forall|i: int| 0 <= i < reps@.len() ==> (#[trigger] keyed_view(reps@)[i]).1 < states@.len(),
    ensures
        match active_total(keyed_view(reps@), states@, reps@.len() as int) {
            Ok(t) => r == Ok::<u64, GfmError>(t),
            Err((p, m)) => r matches Err(GfmError::Io { path, message }) && path@ == p && message@ == m,
        },
{
    let ghost rv = keyed_view(reps@);
    let mut total: u64 = 0;
    let mut i: usize = 0;
    while i < reps.len()
        invariant
            rv == keyed_view(reps@),
            i <= rv.len(),
            forall|x: int| 0 <= x < rv.len() ==> (#[trigger] rv[x]).1 < states@.len(),
            active_total(rv, states@, i as int) == Ok::<u64, (Seq<char>, Seq<char>)>(total),
        decreases rv.len() - i,
    {
        proof {
            assert(rv[i as int] == (reps@[i as int].0@, reps@[i as int].1));
        }
        let state_count = states.len();
        let idx = reps[i].1 as usize;
        proof {
            assert(rv[i as int].1 < states@.len());
            assert(rv[i as int].1 < state_count);
            assert(idx as int == rv[i as int].1 as int);
        }
        match &states[idx] {
            ArchiveFileState::Len(n) => {
                total = total.saturating_add(*n);
            },
            ArchiveFileState::Missing => {},
            ArchiveFileState::Failed(m) => {
                proof {
                    assert(active_total(rv, states@, i as int + 1) == Err::<u64, (Seq<char>, Seq<char>)>(
                        (rv[i as int].0, m@),
                    ));
                    lemma_active_total_err(rv, states@, i as int + 1, rv.len() as int);
                }
                return Err(GfmError::Io { path: reps[i].0.clone(), message: m.clone() });
            },
        }
        i = i + 1;
    }
    Ok(total)
}

proof fn lemma_active_total_err(reps: Seq<(Seq<char>, u64)>, states: Seq<ArchiveFileState>, k: int, n: int)
    requires
        0 <= k <= n,
        active_total(reps, states, k) is Err,
    ensures
        active_total(reps, states, n) == active_total(reps, states, k),
    decreases n - k,
{
    if k < n {
        lemma_active_total_err(reps, states, k + 1, n);
    }
}


proof fn lemma_first_failure_stable(
    keys: Seq<Seq<char>>,
    cands: Seq<Seq<char>>,
    states: Seq<ArchiveFileState>,
    k: int,
    n: int,
)
    requires
        0 <= k <= n,
        first_failure(keys, cands, states, k) is Some,
    ensures
        first_failure(keys, cands, states, n) == first_failure(keys, cands, states, k),
    decreases n - k,
{
    if k < n {
        lemma_first_failure_stable(keys, cands, states, k + 1, n);
    }
}

proof fn lemma_retired_ok_extend(
    retired: Seq<(Seq<char>, u64)>,
    keys: Seq<Seq<char>>,
    cands: Seq<Seq<char>>,
    states: Seq<ArchiveFileState>,
    n: int,
)
    requires
        0 <= n,
        retired_ok(retired, keys, cands, states, n),
        !is_retired(keys, cands, states, n + 1, n),
    ensures
        retired_ok(retired, keys, cands, states, n + 1),
{
    assert forall|i: int| 0 <= i < retired.len() implies #[trigger] retired_entry_ok(
        retired,
        keys,
        cands,
        states,
        n + 1,
        i,
    ) by {
        assert(retired_entry_ok(retired, keys, cands, states, n, i));
        let j = choose|j: int| #[trigger] is_retired(keys, cands, states, n, j) && cands[j] == retired[i].0;
        assert(is_retired(keys, cands, states, n + 1, j));
        let j2 = choose|j: int|
            #[trigger] is_retired(keys, cands, states, n, j) && (cands[j] == retired[i].0 || path_equivalent(
                retired[i].0,
                cands[j],
            )) && states[j] == ArchiveFileState::Len(retired[i].1);
        assert(is_retired(keys, cands, states, n + 1, j2));
    }
    assert forall|j: int| #[trigger] is_retired(keys, cands, states, n + 1, j) implies covered(
        entry_keys(retired),
        cands[j],
    ) by {
        assert(is_retired(keys, cands, states, n, j));
    }
}

/// Sorts the candidates into active, missing and retired ones, or finds
/// the first that is neither active nor readable.
fn classify_candidates(keys: &Vec<String>, cands: &Vec<String>, states: &Vec<ArchiveFileState>) -> (r: Result<
    (Vec<String>, Vec<String>, Vec<(String, u64)>),
    GfmError,
>)
    requires
        states@.len() == cands@.len(),
    ensures
        ({
            let kv = line_views(keys@);
            let cv = line_views(cands@);
            match first_failure(kv, cv, states@, cv.len() as int) {
                Some(j) => r matches Err(GfmError::Io { path, message }) && path@ == cv[j] && message@
                    == failure_message(states@[j]),
                None => r matches Ok((active, missing, retired)) && line_views(active@) == active_candidates(
                    kv,
                    cv,
                    cv.len() as int,
                ) && line_views(missing@) == missing_candidates(kv, cv, states@, cv.len() as int) && retired_ok(
                    keyed_view(retired@),
                    kv,
                    cv,
                    states@,
                    cv.len() as int,
                ),
            }
        }),
{
    let ghost kv = line_views(keys@);
    let ghost cv = line_views(cands@);
    let mut active: Vec<String> = Vec::new();
    let mut missing: Vec<String> = Vec::new();
    let mut retired: Vec<(String, u64)> = Vec::new();
    let mut j: usize = 0;
    proof {
        assert(line_views(active@) =~= active_candidates(kv, cv, 0));
        assert(line_views(missing@) =~= missing_candidates(kv, cv, states@, 0));
        assert(retired_ok(keyed_view(retired@), kv, cv, states@, 0));
    }
    while j < cands.len()
        invariant
            kv == line_views(keys@),
            cv == line_views(cands@),
            states@.len() == cv.len(),
            j <= cv.len(),
            first_failure(kv, cv, states@, j as int) is None,
            line_views(active@) == active_candidates(kv, cv, j as int),
            line_views(missing@) == missing_candidates(kv, cv, states@, j as int),
            retired_ok(keyed_view(retired@), kv, cv, states@, j as int),
        decreases cv.len() - j,
    {
        let p = cands[j].clone();
        proof {
            assert(cv[j as int] == p@);
        }
        if seen_contains(keys, p.as_str()) {
            let ghost before = line_views(active@);
            active.push(p);
            proof {
                assert(line_views(active@) =~= before.push(cv[j as int]));
                lemma_retired_ok_extend(keyed_view(retired@), kv, cv, states@, j as int);
            }
        } else {
            match &states[j] {
                ArchiveFileState::Len(n) => {
                    let ghost before = keyed_view(retired@);
                    let found = insert_keyed(&mut retired, p, *n, true);
                    proof {
                        let now = keyed_view(retired@);
                        let ok = entry_keys(before);
                        let nk = entry_keys(now);
                        let jj = j as int;
                        assert(is_retired(kv, cv, states@, jj + 1, jj));
                        assert forall|x: int| #[trigger] is_retired(kv, cv, states@, jj, x) implies is_retired(
                            kv,
                            cv,
                            states@,
                            jj + 1,
                            x,
                        ) by {}
                        match found {
                            Some(i) => {
                                assert(nk == ok);
                                assert forall|x: int| 0 <= x < now.len() implies #[trigger] retired_entry_ok(
                                    now,
                                    kv,
                                    cv,
                                    states@,
                                    jj + 1,
                                    x,
                                ) by {
                                    assert(now[x].0 == nk[x] && before[x].0 == ok[x]);
                                    assert(now[x].1 == entry_values(now)[x] && before[x].1 == entry_values(
                                        before,
                                    )[x]);
                                    assert(retired_entry_ok(before, kv, cv, states@, jj, x));
                                    let y = choose|y: int|
                                        #[trigger] is_retired(kv, cv, states@, jj, y) && cv[y] == before[x].0;
                                    assert(is_retired(kv, cv, states@, jj + 1, y));
                                    if x == i {
                                        assert(is_retired(kv, cv, states@, jj + 1, jj));
                                    } else {
                                        let y2 = choose|y: int|
                                            #[trigger] is_retired(kv, cv, states@, jj, y) && (cv[y] == before[x].0
                                                || path_equivalent(before[x].0, cv[y])) && states@[y]
                                                == ArchiveFileState::Len(before[x].1);
                                        assert(is_retired(kv, cv, states@, jj + 1, y2));
                                    }
                                }
                                assert forall|y: int| #[trigger] is_retired(kv, cv, states@, jj + 1, y) implies covered(
                                    nk,
                                    cv[y],
                                ) by {
                                    if y == jj {
                                        assert(nk[i as int] == ok[i as int]);
                                    } else {
                                        assert(is_retired(kv, cv, states@, jj, y));
                                    }
                                }
                            },
                            None => {
                                let k = choose|k: int|
                                    0 <= k <= before.len() && now == #[trigger] before.insert(k, (cv[jj], *n));
                                assert(now == before.insert(k, (cv[jj], *n)));
                                assert(nk[k] == cv[jj]);
                                assert forall|x: int| 0 <= x < now.len() implies #[trigger] retired_entry_ok(
                                    now,
                                    kv,
                                    cv,
                                    states@,
                                    jj + 1,
                                    x,
                                ) by {
                                    if x == k {
                                        assert(is_retired(kv, cv, states@, jj + 1, jj));
                                    } else {
                                        let bx = if x < k { x } else { x - 1 };
                                        assert(now[x] == before[bx]);
                                        assert(retired_entry_ok(before, kv, cv, states@, jj, bx));
                                        let y = choose|y: int|
                                            #[trigger] is_retired(kv, cv, states@, jj, y) && cv[y] == before[bx].0;
                                        assert(is_retired(kv, cv, states@, jj + 1, y));
                                        let y2 = choose|y: int|
                                            #[trigger] is_retired(kv, cv, states@, jj, y) && (cv[y] == before[bx].0
                                                || path_equivalent(before[bx].0, cv[y])) && states@[y]
                                                == ArchiveFileState::Len(before[bx].1);
                                        assert(is_retired(kv, cv, states@, jj + 1, y2));
                                    }
                                }
                                assert forall|y: int| #[trigger] is_retired(kv, cv, states@, jj + 1, y) implies covered(
                                    nk,
                                    cv[y],
                                ) by {
                                    if y != jj {
                                        assert(is_retired(kv, cv, states@, jj, y));
                                        assert(covered(ok, cv[y]));
                                        let q = choose|q: int|
                                            0 <= q < ok.len() && (#[trigger] ok[q] == cv[y] || path_equivalent(
                                                ok[q],
                                                cv[y],
                                            ));
                                        if q < k {
                                            assert(nk[q] == ok[q]);
                                        } else {
                                            assert(nk[q + 1] == ok[q]);
                                        }
                                    }
                                }
                            },
                        }
                        assert(retired_ok(now, kv, cv, states@, jj + 1));
                    }
                },
                ArchiveFileState::Missing => {
                    let ghost before = line_views(missing@);
                    missing.push(p);
                    proof {
                        assert(line_views(missing@) =~= before.push(cv[j as int]));
                        lemma_retired_ok_extend(keyed_view(retired@), kv, cv, states@, j as int);
                    }
                },
                ArchiveFileState::Failed(m) => {
                    proof {
                        assert(first_failure(kv, cv, states@, j as int + 1) == Some(j as int));
                        lemma_first_failure_stable(kv, cv, states@, j as int + 1, cv.len() as int);
                    }
                    return Err(GfmError::Io { path: p, message: m.clone() });
                },
            }
        }
        j = j + 1;
    }
    Ok((active, missing, retired))
}


/// The saturating sum of the values of `m` from `lo` up to `hi`.
fn sum_range(m: &Vec<(String, u64)>, lo: usize, hi: usize) -> (t: u64)
    requires
        lo <= hi <= m@.len(),
    ensures
        t == sat_sum(entry_values(keyed_view(m@)).subrange(lo as int, hi as int)),
{
    let ghost vals = entry_values(keyed_view(m@));
    let mut t: u64 = 0;
    let mut i: usize = lo;
    proof {
        assert(vals.subrange(lo as int, lo as int) =~= Seq::<u64>::empty());
    }
    while i < hi
        invariant
            vals == entry_values(keyed_view(m@)),
            lo <= i <= hi <= vals.len(),
            t == sat_sum(vals.subrange(lo as int, i as int)),
        decreases hi - i,
    {
        proof {
            assert(vals.subrange(lo as int, i as int + 1).drop_last() =~= vals.subrange(lo as int, i as int));
            assert(vals[i as int] == m@[i as int].1);
        }
        t = t.saturating_add(m[i].1);
        i = i + 1;
    }
    t
}

/// The paths of `m` from `lo` up to `hi`.
fn keys_range(m: &Vec<(String, u64)>, lo: usize, hi: usize) -> (v: Vec<String>)
    requires
        lo <= hi <= m@.len(),
    ensures
        line_views(v@) == entry_keys(keyed_view(m@)).subrange(lo as int, hi as int),
{
    let ghost keys = entry_keys(keyed_view(m@));
    let mut v: Vec<String> = Vec::new();
    let mut i: usize = lo;
    while i < hi
        invariant
            keys == entry_keys(keyed_view(m@)),
            lo <= i <= hi <= keys.len(),
            line_views(v@) == keys.subrange(lo as int, i as int),
        decreases hi - i,
    {
        let k = m[i].0.clone();
        let ghost before = line_views(v@);
        let ghost kv = k@;
        proof {
            assert(keys[i as int] == kv);
        }
        v.push(k);
        proof {
            assert(line_views(v@) =~= before.push(kv));
            assert(line_views(v@) =~= keys.subrange(lo as int, i as int + 1));
        }
        i = i + 1;
    }
    v
}

/// The resolved paths of `paths`.
fn resolve_all(manifest_path: &str, paths: &Vec<String>) -> (v: Vec<String>)
    ensures
        line_views(v@) == resolved_all(manifest_path@, line_views(paths@)),
{
    let mut v: Vec<String> = Vec::new();
    let mut i: usize = 0;
    while i < paths.len()
        invariant
            i <= paths@.len(),
            line_views(v@) == resolved_all(manifest_path@, line_views(paths@)).take(i as int),
        decreases paths@.len() - i,
    {
        let p = resolve_manifest_path(manifest_path, paths[i].as_str());
        proof {
            assert(resolved_all(manifest_path@, line_views(paths@))[i as int] == p@);
        }
        let ghost before = line_views(v@);
        let ghost pv = p@;
        v.push(p);
        proof {
            assert(line_views(v@) =~= before.push(pv));
            assert(resolved_all(manifest_path@, line_views(paths@)).take(i as int + 1) =~= resolved_all(
                manifest_path@,
                line_views(paths@),
            ).take(i as int).push(pv));
        }
        i = i + 1;
    }
    proof {
        assert(resolved_all(manifest_path@, line_views(paths@)).take(i as int) =~= resolved_all(
            manifest_path@,
            line_views(paths@),
        ));
    }
    v
}

impl ContentArchiveManifest {
    /// Plans the cleanup of the `candidates` that are not active archives,
    /// from the metadata in `probe`. The active archives' total length is
    /// counted first, and a failure there stops the plan; then each
    /// candidate is active, missing, retired with its length, or a failure
    /// that stops the plan. The retired archives, in path order, are cleaned
    /// up from the first on when there are enough of them or they are large
    /// enough, up to the policy's maximum; the rest are deferred.
    pub fn plan_inactive_archive_cleanup(
        &self,
        manifest_path: &str,
        candidates: &Vec<String>,
        policy: &ContentArchiveCleanupPolicy,
        probe: &ContentArchiveCleanupProbe,
    ) -> (r: Result<ContentArchiveCleanupPlan, GfmError>)
        requires
            probe.active@.len() == self.archives@.len(),
            probe.candidates@.len() == candidates@.len(),
        ensures
            exists|reps: Seq<(Seq<char>, u64)>, retired: Seq<(Seq<char>, u64)>|
                #[trigger] cleanup_outcome(
                    resolved_paths(manifest_path@, entry_views(self.archives@)),
                    resolved_all(manifest_path@, line_views(candidates@)),
                    probe.active@,
                    probe.candidates@,
                    *policy,
                    reps,
                    retired,
                    r,
                ),
    {
        let ghost av = resolved_paths(manifest_path@, entry_views(self.archives@));
        let ghost cv = resolved_all(manifest_path@, line_views(candidates@));
        let active = self.resolved_archive_paths(manifest_path);
        proof {
            assert(line_views(active@) =~= av);
        }
        let reps = active_reps(&active);
        let ghost rv = keyed_view(reps@);
        proof {
            assert forall|i: int| 0 <= i < reps@.len() implies (#[trigger] keyed_view(reps@)[i]).1 < probe.active@.len() by {
                assert(rv[i].1 < av.len());
            }
        }
        let active_bytes = match active_bytes_of(&reps, &probe.active) {
            Ok(t) => t,
            Err(e) => {
                proof {
                    assert(cleanup_outcome(av, cv, probe.active@, probe.candidates@, *policy, rv, Seq::empty(), Err(e)));
                }
                return Err(e);
            },
        };
        let keys = keys_range(&reps, 0, reps.len());
        proof {
            assert(entry_keys(rv).subrange(0, rv.len() as int) =~= entry_keys(rv));
        }
        let cands = resolve_all(manifest_path, candidates);
        let (active_archives, missing_archives, retired) = match classify_candidates(&keys, &cands, &probe.candidates) {
            Ok(parts) => parts,
            Err(e) => {
                proof {
                    assert(cleanup_outcome(av, cv, probe.active@, probe.candidates@, *policy, rv, Seq::empty(), Err(e)));
                }
                return Err(e);
            },
        };
        let ghost tv = keyed_view(retired@);
        let count = retired.len();
        let total = sum_range(&retired, 0, count);
        let min_count = if policy.min_retired_archives >= 1 { policy.min_retired_archives } else { 1 };
        let max_count = if policy.max_cleanup_archives >= 1 { policy.max_cleanup_archives } else { 1 };
        let selected = if count >= min_count || total >= policy.min_retired_bytes {
            if count <= max_count { count } else { max_count }
        } else {
            0
        };
        proof {
            assert(entry_values(tv).subrange(0, count as int) =~= entry_values(tv));
            assert(selected as int == selected_count(*policy, tv));
        }
        let cleanup_archives = keys_range(&retired, 0, selected);
        let deferred_archives = keys_range(&retired, selected, count);
        let cleanup_bytes = sum_range(&retired, 0, selected);
        let deferred_bytes = sum_range(&retired, selected, count);
        let action = if selected == 0 {
            ContentArchiveCleanupAction::Skip
        } else {
            ContentArchiveCleanupAction::Cleanup
        };
        let plan = ContentArchiveCleanupPlan {
            action,
            cleanup_archives,
            deferred_archives,
            active_archives,
            missing_archives,
            active_bytes,
            cleanup_bytes,
            deferred_bytes,
        };
        proof {
            assert(entry_keys(tv).subrange(0, selected as int) =~= entry_keys(tv).take(selected as int));
            assert(entry_keys(tv).subrange(selected as int, count as int) =~= entry_keys(tv).skip(selected as int));
            assert(entry_values(tv).subrange(0, selected as int) =~= entry_values(tv).take(selected as int));
            assert(entry_values(tv).subrange(selected as int, count as int) =~= entry_values(tv).skip(
                selected as int,
            ));
            assert(cleanup_outcome(av, cv, probe.active@, probe.candidates@, *policy, rv, tv, Ok(plan)));
        }
        Ok(plan)
    }
}

} // verus!
