use vstd::prelude::*;

use crate::manifest::{line_views, seen_contains, seen_equivalent};
use crate::cleanup::sat_add;
use crate::paths::{path_less, path_precedes};

verus! {

/// Size tier of a content segment or archive.
#[derive(Debug, Clone, Copy, PartialEq, Eq, PartialOrd, Ord, Structural)]
pub enum ContentMergeTier {
    Hot,
    Warm,
    Cold,
}

/// The rank of a tier: hot, then warm, then cold.
pub open spec fn tier_rank(tier: ContentMergeTier) -> int {
    match tier {
        ContentMergeTier::Hot => 0,
        ContentMergeTier::Warm => 1,
        ContentMergeTier::Cold => 2,
    }
}

/// When and how much to merge content segments.
#[derive(Debug, Clone, PartialEq, Eq)]
pub struct ContentMergePolicy {
    pub min_merge_segments: usize,
    pub max_merge_segments: usize,
    pub max_merge_bytes: u64,
    pub hot_segment_bytes: u64,
    pub warm_segment_bytes: u64,
}

impl Default for ContentMergePolicy {
    /// Merge 4 to 16 segments up to 64 MiB; hot up to 1 MiB, warm up to
    /// 16 MiB.
    fn default() -> (p: ContentMergePolicy)
        ensures
            p == (ContentMergePolicy {
                min_merge_segments: 4,
                max_merge_segments: 16,
                max_merge_bytes: 67108864,
                hot_segment_bytes: 1048576,
                warm_segment_bytes: 16777216,
            }),
    {
        ContentMergePolicy {
            min_merge_segments: 4,
            max_merge_segments: 16,
            max_merge_bytes: 67108864,
            hot_segment_bytes: 1048576,
            warm_segment_bytes: 16777216,
        }
    }
}

/// The tier of a segment of `bytes` bytes under `policy`.
pub open spec fn tier_of(policy: ContentMergePolicy, bytes: u64) -> ContentMergeTier {
    if bytes <= policy.hot_segment_bytes {
        ContentMergeTier::Hot
    } else if bytes <= policy.warm_segment_bytes {
        ContentMergeTier::Warm
    } else {
        ContentMergeTier::Cold
    }
}

impl ContentMergePolicy {
    /// The tier of a segment of `bytes` bytes.
    pub fn tier_for_bytes(&self, bytes: u64) -> (t: ContentMergeTier)
        ensures
            t == tier_of(*self, bytes),
    {
        if bytes <= self.hot_segment_bytes {
            ContentMergeTier::Hot
        } else if bytes <= self.warm_segment_bytes {
            ContentMergeTier::Warm
        } else {
            ContentMergeTier::Cold
        }
    }
}

/// What a content segment holds, as far as merging cares.
#[derive(Debug, Clone, PartialEq, Eq)]
pub struct ContentSegmentSummary {
    pub path: String,
    pub bytes: u64,
    pub tombstones: usize,
    pub postings: usize,
    pub tier: ContentMergeTier,
}

/// Which segments to merge and which to keep.
#[derive(Debug, Clone, PartialEq, Eq)]
pub struct ContentMergePlan {
    pub merge_segments: Vec<String>,
    pub retained_segments: Vec<String>,
    pub merge_bytes: u64,
    pub tombstone_segments: usize,
    pub tier: ContentMergeTier,
}

/// The number of summaries in `tier`.
pub open spec fn tier_count(summaries: Seq<ContentSegmentSummary>, tier: ContentMergeTier) -> int
    decreases summaries.len(),
{
    if summaries.len() == 0 {
        0
    } else {
        tier_count(summaries.drop_last(), tier) + if summaries.last().tier == tier {
            1int
        } else {
            0
        }
    }
}

/// The first tier, hot to cold, with at least `min_merge_segments`
/// segments.
pub open spec fn smallest_mergeable(
    summaries: Seq<ContentSegmentSummary>,
    policy: ContentMergePolicy,
) -> Option<ContentMergeTier> {
    if tier_count(summaries, ContentMergeTier::Hot) >= policy.min_merge_segments {
        Some(ContentMergeTier::Hot)
    } else if tier_count(summaries, ContentMergeTier::Warm) >= policy.min_merge_segments {
        Some(ContentMergeTier::Warm)
    } else if tier_count(summaries, ContentMergeTier::Cold) >= policy.min_merge_segments {
        Some(ContentMergeTier::Cold)
    } else {
        None
    }
}

fn count_tier(summaries: &Vec<ContentSegmentSummary>, tier: ContentMergeTier) -> (n: usize)
    ensures
        n == tier_count(summaries@, tier),
{
    let mut n: usize = 0;
    let mut i: usize = 0;
    while i < summaries.len()
        invariant
            i <= summaries@.len(),
            n == tier_count(summaries@.take(i as int), tier),
            n <= i,
        decreases summaries@.len() - i,
    {
        proof {
            assert(summaries@.take(i as int + 1).drop_last() =~= summaries@.take(i as int));
        }
        if summaries[i].tier == tier {
            n = n + 1;
        }
        i = i + 1;
    }
    proof {
        assert(summaries@.take(summaries@.len() as int) =~= summaries@);
    }
    n
}

/// The first tier, hot to cold, with enough segments to merge.
pub fn smallest_mergeable_tier(
    summaries: &Vec<ContentSegmentSummary>,
    policy: &ContentMergePolicy,
) -> (t: Option<ContentMergeTier>)
    ensures
        t == smallest_mergeable(summaries@, *policy),
{
    if count_tier(summaries, ContentMergeTier::Hot) >= policy.min_merge_segments {
        Some(ContentMergeTier::Hot)
    } else if count_tier(summaries, ContentMergeTier::Warm) >= policy.min_merge_segments {
        Some(ContentMergeTier::Warm)
    } else if count_tier(summaries, ContentMergeTier::Cold) >= policy.min_merge_segments {
        Some(ContentMergeTier::Cold)
    } else {
        None
    }
}


/// Whether two summaries agree on all that orders them before their paths.
pub open spec fn same_rank(a: ContentSegmentSummary, b: ContentSegmentSummary) -> bool {
    (a.tombstones == 0) == (b.tombstones == 0) && a.tier == b.tier && a.bytes == b.bytes
}

/// The merge order of summaries: those with tombstones first, then by
/// tier, by size and by path.
pub open spec fn summary_precedes(a: ContentSegmentSummary, b: ContentSegmentSummary) -> bool {
    if (a.tombstones == 0) != (b.tombstones == 0) {
        a.tombstones != 0
    } else if a.tier != b.tier {
        tier_rank(a.tier) < tier_rank(b.tier)
    } else if a.bytes != b.bytes {
        a.bytes < b.bytes
    } else {
        path_precedes(a.path@, b.path@)
    }
}

/// Summaries in merge order: none precedes an earlier one.
pub open spec fn summaries_sorted(s: Seq<ContentSegmentSummary>) -> bool {
    forall|i: int, j: int| 0 <= i < j < s.len() ==> !summary_precedes(#[trigger] s[j], #[trigger] s[i])
}

/// Whether `a` comes before `b` in merge order.
fn summary_before(a: &ContentSegmentSummary, b: &ContentSegmentSummary) -> (r: bool)
    ensures
        r == summary_precedes(*a, *b),
        r ==> !summary_precedes(*b, *a),
        r && same_rank(*a, *b) ==> forall|c: Seq<char>| #[trigger] path_precedes(c, a.path@) ==> path_precedes(c, b.path@),
{
    if (a.tombstones == 0) != (b.tombstones == 0) {
        a.tombstones != 0
    } else if a.tier != b.tier {
        let ra: u8 = match a.tier {
            ContentMergeTier::Hot => 0,
            ContentMergeTier::Warm => 1,
            ContentMergeTier::Cold => 2,
        };
        let rb: u8 = match b.tier {
            ContentMergeTier::Hot => 0,
            ContentMergeTier::Warm => 1,
            ContentMergeTier::Cold => 2,
        };
        ra < rb
    } else if a.bytes != b.bytes {
        a.bytes < b.bytes
    } else {
        path_less(a.path.as_str(), b.path.as_str())
    }
}

proof fn lemma_summary_transitive(a: ContentSegmentSummary, b: ContentSegmentSummary, c: ContentSegmentSummary)
    requires
        summary_precedes(a, b),
        summary_precedes(b, c),
        same_rank(b, c) && same_rank(a, b) ==> path_precedes(a.path@, c.path@),
    ensures
        summary_precedes(a, c),
{
}

/// A copy of a summary.
fn copy_summary(s: &ContentSegmentSummary) -> (c: ContentSegmentSummary)
    ensures
        c == *s,
{
    ContentSegmentSummary {
        path: s.path.clone(),
        bytes: s.bytes,
        tombstones: s.tombstones,
        postings: s.postings,
        tier: s.tier,
    }
}

/// Sorts summaries into merge order.
fn sort_summaries(v: &Vec<ContentSegmentSummary>) -> (s: Vec<ContentSegmentSummary>)
    ensures
        s@.to_multiset() == v@.to_multiset(),
        summaries_sorted(s@),
{
    let mut s: Vec<ContentSegmentSummary> = Vec::new();
    let mut i: usize = 0;
    proof {
        assert(v@.take(0) =~= Seq::<ContentSegmentSummary>::empty());
    }
    while i < v.len()
        invariant
            i <= v@.len(),
            s@.to_multiset() == v@.take(i as int).to_multiset(),
            summaries_sorted(s@),
        decreases v@.len() - i,
    {
        let x = copy_summary(&v[i]);
        let ghost sv = s@;
        let mut k: usize = 0;
        let mut stop = false;
        while k < s.len() && !stop
            invariant
                sv == s@,
                summaries_sorted(sv),
                k <= sv.len(),
                forall|j: int| 0 <= j < k ==> !summary_precedes(x, #[trigger] sv[j]),
                stop ==> k < sv.len() && summary_precedes(x, sv[k as int]) && !summary_precedes(
                    sv[k as int],
                    x,
                ) && (same_rank(x, sv[k as int]) ==> forall|c: Seq<char>|
                    #[trigger] path_precedes(c, x.path@) ==> path_precedes(c, sv[k as int].path@)),
            decreases sv.len() - k + if stop { 0int } else { 1int },
        {
            if summary_before(&x, &s[k]) {
                stop = true;
            } else {
                k = k + 1;
            }
        }
        let ghost xv = x;
        s.insert(k, x);
        proof {
            assert(s@ == sv.insert(k as int, xv));
            assert(v@.take(i as int + 1) =~= v@.take(i as int).push(v@[i as int]));
            assert(xv == v@[i as int]);
            vstd::seq_lib::to_multiset_insert(sv, k as int, xv);
            vstd::seq_lib::to_multiset_build(v@.take(i as int), xv);
            assert(s@.to_multiset() == sv.to_multiset().insert(xv));
            assert(v@.take(i as int + 1).to_multiset() == v@.take(i as int).to_multiset().insert(xv));
            assert forall|a: int, b: int| 0 <= a < b < s@.len() implies !summary_precedes(#[trigger] s@[b], #[trigger] s@[a]) by {
                if b < k {
                    assert(s@[a] == sv[a] && s@[b] == sv[b]);
                } else if b == k {
                    assert(s@[a] == sv[a]);
                } else if a == k {
                    assert(s@[b] == sv[b - 1]);
                    if summary_precedes(sv[b - 1], xv) {
                        if b - 1 == k {
                        } else {
                            lemma_summary_transitive(sv[b - 1], xv, sv[k as int]);
                        }
                    }
                } else if a < k {
                    assert(s@[a] == sv[a] && s@[b] == sv[b - 1]);
                } else {
                    assert(s@[a] == sv[a - 1] && s@[b] == sv[b - 1]);
                }
            }
        }
        i = i + 1;
    }
    proof {
        assert(v@.take(i as int) =~= v@);
    }
    s
}


/// The first of the first `k` summaries that has tombstones.
pub open spec fn first_tombstoned(s: Seq<ContentSegmentSummary>, k: int) -> Option<int>
    decreases k,
{
    if k <= 0 {
        None
    } else {
        match first_tombstoned(s, k - 1) {
            Some(i) => Some(i),
            None => if s[k - 1].tombstones > 0 {
                Some(k - 1)
            } else {
                None
            },
        }
    }
}

/// The tier a merge works on: that of the first segment in merge order
/// with tombstones; else the smallest tier with enough segments; else hot.
pub open spec fn preferred_tier(s: Seq<ContentSegmentSummary>, policy: ContentMergePolicy) -> ContentMergeTier {
    match first_tombstoned(s, s.len() as int) {
        Some(i) => s[i].tier,
        None => match smallest_mergeable(s, policy) {
            Some(t) => t,
            None => ContentMergeTier::Hot,
        },
    }
}

/// What the first `k` summaries in merge order select: the selected
/// paths, their number, their saturating size and how many have
/// tombstones. A summary is a candidate if it has tombstones or is in
/// `tier`; a candidate is selected while fewer than the maximum are, unless
/// it has no tombstones and would take a selection that is not empty past
/// the byte limit.
pub open spec fn merge_selection(
    s: Seq<ContentSegmentSummary>,
    k: int,
    policy: ContentMergePolicy,
    tier: ContentMergeTier,
) -> (Seq<Seq<char>>, int, u64, int)
    decreases k,
{
    if k <= 0 {
        (Seq::empty(), 0, 0, 0)
    } else {
        let (p, c, b, t) = merge_selection(s, k - 1, policy, tier);
        let x = s[k - 1];
        if (x.tombstones > 0 || x.tier == tier) && c < policy.max_merge_segments && !(c > 0 && sat_add(
            b,
            x.bytes,
        ) > policy.max_merge_bytes && x.tombstones == 0) {
            (p.push(x.path@), c + 1, sat_add(b, x.bytes), t + if x.tombstones > 0 {
                1int
            } else {
                0
            })
        } else {
            (p, c, b, t)
        }
    }
}

/// How many of the first `k` summaries carry tombstones.
pub open spec fn tombstoned_count(s: Seq<ContentSegmentSummary>, k: int) -> int
    decreases k,
{
    if k <= 0 {
        0
    } else {
        tombstoned_count(s, k - 1) + if s[k - 1].tombstones > 0 {
            1int
        } else {
            0
        }
    }
}

/// Tombstoned segments always merge while there is room: as long as fewer
/// than the maximum of segments are selected, every summary with
/// tombstones, whatever its tier, is selected, and the tombstoned count is
/// that of all of them; the selection never passes the maximum.
pub proof fn lemma_tombstoned_segments_selected(
    s: Seq<ContentSegmentSummary>,
    k: int,
    policy: ContentMergePolicy,
    tier: ContentMergeTier,
)
    requires
        0 <= k <= s.len(),
    ensures
        ({
            let (p, c, b, t) = merge_selection(s, k, policy, tier);
            &&& 0 <= t <= c <= k
            &&& c <= policy.max_merge_segments
            &&& p.len() == c
            &&& c < policy.max_merge_segments ==> t == tombstoned_count(s, k)
            &&& c < policy.max_merge_segments ==> forall|j: int|
                0 <= j < k && (#[trigger] s[j]).tombstones > 0 ==> p.contains(s[j].path@)
        }),
    decreases k,
{
    if k > 0 {
        lemma_tombstoned_segments_selected(s, k - 1, policy, tier);
        let (p0, c0, b0, t0) = merge_selection(s, k - 1, policy, tier);
        let (p, c, b, t) = merge_selection(s, k, policy, tier);
        if c < policy.max_merge_segments {
            assert(c0 < policy.max_merge_segments);
            assert forall|j: int| 0 <= j < k && (#[trigger] s[j]).tombstones > 0 implies p.contains(s[j].path@) by {
                if j < k - 1 {
                    let q = choose|q: int| 0 <= q < p0.len() && p0[q] == s[j].path@;
                    assert(p[q] == s[j].path@);
                } else {
                    assert(p[p.len() - 1] == s[j].path@);
                }
            }
        }
    }
}

/// A merge plan counts every tombstoned segment when there are fewer
/// summaries than the maximum of segments a merge takes.
pub proof fn lemma_plan_counts_tombstoned(
    sorted: Seq<ContentSegmentSummary>,
    segs: Seq<Seq<char>>,
    policy: ContentMergePolicy,
    plan: ContentMergePlan,
)
    requires
        merge_plan_of(sorted, segs, policy, plan),
        sorted.len() < policy.max_merge_segments,
    ensures
        plan.tombstone_segments == tombstoned_count(sorted, sorted.len() as int),
{
    lemma_tombstoned_segments_selected(sorted, sorted.len() as int, policy, preferred_tier(sorted, policy));
}


/// The first `k` of `segs` that are (or are not, as `inside` says) equal
/// to a path of `sel`, in order.
pub open spec fn segments_where(sel: Seq<Seq<char>>, segs: Seq<Seq<char>>, k: int, inside: bool) -> Seq<Seq<char>>
    decreases k,
{
    if k <= 0 {
        Seq::empty()
    } else if seen_equivalent(sel, segs[k - 1]) == inside {
        segments_where(sel, segs, k - 1, inside).push(segs[k - 1])
    } else {
        segments_where(sel, segs, k - 1, inside)
    }
}

/// `plan` is the merge plan of `segs` whose summaries, in merge order, are
/// `sorted`: the selection is dropped when it has no tombstones and fewer
/// than the minimum of segments.
pub open spec fn merge_plan_of(
    sorted: Seq<ContentSegmentSummary>,
    segs: Seq<Seq<char>>,
    policy: ContentMergePolicy,
    plan: ContentMergePlan,
) -> bool {
    let tier = preferred_tier(sorted, policy);
    let (p, c, b, t) = merge_selection(sorted, sorted.len() as int, policy, tier);
    let cleared = t == 0 && c < policy.min_merge_segments;
    let sel = if cleared { Seq::empty() } else { p };
    &&& line_views(plan.merge_segments@) == segments_where(sel, segs, segs.len() as int, true)
    &&& line_views(plan.retained_segments@) == segments_where(sel, segs, segs.len() as int, false)
    &&& plan.merge_bytes == if cleared { 0 } else { b }
    &&& plan.tombstone_segments == t
    &&& plan.tier == tier
}

/// The tier a merge works on, with `sorted` in merge order.
fn choose_tier(sorted: &Vec<ContentSegmentSummary>, policy: &ContentMergePolicy) -> (t: ContentMergeTier)
    ensures
        t == preferred_tier(sorted@, *policy),
{
    let mut i: usize = 0;
    while i < sorted.len()
        invariant
            i <= sorted@.len(),
            first_tombstoned(sorted@, i as int) is None,
        decreases sorted@.len() - i,
    {
        if sorted[i].tombstones > 0 {
            proof {
                assert(first_tombstoned(sorted@, i as int + 1) == Some(i as int));
                lemma_first_tombstoned_stable(sorted@, i as int + 1, sorted@.len() as int);
            }
            return sorted[i].tier;
        }
        i = i + 1;
    }
    match smallest_mergeable_tier(sorted, policy) {
        Some(t) => t,
        None => ContentMergeTier::Hot,
    }
}

proof fn lemma_first_tombstoned_stable(s: Seq<ContentSegmentSummary>, k: int, n: int)
    requires
        0 <= k <= n,
        first_tombstoned(s, k) is Some,
    ensures
        first_tombstoned(s, n) == first_tombstoned(s, k),
    decreases n - k,
{
    if k < n {
        lemma_first_tombstoned_stable(s, k + 1, n);
    }
}

/// The segments that are (or are not) equal to a selected path, in order.
fn segments_matching(sel: &Vec<String>, segs: &Vec<String>, inside: bool) -> (v: Vec<String>)
    ensures
        line_views(v@) == segments_where(line_views(sel@), line_views(segs@), segs@.len() as int, inside),
{
    let ghost sv = line_views(sel@);
    let ghost gv = line_views(segs@);
    let mut v: Vec<String> = Vec::new();
    let mut i: usize = 0;
    while i < segs.len()
        invariant
            sv == line_views(sel@),
            gv == line_views(segs@),
            i <= gv.len(),
            line_views(v@) == segments_where(sv, gv, i as int, inside),
        decreases gv.len() - i,
    {
        proof {
            assert(gv[i as int] == segs@[i as int]@);
        }
        if seen_contains(sel, segs[i].as_str()) == inside {
            let p = segs[i].clone();
            let ghost before = line_views(v@);
            let ghost pv = p@;
            v.push(p);
            proof {
                assert(line_views(v@) =~= before.push(pv));
            }
        }
        i = i + 1;
    }
    v
}

/// Plans a merge of `segments`, whose summaries are `summaries`: in merge
/// order, the candidates of the preferred tier, and those with tombstones,
/// are selected within the policy's limits; the selected segments merge,
/// the others are retained, each list in the order of `segments`.
pub fn plan_content_segment_merge(
    segments: &Vec<String>,
    summaries: &Vec<ContentSegmentSummary>,
    policy: &ContentMergePolicy,
) -> (plan: ContentMergePlan)
    ensures
        exists|sorted: Seq<ContentSegmentSummary>|
            #![trigger merge_plan_of(sorted, line_views(segments@), *policy, plan)]
            sorted.to_multiset() == summaries@.to_multiset() && summaries_sorted(sorted) && merge_plan_of(
                sorted,
                line_views(segments@),
                *policy,
                plan,
            ),
{
    let sorted = sort_summaries(summaries);
    let tier = choose_tier(&sorted, policy);
    let mut selected: Vec<String> = Vec::new();
    let mut count: usize = 0;
    let mut bytes: u64 = 0;
    let mut tombs: usize = 0;
    let mut i: usize = 0;
    while i < sorted.len()
        invariant
            i <= sorted@.len(),
            merge_selection(sorted@, i as int, *policy, tier) == (line_views(selected@), count as int, bytes, tombs as int),
            tombs <= count <= i,
        decreases sorted@.len() - i,
    {
        let x = &sorted[i];
        if (x.tombstones > 0 || x.tier == tier) && count < policy.max_merge_segments && !(count > 0
            && bytes.saturating_add(x.bytes) > policy.max_merge_bytes && x.tombstones == 0) {
            let p = x.path.clone();
            let ghost before = line_views(selected@);
            let ghost pv = p@;
            selected.push(p);
            proof {
                assert(line_views(selected@) =~= before.push(pv));
            }
            bytes = bytes.saturating_add(x.bytes);
            if x.tombstones > 0 {
                tombs = tombs + 1;
            }
            count = count + 1;
        }
        i = i + 1;
    }
    let cleared = tombs == 0 && count < policy.min_merge_segments;
    if cleared {
        selected = Vec::new();
        bytes = 0;
        proof {
            assert(line_views(selected@) =~= Seq::<Seq<char>>::empty());
        }
    }
    let merge_segments = segments_matching(&selected, segments, true);
    let retained_segments = segments_matching(&selected, segments, false);
    let plan = ContentMergePlan { merge_segments, retained_segments, merge_bytes: bytes, tombstone_segments: tombs, tier };
    proof {
        assert(merge_plan_of(sorted@, line_views(segments@), *policy, plan));
    }
    plan
}

} // verus!
