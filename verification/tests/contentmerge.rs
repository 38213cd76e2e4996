use gfm_store::contentmerge::{
    plan_content_segment_merge, ContentMergePolicy, ContentMergeTier, ContentSegmentSummary,
};

fn summary(path: &str, bytes: u64, tombstones: usize, tier: ContentMergeTier) -> ContentSegmentSummary {
    ContentSegmentSummary {
        path: path.to_string(),
        bytes,
        tombstones,
        postings: 1,
        tier,
    }
}

#[test]
fn tiered_merge_plan_selects_bounded_merge_set_and_retains_segments() {
    let segments: Vec<String> = ["/s/first", "/s/second", "/s/third", "/s/fourth"]
        .iter()
        .map(|s| s.to_string())
        .collect();
    let summaries = vec![
        summary("/s/first", 100, 0, ContentMergeTier::Hot),
        summary("/s/second", 120, 1, ContentMergeTier::Hot),
        summary("/s/third", 110, 0, ContentMergeTier::Hot),
        summary("/s/fourth", 110, 0, ContentMergeTier::Hot),
    ];
    let policy = ContentMergePolicy {
        min_merge_segments: 3,
        max_merge_segments: 3,
        max_merge_bytes: u64::MAX,
        hot_segment_bytes: u64::MAX,
        warm_segment_bytes: u64::MAX,
    };
    let plan = plan_content_segment_merge(&segments, &summaries, &policy);
    // The tombstoned segment first, then the smallest, then by path.
    assert_eq!(plan.merge_segments, vec!["/s/first", "/s/second", "/s/fourth"]);
    assert_eq!(plan.retained_segments, vec!["/s/third"]);
    assert_eq!(plan.tombstone_segments, 1);
    assert_eq!(plan.merge_bytes, 330);
    assert_eq!(plan.tier, ContentMergeTier::Hot);
}

#[test]
fn merge_plan_drops_too_small_a_selection_without_tombstones() {
    let segments = vec!["/s/a".to_string(), "/s/b".to_string()];
    let summaries = vec![
        summary("/s/a", 10, 0, ContentMergeTier::Hot),
        summary("/s/b", 10, 0, ContentMergeTier::Hot),
    ];
    let plan = plan_content_segment_merge(&segments, &summaries, &ContentMergePolicy::default());
    assert!(plan.merge_segments.is_empty());
    assert_eq!(plan.retained_segments, segments);
    assert_eq!(plan.merge_bytes, 0);
    assert_eq!(plan.tombstone_segments, 0);
}

#[test]
fn merge_plan_respects_the_byte_limit_for_segments_without_tombstones() {
    let segments: Vec<String> = ["/s/a", "/s/b", "/s/c", "/s/d"].iter().map(|s| s.to_string()).collect();
    let summaries = vec![
        summary("/s/a", 50, 0, ContentMergeTier::Warm),
        summary("/s/b", 60, 0, ContentMergeTier::Warm),
        summary("/s/c", 70, 0, ContentMergeTier::Warm),
        summary("/s/d", 5, 0, ContentMergeTier::Warm),
    ];
    let policy = ContentMergePolicy {
        min_merge_segments: 2,
        max_merge_segments: 16,
        max_merge_bytes: 120,
        hot_segment_bytes: 1,
        warm_segment_bytes: 1000,
    };
    let plan = plan_content_segment_merge(&segments, &summaries, &policy);
    // In size order d (5), a (55), b (115); c would pass 120.
    assert_eq!(plan.merge_segments, vec!["/s/a", "/s/b", "/s/d"]);
    assert_eq!(plan.retained_segments, vec!["/s/c"]);
    assert_eq!(plan.merge_bytes, 115);
    assert_eq!(plan.tier, ContentMergeTier::Warm);
}
