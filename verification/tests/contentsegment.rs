use gfm_store::contentmerge::{ContentMergePolicy, ContentMergeTier};
use gfm_store::contentsegment::{content_segment_bytes, read_content_segment, summarize_content_segment};
use gfm_store::error::GfmError;
use gfm_store::types::{ContentPositions, ContentPosting, ContentSegment, FileId, VolumeId};

fn policy() -> ContentMergePolicy {
    ContentMergePolicy {
        min_merge_segments: 4,
        max_merge_segments: 16,
        max_merge_bytes: 64 << 20,
        hot_segment_bytes: 1 << 20,
        warm_segment_bytes: 16 << 20,
    }
}

#[test]
fn round_trips_content_segments() {
    let segment = ContentSegment {
        tombstones: vec![FileId::new(VolumeId(4), 12)],
        postings: vec![ContentPosting {
            term: "alpha".to_string(),
            ids: vec![FileId::new(VolumeId(4), 15)],
            positions: vec![ContentPositions { id: FileId::new(VolumeId(4), 15), positions: vec![8] }],
        }],
    };

    let bytes = content_segment_bytes(&segment);
    let read = read_content_segment("/tmp/s.gfmseg", &bytes).unwrap();

    assert_eq!(read, segment);
}

#[test]
fn content_segment_summary_counts_tombstones_and_postings() {
    let segment = ContentSegment {
        tombstones: vec![FileId::new(VolumeId(4), 12), FileId::new(VolumeId(1), 3)],
        postings: vec![
            ContentPosting { term: "a".to_string(), ids: vec![FileId::new(VolumeId(1), 1)], positions: Vec::new() },
            ContentPosting { term: "b".to_string(), ids: Vec::new(), positions: Vec::new() },
        ],
    };
    let bytes = content_segment_bytes(&segment);

    let summary = summarize_content_segment("/tmp/s.gfmseg", 2 << 20, &bytes, &policy()).unwrap();

    assert_eq!(summary.path, "/tmp/s.gfmseg");
    assert_eq!(summary.bytes, 2 << 20);
    assert_eq!(summary.tombstones, 2);
    assert_eq!(summary.postings, 2);
    assert_eq!(summary.tier, ContentMergeTier::Warm);
    let read = read_content_segment("/tmp/s.gfmseg", &bytes).unwrap();
    assert_eq!(read.tombstones, vec![FileId::new(VolumeId(1), 3), FileId::new(VolumeId(4), 12)]);
}

#[test]
fn content_segment_with_another_header_is_refused() {
    let mut bytes = b"gfm-content-segment-v1\n".to_vec();
    bytes.extend([0u8, 1, 0, 0]);
    let read = read_content_segment("/tmp/x", &bytes).unwrap();
    assert!(read.tombstones.is_empty());
    assert_eq!(read.postings.len(), 1);

    assert_eq!(
        read_content_segment("/tmp/x", b"gfm-content-segment-v9\n\0\0").unwrap_err(),
        GfmError::Format("unsupported content segment header in /tmp/x".to_string())
    );
    assert_eq!(
        read_content_segment("/tmp/x", b"gfm").unwrap_err(),
        GfmError::Io { path: "/tmp/x".to_string(), message: "failed to fill whole buffer".to_string() }
    );
}
