use gfm_store::contentcompact::compact_content_postings;
use gfm_store::contentsegment::{content_segment_bytes, read_content_segment};
use gfm_store::types::{ContentPositions, ContentPosting, ContentSegment, FileId, VolumeId};

fn posting(term: &str, ids: Vec<FileId>, positions: Vec<(FileId, Vec<u32>)>) -> ContentPosting {
    ContentPosting {
        term: term.to_string(),
        ids,
        positions: positions.into_iter().map(|(id, positions)| ContentPositions { id, positions }).collect(),
    }
}

fn through_bytes(segment: &ContentSegment) -> ContentSegment {
    let bytes = content_segment_bytes(segment);
    read_content_segment("/tmp/segment.gfmseg", &bytes).unwrap()
}

#[test]
fn compacts_content_segments_with_tombstones() {
    let old = FileId::new(VolumeId(7), 10);
    let new = FileId::new(VolumeId(7), 11);
    let first = through_bytes(&ContentSegment {
        tombstones: Vec::new(),
        postings: vec![
            posting("needle", vec![old], vec![(old, vec![1])]),
            posting("stable", vec![new], vec![(new, vec![2])]),
        ],
    });
    let second = through_bytes(&ContentSegment {
        tombstones: vec![old],
        postings: vec![posting("needle", vec![new], vec![(new, vec![3])])],
    });

    let compacted = compact_content_postings(Vec::new(), vec![first, second]);

    assert!(compacted.iter().any(|p| p.term == "needle" && p.ids == vec![new]));
    assert!(compacted.iter().any(|p| p.term == "stable" && p.ids == vec![new]));
    assert!(!compacted.iter().any(|p| p.ids.contains(&old)));
    assert_eq!(
        compacted,
        vec![
            posting("needle", vec![new], vec![(new, vec![3])]),
            posting("stable", vec![new], vec![(new, vec![2])]),
        ]
    );
}

#[test]
fn compaction_normalizes_terms_and_merges_positions() {
    let a = FileId::new(VolumeId(1), 2);
    let b = FileId::new(VolumeId(1), 1);
    let base = vec![
        posting("  Alpha ", vec![a], vec![(a, vec![9, 3])]),
        posting("ALPHA", vec![b], vec![(a, vec![3, 5])]),
        posting("   ", vec![a], vec![(a, vec![1])]),
        posting("beta", vec![a], Vec::new()),
    ];
    let compacted = compact_content_postings(base, Vec::new());
    assert_eq!(
        compacted,
        vec![
            posting("alpha", vec![b, a], vec![(a, vec![3, 5, 9])]),
            posting("beta", vec![a], Vec::new()),
        ]
    );
}

#[test]
fn compaction_drops_terms_left_without_files() {
    let a = FileId::new(VolumeId(3), 4);
    let b = FileId::new(VolumeId(3), 5);
    let base = vec![posting("gone", vec![a], vec![(a, vec![0])]), posting("kept", vec![a, b], Vec::new())];
    let segment = ContentSegment { tombstones: vec![a], postings: Vec::new() };
    let compacted = compact_content_postings(base, vec![segment]);
    assert_eq!(compacted, vec![posting("kept", vec![b], Vec::new())]);
}

#[test]
fn compaction_of_nothing_is_empty() {
    assert!(compact_content_postings(Vec::new(), Vec::new()).is_empty());
}
