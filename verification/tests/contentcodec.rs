use gfm_store::codec::write_varint;
use gfm_store::contentcodec::{
    read_content_posting, read_content_posting_for_volume_limited_from_slice,
    read_content_posting_for_volume_limited_from_slice_checked,
    read_content_posting_limited_from_slice, write_content_posting, ContentStoreVersion,
};
use gfm_store::error::GfmError;
use gfm_store::types::{ContentPositions, ContentPosting, FileId, VolumeId};

fn id(volume: u64, node: u64) -> FileId {
    FileId::new(VolumeId(volume), node)
}

fn sample() -> ContentPosting {
    ContentPosting {
        term: "alpha".to_string(),
        ids: vec![id(1, 5), id(1, 3), id(2, 1)],
        positions: vec![
            ContentPositions { id: id(1, 5), positions: vec![9, 2, 2] },
            ContentPositions { id: id(1, 3), positions: vec![4] },
        ],
    }
}

fn encoded(posting: &ContentPosting, version: ContentStoreVersion) -> Vec<u8> {
    let mut out = Vec::new();
    write_content_posting(&mut out, posting, version);
    out
}

#[test]
fn content_posting_round_trips_sorted_with_positions() {
    let bytes = encoded(&sample(), ContentStoreVersion::IndexedPositions);
    let read = read_content_posting(&bytes, "/p", ContentStoreVersion::IndexedPositions).unwrap();

    assert_eq!(read.term, "alpha");
    assert_eq!(read.ids, vec![id(1, 3), id(1, 5), id(2, 1)]);
    assert_eq!(
        read.positions,
        vec![
            ContentPositions { id: id(1, 3), positions: vec![4] },
            ContentPositions { id: id(1, 5), positions: vec![2, 9] },
        ]
    );
}

#[test]
fn blocked_content_posting_drops_repeated_ids() {
    let mut posting = sample();
    posting.ids.push(id(1, 3));
    let bytes = encoded(&posting, ContentStoreVersion::IndexedChecksummed);
    let read = read_content_posting(&bytes, "/p", ContentStoreVersion::IndexedChecksummed).unwrap();

    assert_eq!(read.ids, vec![id(1, 3), id(1, 5), id(2, 1)]);
    assert_eq!(read.positions.len(), 2);
}

#[test]
fn legacy_content_posting_has_exact_bytes_and_no_positions() {
    let posting = ContentPosting {
        term: "ab".to_string(),
        ids: vec![id(1, 2)],
        positions: vec![ContentPositions { id: id(1, 2), positions: vec![7] }],
    };
    let bytes = encoded(&posting, ContentStoreVersion::Legacy);

    assert_eq!(bytes, vec![2, b'a', b'b', 1, 1, 2]);
    let read = read_content_posting(&bytes, "/p", ContentStoreVersion::Legacy).unwrap();
    assert_eq!(read.ids, vec![id(1, 2)]);
    assert!(read.positions.is_empty());
}

#[test]
fn limited_content_posting_cuts_ids_and_positions() {
    for version in [ContentStoreVersion::IndexedPositions, ContentStoreVersion::IndexedChecksummed] {
        let bytes = encoded(&sample(), version);
        let (posting, cut) = read_content_posting_limited_from_slice(&bytes, "/p", version, 1).unwrap();
        assert!(cut);
        assert_eq!(posting.ids, vec![id(1, 3)]);
        assert_eq!(posting.positions, vec![ContentPositions { id: id(1, 3), positions: vec![4] }]);

        let (all, all_cut) = read_content_posting_limited_from_slice(&bytes, "/p", version, 10).unwrap();
        assert!(!all_cut);
        assert_eq!(all.ids.len(), 3);
        assert_eq!(all.positions.len(), 2);
    }
}

#[test]
fn volume_limited_content_posting_keeps_one_volume() {
    for version in [ContentStoreVersion::IndexedPositions, ContentStoreVersion::IndexedChecksummed] {
        let bytes = encoded(&sample(), version);
        let (one, one_cut) =
            read_content_posting_for_volume_limited_from_slice(&bytes, "/p", version, VolumeId(1), 1).unwrap();
        assert!(one_cut);
        assert_eq!(one.ids, vec![id(1, 3)]);
        assert_eq!(one.positions, vec![ContentPositions { id: id(1, 3), positions: vec![4] }]);

        let (two, two_cut) =
            read_content_posting_for_volume_limited_from_slice(&bytes, "/p", version, VolumeId(2), 5).unwrap();
        assert!(!two_cut);
        assert_eq!(two.ids, vec![id(2, 1)]);
        assert!(two.positions.is_empty());
    }
}

#[test]
fn content_posting_errors_name_the_reason() {
    let error = read_content_posting(&[1, 0xff], "/p", ContentStoreVersion::Legacy).unwrap_err();
    match error {
        GfmError::Format(message) => assert!(message.starts_with("invalid UTF-8 term in /p: ")),
        other => panic!("unexpected error {other:?}"),
    }

    let mut bytes = vec![0, 0, 1, 0, 0, 1];
    write_varint(&mut bytes, 1u64 << 32);
    assert_eq!(
        read_content_posting(&bytes, "/p", ContentStoreVersion::IndexedPositions).unwrap_err(),
        GfmError::Format("invalid content store /p: content position overflow".to_string())
    );

    assert_eq!(
        read_content_posting(&[3, b'a'], "/p", ContentStoreVersion::Legacy).unwrap_err(),
        GfmError::Io { path: "/p".to_string(), message: "failed to fill whole buffer".to_string() }
    );
}

#[test]
fn checked_volume_read_returns_control_errors_or_the_reading() {
    let version = ContentStoreVersion::IndexedChecksummed;
    let bytes = encoded(&sample(), version);
    let cancelled =
        read_content_posting_for_volume_limited_from_slice_checked(&bytes, "/p", version, VolumeId(1), 1, || {
            Err(GfmError::Cancelled)
        });
    assert!(matches!(cancelled, Err(GfmError::Cancelled)));
    let checked =
        read_content_posting_for_volume_limited_from_slice_checked(&bytes, "/p", version, VolumeId(1), 1, || Ok(()))
            .unwrap();
    let plain = read_content_posting_for_volume_limited_from_slice(&bytes, "/p", version, VolumeId(1), 1).unwrap();
    assert_eq!(checked, plain);
}
