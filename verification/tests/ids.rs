use gfm_store::codec::write_varint;
use gfm_store::ids::{
    id_error, read_blocked_file_id_block_from_slice, read_blocked_file_ids,
    read_blocked_file_ids_for_volume_limited, read_blocked_file_ids_for_volume_limited_checked,
    read_blocked_file_ids_limited_checked,
    read_blocked_file_ids_limited, write_blocked_file_ids,
    IdsError,
};
use gfm_store::error::GfmError;
use gfm_store::types::{FileId, VolumeId};

const DEFAULT_ID_BLOCK_SIZE: usize = 128;

fn write_delta_file_ids(out: &mut Vec<u8>, ids: &[FileId]) {
    let mut previous = FileId::new(VolumeId(0), 0);
    for id in ids {
        write_varint(out, id.volume.0.saturating_sub(previous.volume.0));
        let node_delta = if id.volume == previous.volume {
            id.node.saturating_sub(previous.node)
        } else {
            id.node
        };
        write_varint(out, node_delta);
        previous = *id;
    }
}

fn write_blocked_file_ids_v1(out: &mut Vec<u8>, ids: &[FileId]) {
    let mut ids = ids.to_vec();
    ids.sort();
    ids.dedup();
    write_varint(out, ids.len() as u64);
    write_varint(out, DEFAULT_ID_BLOCK_SIZE as u64);
    let mut encoded = Vec::new();
    let mut blocks = Vec::new();
    for block_ids in ids.chunks(DEFAULT_ID_BLOCK_SIZE) {
        let mut block = Vec::new();
        write_delta_file_ids(&mut block, block_ids);
        blocks.push((block_ids[0], block_ids.len() as u64, block.len() as u64));
        encoded.extend(block);
    }
    write_varint(out, blocks.len() as u64);
    for (first, entries, len) in &blocks {
        write_varint(out, first.volume.0);
        write_varint(out, first.node);
        write_varint(out, *entries);
        write_varint(out, *len);
    }
    out.extend(encoded);
}

fn read_all(bytes: &[u8]) -> Vec<FileId> {
    read_blocked_file_ids(bytes, 0).unwrap().0
}

#[test]
fn blocked_file_ids_round_trip_and_decode_single_block() {
    let ids = (0..300)
        .map(|node| FileId::new(VolumeId(7), 10_000 + node))
        .chain([FileId::new(VolumeId(9), 1), FileId::new(VolumeId(9), 2)])
        .collect::<Vec<_>>();
    let mut encoded = Vec::new();
    let mut legacy = Vec::new();

    write_blocked_file_ids(&mut encoded, &ids);
    write_blocked_file_ids_v1(&mut legacy, &ids);

    let decoded = read_all(&encoded);
    let legacy_decoded = read_all(&legacy);
    let block = read_blocked_file_id_block_from_slice(&encoded, 1).unwrap();
    let legacy_block = read_blocked_file_id_block_from_slice(&legacy, 1).unwrap();

    assert_eq!(decoded, ids);
    assert_eq!(legacy_decoded, ids);
    assert!(encoded.len() < legacy.len());
    assert_eq!(block.len(), DEFAULT_ID_BLOCK_SIZE);
    assert_eq!(block[0], FileId::new(VolumeId(7), 10_128));
    assert_eq!(legacy_block, block);
}

#[test]
fn blocked_file_ids_keep_sparse_blocks_delta_encoded() {
    let ids = (0..200)
        .map(|index| FileId::new(VolumeId(11), 10_000 + index * 257))
        .collect::<Vec<_>>();
    let mut encoded = Vec::new();
    let mut legacy = Vec::new();

    write_blocked_file_ids(&mut encoded, &ids);
    write_blocked_file_ids_v1(&mut legacy, &ids);

    assert_eq!(read_all(&encoded), ids);
    assert_eq!(
        read_blocked_file_id_block_from_slice(&encoded, 1).unwrap()[0],
        FileId::new(VolumeId(11), 10_000 + 128 * 257)
    );
    assert!(encoded.len() <= legacy.len() + 8);
}

#[test]
fn blocked_file_ids_sort_and_drop_repeats_before_encoding() {
    let ids = vec![
        FileId::new(VolumeId(2), 5),
        FileId::new(VolumeId(1), 9),
        FileId::new(VolumeId(2), 5),
        FileId::new(VolumeId(1), 3),
    ];
    let mut encoded = Vec::new();
    write_blocked_file_ids(&mut encoded, &ids);
    let (decoded, end) = read_blocked_file_ids(&encoded, 0).unwrap();
    assert_eq!(
        decoded,
        vec![
            FileId::new(VolumeId(1), 3),
            FileId::new(VolumeId(1), 9),
            FileId::new(VolumeId(2), 5)
        ]
    );
    assert_eq!(end, encoded.len());
}

#[test]
fn blocked_file_ids_read_from_the_middle_of_bytes() {
    let ids: Vec<FileId> = (1..=5).map(|n| FileId::new(VolumeId(3), n)).collect();
    let mut bytes = vec![0xAA, 0xBB];
    write_blocked_file_ids(&mut bytes, &ids);
    let end_of_ids = bytes.len();
    bytes.extend([1, 2, 3]);
    let (decoded, end) = read_blocked_file_ids(&bytes, 2).unwrap();
    assert_eq!(decoded, ids);
    assert_eq!(end, end_of_ids);
}

#[test]
fn blocked_file_ids_of_nothing_round_trip() {
    let mut encoded = Vec::new();
    write_blocked_file_ids(&mut encoded, &Vec::new());
    assert_eq!(encoded, vec![0, 0, 2, 0x80, 1, 0]);
    assert_eq!(read_all(&encoded), Vec::<FileId>::new());
}

#[test]
fn blocked_file_ids_report_malformed_input() {
    assert_eq!(read_blocked_file_ids(&[], 0).unwrap_err(), IdsError::UnexpectedEof);
    assert_eq!(
        read_blocked_file_ids(&[1, 0, 3, 128, 0], 0).unwrap_err(),
        IdsError::UnsupportedVersion
    );
    assert_eq!(read_blocked_file_ids(&[1, 0, 2, 0], 0).unwrap_err(), IdsError::ZeroBlockSize);
    assert_eq!(
        read_blocked_file_ids(&[1, 0, 2, 16, 1, 0, 0, 1, 7, 0], 0).unwrap_err(),
        IdsError::UnsupportedCodec
    );
    // One block of one id, whose payload is missing.
    assert_eq!(
        read_blocked_file_ids(&[1, 0, 2, 16, 1, 0, 0, 1, 0, 2], 0).unwrap_err(),
        IdsError::UnexpectedEof
    );
    // The header counts two ids; the block holds one.
    assert_eq!(
        read_blocked_file_ids(&[2, 0, 2, 16, 1, 0, 5, 1, 0, 2, 0, 5], 0).unwrap_err(),
        IdsError::CountMismatch
    );
    // A run-encoded block whose run is empty.
    assert_eq!(
        read_blocked_file_ids(&[1, 0, 2, 16, 1, 0, 5, 1, 1, 4, 1, 0, 5, 0], 0).unwrap_err(),
        IdsError::EmptyRun
    );
    assert_eq!(
        read_blocked_file_id_block_from_slice(&[0, 0, 2, 16, 0], 0).unwrap_err(),
        IdsError::IndexOutOfBounds
    );
    let mut too_long = vec![0xff; 10];
    too_long.push(1);
    assert_eq!(read_blocked_file_ids(&too_long, 0).unwrap_err(), IdsError::VarintOverflow);
}

#[test]
fn blocked_file_id_errors_name_the_store() {
    match id_error("/tmp/ids", IdsError::CountMismatch) {
        GfmError::Format(message) => {
            assert_eq!(message, "invalid id block store /tmp/ids: id count mismatch")
        }
        other => panic!("unexpected {other:?}"),
    }
    match id_error("/tmp/ids", IdsError::UnexpectedEof) {
        GfmError::Io { path, message } => {
            assert_eq!(path, "/tmp/ids");
            assert_eq!(message, "failed to fill whole buffer");
        }
        other => panic!("unexpected {other:?}"),
    }
}

fn two_volumes() -> (Vec<FileId>, Vec<u8>) {
    let ids = (0..300)
        .map(|node| FileId::new(VolumeId(7), 10_000 + node))
        .chain([FileId::new(VolumeId(9), 1), FileId::new(VolumeId(9), 2)])
        .collect::<Vec<_>>();
    let mut encoded = Vec::new();
    write_blocked_file_ids(&mut encoded, &ids);
    (ids, encoded)
}

#[test]
fn limited_blocked_ids_stop_at_the_limit() {
    let (ids, encoded) = two_volumes();
    let (first, truncated, end) = read_blocked_file_ids_limited(&encoded, 10).unwrap();
    assert_eq!(first, ids[..10].to_vec());
    assert!(truncated);
    assert_eq!(end, encoded.len());

    let (all, truncated, _) = read_blocked_file_ids_limited(&encoded, 1000).unwrap();
    assert_eq!(all, ids);
    assert!(!truncated);

    let (none, truncated, _) = read_blocked_file_ids_limited(&encoded, 0).unwrap();
    assert!(none.is_empty());
    assert!(truncated);
}

#[test]
fn volume_limited_blocked_ids_read_one_volume() {
    let (ids, encoded) = two_volumes();
    let (nine, truncated) = read_blocked_file_ids_for_volume_limited(&encoded, 9, 5).unwrap();
    assert_eq!(nine, vec![FileId::new(VolumeId(9), 1), FileId::new(VolumeId(9), 2)]);
    assert!(!truncated);

    let (seven, truncated) = read_blocked_file_ids_for_volume_limited(&encoded, 7, 200).unwrap();
    assert_eq!(seven, ids[..200].to_vec());
    assert!(truncated);

    let (eight, truncated) = read_blocked_file_ids_for_volume_limited(&encoded, 8, 5).unwrap();
    assert!(eight.is_empty());
    assert!(!truncated);

    let (zero, truncated) = read_blocked_file_ids_for_volume_limited(&encoded, 7, 0).unwrap();
    assert!(zero.is_empty());
    assert!(!truncated);
}

#[test]
fn checked_volume_ids_return_control_errors_or_the_reading() {
    let ids = (0..5).map(|index| FileId::new(VolumeId(3), index)).collect::<Vec<_>>();
    let mut encoded = Vec::new();
    write_blocked_file_ids(&mut encoded, &ids);
    let cancelled = read_blocked_file_ids_for_volume_limited_checked(&encoded, 3, 2, "/i", || Err(GfmError::Paused));
    assert!(matches!(cancelled, Err(GfmError::Paused)));
    let (got, cut) = read_blocked_file_ids_for_volume_limited_checked(&encoded, 3, 2, "/i", || Ok(())).unwrap();
    assert_eq!(got, ids[..2].to_vec());
    assert!(cut);
    let err = read_blocked_file_ids_for_volume_limited_checked(&[0x80], 3, 2, "/i", || Ok(())).unwrap_err();
    assert!(matches!(err, GfmError::Io { .. }));
}

fn cancel_on_fifth(checks: &std::cell::Cell<usize>) -> Result<(), GfmError> {
    checks.set(checks.get() + 1);
    if checks.get() >= 5 {
        Err(GfmError::Cancelled)
    } else {
        Ok(())
    }
}

#[test]
fn checked_limited_blocked_file_ids_cancel_during_run_decode() {
    let ids = (0..1024).map(|node| FileId::new(VolumeId(7), 10_000 + node)).collect::<Vec<_>>();
    let mut encoded = Vec::new();
    let checks = std::cell::Cell::new(0usize);

    write_blocked_file_ids(&mut encoded, &ids);
    let result = read_blocked_file_ids_limited_checked(&encoded, 1024, "/tmp/gfm-id-block-run-cancel-test", || {
        cancel_on_fifth(&checks)
    });

    assert!(matches!(result, Err(GfmError::Cancelled)));
    assert_eq!(checks.get(), 5);
}

#[test]
fn checked_volume_limited_blocked_file_ids_cancel_during_run_decode() {
    let ids = (0..1024).map(|node| FileId::new(VolumeId(7), 10_000 + node)).collect::<Vec<_>>();
    let mut encoded = Vec::new();
    let checks = std::cell::Cell::new(0usize);

    write_blocked_file_ids(&mut encoded, &ids);
    let result = read_blocked_file_ids_for_volume_limited_checked(
        &encoded,
        7,
        1024,
        "/tmp/gfm-id-block-volume-run-cancel-test",
        || cancel_on_fifth(&checks),
    );

    assert!(matches!(result, Err(GfmError::Cancelled)));
    assert_eq!(checks.get(), 5);
}

#[test]
fn checked_limited_ids_read_everything_when_let_go_on() {
    let ids = (0..300).map(|node| FileId::new(VolumeId(2), node * 3)).collect::<Vec<_>>();
    let mut encoded = Vec::new();
    write_blocked_file_ids(&mut encoded, &ids);
    let checks = std::cell::Cell::new(0usize);
    let got = read_blocked_file_ids_limited_checked(&encoded, 10, "/i", || {
        checks.set(checks.get() + 1);
        Ok(())
    })
    .unwrap();
    assert_eq!(got, ids[..10].to_vec());
    assert!(checks.get() >= 1);
}
