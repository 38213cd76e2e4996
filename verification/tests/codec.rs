use gfm_store::codec::{crc32, read_varint, verify_checksum_footer, write_checksum_footer, write_varint, VarintError, IntegrityError};

#[test]
fn crc32_matches_standard_vector() {
    assert_eq!(crc32(b"123456789"), 0xcbf4_3926);
}
