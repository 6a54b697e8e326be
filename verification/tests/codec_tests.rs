use deldupes::codec::{
    mtime_from_unix_secs, systemtime_to_unix_secs, u64_list_pack, u64_list_unpack,
};
use deldupes::file_meta::{DecodeError, FileMeta, FileState};

fn sample(prefix: bool) -> FileMeta {
    let mut hash = [0u8; 32];
    for i in 0..32 {
        hash[i] = (i as u8) + 1;
    }
    let mut fp = [0u8; 20];
    for i in 0..20 {
        fp[i] = 0xa0 + (i as u8);
    }
    FileMeta::new(0x0102030405060708, 0x1122334455667788, hash, if prefix { Some(fp) } else { None })
}

#[test]
fn pack_writes_eight_little_endian_bytes_per_id() {
    let bytes = u64_list_pack(&[1, 0x0102030405060708]);
    assert_eq!(
        bytes,
        vec![1, 0, 0, 0, 0, 0, 0, 0, 0x08, 0x07, 0x06, 0x05, 0x04, 0x03, 0x02, 0x01]
    );
}

#[test]
fn pack_of_nothing_is_empty() {
    assert_eq!(u64_list_pack(&[]), Vec::<u8>::new());
    assert_eq!(u64_list_unpack(&[]), Vec::<u64>::new());
}

#[test]
fn unpack_reverses_pack() {
    let ids = vec![0u64, 1, 2, 300, u64::MAX, 7];
    assert_eq!(u64_list_unpack(&u64_list_pack(&ids)), ids);
}

#[test]
fn unpack_ignores_a_partial_tail() {
    let mut bytes = u64_list_pack(&[5, 9]);
    bytes.extend_from_slice(&[0xff, 0xff, 0xff]);
    assert_eq!(u64_list_unpack(&bytes), vec![5, 9]);
    assert_eq!(u64_list_unpack(&[1, 2, 3, 4, 5, 6, 7]), Vec::<u64>::new());
}

#[test]
fn unix_secs_are_signed_by_side_of_epoch() {
    assert_eq!(systemtime_to_unix_secs(true, 0), 0);
    assert_eq!(systemtime_to_unix_secs(true, 1_700_000_000), 1_700_000_000);
    assert_eq!(systemtime_to_unix_secs(false, 5), -5);
    assert_eq!(systemtime_to_unix_secs(false, 1u64 << 63), i64::MIN);
    assert_eq!(systemtime_to_unix_secs(true, i64::MAX as u64), i64::MAX);
    assert_eq!(systemtime_to_unix_secs(true, u64::MAX), -1);
}

#[test]
fn mtime_before_epoch_is_stored_as_unknown() {
    assert_eq!(mtime_from_unix_secs(-1), 0);
    assert_eq!(mtime_from_unix_secs(i64::MIN), 0);
    assert_eq!(mtime_from_unix_secs(0), 0);
    assert_eq!(mtime_from_unix_secs(42), 42);
}

#[test]
fn file_state_codes() {
    assert_eq!(FileState::Live.as_u8(), 0);
    assert_eq!(FileState::Replaced.as_u8(), 1);
    assert_eq!(FileState::Missing.as_u8(), 2);
    assert_eq!(FileState::from_u8(0), Some(FileState::Live));
    assert_eq!(FileState::from_u8(1), Some(FileState::Replaced));
    assert_eq!(FileState::from_u8(2), Some(FileState::Missing));
    assert_eq!(FileState::from_u8(3), None);
    assert_eq!(FileState::from_u8(255), None);
}

#[test]
fn encode_layout_without_prefix() {
    let bytes = sample(false).encode();
    assert_eq!(bytes.len(), 50);
    assert_eq!(bytes[0], 1);
    assert_eq!(bytes[1], 0);
    assert_eq!(&bytes[2..10], &[0x08, 0x07, 0x06, 0x05, 0x04, 0x03, 0x02, 0x01]);
    assert_eq!(&bytes[10..18], &[0x88, 0x77, 0x66, 0x55, 0x44, 0x33, 0x22, 0x11]);
    for i in 0..32 {
        assert_eq!(bytes[18 + i], (i as u8) + 1);
    }
}

#[test]
fn encode_layout_with_prefix() {
    let bytes = sample(true).encode();
    assert_eq!(bytes.len(), 70);
    assert_eq!(bytes[0], 1);
    assert_eq!(bytes[1], 1);
    for i in 0..20 {
        assert_eq!(bytes[50 + i], 0xa0 + (i as u8));
    }
}

#[test]
fn decode_reverses_encode() {
    for prefix in [false, true] {
        let m = sample(prefix);
        assert_eq!(FileMeta::decode(&m.encode()), Ok(m));
    }
    let zero = FileMeta::new(0, 0, [0u8; 32], None);
    assert_eq!(FileMeta::decode(&zero.encode()), Ok(zero));
    let max = FileMeta::new(u64::MAX, u64::MAX, [0xff; 32], Some([0xff; 20]));
    assert_eq!(FileMeta::decode(&max.encode()), Ok(max));
}

#[test]
fn decode_rejects_a_buffer_of_48_bytes() {
    let bytes = sample(false).encode();
    assert_eq!(FileMeta::decode(&bytes[..48]), Err(DecodeError::TooShort { len: 48 }));
    assert_eq!(FileMeta::decode(&bytes[..49]), Err(DecodeError::TooShort { len: 49 }));
    assert_eq!(FileMeta::decode(&[]), Err(DecodeError::TooShort { len: 0 }));
}

#[test]
fn decode_rejects_unknown_versions() {
    let mut bytes = sample(true).encode();
    bytes[0] = 0;
    assert_eq!(FileMeta::decode(&bytes), Err(DecodeError::UnknownVersion { version: 0 }));
    bytes[0] = 2;
    assert_eq!(FileMeta::decode(&bytes), Err(DecodeError::UnknownVersion { version: 2 }));
    bytes[0] = 255;
    assert_eq!(FileMeta::decode(&bytes), Err(DecodeError::UnknownVersion { version: 255 }));
}

#[test]
fn decode_rejects_a_prefix_that_does_not_fit() {
    let bytes = sample(true).encode();
    assert_eq!(FileMeta::decode(&bytes[..69]), Err(DecodeError::PrefixTruncated { len: 69 }));
    assert_eq!(FileMeta::decode(&bytes[..50]), Err(DecodeError::PrefixTruncated { len: 50 }));
}

#[test]
fn decode_reads_only_the_lowest_flag_bit() {
    let mut bytes = sample(true).encode();
    bytes[1] = 0xff;
    assert_eq!(FileMeta::decode(&bytes), Ok(sample(true)));
    bytes[1] = 0xfe;
    assert_eq!(FileMeta::decode(&bytes), Ok(sample(false)));
}

#[test]
fn decode_ignores_bytes_after_the_encoding() {
    let mut bytes = sample(false).encode();
    bytes.extend_from_slice(&[9, 9, 9]);
    assert_eq!(FileMeta::decode(&bytes), Ok(sample(false)));
}

#[test]
fn decode_v1_reads_the_body_whatever_the_version() {
    let m = sample(true);
    let mut bytes = m.encode();
    assert_eq!(FileMeta::decode_v1(&bytes), Ok(m));
    bytes[0] = 7;
    assert_eq!(FileMeta::decode_v1(&bytes), Ok(m));
    assert_eq!(FileMeta::decode_v1(&bytes[..49]), Err(DecodeError::TooShort { len: 49 }));
    assert_eq!(FileMeta::decode_v1(&bytes[..69]), Err(DecodeError::PrefixTruncated { len: 69 }));
}

#[test]
fn peek_reads_size_and_mtime_only() {
    let m = sample(true);
    let bytes = m.encode();
    assert_eq!(FileMeta::peek_size_mtime(&bytes), Ok((m.size, m.mtime_secs)));
    assert_eq!(FileMeta::peek_size_mtime(&bytes[..50]), Ok((m.size, m.mtime_secs)));
    assert_eq!(FileMeta::peek_size_mtime(&bytes[..49]), Err(DecodeError::TooShort { len: 49 }));
    let mut other = bytes.clone();
    other[0] = 3;
    assert_eq!(
        FileMeta::peek_size_mtime(&other),
        Err(DecodeError::UnknownVersion { version: 3 })
    );
}
