use async_wal_db::log::{encode_record, read_log, LogEnd};
use async_wal_db::{WalEntry, WalEntryHeader, WalError};

#[test]
fn test_header_encoding() {
    let data = b"test data for checksum";
    let header = WalEntryHeader::new(data);

    // Verify header fields
    assert_eq!(header.length, data.len() as u64);
    assert_eq!(header.version, WalEntryHeader::VERSION);
    assert_ne!(header.checksum, 0); // Should have calculated checksum

    // Verify validation works
    assert!(header.validate(data).is_ok());

    // Verify round-trip encoding
    let bytes = header.to_bytes();
    let decoded = WalEntryHeader::from_bytes(&bytes);

    assert_eq!(header.length, decoded.length);
    assert_eq!(header.checksum, decoded.checksum);
    assert_eq!(header.version, decoded.version);
}

#[test]
fn test_checksum_validation() {
    // Write a valid entry first
    let entry = WalEntry::Insert {
        tx_id: 1,
        timestamp: 123,
        key: "test".to_string(),
        value: b"data".to_vec(),
    };
    let mut file = encode_record(&entry).unwrap();

    // Now corrupt the file by modifying a byte past the header
    file[WalEntryHeader::SIZE + 5] = 0xFF;

    // Try to read - should fail with checksum error
    let mut header_bytes = [0u8; WalEntryHeader::SIZE];
    header_bytes.copy_from_slice(&file[..WalEntryHeader::SIZE]);
    let header = WalEntryHeader::from_bytes(&header_bytes);
    let buffer = &file[WalEntryHeader::SIZE..];
    assert_eq!(header.length as usize, buffer.len());

    let result = header.validate(buffer);
    assert!(result.is_err(), "Should detect corruption");
    match result {
        Err(WalError::ChecksumMismatch { .. }) => {}
        _ => panic!("Expected ChecksumMismatch error"),
    }
    assert!(matches!(read_log(&file).end, LogEnd::ChecksumMismatch { offset: 0, .. }));
}

#[test]
fn checksum_is_crc32() {
    assert_eq!(WalEntryHeader::new(b"123456789").checksum, 0xCBF4_3926);
    assert_eq!(WalEntryHeader::new(b"").checksum, 0);
}

#[test]
fn header_bytes_are_little_endian() {
    let header = WalEntryHeader::with_checksum(0x0102, 0x0304_0506);
    assert_eq!(header.to_bytes(), [2, 1, 0, 0, 0, 0, 0, 0, 6, 5, 4, 3, 1]);
    let read = WalEntryHeader::from_bytes(&[1, 2, 3, 4, 5, 6, 7, 8, 9, 10, 11, 12, 13]);
    assert_eq!(read.length, 0x0807_0605_0403_0201);
    assert_eq!(read.checksum, 0x0c0b_0a09);
    assert_eq!(read.version, 13);
    assert_eq!(read.to_bytes(), [1, 2, 3, 4, 5, 6, 7, 8, 9, 10, 11, 12, 13]);
}

#[test]
fn mismatch_reports_both_checksums() {
    let header = WalEntryHeader::with_checksum(4, 17);
    assert!(header.validate_checksum(17).is_ok());
    match header.validate_checksum(18) {
        Err(WalError::ChecksumMismatch { expected, actual }) => {
            assert_eq!((expected, actual), (17, 18));
        }
        _ => panic!("Expected ChecksumMismatch error"),
    }
}

/// CRC-32, bit by bit.
fn crc32_bitwise(data: &[u8]) -> u32 {
    let mut state = 0xffff_ffffu32;
    for byte in data {
        state ^= *byte as u32;
        for _ in 0..8 {
            state = if state & 1 == 1 { (state >> 1) ^ 0xedb8_8320 } else { state >> 1 };
        }
    }
    !state
}

#[test]
fn checksum_is_the_division_bit_by_bit() {
    let mut data = Vec::new();
    for i in 0..1500u32 {
        assert_eq!(WalEntryHeader::new(&data).checksum, crc32_bitwise(&data));
        data.push((i.wrapping_mul(2_654_435_761) >> 13) as u8);
    }
}

#[test]
fn every_changed_byte_is_detected() {
    let data = b"some bytes to protect";
    let header = WalEntryHeader::new(data);
    for i in 0..data.len() {
        for change in 1..=255u8 {
            let mut changed = data.to_vec();
            changed[i] ^= change;
            assert!(header.validate(&changed).is_err());
        }
    }
}

#[test]
fn changes_within_four_bytes_are_detected() {
    let data = b"0123456789abcdef";
    let header = WalEntryHeader::new(data);
    let mut word = 1u32;
    for round in 0..20_000usize {
        word = word.wrapping_mul(1_664_525).wrapping_add(1_013_904_223);
        let at = round % (data.len() - 3);
        let mut changed = data.to_vec();
        for (k, b) in word.to_le_bytes().iter().enumerate() {
            changed[at + k] ^= b;
        }
        assert!(header.validate(&changed).is_err());
    }
}
