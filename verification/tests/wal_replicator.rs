use titan::text::NumberError;
use titan::wal::{WalError, WalReplicator, WAL_MAGIC_BE, WAL_MAGIC_LE};

#[test]
fn parse_valid_batch() {
    let repl = WalReplicator::new();
    let raw = b"1,111,4096\n2,222,4096\n3,333,2048\n";
    let frames = repl.parse_frame_batch(raw).unwrap();
    assert_eq!(frames.len(), 3);
    assert_eq!(frames[0].index, 1);
    assert_eq!(frames[2].size_bytes, 2048);
}

#[test]
fn parse_rejects_non_monotonic() {
    let repl = WalReplicator::new();
    let raw = b"2,111,4096\n2,222,4096\n";
    let err = repl.parse_frame_batch(raw).unwrap_err();
    assert!(err.to_string().contains("non-monotonic"));
}

fn build_fake_wal(page_size: u32, frame_count: usize) -> Vec<u8> {
    let mut out = Vec::new();

    // WAL header (32 bytes)
    out.extend_from_slice(&WAL_MAGIC_LE.to_be_bytes()); // magic
    out.extend_from_slice(&3007000u32.to_be_bytes()); // format version
    out.extend_from_slice(&page_size.to_be_bytes()); // page size
    out.extend_from_slice(&0u32.to_be_bytes()); // checkpoint seq
    out.extend_from_slice(&0xAABBCCDDu32.to_be_bytes()); // salt1
    out.extend_from_slice(&0x11223344u32.to_be_bytes()); // salt2
    out.extend_from_slice(&0u32.to_be_bytes()); // checksum1
    out.extend_from_slice(&0u32.to_be_bytes()); // checksum2

    let page_sz = if page_size == 0 { 65536 } else { page_size } as usize;

    for i in 0..frame_count {
        // frame header (24 bytes)
        out.extend_from_slice(&((i + 1) as u32).to_be_bytes()); // page_number
        out.extend_from_slice(&0u32.to_be_bytes()); // db_size_after_commit
        out.extend_from_slice(&0xAABBCCDDu32.to_be_bytes()); // salt1
        out.extend_from_slice(&0x11223344u32.to_be_bytes()); // salt2
        out.extend_from_slice(&(100 + i as u32).to_be_bytes()); // checksum1
        out.extend_from_slice(&(200 + i as u32).to_be_bytes()); // checksum2

        // page bytes
        out.extend(vec![0u8; page_sz]);
    }

    out
}

#[test]
fn parse_wal_bytes_header_and_frames() {
    let repl = WalReplicator::new();
    let wal = build_fake_wal(4096, 2);
    let (h, frames) = repl.parse_wal_bytes(&wal).unwrap();

    assert_eq!(h.magic, WAL_MAGIC_LE);
    assert_eq!(h.page_size, 4096);
    assert_eq!(frames.len(), 2);
    assert_eq!(frames[0].index, 1);
    assert_eq!(frames[1].size_bytes, 4096);
}

#[test]
fn parse_wal_bytes_rejects_bad_magic() {
    let repl = WalReplicator::new();
    let mut wal = build_fake_wal(4096, 1);
    wal[0..4].copy_from_slice(&0x12345678u32.to_be_bytes());
    let err = repl.parse_wal_bytes(&wal).unwrap_err();
    assert!(err.to_string().contains("invalid wal magic"));
}

// ── Further cases ──

#[test]
fn replicator_name() {
    assert_eq!(WalReplicator::new().name(), "wal-replicator");
}

#[test]
fn batch_skips_blank_lines_and_trims_fields() {
    let repl = WalReplicator::new();
    let raw = b"\n  1 , 10 ,\t4096 \r\n\n 5,+20,0\n   \n";
    let frames = repl.parse_frame_batch(raw).unwrap();
    assert_eq!(frames.len(), 2);
    assert_eq!(frames[0].checksum, 10);
    assert_eq!(frames[1].index, 5);
    assert_eq!(frames[1].checksum, 20);
    assert_eq!(frames[1].size_bytes, 0);
    assert!(repl.parse_frame_batch(b"").unwrap().is_empty());
}

#[test]
fn batch_reports_line_of_bad_format() {
    let repl = WalReplicator::new();
    let err = repl.parse_frame_batch(b"1,2,3\n\n4,5\n").unwrap_err();
    assert_eq!(err, WalError::InvalidFrameFormat { line: 3 });
    assert_eq!(err.to_string(), "invalid frame format at line 3");
}

#[test]
fn batch_number_errors() {
    let repl = WalReplicator::new();
    assert_eq!(
        repl.parse_frame_batch(b"1,x,3").unwrap_err(),
        WalError::InvalidNumber(NumberError::InvalidDigit)
    );
    assert_eq!(
        repl.parse_frame_batch(b"1,,3").unwrap_err(),
        WalError::InvalidNumber(NumberError::Empty)
    );
    assert_eq!(
        repl.parse_frame_batch(b"1,2,4294967296").unwrap_err(),
        WalError::InvalidNumber(NumberError::Overflow)
    );
    assert_eq!(
        repl.parse_frame_batch(b"18446744073709551616,2,3").unwrap_err(),
        WalError::InvalidNumber(NumberError::Overflow)
    );
    assert_eq!(
        repl.parse_frame_batch(b"+,2,3").unwrap_err(),
        WalError::InvalidNumber(NumberError::InvalidDigit)
    );
    let ok = repl.parse_frame_batch(b"18446744073709551615,2,4294967295").unwrap();
    assert_eq!(ok[0].index, u64::MAX);
    assert_eq!(ok[0].size_bytes, u32::MAX);
}

#[test]
fn batch_rejects_invalid_utf8() {
    let repl = WalReplicator::new();
    let err = repl.parse_frame_batch(&[0x31, 0xff, 0x0a]).unwrap_err();
    assert_eq!(err, WalError::InvalidUtf8 { valid_up_to: 1, error_len: Some(1) });
    assert_eq!(err.to_string(), std::str::from_utf8(&[0x31, 0xff, 0x0a]).unwrap_err().to_string());
    assert_eq!(err.to_string(), "invalid utf-8 sequence of 1 bytes from index 1");
    let err = repl.parse_frame_batch(&[0x31, 0x0a, 0xe2, 0x82]).unwrap_err();
    assert_eq!(err, WalError::InvalidUtf8 { valid_up_to: 2, error_len: None });
    assert_eq!(err.to_string(), "incomplete utf-8 byte sequence from index 2");
}

#[test]
fn batch_format_error_before_order_error() {
    let repl = WalReplicator::new();
    let err = repl.parse_frame_batch(b"2,1,1\n1,1,1\nbad\n").unwrap_err();
    assert_eq!(err, WalError::InvalidFrameFormat { line: 3 });
}

#[test]
fn wal_checksums_join_high_word_first() {
    let repl = WalReplicator::new();
    let mut wal = build_fake_wal(512, 3);
    wal[0..4].copy_from_slice(&WAL_MAGIC_BE.to_be_bytes());
    let (h, frames) = repl.parse_wal_bytes(&wal).unwrap();
    assert!(h.big_endian_checksums);
    assert_eq!(h.salt1, 0xAABBCCDD);
    assert_eq!(frames.len(), 3);
    assert_eq!(frames[2].index, 3);
    assert_eq!(frames[2].checksum, (102u64 << 32) | 202);
}

#[test]
fn wal_little_endian_checksums() {
    // The magic's low bit chooses the checksum byte order; frame header
    // fields stay big-endian either way.
    assert_eq!(WAL_MAGIC_BE, 0x377f0683);
    assert_eq!(WAL_MAGIC_LE, 0x377f0682);
    let repl = WalReplicator::new();
    let mut wal = build_fake_wal(512, 1);
    wal[0..4].copy_from_slice(&WAL_MAGIC_LE.to_be_bytes());
    let (h, frames) = repl.parse_wal_bytes(&wal).unwrap();
    assert!(!h.big_endian_checksums);
    assert_eq!(frames[0].checksum, (100u64 << 32) | 200);
}

#[test]
fn wal_page_size_zero_means_65536() {
    let repl = WalReplicator::new();
    let wal = build_fake_wal(0, 1);
    let (h, frames) = repl.parse_wal_bytes(&wal).unwrap();
    assert_eq!(h.page_size, 0);
    assert_eq!(frames[0].size_bytes, 65536);
}

#[test]
fn wal_errors() {
    let repl = WalReplicator::new();
    assert_eq!(repl.parse_wal_bytes(&[0u8; 31]).unwrap_err(), WalError::HeaderTooSmall);
    let mut wal = build_fake_wal(512, 2);
    wal.push(0);
    let err = repl.parse_wal_bytes(&wal).unwrap_err();
    assert_eq!(err, WalError::NotFrameAligned { remaining: 2 * 536 + 1, frame_size: 536 });
    assert_eq!(err.to_string(), "wal size not aligned to frame boundary: remaining=1073 frame_size=536");
    let mut wal = build_fake_wal(512, 2);
    let second_salt = 32 + 536 + 8;
    wal[second_salt] ^= 1;
    let err = repl.parse_wal_bytes(&wal).unwrap_err();
    assert_eq!(err, WalError::SaltMismatch { frame: 2 });
    assert_eq!(err.to_string(), "salt mismatch at frame 2");
    let mut wal = build_fake_wal(512, 1);
    wal[0..4].copy_from_slice(&0x0000abcdu32.to_be_bytes());
    assert_eq!(repl.parse_wal_bytes(&wal).unwrap_err().to_string(), "invalid wal magic: 0x0000abcd");
}

#[test]
fn wal_header_only_has_no_frames() {
    let repl = WalReplicator::new();
    let wal = build_fake_wal(4096, 0);
    let (_, frames) = repl.parse_wal_bytes(&wal).unwrap();
    assert!(frames.is_empty());
}

#[test]
fn wal_checksums_are_not_validated() {
    let repl = WalReplicator::new();
    let wal = build_fake_wal(512, 2);
    let mut changed = wal.clone();
    // header checksum words, the second frame's checksum words, and a page byte
    for b in &mut changed[24..32] {
        *b = 0xEE;
    }
    let second = 32 + (24 + 512);
    for b in &mut changed[second + 16..second + 24] {
        *b = 0x11;
    }
    changed[second + 24 + 7] = 0x42;
    let (h1, f1) = repl.parse_wal_bytes(&wal).unwrap();
    let (h2, f2) = repl.parse_wal_bytes(&changed).unwrap();
    assert_eq!(h2.checksum1, 0xEEEEEEEE);
    assert_eq!(h2.salt1, h1.salt1);
    assert_eq!(h2.page_size, h1.page_size);
    assert_eq!(f1.len(), f2.len());
    assert_eq!(f1[0], f2[0]);
    assert_eq!(f2[1].index, f1[1].index);
    assert_eq!(f2[1].checksum, 0x1111111111111111);
}
