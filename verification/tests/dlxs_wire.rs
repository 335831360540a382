use scheduler_core::dlxb::{DlxbRowChunk, DLX_BINARY_VERSION};
use scheduler_core::dlxs::{
    DlxsHeader, DlxsPacket, DlxsSolutionRow, DLXS_MAGIC, DLXS_SENTINEL_SOLUTION_ID,
};
use scheduler_core::errors::DlxError;
use scheduler_core::frame::{u16_to_be, u32_to_be};
use scheduler_core::stream::{MemSink, MemSource};

fn encode_packet(packet: &DlxsPacket) -> Vec<u8> {
    let mut sink = MemSink::new();
    packet.write_to(&mut sink).expect("encode dlxs packet");
    sink.into_bytes()
}

fn dlxs_header_bytes(magic: u32, version: u16, flags: u16, columns: u32) -> Vec<u8> {
    let mut bytes = Vec::new();
    bytes.extend_from_slice(&u32_to_be(magic));
    bytes.extend_from_slice(&u16_to_be(version));
    bytes.extend_from_slice(&u16_to_be(flags));
    bytes.extend_from_slice(&u32_to_be(columns));
    bytes
}

#[test]
fn dlxs_sentinel_round_trip() {
    let rows = vec![
        DlxsSolutionRow::new(1, vec![10, 11, 12]),
        DlxsSolutionRow::new(2, vec![20, 21, 22]),
    ];
    let packet = DlxsPacket::new(40, rows.clone()).expect("build packet");

    let mut sink = MemSink::new();
    packet.write_to(&mut sink).expect("write packet");
    let bytes = sink.into_bytes();

    let mut source = MemSource::new(bytes);
    let decoded = DlxsPacket::read_from(&mut source)
        .expect("read packet")
        .expect("packet should exist");
    assert_eq!(decoded.header.column_count, 40);
    assert_eq!(decoded.rows, rows);
}

#[test]
fn dlxs_header_optional() {
    let mut source = MemSource::new(Vec::new());
    let header = DlxsHeader::read_from(&mut source).expect("clean eof");
    assert!(header.is_none());
}

#[test]
fn dlxs_encoded_len_matches_bytes_written() {
    let rows = vec![
        DlxsSolutionRow::new(1, vec![4, 5]),
        DlxsSolutionRow::new(2, Vec::new()),
    ];
    let packet = DlxsPacket::new(6, rows).expect("build packet");
    let bytes = encode_packet(&packet);
    assert_eq!(packet.encoded_len(), bytes.len());
    // Header, two rows, then the sentinel appended by the writer.
    assert_eq!(packet.encoded_len(), 12 + (6 + 8) + 6 + 6);
}

#[test]
fn dlxs_zero_solutions_round_trips() {
    let packet = DlxsPacket::new(5, Vec::new()).expect("build packet");
    let bytes = encode_packet(&packet);
    assert_eq!(bytes.len(), 12 + 6);
    let mut source = MemSource::new(bytes);
    let decoded = DlxsPacket::read_from(&mut source)
        .expect("read packet")
        .expect("packet should exist");
    assert_eq!(decoded.rows.len(), 0);
    assert_eq!(decoded.header.column_count, 5);
}

#[test]
fn dlxs_constructor_rejects_fabricated_sentinel() {
    let rows = vec![
        DlxsSolutionRow::new(1, vec![3]),
        DlxsSolutionRow::sentinel(),
        DlxsSolutionRow::new(2, vec![4]),
    ];
    let err = DlxsPacket::new(9, rows).unwrap_err();
    assert!(matches!(err, DlxError::SentinelRow { index: 1 }));

    // A zero identifier with entries is not the sentinel and is accepted.
    let rows = vec![DlxsSolutionRow::new(0, vec![7])];
    assert!(DlxsPacket::new(9, rows).is_ok());
}

#[test]
fn dlxs_is_sentinel_is_exact() {
    assert!(DlxsSolutionRow::sentinel().is_sentinel());
    assert!(DlxsSolutionRow::new(DLXS_SENTINEL_SOLUTION_ID, Vec::new()).is_sentinel());
    assert!(!DlxsSolutionRow::new(0, vec![1]).is_sentinel());
    assert!(!DlxsSolutionRow::new(1, Vec::new()).is_sentinel());
}

#[test]
fn dlxs_header_clean_eof_vs_truncation() {
    let mut source = MemSource::new(vec![0x44]);
    let err = DlxsHeader::read_from(&mut source).unwrap_err();
    assert!(matches!(err, DlxError::UnexpectedEof { needed: 12, read: 1 }));

    let mut source = MemSource::new(Vec::new());
    let packet = DlxsPacket::read_from(&mut source).expect("clean eof");
    assert!(packet.is_none());
}

#[test]
fn dlxs_missing_sentinel_is_truncation() {
    let rows = vec![DlxsSolutionRow::new(1, vec![2, 3])];
    let packet = DlxsPacket::new(4, rows).expect("build packet");
    let mut bytes = encode_packet(&packet);
    // Cut the stream inside the sentinel row.
    bytes.truncate(bytes.len() - 3);
    let mut source = MemSource::new(bytes);
    let err = DlxsPacket::read_from(&mut source).unwrap_err();
    assert!(matches!(err, DlxError::UnexpectedEof { .. }));
}

#[test]
fn dlxs_rejects_wrong_magic_and_version() {
    let bytes = dlxs_header_bytes(0x444C5842, DLX_BINARY_VERSION, 0, 4);
    let mut source = MemSource::new(bytes);
    let err = DlxsHeader::read_from(&mut source).unwrap_err();
    assert!(matches!(
        err,
        DlxError::InvalidMagic { found: 0x444C5842, expected: DLXS_MAGIC }
    ));

    let bytes = dlxs_header_bytes(DLXS_MAGIC, 3, 0, 4);
    let mut source = MemSource::new(bytes);
    let err = DlxsHeader::read_from(&mut source).unwrap_err();
    assert!(matches!(
        err,
        DlxError::UnsupportedVersion { found: 3, expected: DLX_BINARY_VERSION }
    ));
}

#[test]
fn dlxs_solution_row_overflow_fails_without_writing() {
    let row = DlxsSolutionRow::new(1, vec![0u32; 65536]);
    let mut sink = MemSink::new();
    let err = row.write_to(&mut sink).unwrap_err();
    assert!(matches!(err, DlxError::TooManyEntries { count: 65536 }));
    assert_eq!(sink.len(), 0);
}

#[test]
fn dlxs_round_trip_under_fragmentation() {
    let rows = vec![
        DlxsSolutionRow::new(1, vec![9]),
        DlxsSolutionRow::new(2, vec![8, 7]),
    ];
    let packet = DlxsPacket::new(11, rows.clone()).expect("build packet");
    let bytes = encode_packet(&packet);
    let mut source = MemSource::throttled(bytes, 1, 4);
    let decoded = DlxsPacket::read_from(&mut source)
        .expect("read packet")
        .expect("packet should exist");
    assert_eq!(decoded.rows, rows);
}

#[test]
fn dlxs_expansion_concatenates_matching_rows_in_order() {
    let cover_rows = vec![
        DlxbRowChunk::new(1, vec![10, 11]),
        DlxbRowChunk::new(2, vec![20, 21]),
    ];
    let rows = vec![DlxsSolutionRow::new(1, vec![1, 2])];
    let packet = DlxsPacket::new(30, rows).expect("build packet");
    let expanded = packet.apply_to_rows(&cover_rows);
    assert_eq!(expanded, vec![vec![10, 11, 20, 21]]);
}

#[test]
fn dlxs_expansion_skips_unknown_identifiers_and_uses_first_match() {
    let cover_rows = vec![
        DlxbRowChunk::new(1, vec![10, 11]),
        DlxbRowChunk::new(2, vec![20, 21]),
        DlxbRowChunk::new(2, vec![99]),
    ];
    let rows = vec![
        DlxsSolutionRow::new(1, vec![2, 6, 1]),
        DlxsSolutionRow::new(2, vec![6]),
    ];
    let packet = DlxsPacket::new(30, rows).expect("build packet");
    let expanded = packet.apply_to_rows(&cover_rows);
    // Unknown identifier 6 contributes nothing; duplicate identifier 2
    // resolves to the first retained row carrying it.
    assert_eq!(expanded, vec![vec![20, 21, 10, 11], vec![]]);
}

#[test]
fn dlxs_consecutive_packets_share_one_stream() {
    let first = DlxsPacket::new(3, vec![DlxsSolutionRow::new(1, vec![1])]).expect("build packet");
    let second = DlxsPacket::new(4, Vec::new()).expect("build packet");
    let mut sink = MemSink::new();
    first.write_to(&mut sink).expect("write first");
    second.write_to(&mut sink).expect("write second");
    let mut source = MemSource::new(sink.into_bytes());
    let a = DlxsPacket::read_from(&mut source).expect("read first").expect("first exists");
    let b = DlxsPacket::read_from(&mut source).expect("read second").expect("second exists");
    let c = DlxsPacket::read_from(&mut source).expect("clean eof");
    assert_eq!(a, first);
    assert_eq!(b, second);
    assert!(c.is_none());
}
