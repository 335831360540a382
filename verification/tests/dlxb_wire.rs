use scheduler_core::dlxb::{DlxbHeader, DlxbPacket, DlxbRowChunk, DLXB_MAGIC, DLX_BINARY_VERSION};
use scheduler_core::errors::DlxError;
use scheduler_core::frame::{u16_to_be, u32_to_be};
use scheduler_core::stream::{MemSink, MemSource};

fn encode_packet(packet: &DlxbPacket) -> Vec<u8> {
    let mut sink = MemSink::new();
    packet.write_to(&mut sink).expect("encode dlxb packet");
    sink.into_bytes()
}

fn header_bytes(magic: u32, version: u16, flags: u16, columns: u32, rows: u32) -> Vec<u8> {
    let mut bytes = Vec::new();
    bytes.extend_from_slice(&u32_to_be(magic));
    bytes.extend_from_slice(&u16_to_be(version));
    bytes.extend_from_slice(&u16_to_be(flags));
    bytes.extend_from_slice(&u32_to_be(columns));
    bytes.extend_from_slice(&u32_to_be(rows));
    bytes
}

#[test]
fn round_trip_packet() {
    let rows = vec![
        DlxbRowChunk::new(1, vec![0, 5, 8, 12]),
        DlxbRowChunk::new(2, vec![1, 3, 10, 11]),
    ];
    let packet = DlxbPacket::new(20, rows.clone()).expect("build packet");

    let mut sink = MemSink::new();
    packet.write_to(&mut sink).expect("write packet");
    let bytes = sink.into_bytes();
    assert_eq!(bytes.len(), packet.encoded_len());

    let mut source = MemSource::new(bytes);
    let decoded = DlxbPacket::read_from(&mut source)
        .expect("read packet")
        .expect("packet should exist");
    assert_eq!(decoded.header.column_count, 20);
    assert_eq!(decoded.header.row_count, 2);
    assert_eq!(decoded.rows, rows);
}

#[test]
fn dlxb_round_trip_empty_rows_and_empty_columns() {
    let packet = DlxbPacket::new(7, Vec::new()).expect("build packet");
    let bytes = encode_packet(&packet);
    assert_eq!(bytes.len(), 16);
    let mut source = MemSource::new(bytes);
    let decoded = DlxbPacket::read_from(&mut source)
        .expect("read packet")
        .expect("packet should exist");
    assert_eq!(decoded, packet);

    let rows = vec![DlxbRowChunk::new(9, Vec::new())];
    let packet = DlxbPacket::new(0, rows.clone()).expect("build packet");
    let bytes = encode_packet(&packet);
    assert_eq!(bytes.len(), packet.encoded_len());
    let mut source = MemSource::new(bytes);
    let decoded = DlxbPacket::read_from(&mut source)
        .expect("read packet")
        .expect("packet should exist");
    assert_eq!(decoded.rows, rows);
}

#[test]
fn dlxb_round_trip_under_fragmentation_and_interrupts() {
    let rows = vec![
        DlxbRowChunk::new(3, vec![2, 4, 6]),
        DlxbRowChunk::new(4, vec![1]),
        DlxbRowChunk::new(5, Vec::new()),
    ];
    let packet = DlxbPacket::new(8, rows.clone()).expect("build packet");
    let bytes = encode_packet(&packet);

    // One byte per read, with transient interruptions injected up front.
    let mut source = MemSource::throttled(bytes, 1, 5);
    let decoded = DlxbPacket::read_from(&mut source)
        .expect("read packet")
        .expect("packet should exist");
    assert_eq!(decoded.rows, rows);
    assert_eq!(decoded.header.column_count, 8);
}

#[test]
fn dlxb_encoded_len_matches_bytes_written() {
    let rows = vec![
        DlxbRowChunk::new(1, vec![0, 1, 2, 3, 4]),
        DlxbRowChunk::new(2, Vec::new()),
        DlxbRowChunk::new(3, vec![7]),
    ];
    let packet = DlxbPacket::new(9, rows).expect("build packet");
    let bytes = encode_packet(&packet);
    assert_eq!(packet.encoded_len(), bytes.len());
    assert_eq!(packet.encoded_len(), 16 + (6 + 20) + 6 + (6 + 4));
}

#[test]
fn dlxb_header_clean_eof_vs_truncation() {
    // An empty stream is "no packet", not an error.
    let mut source = MemSource::new(Vec::new());
    let header = DlxbHeader::read_from(&mut source).expect("clean eof");
    assert!(header.is_none());

    // One or more bytes, but fewer than a header, is truncation.
    let mut source = MemSource::new(vec![0x44, 0x4C, 0x58]);
    let err = DlxbHeader::read_from(&mut source).unwrap_err();
    assert!(matches!(err, DlxError::UnexpectedEof { needed: 16, read: 3 }));

    let mut source = MemSource::new(Vec::new());
    let packet = DlxbPacket::read_from(&mut source).expect("clean eof");
    assert!(packet.is_none());
}

#[test]
fn dlxb_truncated_rows_are_an_error() {
    let rows = vec![DlxbRowChunk::new(1, vec![10, 11, 12])];
    let packet = DlxbPacket::new(13, rows).expect("build packet");
    let mut bytes = encode_packet(&packet);
    bytes.pop();
    let mut source = MemSource::new(bytes);
    let err = DlxbPacket::read_from(&mut source).unwrap_err();
    assert!(matches!(err, DlxError::UnexpectedEof { .. }));

    // A header declaring more rows than the stream holds is truncation too.
    let bytes = header_bytes(DLXB_MAGIC, DLX_BINARY_VERSION, 0, 4, 2);
    let mut source = MemSource::new(bytes);
    let err = DlxbPacket::read_from(&mut source).unwrap_err();
    assert!(matches!(err, DlxError::UnexpectedEof { .. }));
}

#[test]
fn dlxb_rejects_wrong_magic_and_version() {
    let bytes = header_bytes(0x444C5843, DLX_BINARY_VERSION, 0, 4, 0);
    let mut source = MemSource::new(bytes);
    let err = DlxbHeader::read_from(&mut source).unwrap_err();
    assert!(matches!(
        err,
        DlxError::InvalidMagic { found: 0x444C5843, expected: DLXB_MAGIC }
    ));

    let bytes = header_bytes(DLXB_MAGIC, 2, 0, 4, 0);
    let mut source = MemSource::new(bytes);
    let err = DlxbHeader::read_from(&mut source).unwrap_err();
    assert!(matches!(
        err,
        DlxError::UnsupportedVersion { found: 2, expected: DLX_BINARY_VERSION }
    ));

    // Validation also guards the write path.
    let mut header = DlxbHeader::new(4, 0);
    header.magic = 0xDEADBEEF;
    assert!(header.validate().is_err());
    let mut sink = MemSink::new();
    assert!(header.write_to(&mut sink).is_err());
    assert_eq!(sink.len(), 0);
}

#[test]
fn dlxb_row_overflow_fails_without_writing() {
    let row = DlxbRowChunk::new(1, vec![0u32; 65536]);
    let mut sink = MemSink::new();
    let err = row.write_to(&mut sink).unwrap_err();
    assert!(matches!(err, DlxError::TooManyEntries { count: 65536 }));
    assert_eq!(sink.len(), 0);

    // At the packet level the rows before the offending one are written,
    // but nothing of the oversized row itself.
    let good = DlxbRowChunk::new(1, vec![5]);
    let bad = DlxbRowChunk::new(2, vec![0u32; 65536]);
    let packet = DlxbPacket::new(3, vec![good, bad]).expect("build packet");
    let mut sink = MemSink::new();
    let err = packet.write_to(&mut sink).unwrap_err();
    assert!(matches!(err, DlxError::TooManyEntries { count: 65536 }));
    assert_eq!(sink.len(), 16 + 6 + 4);
}

#[test]
fn dlxb_row_at_entry_limit_round_trips() {
    let row = DlxbRowChunk::new(8, (0..65535u32).collect());
    let mut sink = MemSink::new();
    row.write_to(&mut sink).expect("write row");
    let bytes = sink.into_bytes();
    assert_eq!(bytes.len(), 6 + 4 * 65535);
    let mut source = MemSource::new(bytes);
    let decoded = DlxbRowChunk::read_from(&mut source).expect("read row");
    assert_eq!(decoded, row);
}

#[test]
fn dlxb_packet_new_rejects_oversized_row_counts_only_by_count() {
    let rows = vec![DlxbRowChunk::new(1, vec![2])];
    let packet = DlxbPacket::new(5, rows).expect("build packet");
    assert_eq!(packet.header.magic, DLXB_MAGIC);
    assert_eq!(packet.header.version, DLX_BINARY_VERSION);
    assert_eq!(packet.header.flags, 0);
    assert_eq!(packet.header.row_count, 1);
    assert_eq!(packet.header.encoded_len(), 16);
}

#[test]
fn dlxb_consecutive_packets_share_one_stream() {
    let first = DlxbPacket::new(4, vec![DlxbRowChunk::new(1, vec![0, 2])]).expect("build packet");
    let second = DlxbPacket::new(6, vec![DlxbRowChunk::new(2, vec![5])]).expect("build packet");
    let mut sink = MemSink::new();
    first.write_to(&mut sink).expect("write first");
    second.write_to(&mut sink).expect("write second");
    let mut source = MemSource::new(sink.into_bytes());
    let a = DlxbPacket::read_from(&mut source).expect("read first").expect("first exists");
    let b = DlxbPacket::read_from(&mut source).expect("read second").expect("second exists");
    let c = DlxbPacket::read_from(&mut source).expect("clean eof");
    assert_eq!(a, first);
    assert_eq!(b, second);
    assert!(c.is_none());
}
