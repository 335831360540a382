//! DLXB: the problem-side wire format.
//!
//! A DLXB packet carries an exact-cover matrix to the solver as a 16-byte
//! header followed by exactly `row_count` sparse row chunks. The row count is
//! declared up front because the problem side is finite and known before
//! serialization begins; contrast the solution side, which streams against a
//! sentinel instead.

use vstd::prelude::*;

use crate::chunk::{
    chunk_encodable, chunks_encodable, lemma_chunk_bytes_len, lemma_chunks_bytes_push,
    lemma_chunks_bytes_split, lemma_chunks_prefix_unique, lemma_chunks_region_of_prefix,
    lemma_chunks_region_step, read_chunk,
    spec_chunk_bytes, spec_chunk_complete, spec_chunks_bytes, spec_chunks_region_complete,
    write_chunk, ChunkModel, MAX_CHUNK_ENTRIES,
};
use crate::errors::DlxError;
use crate::frame::{
    be16, be32, lemma_be16_inverse, lemma_be16_round_trip, lemma_be32_inverse,
    lemma_be32_round_trip,
    lemma_take_skip_concat, read_exact_or_none, u16_from_be, u16_of_be, u32_from_be, u32_of_be,
    write_u16, write_u32,
};
use crate::stream::{ByteSink, ByteSource};

verus! {

/// The ASCII bytes `DLXB`, stored in the first header field.
pub const DLXB_MAGIC: u32 = 0x444C5842;

/// The single protocol version both sides must speak.
pub const DLX_BINARY_VERSION: u16 = 1;

/// Serialized size of a DLXB header.
pub const DLXB_HEADER_SIZE: usize = 16;

/// DLXB header that prefixes every problem packet.
#[derive(Debug, Clone, Copy, PartialEq, Eq, Structural)]
pub struct DlxbHeader {
    /// Protocol magic number; must equal [`DLXB_MAGIC`].
    pub magic: u32,
    /// Protocol version; must equal [`DLX_BINARY_VERSION`].
    pub version: u16,
    /// Reserved for future transport metadata; zero today.
    pub flags: u16,
    /// Number of constraint columns in the cover matrix.
    pub column_count: u32,
    /// Number of row chunks that follow the header.
    pub row_count: u32,
}

/// One sparse row of the cover matrix: its identifier and the column
/// indices it covers.
#[derive(Debug, Clone, PartialEq, Eq)]
pub struct DlxbRowChunk {
    /// Identifier naming this row within the packet; assigned by the
    /// producer and opaque to the protocol.
    pub row_id: u32,
    /// Column indices set to one in this row.
    pub columns: Vec<u32>,
}

/// An entire DLXB packet: header plus all row chunks.
#[derive(Debug, Clone, PartialEq, Eq)]
pub struct DlxbPacket {
    /// Header metadata preceding the rows.
    pub header: DlxbHeader,
    /// The sparse rows of the cover matrix.
    pub rows: Vec<DlxbRowChunk>,
}

/// A row reduced to what the wire carries.
pub open spec fn dlxb_row_model(r: DlxbRowChunk) -> ChunkModel {
    (r.row_id, r.columns@)
}

/// A row list reduced to what the wire carries.
pub open spec fn dlxb_rows_model(rows: Seq<DlxbRowChunk>) -> Seq<ChunkModel> {
    rows.map_values(|r: DlxbRowChunk| dlxb_row_model(r))
}

/// A packet reduced to what the wire carries.
pub open spec fn dlxb_packet_model(p: DlxbPacket) -> (DlxbHeader, Seq<ChunkModel>) {
    (p.header, dlxb_rows_model(p.rows@))
}

/// The 16-byte encoding of a DLXB header.
pub open spec fn spec_dlxb_header_bytes(h: DlxbHeader) -> Seq<u8> {
    be32(h.magic) + be16(h.version) + be16(h.flags) + be32(h.column_count) + be32(h.row_count)
}

/// The encoding of a row chunk.
pub open spec fn spec_dlxb_row_bytes(r: DlxbRowChunk) -> Seq<u8> {
    spec_chunk_bytes(r.row_id, r.columns@)
}

/// The concatenated encodings of a row list.
pub open spec fn spec_dlxb_rows_bytes(rows: Seq<DlxbRowChunk>) -> Seq<u8> {
    spec_chunks_bytes(dlxb_rows_model(rows))
}

/// The encoding of a whole packet: header, then every row.
pub open spec fn spec_dlxb_packet_bytes(p: DlxbPacket) -> Seq<u8> {
    spec_dlxb_header_bytes(p.header) + spec_dlxb_rows_bytes(p.rows@)
}

/// Whether a header carries the protocol's fixed magic and version.
pub open spec fn dlxb_header_valid(h: DlxbHeader) -> bool {
    h.magic == DLXB_MAGIC && h.version == DLX_BINARY_VERSION
}

/// Whether every row's entry list fits the 16-bit count field.
pub open spec fn dlxb_rows_encodable(rows: Seq<DlxbRowChunk>) -> bool {
    chunks_encodable(dlxb_rows_model(rows))
}

/// A packet in the shape the wire can carry faithfully: valid header, a row
/// count that matches the rows present, and rows that fit their count field.
pub open spec fn dlxb_packet_wf(p: DlxbPacket) -> bool {
    &&& dlxb_header_valid(p.header)
    &&& p.header.row_count == p.rows@.len()
    &&& dlxb_rows_encodable(p.rows@)
}

/// Two headers that encode to prefixes of the same stream are equal.
pub proof fn lemma_dlxb_header_prefix_unique(h1: DlxbHeader, h2: DlxbHeader, s: Seq<u8>)
    requires
        s.len() >= 16,
        spec_dlxb_header_bytes(h1) == s.take(16),
        spec_dlxb_header_bytes(h2) == s.take(16),
    ensures
        h1 == h2,
{
    let e1 = spec_dlxb_header_bytes(h1);
    let e2 = spec_dlxb_header_bytes(h2);
    assert(be32(h1.magic) =~= e1.subrange(0, 4));
    assert(be32(h2.magic) =~= e2.subrange(0, 4));
    lemma_be32_round_trip(h1.magic);
    lemma_be32_round_trip(h2.magic);
    assert(u32_of_be(be32(h1.magic)) == u32_of_be(be32(h2.magic)));
    assert(be16(h1.version) =~= e1.subrange(4, 6));
    assert(be16(h2.version) =~= e2.subrange(4, 6));
    lemma_be16_round_trip(h1.version);
    lemma_be16_round_trip(h2.version);
    assert(be16(h1.flags) =~= e1.subrange(6, 8));
    assert(be16(h2.flags) =~= e2.subrange(6, 8));
    lemma_be16_round_trip(h1.flags);
    lemma_be16_round_trip(h2.flags);
    assert(be32(h1.column_count) =~= e1.subrange(8, 12));
    assert(be32(h2.column_count) =~= e2.subrange(8, 12));
    lemma_be32_round_trip(h1.column_count);
    lemma_be32_round_trip(h2.column_count);
    assert(be32(h1.row_count) =~= e1.subrange(12, 16));
    assert(be32(h2.row_count) =~= e2.subrange(12, 16));
    lemma_be32_round_trip(h1.row_count);
    lemma_be32_round_trip(h2.row_count);
}

/// Round-trip law for DLXB.
///
/// The encoding of a well-formed packet determines the packet: if the
/// encodings of two well-formed packets are both prefixes of the same byte
/// stream, the packets carry the same header and the same rows. Together
/// with the contracts of `write_to` (which produces exactly
/// `spec_dlxb_packet_bytes`) and `read_from` (which returns a packet whose
/// encoding is exactly the consumed prefix), this says that decoding the
/// bytes produced by encoding gives the original packet back.
pub proof fn lemma_dlxb_round_trip(p1: DlxbPacket, p2: DlxbPacket, s: Seq<u8>)
    requires
        dlxb_packet_wf(p1),
        dlxb_packet_wf(p2),
        spec_dlxb_packet_bytes(p1).len() <= s.len(),
        spec_dlxb_packet_bytes(p1) == s.take(spec_dlxb_packet_bytes(p1).len() as int),
        spec_dlxb_packet_bytes(p2).len() <= s.len(),
        spec_dlxb_packet_bytes(p2) == s.take(spec_dlxb_packet_bytes(p2).len() as int),
    ensures
        dlxb_packet_model(p1) == dlxb_packet_model(p2),
{
    let e1 = spec_dlxb_packet_bytes(p1);
    let e2 = spec_dlxb_packet_bytes(p2);
    let h1 = spec_dlxb_header_bytes(p1.header);
    let h2 = spec_dlxb_header_bytes(p2.header);
    let r1 = spec_dlxb_rows_bytes(p1.rows@);
    let r2 = spec_dlxb_rows_bytes(p2.rows@);
    assert(h1 =~= s.take(16));
    assert(h2 =~= s.take(16));
    lemma_dlxb_header_prefix_unique(p1.header, p2.header, s);
    let rest = s.skip(16);
    assert(r1 =~= (h1 + r1).skip(16));
    assert(r2 =~= (h2 + r2).skip(16));
    assert(s.take(e1.len() as int).skip(16) =~= rest.take(r1.len() as int));
    assert(s.take(e2.len() as int).skip(16) =~= rest.take(r2.len() as int));
    assert(dlxb_rows_model(p1.rows@).len() == p1.rows@.len());
    assert(dlxb_rows_model(p2.rows@).len() == p2.rows@.len());
    lemma_chunks_prefix_unique(dlxb_rows_model(p1.rows@), dlxb_rows_model(p2.rows@), rest);
}

/// A stream headed by a well-formed packet's encoding decodes.
///
/// The header fields read back as the protocol constants and the row region
/// is complete, so by the contract of `read_from` no truncation or
/// validation error can be reported for such a stream: only a transport
/// failure can keep the packet from being returned.
pub proof fn lemma_dlxb_decodes(p: DlxbPacket, s: Seq<u8>)
    requires
        dlxb_packet_wf(p),
        spec_dlxb_packet_bytes(p).len() <= s.len(),
        spec_dlxb_packet_bytes(p) == s.take(spec_dlxb_packet_bytes(p).len() as int),
    ensures
        s.len() >= 16,
        u32_of_be(s.subrange(0, 4)) == DLXB_MAGIC,
        u16_of_be(s.subrange(4, 6)) == DLX_BINARY_VERSION,
        spec_chunks_region_complete(
            s.skip(16),
            u32_of_be(s.subrange(12, 16)) as nat,
        ),
{
    let e = spec_dlxb_packet_bytes(p);
    let hb = spec_dlxb_header_bytes(p.header);
    let rb = spec_dlxb_rows_bytes(p.rows@);
    assert(hb =~= s.take(16));
    assert(be32(p.header.magic) =~= s.subrange(0, 4));
    lemma_be32_round_trip(p.header.magic);
    assert(be16(p.header.version) =~= hb.subrange(4, 6));
    assert(s.take(hb.len() as int).subrange(4, 6) =~= s.subrange(4, 6));
    assert(be16(p.header.version) == s.subrange(4, 6));
    lemma_be16_round_trip(p.header.version);
    assert(be32(p.header.row_count) =~= hb.subrange(12, 16));
    assert(s.take(hb.len() as int).subrange(12, 16) =~= s.subrange(12, 16));
    assert(be32(p.header.row_count) == s.subrange(12, 16));
    lemma_be32_round_trip(p.header.row_count);
    let rest = s.skip(16);
    assert(rb =~= (hb + rb).skip(16));
    assert(s.take(e.len() as int).skip(16) =~= rest.take(rb.len() as int));
    lemma_chunks_region_of_prefix(dlxb_rows_model(p.rows@), rest);
    assert(dlxb_rows_model(p.rows@).len() == p.rows@.len());
}

impl DlxbHeader {
    /// Build a header for the given column and row counts, with the
    /// protocol's fixed magic, version, and zero flags.
    pub fn new(column_count: u32, row_count: u32) -> (h: DlxbHeader)
        ensures
            h == (DlxbHeader {
                magic: DLXB_MAGIC,
                version: DLX_BINARY_VERSION,
                flags: 0u16,
                column_count,
                row_count,
            }),
    {
        DlxbHeader {
            magic: DLXB_MAGIC,
            version: DLX_BINARY_VERSION,
            flags: 0,
            column_count,
            row_count,
        }
    }

    /// Check the header against the protocol's fixed magic and version.
    ///
    /// Succeeds exactly on valid headers; the error names the offending
    /// field and the value found there.
    pub fn validate(&self) -> (r: Result<(), DlxError>)
        ensures
            r is Ok <==> dlxb_header_valid(*self),
            match r {
                Ok(_) => true,
                Err(e) => match e {
                    DlxError::InvalidMagic { found, expected } => {
                        &&& found == self.magic
                        &&& expected == DLXB_MAGIC
                        &&& self.magic != DLXB_MAGIC
                    },
                    DlxError::UnsupportedVersion { found, expected } => {
                        &&& self.magic == DLXB_MAGIC
                        &&& found == self.version
                        &&& expected == DLX_BINARY_VERSION
                        &&& self.version != DLX_BINARY_VERSION
                    },
                    _ => false,
                },
            },
    {
        if self.magic != DLXB_MAGIC {
            return Err(DlxError::InvalidMagic { found: self.magic, expected: DLXB_MAGIC });
        }
        if self.version != DLX_BINARY_VERSION {
            return Err(DlxError::UnsupportedVersion {
                found: self.version,
                expected: DLX_BINARY_VERSION,
            });
        }
        Ok(())
    }

    /// Serialize the header in network byte order.
    ///
    /// The header is validated first, so nothing is written for an invalid
    /// one.
    pub fn write_to<W: ByteSink>(&self, sink: &mut W) -> (r: Result<(), DlxError>)
        ensures
            match r {
                Ok(_) => {
                    &&& dlxb_header_valid(*self)
                    &&& final(sink).written() == old(sink).written() + spec_dlxb_header_bytes(
                        *self,
                    )
                },
                Err(e) => match e {
                    DlxError::InvalidMagic { found, expected } => {
                        &&& found == self.magic
                        &&& expected == DLXB_MAGIC
                        &&& self.magic != DLXB_MAGIC
                        &&& final(sink).written() == old(sink).written()
                    },
                    DlxError::UnsupportedVersion { found, expected } => {
                        &&& self.magic == DLXB_MAGIC
                        &&& found == self.version
                        &&& expected == DLX_BINARY_VERSION
                        &&& self.version != DLX_BINARY_VERSION
                        &&& final(sink).written() == old(sink).written()
                    },
                    DlxError::Transport { .. } => dlxb_header_valid(*self),
                    _ => false,
                },
            },
    {
        match self.validate() {
            Ok(_) => {},
            Err(e) => {
                return Err(e);
            },
        }
        match write_u32(sink, self.magic) {
            Ok(_) => {},
            Err(e) => {
                return Err(e);
            },
        }
        match write_u16(sink, self.version) {
            Ok(_) => {},
            Err(e) => {
                return Err(e);
            },
        }
        match write_u16(sink, self.flags) {
            Ok(_) => {},
            Err(e) => {
                return Err(e);
            },
        }
        match write_u32(sink, self.column_count) {
            Ok(_) => {},
            Err(e) => {
                return Err(e);
            },
        }
        match write_u32(sink, self.row_count) {
            Ok(_) => {},
            Err(e) => {
                return Err(e);
            },
        }
        proof {
            assert(final(sink).written() =~= old(sink).written() + spec_dlxb_header_bytes(
                *self,
            ));
        }
        Ok(())
    }

    /// Parse a header, or report a clean end of stream.
    ///
    /// `Ok(None)` means the stream held no byte at all; a stream holding one
    /// to fifteen bytes is truncation. A byte-complete header with the wrong
    /// magic or version fails validation even though the read succeeded.
    pub fn read_from<S: ByteSource>(source: &mut S) -> (r: Result<Option<DlxbHeader>, DlxError>)
        ensures
            match r {
                Ok(opt) => match opt {
                    Some(h) => {
                        &&& dlxb_header_valid(h)
                        &&& 16 <= old(source).remaining().len()
                        &&& spec_dlxb_header_bytes(h) == old(source).remaining().take(16)
                        &&& final(source).remaining() == old(source).remaining().skip(16)
                    },
                    None => {
                        &&& old(source).remaining().len() == 0
                        &&& final(source).remaining() == old(source).remaining()
                    },
                },
                Err(e) => match e {
                    DlxError::UnexpectedEof { .. } => 0 < old(source).remaining().len() < 16,
                    DlxError::InvalidMagic { found, expected } => {
                        &&& old(source).remaining().len() >= 16
                        &&& found == u32_of_be(old(source).remaining().subrange(0, 4))
                        &&& found != DLXB_MAGIC
                        &&& expected == DLXB_MAGIC
                    },
                    DlxError::UnsupportedVersion { found, expected } => {
                        &&& old(source).remaining().len() >= 16
                        &&& u32_of_be(old(source).remaining().subrange(0, 4)) == DLXB_MAGIC
                        &&& found == u16_of_be(old(source).remaining().subrange(4, 6))
                        &&& found != DLX_BINARY_VERSION
                        &&& expected == DLX_BINARY_VERSION
                    },
                    DlxError::Transport { .. } => true,
                    _ => false,
                },
            },
    {
        let ghost rem0 = source.remaining();
        let buf = match read_exact_or_none(source, DLXB_HEADER_SIZE) {
            Ok(Some(buf)) => buf,
            Ok(None) => {
                return Ok(None);
            },
            Err(e) => {
                return Err(e);
            },
        };
        let magic = u32_from_be(&buf, 0);
        let version = u16_from_be(&buf, 4);
        let flags = u16_from_be(&buf, 6);
        let column_count = u32_from_be(&buf, 8);
        let row_count = u32_from_be(&buf, 12);
        let header = DlxbHeader { magic, version, flags, column_count, row_count };
        proof {
            assert(buf@.subrange(0, 4) =~= rem0.subrange(0, 4));
            assert(buf@.subrange(4, 6) =~= rem0.subrange(4, 6));
        }
        match header.validate() {
            Ok(_) => {},
            Err(e) => {
                return Err(e);
            },
        }
        proof {
            lemma_be32_inverse(buf@.subrange(0, 4));
            lemma_be16_inverse(buf@.subrange(4, 6));
            lemma_be16_inverse(buf@.subrange(6, 8));
            lemma_be32_inverse(buf@.subrange(8, 12));
            lemma_be32_inverse(buf@.subrange(12, 16));
            assert(spec_dlxb_header_bytes(header) =~= buf@);
        }
        Ok(Some(header))
    }

    /// The number of bytes the header occupies when serialized.
    pub fn encoded_len(&self) -> (n: usize)
        ensures
            n == spec_dlxb_header_bytes(*self).len(),
    {
        DLXB_HEADER_SIZE
    }
}

impl DlxbRowChunk {
    /// Wrap a row identifier and its covered columns.
    pub fn new(row_id: u32, columns: Vec<u32>) -> (r: DlxbRowChunk)
        ensures
            r.row_id == row_id,
            r.columns@ == columns@,
    {
        DlxbRowChunk { row_id, columns }
    }

    /// The number of bytes the row occupies when serialized: a six-byte
    /// head plus four bytes per column entry.
    pub fn encoded_len(&self) -> (n: usize)
        requires
            6 + 4 * self.columns@.len() <= usize::MAX,
        ensures
            n == spec_dlxb_row_bytes(*self).len(),
            n == 6 + 4 * self.columns@.len(),
    {
        proof {
            lemma_chunk_bytes_len(self.row_id, self.columns@);
        }
        6 + 4 * self.columns.len()
    }

    /// Serialize the row.
    ///
    /// Fails, writing nothing, if the row covers more than 65,535 columns;
    /// the check precedes every write.
    pub fn write_to<W: ByteSink>(&self, sink: &mut W) -> (r: Result<(), DlxError>)
        ensures
            match r {
                Ok(_) => {
                    &&& chunk_encodable(self.columns@)
                    &&& final(sink).written() == old(sink).written() + spec_dlxb_row_bytes(
                        *self,
                    )
                },
                Err(e) => match e {
                    DlxError::TooManyEntries { count } => {
                        &&& count == self.columns@.len()
                        &&& self.columns@.len() > MAX_CHUNK_ENTRIES
                        &&& final(sink).written() == old(sink).written()
                    },
                    DlxError::Transport { .. } => chunk_encodable(self.columns@),
                    _ => false,
                },
            },
    {
        write_chunk(sink, self.row_id, &self.columns)
    }

    /// Parse one row.
    ///
    /// On success the row's encoding is exactly the prefix of the stream
    /// that was consumed; truncation is reported only when the stream holds
    /// less than one complete row.
    pub fn read_from<S: ByteSource>(source: &mut S) -> (r: Result<DlxbRowChunk, DlxError>)
        ensures
            match r {
                Ok(row) => {
                    &&& chunk_encodable(row.columns@)
                    &&& spec_dlxb_row_bytes(row).len() <= old(source).remaining().len()
                    &&& spec_dlxb_row_bytes(row) == old(source).remaining().take(
                        spec_dlxb_row_bytes(row).len() as int,
                    )
                    &&& final(source).remaining() == old(source).remaining().skip(
                        spec_dlxb_row_bytes(row).len() as int,
                    )
                },
                Err(e) => match e {
                    DlxError::UnexpectedEof { .. } => !spec_chunk_complete(
                        old(source).remaining(),
                    ),
                    DlxError::Transport { .. } => true,
                    _ => false,
                },
            },
    {
        match read_chunk(source) {
            Ok((row_id, columns)) => Ok(DlxbRowChunk { row_id, columns }),
            Err(e) => Err(e),
        }
    }
}

impl DlxbPacket {
    /// Wrap a row collection with a freshly derived header whose row count
    /// equals the number of rows.
    ///
    /// Fails exactly when that count cannot fit the 32-bit row-count field.
    pub fn new(column_count: u32, rows: Vec<DlxbRowChunk>) -> (r: Result<DlxbPacket, DlxError>)
        ensures
            match r {
                Ok(p) => {
                    &&& rows@.len() <= u32::MAX
                    &&& p.header == (DlxbHeader {
                        magic: DLXB_MAGIC,
                        version: DLX_BINARY_VERSION,
                        flags: 0u16,
                        column_count,
                        row_count: rows@.len() as u32,
                    })
                    &&& p.rows@ == rows@
                },
                Err(e) => match e {
                    DlxError::RowCountOverflow { count } => {
                        &&& count == rows@.len()
                        &&& rows@.len() > u32::MAX
                    },
                    _ => false,
                },
            },
    {
        let n = rows.len();
        if n > u32::MAX as usize {
            return Err(DlxError::RowCountOverflow { count: n });
        }
        Ok(DlxbPacket { header: DlxbHeader::new(column_count, n as u32), rows })
    }

    /// Serialize the packet: header, then every row, no trailer.
    pub fn write_to<W: ByteSink>(&self, sink: &mut W) -> (r: Result<(), DlxError>)
        ensures
            match r {
                Ok(_) => {
                    &&& dlxb_header_valid(self.header)
                    &&& dlxb_rows_encodable(self.rows@)
                    &&& final(sink).written() == old(sink).written() + spec_dlxb_packet_bytes(
                        *self,
                    )
                },
                Err(e) => match e {
                    DlxError::InvalidMagic { found, expected } => {
                        &&& found == self.header.magic
                        &&& expected == DLXB_MAGIC
                        &&& self.header.magic != DLXB_MAGIC
                        &&& final(sink).written() == old(sink).written()
                    },
                    DlxError::UnsupportedVersion { found, expected } => {
                        &&& self.header.magic == DLXB_MAGIC
                        &&& found == self.header.version
                        &&& expected == DLX_BINARY_VERSION
                        &&& self.header.version != DLX_BINARY_VERSION
                        &&& final(sink).written() == old(sink).written()
                    },
                    DlxError::TooManyEntries { count } => exists|k: int|
                        {
                            &&& 0 <= k < self.rows@.len()
                            &&& (#[trigger] self.rows@[k]).columns@.len() == count
                            &&& count > MAX_CHUNK_ENTRIES
                            &&& dlxb_rows_encodable(self.rows@.take(k))
                            &&& final(sink).written() == old(sink).written()
                                + spec_dlxb_header_bytes(self.header) + spec_dlxb_rows_bytes(
                                self.rows@.take(k),
                            )
                        },
                    DlxError::Transport { .. } => dlxb_header_valid(self.header),
                    _ => false,
                },
            },
    {
        match self.header.write_to(sink) {
            Ok(_) => {},
            Err(e) => {
                return Err(e);
            },
        }
        let ghost base = old(sink).written() + spec_dlxb_header_bytes(self.header);
        let n = self.rows.len();
        let mut i: usize = 0;
        while i < n
            invariant
                i <= n,
                n == self.rows@.len(),
                dlxb_header_valid(self.header),
                dlxb_rows_encodable(self.rows@.take(i as int)),
                sink.written() == base + spec_dlxb_rows_bytes(self.rows@.take(i as int)),
                base == old(sink).written() + spec_dlxb_header_bytes(self.header),
            decreases n - i,
        {
            let ghost taken = self.rows@.take(i as int);
            match self.rows[i].write_to(sink) {
                Ok(_) => {},
                Err(e) => {
                    return Err(e);
                },
            }
            proof {
                lemma_chunks_bytes_push(
                    dlxb_rows_model(taken),
                    dlxb_row_model(self.rows@[i as int]),
                );
                assert(dlxb_rows_model(taken).push(dlxb_row_model(self.rows@[i as int]))
                    =~= dlxb_rows_model(self.rows@.take(i + 1 as int)));
            }
            i = i + 1;
        }
        proof {
            assert(self.rows@.take(n as int) =~= self.rows@);
            assert(base + spec_dlxb_rows_bytes(self.rows@) =~= old(sink).written()
                + spec_dlxb_packet_bytes(*self));
        }
        Ok(())
    }

    /// Parse a packet, or report a clean end of stream.
    ///
    /// `Ok(None)` means the stream held no byte at all. Otherwise the header
    /// is read and validated, then exactly `row_count` rows; a stream that
    /// ends anywhere inside that is truncation.
    pub fn read_from<S: ByteSource>(source: &mut S) -> (r: Result<Option<DlxbPacket>, DlxError>)
        ensures
            match r {
                Ok(opt) => match opt {
                    Some(p) => {
                        &&& dlxb_packet_wf(p)
                        &&& spec_dlxb_packet_bytes(p).len() <= old(source).remaining().len()
                        &&& spec_dlxb_packet_bytes(p) == old(source).remaining().take(
                            spec_dlxb_packet_bytes(p).len() as int,
                        )
                        &&& final(source).remaining() == old(source).remaining().skip(
                            spec_dlxb_packet_bytes(p).len() as int,
                        )
                    },
                    None => {
                        &&& old(source).remaining().len() == 0
                        &&& final(source).remaining() == old(source).remaining()
                    },
                },
                Err(e) => match e {
                    DlxError::UnexpectedEof { .. } => {
                        ||| 0 < old(source).remaining().len() < 16
                        ||| {
                            &&& old(source).remaining().len() >= 16
                            &&& !spec_chunks_region_complete(
                                old(source).remaining().skip(16),
                                u32_of_be(old(source).remaining().subrange(12, 16)) as nat,
                            )
                        }
                    },
                    DlxError::InvalidMagic { found, expected } => {
                        &&& old(source).remaining().len() >= 16
                        &&& found == u32_of_be(old(source).remaining().subrange(0, 4))
                        &&& found != DLXB_MAGIC
                        &&& expected == DLXB_MAGIC
                    },
                    DlxError::UnsupportedVersion { found, expected } => {
                        &&& old(source).remaining().len() >= 16
                        &&& u32_of_be(old(source).remaining().subrange(0, 4)) == DLXB_MAGIC
                        &&& found == u16_of_be(old(source).remaining().subrange(4, 6))
                        &&& found != DLX_BINARY_VERSION
                        &&& expected == DLX_BINARY_VERSION
                    },
                    DlxError::Transport { .. } => true,
                    _ => false,
                },
            },
    {
        let ghost rem0 = source.remaining();
        let header = match DlxbHeader::read_from(source) {
            Ok(Some(h)) => h,
            Ok(None) => {
                return Ok(None);
            },
            Err(e) => {
                return Err(e);
            },
        };
        let ghost region0 = rem0.skip(16);
        proof {
            assert(be32(header.row_count) =~= spec_dlxb_header_bytes(header).subrange(12, 16));
            assert(rem0.take(16).subrange(12, 16) =~= rem0.subrange(12, 16));
            assert(be32(header.row_count) == rem0.subrange(12, 16));
            lemma_be32_round_trip(header.row_count);
            assert(u32_of_be(rem0.subrange(12, 16)) == header.row_count);
        }
        let n = header.row_count as usize;
        let mut rows: Vec<DlxbRowChunk> = Vec::new();
        let mut i: usize = 0;
        proof {
            assert(spec_dlxb_rows_bytes(rows@) =~= region0.take(0));
            assert(dlxb_rows_model(rows@) =~= Seq::<ChunkModel>::empty());
        }
        while i < n
            invariant
                rem0 == old(source).remaining(),
                region0 == rem0.skip(16),
                rem0.len() >= 16,
                i <= n,
                i == rows@.len(),
                n == header.row_count,
                header.row_count == u32_of_be(rem0.subrange(12, 16)),
                dlxb_rows_encodable(rows@),
                spec_dlxb_rows_bytes(rows@) == region0.take(spec_dlxb_rows_bytes(rows@).len() as int),
                spec_dlxb_rows_bytes(rows@).len() <= region0.len(),
                source.remaining() == region0.skip(spec_dlxb_rows_bytes(rows@).len() as int),
                spec_chunks_region_complete(region0, n as nat) == spec_chunks_region_complete(
                    source.remaining(),
                    (n - i) as nat,
                ),
            decreases n - i,
        {
            let ghost here = source.remaining();
            let ghost done = spec_dlxb_rows_bytes(rows@).len() as int;
            let row = match DlxbRowChunk::read_from(source) {
                Ok(row) => row,
                Err(e) => {
                    proof {
                        if e is UnexpectedEof {
                            assert(!spec_chunks_region_complete(here, (n - i) as nat));
                            assert(!spec_chunks_region_complete(region0, n as nat));
                        }
                    }
                    return Err(e);
                },
            };
            let ghost rowm = dlxb_row_model(row);
            let ghost rowlen = spec_dlxb_row_bytes(row).len() as int;
            let ghost prev = rows@;
            rows.push(row);
            proof {
                lemma_chunks_bytes_push(dlxb_rows_model(prev), rowm);
                assert(dlxb_rows_model(prev).push(rowm) =~= dlxb_rows_model(rows@));
                assert(region0.skip(done) =~= here);
                lemma_take_skip_concat(region0, done, rowlen);
                assert(spec_dlxb_rows_bytes(rows@) == region0.take(done) + here.take(rowlen));
                assert(spec_dlxb_rows_bytes(rows@) == region0.take(done + rowlen));
                assert(here.skip(rowlen) =~= region0.skip(done + rowlen));
                lemma_chunks_region_step(row.row_id, row.columns@, here, (n - i) as nat);
                assert forall|k: int| 0 <= k < rows@.len() implies chunk_encodable(
                    (#[trigger] dlxb_rows_model(rows@)[k]).1,
                ) by {
                    if k < prev.len() {
                        assert(dlxb_rows_model(rows@)[k] == dlxb_rows_model(prev)[k]);
                    }
                }
            }
            i = i + 1;
        }
        let packet = DlxbPacket { header, rows };
        proof {
            let e = spec_dlxb_packet_bytes(packet);
            let rb = spec_dlxb_rows_bytes(packet.rows@);
            assert(spec_dlxb_header_bytes(header) == rem0.take(16));
            lemma_take_skip_concat(rem0, 16, rb.len() as int);
            assert(e =~= rem0.take(16 + rb.len() as int));
            assert(source.remaining() =~= rem0.skip(e.len() as int));
        }
        Ok(Some(packet))
    }

    /// The exact number of bytes `write_to` would produce for this packet.
    pub fn encoded_len(&self) -> (n: usize)
        requires
            dlxb_rows_encodable(self.rows@),
            spec_dlxb_packet_bytes(*self).len() <= usize::MAX,
        ensures
            n == spec_dlxb_packet_bytes(*self).len(),
    {
        let ghost ms = dlxb_rows_model(self.rows@);
        let rows_len = self.rows.len();
        let mut total: usize = DLXB_HEADER_SIZE;
        let mut i: usize = 0;
        proof {
            assert(ms.take(0) =~= Seq::<ChunkModel>::empty());
        }
        while i < rows_len
            invariant
                i <= rows_len,
                rows_len == self.rows@.len(),
                ms == dlxb_rows_model(self.rows@),
                dlxb_rows_encodable(self.rows@),
                16 + spec_chunks_bytes(ms).len() <= usize::MAX,
                total == 16 + spec_chunks_bytes(ms.take(i as int)).len(),
            decreases rows_len - i,
        {
            proof {
                assert(ms.take(i + 1 as int) =~= ms.take(i as int).push(ms[i as int]));
                lemma_chunks_bytes_push(ms.take(i as int), ms[i as int]);
                lemma_chunks_bytes_split(ms, i + 1 as int);
                lemma_chunk_bytes_len(self.rows@[i as int].row_id, self.rows@[i as int].columns@);
                assert(ms[i as int] == dlxb_row_model(self.rows@[i as int]));
            }
            let row_len = self.rows[i].encoded_len();
            total = total + row_len;
            i = i + 1;
        }
        proof {
            assert(ms.take(rows_len as int) =~= ms);
        }
        total
    }
}

} // verus!
