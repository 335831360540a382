//! DLXS: the solution-side wire format.
//!
//! A DLXS stream carries solver output back as a 12-byte header followed by
//! solution rows, terminated by a reserved sentinel row rather than a
//! declared count: the number of solutions is not known in advance, so the
//! consumer reads incrementally until it observes the sentinel. The sentinel
//! is the unique row with solution identifier zero and no entries; genuine
//! solutions must therefore use identifiers starting at one.

use vstd::prelude::*;

use crate::chunk::{
    chunk_encodable, chunk_model_is_sentinel, chunks_encodable, lemma_chunk_bytes_len,
    lemma_chunks_bytes_push, lemma_chunks_bytes_split, lemma_sentinel_chunks_prefix_unique,
    lemma_sentinel_region_of_prefix, lemma_sentinel_region_step, no_sentinel, read_chunk,
    spec_chunk_bytes, spec_chunk_complete, spec_chunks_bytes, spec_sentinel_chunks_bytes,
    spec_sentinel_region_complete, write_chunk, ChunkModel, MAX_CHUNK_ENTRIES,
};
use crate::dlxb::{DlxbRowChunk, DLX_BINARY_VERSION};
use crate::errors::DlxError;
use crate::frame::{
    be16, be32, lemma_be16_inverse, lemma_be16_round_trip, lemma_be32_inverse,
    lemma_be32_round_trip,
    lemma_take_skip_concat, read_exact_or_none, u16_from_be, u16_of_be, u32_from_be, u32_of_be,
    write_u16, write_u32,
};
use crate::stream::{ByteSink, ByteSource};

verus! {

/// The ASCII bytes `DLXS`, stored in the first header field.
pub const DLXS_MAGIC: u32 = 0x444C5853;

/// The solution identifier reserved for the sentinel row.
pub const DLXS_SENTINEL_SOLUTION_ID: u32 = 0;

/// The entry count carried by the sentinel row.
pub const DLXS_SENTINEL_ENTRY_COUNT: u16 = 0;

/// Serialized size of a DLXS header.
pub const DLXS_HEADER_SIZE: usize = 12;

/// DLXS header emitted before the solver streams solution rows.
#[derive(Debug, Clone, Copy, PartialEq, Eq, Structural)]
pub struct DlxsHeader {
    /// Protocol magic number; must equal [`DLXS_MAGIC`].
    pub magic: u32,
    /// Protocol version; must match the originating DLXB version.
    pub version: u16,
    /// Reserved for future transport metadata; zero today.
    pub flags: u16,
    /// Column count needed to interpret row references.
    pub column_count: u32,
}

/// One solution row: its identifier and the DLXB row identifiers it selects.
#[derive(Debug, Clone, PartialEq, Eq)]
pub struct DlxsSolutionRow {
    /// Sequential identifier assigned as solutions stream out; zero is
    /// reserved for the sentinel.
    pub solution_id: u32,
    /// Row identifiers selected from the corresponding DLXB packet.
    pub indices: Vec<u32>,
}

/// One complete DLXS frame: header plus the genuine solution rows.
///
/// The sentinel is never stored here: the writer appends it and the reader
/// strips it.
#[derive(Debug, Clone, PartialEq, Eq)]
pub struct DlxsPacket {
    /// Header describing the solution rows that follow.
    pub header: DlxsHeader,
    /// The genuine solution rows, sentinel excluded.
    pub rows: Vec<DlxsSolutionRow>,
}

/// A solution row reduced to what the wire carries.
pub open spec fn dlxs_row_model(r: DlxsSolutionRow) -> ChunkModel {
    (r.solution_id, r.indices@)
}

/// A row list reduced to what the wire carries.
pub open spec fn dlxs_rows_model(rows: Seq<DlxsSolutionRow>) -> Seq<ChunkModel> {
    rows.map_values(|r: DlxsSolutionRow| dlxs_row_model(r))
}

/// A packet reduced to what the wire carries.
pub open spec fn dlxs_packet_model(p: DlxsPacket) -> (DlxsHeader, Seq<ChunkModel>) {
    (p.header, dlxs_rows_model(p.rows@))
}

/// The 12-byte encoding of a DLXS header.
pub open spec fn spec_dlxs_header_bytes(h: DlxsHeader) -> Seq<u8> {
    be32(h.magic) + be16(h.version) + be16(h.flags) + be32(h.column_count)
}

/// The encoding of one solution row.
pub open spec fn spec_dlxs_row_bytes(r: DlxsSolutionRow) -> Seq<u8> {
    spec_chunk_bytes(r.solution_id, r.indices@)
}

/// The concatenated encodings of a row list, without the sentinel.
pub open spec fn spec_dlxs_rows_bytes(rows: Seq<DlxsSolutionRow>) -> Seq<u8> {
    spec_chunks_bytes(dlxs_rows_model(rows))
}

/// The encoding of a whole packet: header, every row, then the sentinel.
pub open spec fn spec_dlxs_packet_bytes(p: DlxsPacket) -> Seq<u8> {
    spec_dlxs_header_bytes(p.header) + spec_sentinel_chunks_bytes(dlxs_rows_model(p.rows@))
}

/// Whether a header carries the protocol's fixed magic and version.
pub open spec fn dlxs_header_valid(h: DlxsHeader) -> bool {
    h.magic == DLXS_MAGIC && h.version == DLX_BINARY_VERSION
}

/// Whether a row is indistinguishable from the sentinel.
pub open spec fn dlxs_row_is_sentinel(r: DlxsSolutionRow) -> bool {
    r.solution_id == DLXS_SENTINEL_SOLUTION_ID && r.indices@.len() == 0
}

/// Whether every row's entry list fits the 16-bit count field.
pub open spec fn dlxs_rows_encodable(rows: Seq<DlxsSolutionRow>) -> bool {
    chunks_encodable(dlxs_rows_model(rows))
}

/// A packet in the shape the wire can carry faithfully: valid header, rows
/// that fit their count field, and no row masquerading as the sentinel.
pub open spec fn dlxs_packet_wf(p: DlxsPacket) -> bool {
    &&& dlxs_header_valid(p.header)
    &&& dlxs_rows_encodable(p.rows@)
    &&& forall|i: int| 0 <= i < p.rows@.len() ==> !dlxs_row_is_sentinel(#[trigger] p.rows@[i])
}

/// Row-level and model-level sentinel tests agree.
pub proof fn lemma_dlxs_sentinel_model(rows: Seq<DlxsSolutionRow>)
    ensures
        no_sentinel(dlxs_rows_model(rows)) <==> (forall|i: int|
            0 <= i < rows.len() ==> !dlxs_row_is_sentinel(#[trigger] rows[i])),
{
    let ms = dlxs_rows_model(rows);
    assert(ms.len() == rows.len());
    if no_sentinel(ms) {
        assert forall|i: int| 0 <= i < rows.len() implies !dlxs_row_is_sentinel(
            #[trigger] rows[i],
        ) by {
            assert(ms[i] == dlxs_row_model(rows[i]));
            assert(!chunk_model_is_sentinel(ms[i]));
        }
    }
    if forall|i: int| 0 <= i < rows.len() ==> !dlxs_row_is_sentinel(#[trigger] rows[i]) {
        assert forall|i: int| 0 <= i < ms.len() implies !chunk_model_is_sentinel(
            #[trigger] ms[i],
        ) by {
            assert(ms[i] == dlxs_row_model(rows[i]));
            assert(!dlxs_row_is_sentinel(rows[i]));
        }
        assert(no_sentinel(ms));
    }
}

/// Two headers that encode to prefixes of the same stream are equal.
pub proof fn lemma_dlxs_header_prefix_unique(h1: DlxsHeader, h2: DlxsHeader, s: Seq<u8>)
    requires
        s.len() >= 12,
        spec_dlxs_header_bytes(h1) == s.take(12),
        spec_dlxs_header_bytes(h2) == s.take(12),
    ensures
        h1 == h2,
{
    let e1 = spec_dlxs_header_bytes(h1);
    let e2 = spec_dlxs_header_bytes(h2);
    assert(be32(h1.magic) =~= e1.subrange(0, 4));
    assert(be32(h2.magic) =~= e2.subrange(0, 4));
    lemma_be32_round_trip(h1.magic);
    lemma_be32_round_trip(h2.magic);
    assert(be16(h1.version) =~= e1.subrange(4, 6));
    assert(be16(h2.version) =~= e2.subrange(4, 6));
    lemma_be16_round_trip(h1.version);
    lemma_be16_round_trip(h2.version);
    assert(be16(h1.flags) =~= e1.subrange(6, 8));
    assert(be16(h2.flags) =~= e2.subrange(6, 8));
    lemma_be16_round_trip(h1.flags);
    lemma_be16_round_trip(h2.flags);
    assert(be32(h1.column_count) =~= e1.subrange(8, 12));
    assert(be32(h2.column_count) =~= e2.subrange(8, 12));
    lemma_be32_round_trip(h1.column_count);
    lemma_be32_round_trip(h2.column_count);
}

/// Round-trip law for DLXS.
///
/// The encoding of a well-formed packet determines the packet: if the
/// encodings of two well-formed packets are both prefixes of the same byte
/// stream, the packets carry the same header and the same solution rows.
/// The sentinel terminates the row region unambiguously because a
/// well-formed packet contains no row equal to it. Together with the
/// contracts of `write_to` (which produces exactly `spec_dlxs_packet_bytes`,
/// sentinel included) and `read_from` (which returns a packet whose
/// encoding is exactly the consumed prefix, sentinel excluded from the
/// rows), this says that decoding the bytes produced by encoding gives the
/// original rows back.
pub proof fn lemma_dlxs_round_trip(p1: DlxsPacket, p2: DlxsPacket, s: Seq<u8>)
    requires
        dlxs_packet_wf(p1),
        dlxs_packet_wf(p2),
        spec_dlxs_packet_bytes(p1).len() <= s.len(),
        spec_dlxs_packet_bytes(p1) == s.take(spec_dlxs_packet_bytes(p1).len() as int),
        spec_dlxs_packet_bytes(p2).len() <= s.len(),
        spec_dlxs_packet_bytes(p2) == s.take(spec_dlxs_packet_bytes(p2).len() as int),
    ensures
        dlxs_packet_model(p1) == dlxs_packet_model(p2),
{
    let e1 = spec_dlxs_packet_bytes(p1);
    let e2 = spec_dlxs_packet_bytes(p2);
    let h1 = spec_dlxs_header_bytes(p1.header);
    let h2 = spec_dlxs_header_bytes(p2.header);
    let r1 = spec_sentinel_chunks_bytes(dlxs_rows_model(p1.rows@));
    let r2 = spec_sentinel_chunks_bytes(dlxs_rows_model(p2.rows@));
    assert(h1 =~= s.take(12));
    assert(h2 =~= s.take(12));
    lemma_dlxs_header_prefix_unique(p1.header, p2.header, s);
    let rest = s.skip(12);
    assert(r1 =~= (h1 + r1).skip(12));
    assert(r2 =~= (h2 + r2).skip(12));
    assert(s.take(e1.len() as int).skip(12) =~= rest.take(r1.len() as int));
    assert(s.take(e2.len() as int).skip(12) =~= rest.take(r2.len() as int));
    lemma_dlxs_sentinel_model(p1.rows@);
    lemma_dlxs_sentinel_model(p2.rows@);
    lemma_sentinel_chunks_prefix_unique(
        dlxs_rows_model(p1.rows@),
        dlxs_rows_model(p2.rows@),
        rest,
    );
}

/// A stream headed by a well-formed packet's encoding decodes.
///
/// The header fields read back as the protocol constants and the
/// sentinel-terminated row region is complete, so by the contract of
/// `read_from` no truncation or validation error can be reported for such a
/// stream: only a transport failure can keep the packet from being
/// returned.
pub proof fn lemma_dlxs_decodes(p: DlxsPacket, s: Seq<u8>)
    requires
        dlxs_packet_wf(p),
        spec_dlxs_packet_bytes(p).len() <= s.len(),
        spec_dlxs_packet_bytes(p) == s.take(spec_dlxs_packet_bytes(p).len() as int),
    ensures
        s.len() >= 12,
        u32_of_be(s.subrange(0, 4)) == DLXS_MAGIC,
        u16_of_be(s.subrange(4, 6)) == DLX_BINARY_VERSION,
        spec_sentinel_region_complete(s.skip(12)),
{
    let e = spec_dlxs_packet_bytes(p);
    let hb = spec_dlxs_header_bytes(p.header);
    let rb = spec_sentinel_chunks_bytes(dlxs_rows_model(p.rows@));
    assert(hb =~= s.take(12));
    assert(be32(p.header.magic) =~= s.subrange(0, 4));
    lemma_be32_round_trip(p.header.magic);
    assert(be16(p.header.version) =~= hb.subrange(4, 6));
    assert(s.take(hb.len() as int).subrange(4, 6) =~= s.subrange(4, 6));
    assert(be16(p.header.version) == s.subrange(4, 6));
    lemma_be16_round_trip(p.header.version);
    let rest = s.skip(12);
    assert(rb =~= (hb + rb).skip(12));
    assert(s.take(e.len() as int).skip(12) =~= rest.take(rb.len() as int));
    lemma_dlxs_sentinel_model(p.rows@);
    lemma_sentinel_region_of_prefix(dlxs_rows_model(p.rows@), rest);
}

impl DlxsHeader {
    /// Build a header for the given column count, with the protocol's fixed
    /// magic, version, and zero flags.
    pub fn new(column_count: u32) -> (h: DlxsHeader)
        ensures
            h == (DlxsHeader {
                magic: DLXS_MAGIC,
                version: DLX_BINARY_VERSION,
                flags: 0u16,
                column_count,
            }),
    {
        DlxsHeader { magic: DLXS_MAGIC, version: DLX_BINARY_VERSION, flags: 0, column_count }
    }

    /// Check the header against the protocol's fixed magic and version.
    pub fn validate(&self) -> (r: Result<(), DlxError>)
        ensures
            r is Ok <==> dlxs_header_valid(*self),
            match r {
                Ok(_) => true,
                Err(e) => match e {
                    DlxError::InvalidMagic { found, expected } => {
                        &&& found == self.magic
                        &&& expected == DLXS_MAGIC
                        &&& self.magic != DLXS_MAGIC
                    },
                    DlxError::UnsupportedVersion { found, expected } => {
                        &&& self.magic == DLXS_MAGIC
                        &&& found == self.version
                        &&& expected == DLX_BINARY_VERSION
                        &&& self.version != DLX_BINARY_VERSION
                    },
                    _ => false,
                },
            },
    {
        if self.magic != DLXS_MAGIC {
            return Err(DlxError::InvalidMagic { found: self.magic, expected: DLXS_MAGIC });
        }
        if self.version != DLX_BINARY_VERSION {
            return Err(DlxError::UnsupportedVersion {
                found: self.version,
                expected: DLX_BINARY_VERSION,
            });
        }
        Ok(())
    }

    /// Serialize the header in network byte order, validating it first.
    pub fn write_to<W: ByteSink>(&self, sink: &mut W) -> (r: Result<(), DlxError>)
        ensures
            match r {
                Ok(_) => {
                    &&& dlxs_header_valid(*self)
                    &&& final(sink).written() == old(sink).written() + spec_dlxs_header_bytes(
                        *self,
                    )
                },
                Err(e) => match e {
                    DlxError::InvalidMagic { found, expected } => {
                        &&& found == self.magic
                        &&& expected == DLXS_MAGIC
                        &&& self.magic != DLXS_MAGIC
                        &&& final(sink).written() == old(sink).written()
                    },
                    DlxError::UnsupportedVersion { found, expected } => {
                        &&& self.magic == DLXS_MAGIC
                        &&& found == self.version
                        &&& expected == DLX_BINARY_VERSION
                        &&& self.version != DLX_BINARY_VERSION
                        &&& final(sink).written() == old(sink).written()
                    },
                    DlxError::Transport { .. } => dlxs_header_valid(*self),
                    _ => false,
                },
            },
    {
        match self.validate() {
            Ok(_) => {},
            Err(e) => {
                return Err(e);
            },
        }
        match write_u32(sink, self.magic) {
            Ok(_) => {},
            Err(e) => {
                return Err(e);
            },
        }
        match write_u16(sink, self.version) {
            Ok(_) => {},
            Err(e) => {
                return Err(e);
            },
        }
        match write_u16(sink, self.flags) {
            Ok(_) => {},
            Err(e) => {
                return Err(e);
            },
        }
        match write_u32(sink, self.column_count) {
            Ok(_) => {},
            Err(e) => {
                return Err(e);
            },
        }
        proof {
            assert(final(sink).written() =~= old(sink).written() + spec_dlxs_header_bytes(
                *self,
            ));
        }
        Ok(())
    }

    /// Parse a header, or report a clean end of stream.
    ///
    /// `Ok(None)` means the stream held no byte at all; one to eleven bytes
    /// is truncation. A byte-complete header with the wrong magic or version
    /// fails validation even though the read succeeded.
    pub fn read_from<S: ByteSource>(source: &mut S) -> (r: Result<Option<DlxsHeader>, DlxError>)
        ensures
            match r {
                Ok(opt) => match opt {
                    Some(h) => {
                        &&& dlxs_header_valid(h)
                        &&& 12 <= old(source).remaining().len()
                        &&& spec_dlxs_header_bytes(h) == old(source).remaining().take(12)
                        &&& final(source).remaining() == old(source).remaining().skip(12)
                    },
                    None => {
                        &&& old(source).remaining().len() == 0
                        &&& final(source).remaining() == old(source).remaining()
                    },
                },
                Err(e) => match e {
                    DlxError::UnexpectedEof { .. } => 0 < old(source).remaining().len() < 12,
                    DlxError::InvalidMagic { found, expected } => {
                        &&& old(source).remaining().len() >= 12
                        &&& found == u32_of_be(old(source).remaining().subrange(0, 4))
                        &&& found != DLXS_MAGIC
                        &&& expected == DLXS_MAGIC
                    },
                    DlxError::UnsupportedVersion { found, expected } => {
                        &&& old(source).remaining().len() >= 12
                        &&& u32_of_be(old(source).remaining().subrange(0, 4)) == DLXS_MAGIC
                        &&& found == u16_of_be(old(source).remaining().subrange(4, 6))
                        &&& found != DLX_BINARY_VERSION
                        &&& expected == DLX_BINARY_VERSION
                    },
                    DlxError::Transport { .. } => true,
                    _ => false,
                },
            },
    {
        let ghost rem0 = source.remaining();
        let buf = match read_exact_or_none(source, DLXS_HEADER_SIZE) {
            Ok(Some(buf)) => buf,
            Ok(None) => {
                return Ok(None);
            },
            Err(e) => {
                return Err(e);
            },
        };
        let magic = u32_from_be(&buf, 0);
        let version = u16_from_be(&buf, 4);
        let flags = u16_from_be(&buf, 6);
        let column_count = u32_from_be(&buf, 8);
        let header = DlxsHeader { magic, version, flags, column_count };
        proof {
            assert(buf@.subrange(0, 4) =~= rem0.subrange(0, 4));
            assert(buf@.subrange(4, 6) =~= rem0.subrange(4, 6));
        }
        match header.validate() {
            Ok(_) => {},
            Err(e) => {
                return Err(e);
            },
        }
        proof {
            lemma_be32_inverse(buf@.subrange(0, 4));
            lemma_be16_inverse(buf@.subrange(4, 6));
            lemma_be16_inverse(buf@.subrange(6, 8));
            lemma_be32_inverse(buf@.subrange(8, 12));
            assert(spec_dlxs_header_bytes(header) =~= buf@);
        }
        Ok(Some(header))
    }

    /// The number of bytes the header occupies when serialized.
    pub fn encoded_len(&self) -> (n: usize)
        ensures
            n == spec_dlxs_header_bytes(*self).len(),
    {
        DLXS_HEADER_SIZE
    }
}

impl DlxsSolutionRow {
    /// Wrap a solution identifier and the DLXB row identifiers it selects.
    pub fn new(solution_id: u32, indices: Vec<u32>) -> (r: DlxsSolutionRow)
        ensures
            r.solution_id == solution_id,
            r.indices@ == indices@,
    {
        DlxsSolutionRow { solution_id, indices }
    }

    /// The canonical end-of-stream marker: identifier zero, no entries.
    pub fn sentinel() -> (r: DlxsSolutionRow)
        ensures
            dlxs_row_is_sentinel(r),
            r.solution_id == DLXS_SENTINEL_SOLUTION_ID,
            r.indices@ == Seq::<u32>::empty(),
    {
        DlxsSolutionRow { solution_id: DLXS_SENTINEL_SOLUTION_ID, indices: Vec::new() }
    }

    /// Whether this row is the sentinel marker: identifier zero and an
    /// empty entry list, exactly.
    pub fn is_sentinel(&self) -> (r: bool)
        ensures
            r == dlxs_row_is_sentinel(*self),
    {
        self.solution_id == DLXS_SENTINEL_SOLUTION_ID && self.indices.len() == 0
    }

    /// Serialize the row.
    ///
    /// Fails, writing nothing, if the row selects more than 65,535 entries;
    /// the check precedes every write.
    pub fn write_to<W: ByteSink>(&self, sink: &mut W) -> (r: Result<(), DlxError>)
        ensures
            match r {
                Ok(_) => {
                    &&& chunk_encodable(self.indices@)
                    &&& final(sink).written() == old(sink).written() + spec_dlxs_row_bytes(
                        *self,
                    )
                },
                Err(e) => match e {
                    DlxError::TooManyEntries { count } => {
                        &&& count == self.indices@.len()
                        &&& self.indices@.len() > MAX_CHUNK_ENTRIES
                        &&& final(sink).written() == old(sink).written()
                    },
                    DlxError::Transport { .. } => chunk_encodable(self.indices@),
                    _ => false,
                },
            },
    {
        write_chunk(sink, self.solution_id, &self.indices)
    }

    /// Parse one solution row, which may be the sentinel.
    pub fn read_from<S: ByteSource>(source: &mut S) -> (r: Result<DlxsSolutionRow, DlxError>)
        ensures
            match r {
                Ok(row) => {
                    &&& chunk_encodable(row.indices@)
                    &&& spec_dlxs_row_bytes(row).len() <= old(source).remaining().len()
                    &&& spec_dlxs_row_bytes(row) == old(source).remaining().take(
                        spec_dlxs_row_bytes(row).len() as int,
                    )
                    &&& final(source).remaining() == old(source).remaining().skip(
                        spec_dlxs_row_bytes(row).len() as int,
                    )
                },
                Err(e) => match e {
                    DlxError::UnexpectedEof { .. } => !spec_chunk_complete(
                        old(source).remaining(),
                    ),
                    DlxError::Transport { .. } => true,
                    _ => false,
                },
            },
    {
        match read_chunk(source) {
            Ok((solution_id, indices)) => Ok(DlxsSolutionRow { solution_id, indices }),
            Err(e) => Err(e),
        }
    }
}

impl DlxsPacket {
    /// Build a packet from solution rows.
    ///
    /// Rejects, at the first offending position, any caller-supplied row
    /// indistinguishable from the sentinel: the sentinel is appended
    /// automatically on write and producers must never fabricate it.
    pub fn new(column_count: u32, rows: Vec<DlxsSolutionRow>) -> (r: Result<DlxsPacket, DlxError>)
        ensures
            match r {
                Ok(p) => {
                    &&& forall|i: int|
                        0 <= i < rows@.len() ==> !dlxs_row_is_sentinel(#[trigger] rows@[i])
                    &&& p.header == (DlxsHeader {
                        magic: DLXS_MAGIC,
                        version: DLX_BINARY_VERSION,
                        flags: 0u16,
                        column_count,
                    })
                    &&& p.rows@ == rows@
                },
                Err(e) => match e {
                    DlxError::SentinelRow { index } => {
                        &&& 0 <= index < rows@.len()
                        &&& dlxs_row_is_sentinel(rows@[index as int])
                        &&& forall|i: int|
                            0 <= i < index ==> !dlxs_row_is_sentinel(#[trigger] rows@[i])
                    },
                    _ => false,
                },
            },
    {
        let n = rows.len();
        let mut i: usize = 0;
        while i < n
            invariant
                i <= n,
                n == rows@.len(),
                forall|k: int| 0 <= k < i ==> !dlxs_row_is_sentinel(#[trigger] rows@[k]),
            decreases n - i,
        {
            if rows[i].is_sentinel() {
                return Err(DlxError::SentinelRow { index: i });
            }
            i = i + 1;
        }
        Ok(DlxsPacket { header: DlxsHeader::new(column_count), rows })
    }

    /// Serialize the packet: header, every solution row, then exactly one
    /// sentinel row appended by the writer.
    pub fn write_to<W: ByteSink>(&self, sink: &mut W) -> (r: Result<(), DlxError>)
        ensures
            match r {
                Ok(_) => {
                    &&& dlxs_header_valid(self.header)
                    &&& dlxs_rows_encodable(self.rows@)
                    &&& final(sink).written() == old(sink).written() + spec_dlxs_packet_bytes(
                        *self,
                    )
                },
                Err(e) => match e {
                    DlxError::InvalidMagic { found, expected } => {
                        &&& found == self.header.magic
                        &&& expected == DLXS_MAGIC
                        &&& self.header.magic != DLXS_MAGIC
                        &&& final(sink).written() == old(sink).written()
                    },
                    DlxError::UnsupportedVersion { found, expected } => {
                        &&& self.header.magic == DLXS_MAGIC
                        &&& found == self.header.version
                        &&& expected == DLX_BINARY_VERSION
                        &&& self.header.version != DLX_BINARY_VERSION
                        &&& final(sink).written() == old(sink).written()
                    },
                    DlxError::TooManyEntries { count } => exists|k: int|
                        {
                            &&& 0 <= k < self.rows@.len()
                            &&& (#[trigger] self.rows@[k]).indices@.len() == count
                            &&& count > MAX_CHUNK_ENTRIES
                            &&& dlxs_rows_encodable(self.rows@.take(k))
                            &&& final(sink).written() == old(sink).written()
                                + spec_dlxs_header_bytes(self.header) + spec_dlxs_rows_bytes(
                                self.rows@.take(k),
                            )
                        },
                    DlxError::Transport { .. } => dlxs_header_valid(self.header),
                    _ => false,
                },
            },
    {
        match self.header.write_to(sink) {
            Ok(_) => {},
            Err(e) => {
                return Err(e);
            },
        }
        let ghost base = old(sink).written() + spec_dlxs_header_bytes(self.header);
        let n = self.rows.len();
        let mut i: usize = 0;
        while i < n
            invariant
                i <= n,
                n == self.rows@.len(),
                dlxs_header_valid(self.header),
                dlxs_rows_encodable(self.rows@.take(i as int)),
                sink.written() == base + spec_dlxs_rows_bytes(self.rows@.take(i as int)),
                base == old(sink).written() + spec_dlxs_header_bytes(self.header),
            decreases n - i,
        {
            let ghost taken = self.rows@.take(i as int);
            match self.rows[i].write_to(sink) {
                Ok(_) => {},
                Err(e) => {
                    return Err(e);
                },
            }
            proof {
                lemma_chunks_bytes_push(
                    dlxs_rows_model(taken),
                    dlxs_row_model(self.rows@[i as int]),
                );
                assert(dlxs_rows_model(taken).push(dlxs_row_model(self.rows@[i as int]))
                    =~= dlxs_rows_model(self.rows@.take(i + 1 as int)));
            }
            i = i + 1;
        }
        let sentinel_row = DlxsSolutionRow::sentinel();
        match sentinel_row.write_to(sink) {
            Ok(_) => {},
            Err(e) => {
                return Err(e);
            },
        }
        proof {
            assert(self.rows@.take(n as int) =~= self.rows@);
            assert(spec_dlxs_row_bytes(sentinel_row) == spec_chunk_bytes(
                0u32,
                Seq::<u32>::empty(),
            ));
            assert(final(sink).written() =~= old(sink).written() + spec_dlxs_packet_bytes(
                *self,
            ));
        }
        Ok(())
    }

    /// Parse a packet, or report a clean end of stream.
    ///
    /// `Ok(None)` means the stream held no byte at all. Otherwise the header
    /// is read and validated, then solution rows until the sentinel, which
    /// is consumed but excluded from the returned rows. There is no
    /// count-derived bound: only the sentinel, or a failure, ends the read.
    pub fn read_from<S: ByteSource>(source: &mut S) -> (r: Result<Option<DlxsPacket>, DlxError>)
        ensures
            match r {
                Ok(opt) => match opt {
                    Some(p) => {
                        &&& dlxs_packet_wf(p)
                        &&& spec_dlxs_packet_bytes(p).len() <= old(source).remaining().len()
                        &&& spec_dlxs_packet_bytes(p) == old(source).remaining().take(
                            spec_dlxs_packet_bytes(p).len() as int,
                        )
                        &&& final(source).remaining() == old(source).remaining().skip(
                            spec_dlxs_packet_bytes(p).len() as int,
                        )
                    },
                    None => {
                        &&& old(source).remaining().len() == 0
                        &&& final(source).remaining() == old(source).remaining()
                    },
                },
                Err(e) => match e {
                    DlxError::UnexpectedEof { .. } => {
                        ||| 0 < old(source).remaining().len() < 12
                        ||| {
                            &&& old(source).remaining().len() >= 12
                            &&& !spec_sentinel_region_complete(old(source).remaining().skip(12))
                        }
                    },
                    DlxError::InvalidMagic { found, expected } => {
                        &&& old(source).remaining().len() >= 12
                        &&& found == u32_of_be(old(source).remaining().subrange(0, 4))
                        &&& found != DLXS_MAGIC
                        &&& expected == DLXS_MAGIC
                    },
                    DlxError::UnsupportedVersion { found, expected } => {
                        &&& old(source).remaining().len() >= 12
                        &&& u32_of_be(old(source).remaining().subrange(0, 4)) == DLXS_MAGIC
                        &&& found == u16_of_be(old(source).remaining().subrange(4, 6))
                        &&& found != DLX_BINARY_VERSION
                        &&& expected == DLX_BINARY_VERSION
                    },
                    DlxError::Transport { .. } => true,
                    _ => false,
                },
            },
    {
        let ghost rem0 = source.remaining();
        let header = match DlxsHeader::read_from(source) {
            Ok(Some(h)) => h,
            Ok(None) => {
                return Ok(None);
            },
            Err(e) => {
                return Err(e);
            },
        };
        let ghost region0 = rem0.skip(12);
        let mut rows: Vec<DlxsSolutionRow> = Vec::new();
        proof {
            assert(spec_dlxs_rows_bytes(rows@) =~= region0.take(0));
            assert(dlxs_rows_model(rows@) =~= Seq::<ChunkModel>::empty());
        }
        loop
            invariant
                rem0 == old(source).remaining(),
                region0 == rem0.skip(12),
                rem0.len() >= 12,
                dlxs_header_valid(header),
                spec_dlxs_header_bytes(header) == rem0.take(12),
                dlxs_rows_encodable(rows@),
                forall|i: int| 0 <= i < rows@.len() ==> !dlxs_row_is_sentinel(
                    #[trigger] rows@[i],
                ),
                spec_dlxs_rows_bytes(rows@) == region0.take(
                    spec_dlxs_rows_bytes(rows@).len() as int,
                ),
                spec_dlxs_rows_bytes(rows@).len() <= region0.len(),
                source.remaining() == region0.skip(spec_dlxs_rows_bytes(rows@).len() as int),
                spec_sentinel_region_complete(region0) == spec_sentinel_region_complete(
                    source.remaining(),
                ),
            decreases source.remaining().len(),
        {
            let ghost here = source.remaining();
            let ghost done = spec_dlxs_rows_bytes(rows@).len() as int;
            let row = match DlxsSolutionRow::read_from(source) {
                Ok(row) => row,
                Err(e) => {
                    proof {
                        if e is UnexpectedEof {
                            assert(!spec_sentinel_region_complete(here));
                            assert(!spec_sentinel_region_complete(region0));
                        }
                    }
                    return Err(e);
                },
            };
            let ghost rowlen = spec_dlxs_row_bytes(row).len() as int;
            if row.is_sentinel() {
                let packet = DlxsPacket { header, rows };
                proof {
                    assert(row.indices@ =~= Seq::<u32>::empty());
                    assert(spec_dlxs_row_bytes(row) == spec_chunk_bytes(
                        0u32,
                        Seq::<u32>::empty(),
                    ));
                    let rb = spec_dlxs_rows_bytes(packet.rows@);
                    lemma_take_skip_concat(region0, done, rowlen);
                    assert(spec_sentinel_chunks_bytes(dlxs_rows_model(packet.rows@))
                        == region0.take(done) + here.take(rowlen));
                    assert(region0.skip(done) =~= here);
                    assert(spec_sentinel_chunks_bytes(dlxs_rows_model(packet.rows@))
                        == region0.take(done + rowlen));
                    lemma_take_skip_concat(rem0, 12, done + rowlen);
                    assert(spec_dlxs_packet_bytes(packet) =~= rem0.take(12 + done + rowlen));
                    assert(here.skip(rowlen) =~= region0.skip(done + rowlen));
                    assert(source.remaining() =~= rem0.skip(
                        spec_dlxs_packet_bytes(packet).len() as int,
                    ));
                }
                return Ok(Some(packet));
            }
            let ghost prev = rows@;
            rows.push(row);
            proof {
                lemma_chunks_bytes_push(dlxs_rows_model(prev), dlxs_row_model(row));
                assert(dlxs_rows_model(prev).push(dlxs_row_model(row)) =~= dlxs_rows_model(
                    rows@,
                ));
                assert(region0.skip(done) =~= here);
                lemma_take_skip_concat(region0, done, rowlen);
                assert(spec_dlxs_rows_bytes(rows@) == region0.take(done + rowlen));
                assert(here.skip(rowlen) =~= region0.skip(done + rowlen));
                lemma_sentinel_region_step(row.solution_id, row.indices@, here);
                assert forall|k: int| 0 <= k < rows@.len() implies !dlxs_row_is_sentinel(
                    #[trigger] rows@[k],
                ) by {
                    if k < prev.len() {
                        assert(rows@[k] == prev[k]);
                    }
                }
            }
        }
    }

    /// The exact number of bytes `write_to` would produce for this packet,
    /// including the sentinel row appended by the writer.
    pub fn encoded_len(&self) -> (n: usize)
        requires
            dlxs_rows_encodable(self.rows@),
            spec_dlxs_packet_bytes(*self).len() <= usize::MAX,
        ensures
            n == spec_dlxs_packet_bytes(*self).len(),
    {
        let ghost ms = dlxs_rows_model(self.rows@);
        let rows_len = self.rows.len();
        let mut total: usize = DLXS_HEADER_SIZE;
        let mut i: usize = 0;
        proof {
            assert(ms.take(0) =~= Seq::<ChunkModel>::empty());
            lemma_chunk_bytes_len(0u32, Seq::<u32>::empty());
        }
        while i < rows_len
            invariant
                i <= rows_len,
                rows_len == self.rows@.len(),
                ms == dlxs_rows_model(self.rows@),
                dlxs_rows_encodable(self.rows@),
                18 + spec_chunks_bytes(ms).len() <= usize::MAX,
                total == 12 + spec_chunks_bytes(ms.take(i as int)).len(),
            decreases rows_len - i,
        {
            proof {
                assert(ms.take(i + 1 as int) =~= ms.take(i as int).push(ms[i as int]));
                lemma_chunks_bytes_push(ms.take(i as int), ms[i as int]);
                lemma_chunks_bytes_split(ms, i + 1 as int);
                lemma_chunk_bytes_len(
                    self.rows@[i as int].solution_id,
                    self.rows@[i as int].indices@,
                );
                assert(ms[i as int] == dlxs_row_model(self.rows@[i as int]));
            }
            let entries = self.rows[i].indices.len();
            total = total + 6 + 4 * entries;
            i = i + 1;
        }
        proof {
            assert(ms.take(rows_len as int) =~= ms);
        }
        total + 6
    }

    /// Expand each decoded solution into the column indices it covers.
    ///
    /// Every referenced row identifier is looked up against the retained
    /// DLXB rows; the first row with a matching identifier contributes its
    /// column list, in order, and an identifier with no match contributes
    /// nothing at all. One flat column list is produced per solution.
    pub fn apply_to_rows(&self, cover_rows: &Vec<DlxbRowChunk>) -> (r: Vec<Vec<u32>>)
        ensures
            r@.len() == self.rows@.len(),
            forall|i: int|
                0 <= i < r@.len() ==> (#[trigger] r@[i])@ == spec_expand_solution(
                    self.rows@[i].indices@,
                    cover_rows@,
                ),
    {
        let n = self.rows.len();
        let mut solutions: Vec<Vec<u32>> = Vec::new();
        let mut i: usize = 0;
        while i < n
            invariant
                i <= n,
                n == self.rows@.len(),
                i == solutions@.len(),
                forall|k: int|
                    0 <= k < i ==> (#[trigger] solutions@[k])@ == spec_expand_solution(
                        self.rows@[k].indices@,
                        cover_rows@,
                    ),
            decreases n - i,
        {
            let expanded = expand_one(&self.rows[i].indices, cover_rows);
            solutions.push(expanded);
            i = i + 1;
        }
        solutions
    }
}

/// The column list of the first retained row whose identifier matches, or
/// the empty list when none does.
pub open spec fn spec_first_match(rows: Seq<DlxbRowChunk>, id: u32) -> Seq<u32>
    decreases rows.len(),
{
    if rows.len() == 0 {
        Seq::empty()
    } else if rows[0].row_id == id {
        rows[0].columns@
    } else {
        spec_first_match(rows.skip(1), id)
    }
}

/// The flat column coverage of one solution: the concatenation, in order,
/// of the column lists of the rows its identifiers select.
pub open spec fn spec_expand_solution(ids: Seq<u32>, rows: Seq<DlxbRowChunk>) -> Seq<u32>
    decreases ids.len(),
{
    if ids.len() == 0 {
        Seq::empty()
    } else {
        spec_first_match(rows, ids[0]) + spec_expand_solution(ids.skip(1), rows)
    }
}

/// A first match at index `j` pins `spec_first_match` to that row's columns.
proof fn lemma_first_match_found(rows: Seq<DlxbRowChunk>, id: u32, j: int)
    requires
        0 <= j < rows.len(),
        rows[j].row_id == id,
        forall|k: int| 0 <= k < j ==> (#[trigger] rows[k]).row_id != id,
    ensures
        spec_first_match(rows, id) == rows[j].columns@,
    decreases j,
{
    if j > 0 {
        assert(rows[0].row_id != id);
        assert(rows.skip(1)[j - 1] == rows[j]);
        assert forall|k: int| 0 <= k < j - 1 implies (#[trigger] rows.skip(1)[k]).row_id
            != id by {
            assert(rows.skip(1)[k] == rows[k + 1]);
        }
        lemma_first_match_found(rows.skip(1), id, j - 1);
    }
}

/// With no matching row, `spec_first_match` is empty.
proof fn lemma_first_match_none(rows: Seq<DlxbRowChunk>, id: u32)
    requires
        forall|k: int| 0 <= k < rows.len() ==> (#[trigger] rows[k]).row_id != id,
    ensures
        spec_first_match(rows, id) == Seq::<u32>::empty(),
    decreases rows.len(),
{
    if rows.len() > 0 {
        assert forall|k: int| 0 <= k < rows.skip(1).len() implies (#[trigger] rows.skip(
            1,
        )[k]).row_id != id by {
            assert(rows.skip(1)[k] == rows[k + 1]);
        }
        lemma_first_match_none(rows.skip(1), id);
    }
}

/// Expansion distributes over appending one identifier.
proof fn lemma_expand_push(ids: Seq<u32>, x: u32, rows: Seq<DlxbRowChunk>)
    ensures
        spec_expand_solution(ids.push(x), rows) == spec_expand_solution(ids, rows)
            + spec_first_match(rows, x),
    decreases ids.len(),
{
    if ids.len() == 0 {
        assert(ids.push(x)[0] == x);
        assert(ids.push(x).skip(1) =~= Seq::<u32>::empty());
        assert(spec_expand_solution(Seq::<u32>::empty(), rows) == Seq::<u32>::empty());
        assert(spec_expand_solution(ids.push(x), rows) == spec_first_match(rows, x)
            + spec_expand_solution(Seq::<u32>::empty(), rows));
        assert(spec_first_match(rows, x) + Seq::<u32>::empty() =~= spec_first_match(rows, x));
        assert(Seq::<u32>::empty() + spec_first_match(rows, x) =~= spec_first_match(rows, x));
        assert(ids =~= Seq::<u32>::empty());
    } else {
        assert(ids.push(x)[0] == ids[0]);
        assert(ids.push(x).skip(1) =~= ids.skip(1).push(x));
        lemma_expand_push(ids.skip(1), x, rows);
        assert(spec_first_match(rows, ids[0]) + (spec_expand_solution(ids.skip(1), rows)
            + spec_first_match(rows, x)) =~= (spec_first_match(rows, ids[0])
            + spec_expand_solution(ids.skip(1), rows)) + spec_first_match(rows, x));
    }
}

/// Find the first retained row carrying the given identifier.
fn find_row(rows: &Vec<DlxbRowChunk>, id: u32) -> (r: Option<usize>)
    ensures
        match r {
            Some(j) => {
                &&& j < rows@.len()
                &&& rows@[j as int].row_id == id
                &&& forall|k: int| 0 <= k < j ==> (#[trigger] rows@[k]).row_id != id
            },
            None => forall|k: int| 0 <= k < rows@.len() ==> (#[trigger] rows@[k]).row_id != id,
        },
{
    let n = rows.len();
    let mut j: usize = 0;
    while j < n
        invariant
            j <= n,
            n == rows@.len(),
            forall|k: int| 0 <= k < j ==> (#[trigger] rows@[k]).row_id != id,
        decreases n - j,
    {
        if rows[j].row_id == id {
            return Some(j);
        }
        j = j + 1;
    }
    None
}

/// Expand one solution's identifier list into its flat column coverage.
fn expand_one(ids: &Vec<u32>, cover_rows: &Vec<DlxbRowChunk>) -> (r: Vec<u32>)
    ensures
        r@ == spec_expand_solution(ids@, cover_rows@),
{
    let n = ids.len();
    let mut expanded: Vec<u32> = Vec::new();
    let mut k: usize = 0;
    proof {
        assert(ids@.take(0) =~= Seq::<u32>::empty());
    }
    while k < n
        invariant
            k <= n,
            n == ids@.len(),
            expanded@ == spec_expand_solution(ids@.take(k as int), cover_rows@),
        decreases n - k,
    {
        let ghost taken = ids@.take(k as int);
        let id = ids[k];
        match find_row(cover_rows, id) {
            Some(j) => {
                let cols_len = cover_rows[j].columns.len();
                let ghost cols = cover_rows@[j as int].columns@;
                let mut t: usize = 0;
                while t < cols_len
                    invariant
                        t <= cols_len,
                        j < cover_rows@.len(),
                        cols == cover_rows@[j as int].columns@,
                        cols_len == cols.len(),
                        expanded@ == spec_expand_solution(taken, cover_rows@) + cols.take(
                            t as int,
                        ),
                    decreases cols_len - t,
                {
                    expanded.push(cover_rows[j].columns[t]);
                    proof {
                        assert(spec_expand_solution(taken, cover_rows@) + cols.take(t as int)
                            + seq![cols[t as int]] =~= spec_expand_solution(taken, cover_rows@)
                            + cols.take(t + 1 as int));
                    }
                    t = t + 1;
                }
                proof {
                    lemma_first_match_found(cover_rows@, id, j as int);
                    lemma_expand_push(taken, id, cover_rows@);
                    assert(taken.push(id) =~= ids@.take(k + 1 as int));
                    assert(cols.take(cols_len as int) =~= cols);
                }
            },
            None => {
                proof {
                    lemma_first_match_none(cover_rows@, id);
                    lemma_expand_push(taken, id, cover_rows@);
                    assert(taken.push(id) =~= ids@.take(k + 1 as int));
                    assert(spec_expand_solution(taken, cover_rows@) + Seq::<u32>::empty()
                        =~= spec_expand_solution(taken, cover_rows@));
                }
            },
        }
        k = k + 1;
    }
    proof {
        assert(ids@.take(n as int) =~= ids@);
    }
    expanded
}

} // verus!
