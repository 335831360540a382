//! The row-chunk frame shared by both protocols.
//!
//! A DLXB row and a DLXS solution row have the same wire shape: a 32-bit
//! identifier, a 16-bit entry count, then that many 32-bit entries. This
//! module defines the chunk encoding once, proves it prefix-deterministic
//! (two chunks that encode to prefixes of the same stream are the same
//! chunk), and provides the verified reader and writer both protocols call.

use vstd::prelude::*;

use crate::errors::DlxError;
use crate::frame::{
    be16, be32, lemma_be16_round_trip, lemma_be32_round_trip, lemma_take_skip_concat, read_u16,
    read_u32, u16_of_be, u32_of_be, write_u16, write_u32,
};
use crate::stream::{ByteSink, ByteSource};

verus! {

/// The most entries one chunk can carry: its count field is 16 bits wide.
pub const MAX_CHUNK_ENTRIES: usize = 0xFFFF;

/// A chunk reduced to what the wire carries: its identifier and its entries.
pub type ChunkModel = (u32, Seq<u32>);

/// The concatenated big-endian encodings of a list of 32-bit entries.
pub open spec fn spec_entries_bytes(xs: Seq<u32>) -> Seq<u8>
    decreases xs.len(),
{
    if xs.len() == 0 {
        Seq::empty()
    } else {
        be32(xs[0]) + spec_entries_bytes(xs.skip(1))
    }
}

/// The encoding of one chunk: identifier, entry count, entries.
pub open spec fn spec_chunk_bytes(id: u32, xs: Seq<u32>) -> Seq<u8> {
    be32(id) + be16(xs.len() as u16) + spec_entries_bytes(xs)
}

/// Whether a chunk's entry list fits the 16-bit count field.
pub open spec fn chunk_encodable(xs: Seq<u32>) -> bool {
    xs.len() <= MAX_CHUNK_ENTRIES
}

/// The entry count a stream beginning with a chunk declares.
pub open spec fn spec_chunk_entry_count(s: Seq<u8>) -> int
    recommends
        s.len() >= 6,
{
    u16_of_be(s.subrange(4, 6)) as int
}

/// Whether a stream holds one complete chunk at its start.
pub open spec fn spec_chunk_complete(s: Seq<u8>) -> bool {
    s.len() >= 6 && s.len() >= 6 + 4 * spec_chunk_entry_count(s)
}

/// Entry encodings occupy four bytes each.
pub proof fn lemma_entries_bytes_len(xs: Seq<u32>)
    ensures
        spec_entries_bytes(xs).len() == 4 * xs.len(),
    decreases xs.len(),
{
    if xs.len() != 0 {
        lemma_entries_bytes_len(xs.skip(1));
    }
}

/// Entry encoding distributes over concatenation.
pub proof fn lemma_entries_bytes_concat(a: Seq<u32>, b: Seq<u32>)
    ensures
        spec_entries_bytes(a + b) == spec_entries_bytes(a) + spec_entries_bytes(b),
    decreases a.len(),
{
    if a.len() == 0 {
        assert(a + b =~= b);
        assert(spec_entries_bytes(a) + spec_entries_bytes(b) =~= spec_entries_bytes(b));
    } else {
        assert((a + b).skip(1) =~= a.skip(1) + b);
        lemma_entries_bytes_concat(a.skip(1), b);
        assert(be32((a + b)[0]) + (spec_entries_bytes(a.skip(1)) + spec_entries_bytes(b))
            =~= (be32(a[0]) + spec_entries_bytes(a.skip(1))) + spec_entries_bytes(b));
    }
}

/// Appending one entry appends its four bytes.
pub proof fn lemma_entries_bytes_push(xs: Seq<u32>, x: u32)
    ensures
        spec_entries_bytes(xs.push(x)) == spec_entries_bytes(xs) + be32(x),
{
    assert(xs.push(x) =~= xs + seq![x]);
    lemma_entries_bytes_concat(xs, seq![x]);
    assert(seq![x].skip(1) =~= Seq::<u32>::empty());
    assert(spec_entries_bytes(Seq::<u32>::empty()) =~= Seq::<u8>::empty());
    assert(spec_entries_bytes(seq![x]) =~= be32(x));
}

/// A chunk's encoding is its six-byte head plus four bytes per entry.
pub proof fn lemma_chunk_bytes_len(id: u32, xs: Seq<u32>)
    ensures
        spec_chunk_bytes(id, xs).len() == 6 + 4 * xs.len(),
{
    lemma_entries_bytes_len(xs);
}

/// Equal-length entry lists that encode to prefixes of one stream are equal.
pub proof fn lemma_entries_prefix_unique(a: Seq<u32>, b: Seq<u32>, s: Seq<u8>)
    requires
        a.len() == b.len(),
        spec_entries_bytes(a) == s.take(4 * a.len() as int),
        spec_entries_bytes(b) == s.take(4 * b.len() as int),
        4 * a.len() <= s.len(),
    ensures
        a == b,
    decreases a.len(),
{
    lemma_entries_bytes_len(a);
    lemma_entries_bytes_len(b);
    if a.len() == 0 {
        assert(a =~= b);
    } else {
        lemma_entries_bytes_len(a.skip(1));
        lemma_entries_bytes_len(b.skip(1));
        assert(be32(a[0]) =~= spec_entries_bytes(a).take(4));
        assert(be32(b[0]) =~= spec_entries_bytes(b).take(4));
        assert(spec_entries_bytes(a).take(4) =~= s.take(4));
        assert(spec_entries_bytes(b).take(4) =~= s.take(4));
        lemma_be32_round_trip(a[0]);
        lemma_be32_round_trip(b[0]);
        assert(a[0] == u32_of_be(be32(a[0])) && b[0] == u32_of_be(be32(b[0])));
        assert(a[0] == b[0]);
        let t = s.skip(4);
        assert(spec_entries_bytes(a.skip(1)) =~= spec_entries_bytes(a).skip(4));
        assert(spec_entries_bytes(b.skip(1)) =~= spec_entries_bytes(b).skip(4));
        assert(s.take(4 * a.len() as int).skip(4) =~= t.take(4 * a.skip(1).len() as int));
        assert(s.take(4 * b.len() as int).skip(4) =~= t.take(4 * b.skip(1).len() as int));
        lemma_entries_prefix_unique(a.skip(1), b.skip(1), t);
        assert forall|k: int| 0 <= k < a.len() implies a[k] == b[k] by {
            if k > 0 {
                assert(a[k] == a.skip(1)[k - 1]);
                assert(b[k] == b.skip(1)[k - 1]);
            }
        }
        assert(a =~= b);
    }
}

/// A chunk encoding standing at the head of a stream fixes the stream's
/// declared entry count, and the stream holds the whole chunk.
pub proof fn lemma_chunk_prefix_shape(id: u32, xs: Seq<u32>, s: Seq<u8>)
    requires
        chunk_encodable(xs),
        spec_chunk_bytes(id, xs).len() <= s.len(),
        spec_chunk_bytes(id, xs) == s.take(spec_chunk_bytes(id, xs).len() as int),
    ensures
        spec_chunk_complete(s),
        spec_chunk_entry_count(s) == xs.len(),
        id == u32_of_be(s.subrange(0, 4)),
    decreases xs.len(),
{
    lemma_chunk_bytes_len(id, xs);
    let e = spec_chunk_bytes(id, xs);
    assert(s.subrange(0, 4) =~= e.take(4));
    assert(e.take(4) =~= be32(id));
    lemma_be32_round_trip(id);
    assert(s.subrange(4, 6) =~= e.subrange(4, 6));
    assert(e.subrange(4, 6) =~= be16(xs.len() as u16));
    lemma_be16_round_trip(xs.len() as u16);
    assert(u16_of_be(s.subrange(4, 6)) == xs.len() as u16);
}

/// Two chunks that encode to prefixes of the same stream are the same chunk.
///
/// This is what makes decoding deterministic: the reader's result is the
/// unique chunk whose encoding heads the stream.
pub proof fn lemma_chunk_prefix_unique(
    id1: u32,
    xs1: Seq<u32>,
    id2: u32,
    xs2: Seq<u32>,
    s: Seq<u8>,
)
    requires
        chunk_encodable(xs1),
        chunk_encodable(xs2),
        spec_chunk_bytes(id1, xs1).len() <= s.len(),
        spec_chunk_bytes(id1, xs1) == s.take(spec_chunk_bytes(id1, xs1).len() as int),
        spec_chunk_bytes(id2, xs2).len() <= s.len(),
        spec_chunk_bytes(id2, xs2) == s.take(spec_chunk_bytes(id2, xs2).len() as int),
    ensures
        id1 == id2,
        xs1 == xs2,
{
    lemma_chunk_prefix_shape(id1, xs1, s);
    lemma_chunk_prefix_shape(id2, xs2, s);
    assert(xs1.len() == xs2.len());
    lemma_chunk_bytes_len(id1, xs1);
    lemma_chunk_bytes_len(id2, xs2);
    assert(id1 == id2);
    let t = s.skip(6);
    let e1 = spec_chunk_bytes(id1, xs1);
    let e2 = spec_chunk_bytes(id2, xs2);
    lemma_entries_bytes_len(xs1);
    lemma_entries_bytes_len(xs2);
    assert(spec_entries_bytes(xs1) =~= e1.skip(6));
    assert(spec_entries_bytes(xs2) =~= e2.skip(6));
    assert(spec_entries_bytes(xs1) =~= t.take(4 * xs1.len() as int));
    assert(spec_entries_bytes(xs2) =~= t.take(4 * xs2.len() as int));
    lemma_entries_prefix_unique(xs1, xs2, t);
}

/// Write one chunk: identifier, entry count, entries.
///
/// The entry count is checked before any byte is written, so an oversized
/// chunk fails without emitting anything.
pub fn write_chunk<W: ByteSink>(sink: &mut W, id: u32, xs: &Vec<u32>) -> (r: Result<
    (),
    DlxError,
>)
    ensures
        match r {
            Ok(_) => {
                &&& chunk_encodable(xs@)
                &&& final(sink).written() == old(sink).written() + spec_chunk_bytes(id, xs@)
            },
            Err(e) => match e {
                DlxError::TooManyEntries { count } => {
                    &&& count == xs@.len()
                    &&& xs@.len() > MAX_CHUNK_ENTRIES
                    &&& final(sink).written() == old(sink).written()
                },
                DlxError::Transport { .. } => chunk_encodable(xs@),
                _ => false,
            },
        },
{
    let n = xs.len();
    if n > MAX_CHUNK_ENTRIES {
        return Err(DlxError::TooManyEntries { count: n });
    }
    let count: u16 = n as u16;
    match write_u32(sink, id) {
        Ok(_) => {},
        Err(e) => {
            return Err(e);
        },
    }
    match write_u16(sink, count) {
        Ok(_) => {},
        Err(e) => {
            return Err(e);
        },
    }
    let ghost head = old(sink).written() + be32(id) + be16(count);
    let mut i: usize = 0;
    while i < n
        invariant
            i <= n,
            n == xs@.len(),
            n <= MAX_CHUNK_ENTRIES,
            count == n as u16,
            sink.written() == head + spec_entries_bytes(xs@.take(i as int)),
        decreases n - i,
    {
        let ghost before = sink.written();
        match write_u32(sink, xs[i]) {
            Ok(_) => {},
            Err(e) => {
                return Err(e);
            },
        }
        proof {
            lemma_entries_bytes_push(xs@.take(i as int), xs@[i as int]);
            assert(xs@.take(i as int).push(xs@[i as int]) =~= xs@.take(i + 1 as int));
        }
        i = i + 1;
    }
    proof {
        assert(xs@.take(n as int) =~= xs@);
        assert(head + spec_entries_bytes(xs@) =~= old(sink).written() + spec_chunk_bytes(
            id,
            xs@,
        ));
    }
    Ok(())
}

/// Read one chunk: identifier, entry count, then that many entries.
///
/// On success the returned chunk's encoding is exactly the prefix of the
/// stream that was consumed. Truncation is reported only when the stream
/// really holds less than one complete chunk.
pub fn read_chunk<S: ByteSource>(source: &mut S) -> (r: Result<(u32, Vec<u32>), DlxError>)
    ensures
        match r {
            Ok((id, xs)) => {
                &&& chunk_encodable(xs@)
                &&& spec_chunk_bytes(id, xs@).len() <= old(source).remaining().len()
                &&& spec_chunk_bytes(id, xs@) == old(source).remaining().take(
                    spec_chunk_bytes(id, xs@).len() as int,
                )
                &&& final(source).remaining() == old(source).remaining().skip(
                    spec_chunk_bytes(id, xs@).len() as int,
                )
            },
            Err(e) => match e {
                DlxError::UnexpectedEof { .. } => !spec_chunk_complete(
                    old(source).remaining(),
                ),
                DlxError::Transport { .. } => true,
                _ => false,
            },
        },
{
    let ghost rem0 = source.remaining();
    let id = match read_u32(source) {
        Ok(v) => v,
        Err(e) => {
            return Err(e);
        },
    };
    let count = match read_u16(source) {
        Ok(v) => v,
        Err(e) => {
            return Err(e);
        },
    };
    proof {
        assert(rem0.skip(4).take(2) =~= rem0.subrange(4, 6));
        lemma_be16_round_trip(count);
        assert(count == u16_of_be(rem0.subrange(4, 6)));
        assert(rem0.skip(4).skip(2) =~= rem0.skip(6));
    }
    let n = count as usize;
    let mut xs: Vec<u32> = Vec::new();
    let mut i: usize = 0;
    proof {
        assert(spec_entries_bytes(xs@) =~= rem0.skip(6).take(0));
    }
    while i < n
        invariant
            rem0 == old(source).remaining(),
            i <= n,
            i == xs@.len(),
            n == spec_chunk_entry_count(rem0),
            rem0.len() >= 6 + 4 * i,
            spec_entries_bytes(xs@) == rem0.skip(6).take(4 * i as int),
            source.remaining() == rem0.skip(6 + 4 * i as int),
        decreases n - i,
    {
        let ghost rem_here = source.remaining();
        let x = match read_u32(source) {
            Ok(v) => v,
            Err(e) => {
                proof {
                    if e is UnexpectedEof {
                        assert(rem0.skip(6 + 4 * i as int).len() < 4);
                        assert(rem0.len() < 6 + 4 * (i + 1));
                        assert(!spec_chunk_complete(rem0));
                    }
                }
                return Err(e);
            },
        };
        let ghost prev = xs@;
        xs.push(x);
        proof {
            lemma_entries_bytes_push(prev, x);
            assert(xs@ == prev.push(x));
            assert(rem0.skip(6).skip(4 * i as int) =~= rem_here);
            lemma_take_skip_concat(rem0.skip(6), 4 * i as int, 4);
            assert(spec_entries_bytes(xs@) == rem0.skip(6).take(4 * i as int) + rem_here.take(
                4,
            ));
            assert(spec_entries_bytes(xs@) == rem0.skip(6).take(4 * (i + 1) as int));
            assert(rem_here.skip(4) =~= rem0.skip(6 + 4 * (i + 1) as int));
        }
        i = i + 1;
    }
    proof {
        let e = spec_chunk_bytes(id, xs@);
        lemma_chunk_bytes_len(id, xs@);
        assert(xs@.len() == n);
        assert(be32(id) =~= rem0.take(4));
        assert(be16(xs@.len() as u16) =~= rem0.skip(4).take(2));
        lemma_take_skip_concat(rem0, 4, 2);
        assert(rem0.take(4) + rem0.skip(4).take(2) =~= rem0.take(6));
        lemma_take_skip_concat(rem0, 6, 4 * n as int);
        assert(e =~= rem0.take(6 + 4 * n as int));
        assert(source.remaining() =~= rem0.skip(e.len() as int));
    }
    Ok((id, xs))
}

/// Whether a chunk is indistinguishable from the sentinel.
pub open spec fn chunk_model_is_sentinel(m: ChunkModel) -> bool {
    m.0 == 0 && m.1.len() == 0
}

/// Whether every chunk of a list fits the 16-bit count field.
pub open spec fn chunks_encodable(ms: Seq<ChunkModel>) -> bool {
    forall|i: int| 0 <= i < ms.len() ==> chunk_encodable((#[trigger] ms[i]).1)
}

/// Whether no chunk of a list is the sentinel.
pub open spec fn no_sentinel(ms: Seq<ChunkModel>) -> bool {
    forall|i: int| 0 <= i < ms.len() ==> !chunk_model_is_sentinel(#[trigger] ms[i])
}

/// The concatenated encodings of a list of chunks.
pub open spec fn spec_chunks_bytes(ms: Seq<ChunkModel>) -> Seq<u8>
    decreases ms.len(),
{
    if ms.len() == 0 {
        Seq::empty()
    } else {
        spec_chunk_bytes(ms[0].0, ms[0].1) + spec_chunks_bytes(ms.skip(1))
    }
}

/// The encodings of a list of chunks followed by the sentinel chunk.
pub open spec fn spec_sentinel_chunks_bytes(ms: Seq<ChunkModel>) -> Seq<u8> {
    spec_chunks_bytes(ms) + spec_chunk_bytes(0u32, Seq::<u32>::empty())
}

/// Whether a stream holds `n` complete chunks at its start.
pub open spec fn spec_chunks_region_complete(s: Seq<u8>, n: nat) -> bool
    decreases n,
{
    if n == 0 {
        true
    } else if !spec_chunk_complete(s) {
        false
    } else {
        spec_chunks_region_complete(
            s.skip(6 + 4 * spec_chunk_entry_count(s)),
            (n - 1) as nat,
        )
    }
}

/// Whether a stream holds complete chunks at its start up to and including
/// a sentinel chunk.
pub open spec fn spec_sentinel_region_complete(s: Seq<u8>) -> bool
    decreases s.len(),
{
    if !spec_chunk_complete(s) {
        false
    } else if u32_of_be(s.subrange(0, 4)) == 0 && spec_chunk_entry_count(s) == 0 {
        true
    } else {
        spec_sentinel_region_complete(s.skip(6 + 4 * spec_chunk_entry_count(s)))
    }
}

/// Chunk-list encoding distributes over concatenation.
pub proof fn lemma_chunks_bytes_concat(a: Seq<ChunkModel>, b: Seq<ChunkModel>)
    ensures
        spec_chunks_bytes(a + b) == spec_chunks_bytes(a) + spec_chunks_bytes(b),
    decreases a.len(),
{
    if a.len() == 0 {
        assert(a + b =~= b);
        assert(spec_chunks_bytes(a) + spec_chunks_bytes(b) =~= spec_chunks_bytes(b));
    } else {
        assert((a + b).skip(1) =~= a.skip(1) + b);
        lemma_chunks_bytes_concat(a.skip(1), b);
        assert(spec_chunk_bytes((a + b)[0].0, (a + b)[0].1) + (spec_chunks_bytes(a.skip(1))
            + spec_chunks_bytes(b)) =~= (spec_chunk_bytes(a[0].0, a[0].1)
            + spec_chunks_bytes(a.skip(1))) + spec_chunks_bytes(b));
    }
}

/// Appending one chunk appends its encoding.
pub proof fn lemma_chunks_bytes_push(ms: Seq<ChunkModel>, m: ChunkModel)
    ensures
        spec_chunks_bytes(ms.push(m)) == spec_chunks_bytes(ms) + spec_chunk_bytes(m.0, m.1),
{
    assert(ms.push(m) =~= ms + seq![m]);
    lemma_chunks_bytes_concat(ms, seq![m]);
    assert(seq![m].skip(1) =~= Seq::<ChunkModel>::empty());
    assert(spec_chunks_bytes(Seq::<ChunkModel>::empty()) =~= Seq::<u8>::empty());
    assert(spec_chunks_bytes(seq![m]) =~= spec_chunk_bytes(m.0, m.1));
}

/// Chunk-list encoding splits at any index.
pub proof fn lemma_chunks_bytes_split(ms: Seq<ChunkModel>, i: int)
    requires
        0 <= i <= ms.len(),
    ensures
        spec_chunks_bytes(ms) == spec_chunks_bytes(ms.take(i)) + spec_chunks_bytes(ms.skip(i)),
{
    assert(ms =~= ms.take(i) + ms.skip(i));
    lemma_chunks_bytes_concat(ms.take(i), ms.skip(i));
}


/// Consuming the chunk at the head of a counted region leaves a counted
/// region one chunk shorter.
pub proof fn lemma_chunks_region_step(id: u32, xs: Seq<u32>, s: Seq<u8>, n: nat)
    requires
        n > 0,
        chunk_encodable(xs),
        spec_chunk_bytes(id, xs).len() <= s.len(),
        spec_chunk_bytes(id, xs) == s.take(spec_chunk_bytes(id, xs).len() as int),
    ensures
        spec_chunks_region_complete(s, n) == spec_chunks_region_complete(
            s.skip(spec_chunk_bytes(id, xs).len() as int),
            (n - 1) as nat,
        ),
{
    lemma_chunk_prefix_shape(id, xs, s);
    lemma_chunk_bytes_len(id, xs);
}

/// Consuming a non-sentinel chunk at the head of a sentinel-terminated
/// region leaves a sentinel-terminated region.
pub proof fn lemma_sentinel_region_step(id: u32, xs: Seq<u32>, s: Seq<u8>)
    requires
        chunk_encodable(xs),
        !(id == 0 && xs.len() == 0),
        spec_chunk_bytes(id, xs).len() <= s.len(),
        spec_chunk_bytes(id, xs) == s.take(spec_chunk_bytes(id, xs).len() as int),
    ensures
        spec_sentinel_region_complete(s) == spec_sentinel_region_complete(
            s.skip(spec_chunk_bytes(id, xs).len() as int),
        ),
{
    lemma_chunk_prefix_shape(id, xs, s);
    lemma_chunk_bytes_len(id, xs);
    lemma_be32_round_trip(id);
    assert(u32_of_be(s.subrange(0, 4)) == id);
}

/// A sentinel chunk at the head completes a sentinel-terminated region.
pub proof fn lemma_sentinel_region_done(s: Seq<u8>)
    requires
        spec_chunk_bytes(0u32, Seq::<u32>::empty()).len() <= s.len(),
        spec_chunk_bytes(0u32, Seq::<u32>::empty()) == s.take(
            spec_chunk_bytes(0u32, Seq::<u32>::empty()).len() as int,
        ),
    ensures
        spec_sentinel_region_complete(s),
{
    lemma_chunk_prefix_shape(0u32, Seq::<u32>::empty(), s);
    lemma_be32_round_trip(0u32);
}


/// A stream headed by the encodings of `n` encodable chunks holds `n`
/// complete chunks.
pub proof fn lemma_chunks_region_of_prefix(ms: Seq<ChunkModel>, s: Seq<u8>)
    requires
        chunks_encodable(ms),
        spec_chunks_bytes(ms).len() <= s.len(),
        spec_chunks_bytes(ms) == s.take(spec_chunks_bytes(ms).len() as int),
    ensures
        spec_chunks_region_complete(s, ms.len()),
    decreases ms.len(),
{
    if ms.len() > 0 {
        let h = spec_chunk_bytes(ms[0].0, ms[0].1);
        let t = spec_chunks_bytes(ms.skip(1));
        assert(spec_chunks_bytes(ms) == h + t);
        assert(h =~= s.take(h.len() as int));
        let rest = s.skip(h.len() as int);
        assert(t =~= (h + t).skip(h.len() as int));
        assert(s.take((h + t).len() as int).skip(h.len() as int) =~= rest.take(t.len() as int));
        lemma_chunks_region_of_prefix(ms.skip(1), rest);
        lemma_chunks_region_step(ms[0].0, ms[0].1, s, ms.len());
    }
}

/// A stream headed by the encodings of encodable, non-sentinel chunks and
/// then the sentinel holds a complete sentinel-terminated region.
pub proof fn lemma_sentinel_region_of_prefix(ms: Seq<ChunkModel>, s: Seq<u8>)
    requires
        chunks_encodable(ms),
        no_sentinel(ms),
        spec_sentinel_chunks_bytes(ms).len() <= s.len(),
        spec_sentinel_chunks_bytes(ms) == s.take(spec_sentinel_chunks_bytes(ms).len() as int),
    ensures
        spec_sentinel_region_complete(s),
    decreases ms.len(),
{
    let sent = spec_chunk_bytes(0u32, Seq::<u32>::empty());
    if ms.len() == 0 {
        assert(spec_sentinel_chunks_bytes(ms) =~= sent);
        assert(sent =~= s.take(sent.len() as int));
        lemma_sentinel_region_done(s);
    } else {
        let h = spec_chunk_bytes(ms[0].0, ms[0].1);
        let t = spec_chunks_bytes(ms.skip(1));
        assert(spec_chunks_bytes(ms) == h + t);
        assert(spec_sentinel_chunks_bytes(ms) =~= h + (t + sent));
        assert(spec_sentinel_chunks_bytes(ms.skip(1)) == t + sent);
        assert(h =~= s.take(h.len() as int));
        let rest = s.skip(h.len() as int);
        assert(t + sent =~= (h + (t + sent)).skip(h.len() as int));
        assert(s.take((h + (t + sent)).len() as int).skip(h.len() as int) =~= rest.take(
            (t + sent).len() as int,
        ));
        lemma_sentinel_region_of_prefix(ms.skip(1), rest);
        assert(!chunk_model_is_sentinel(ms[0]));
        lemma_sentinel_region_step(ms[0].0, ms[0].1, s);
    }
}

/// Equally many chunks encoded as prefixes of one stream are the same chunks.
pub proof fn lemma_chunks_prefix_unique(
    ms1: Seq<ChunkModel>,
    ms2: Seq<ChunkModel>,
    s: Seq<u8>,
)
    requires
        ms1.len() == ms2.len(),
        chunks_encodable(ms1),
        chunks_encodable(ms2),
        spec_chunks_bytes(ms1).len() <= s.len(),
        spec_chunks_bytes(ms1) == s.take(spec_chunks_bytes(ms1).len() as int),
        spec_chunks_bytes(ms2).len() <= s.len(),
        spec_chunks_bytes(ms2) == s.take(spec_chunks_bytes(ms2).len() as int),
    ensures
        ms1 == ms2,
    decreases ms1.len(),
{
    if ms1.len() == 0 {
        assert(ms1 =~= ms2);
    } else {
        let h1 = spec_chunk_bytes(ms1[0].0, ms1[0].1);
        let h2 = spec_chunk_bytes(ms2[0].0, ms2[0].1);
        let t1 = spec_chunks_bytes(ms1.skip(1));
        let t2 = spec_chunks_bytes(ms2.skip(1));
        assert(h1 =~= s.take(h1.len() as int));
        assert(h2 =~= s.take(h2.len() as int));
        lemma_chunk_prefix_unique(ms1[0].0, ms1[0].1, ms2[0].0, ms2[0].1, s);
        assert(ms1[0] == ms2[0]);
        assert(h1 == h2);
        let rest = s.skip(h1.len() as int);
        assert(spec_chunks_bytes(ms1) == h1 + t1);
        assert(spec_chunks_bytes(ms2) == h2 + t2);
        assert(t1 =~= (h1 + t1).skip(h1.len() as int));
        assert(t2 =~= (h2 + t2).skip(h2.len() as int));
        assert(s.take((h1 + t1).len() as int).skip(h1.len() as int) =~= rest.take(
            t1.len() as int,
        ));
        assert(s.take((h2 + t2).len() as int).skip(h2.len() as int) =~= rest.take(
            t2.len() as int,
        ));
        lemma_chunks_prefix_unique(ms1.skip(1), ms2.skip(1), rest);
        assert forall|k: int| 0 <= k < ms1.len() implies ms1[k] == ms2[k] by {
            if k > 0 {
                assert(ms1[k] == ms1.skip(1)[k - 1]);
                assert(ms2[k] == ms2.skip(1)[k - 1]);
            }
        }
        assert(ms1 =~= ms2);
    }
}

/// Sentinel-terminated chunk lists encoded as prefixes of one stream are
/// the same lists: the sentinel marks the end unambiguously because no
/// genuine chunk may equal it.
pub proof fn lemma_sentinel_chunks_prefix_unique(
    ms1: Seq<ChunkModel>,
    ms2: Seq<ChunkModel>,
    s: Seq<u8>,
)
    requires
        chunks_encodable(ms1),
        chunks_encodable(ms2),
        no_sentinel(ms1),
        no_sentinel(ms2),
        spec_sentinel_chunks_bytes(ms1).len() <= s.len(),
        spec_sentinel_chunks_bytes(ms1) == s.take(spec_sentinel_chunks_bytes(ms1).len() as int),
        spec_sentinel_chunks_bytes(ms2).len() <= s.len(),
        spec_sentinel_chunks_bytes(ms2) == s.take(spec_sentinel_chunks_bytes(ms2).len() as int),
    ensures
        ms1 == ms2,
    decreases ms1.len(),
{
    let sent = spec_chunk_bytes(0u32, Seq::<u32>::empty());
    if ms1.len() == 0 && ms2.len() == 0 {
        assert(ms1 =~= ms2);
    } else if ms1.len() == 0 {
        assert(spec_sentinel_chunks_bytes(ms1) =~= sent);
        assert(sent =~= s.take(sent.len() as int));
        let h2 = spec_chunk_bytes(ms2[0].0, ms2[0].1);
        assert(h2 =~= s.take(h2.len() as int));
        lemma_chunk_prefix_unique(0u32, Seq::<u32>::empty(), ms2[0].0, ms2[0].1, s);
        assert(chunk_model_is_sentinel(ms2[0]));
        assert(false);
    } else if ms2.len() == 0 {
        assert(spec_sentinel_chunks_bytes(ms2) =~= sent);
        assert(sent =~= s.take(sent.len() as int));
        let h1 = spec_chunk_bytes(ms1[0].0, ms1[0].1);
        assert(h1 =~= s.take(h1.len() as int));
        lemma_chunk_prefix_unique(0u32, Seq::<u32>::empty(), ms1[0].0, ms1[0].1, s);
        assert(chunk_model_is_sentinel(ms1[0]));
        assert(false);
    } else {
        let h1 = spec_chunk_bytes(ms1[0].0, ms1[0].1);
        let h2 = spec_chunk_bytes(ms2[0].0, ms2[0].1);
        assert(h1 =~= s.take(h1.len() as int));
        assert(h2 =~= s.take(h2.len() as int));
        lemma_chunk_prefix_unique(ms1[0].0, ms1[0].1, ms2[0].0, ms2[0].1, s);
        assert(ms1[0] == ms2[0]);
        assert(h1 == h2);
        let rest = s.skip(h1.len() as int);
        let t1 = spec_chunks_bytes(ms1.skip(1));
        let t2 = spec_chunks_bytes(ms2.skip(1));
        assert(spec_chunks_bytes(ms1) == h1 + t1);
        assert(spec_chunks_bytes(ms2) == h2 + t2);
        assert(spec_sentinel_chunks_bytes(ms1) =~= h1 + (t1 + sent));
        assert(spec_sentinel_chunks_bytes(ms2) =~= h2 + (t2 + sent));
        assert(spec_sentinel_chunks_bytes(ms1.skip(1)) == t1 + sent);
        assert(spec_sentinel_chunks_bytes(ms2.skip(1)) == t2 + sent);
        assert(t1 + sent =~= (h1 + (t1 + sent)).skip(h1.len() as int));
        assert(t2 + sent =~= (h2 + (t2 + sent)).skip(h2.len() as int));
        assert(s.take((h1 + (t1 + sent)).len() as int).skip(h1.len() as int) =~= rest.take(
            (t1 + sent).len() as int,
        ));
        assert(s.take((h2 + (t2 + sent)).len() as int).skip(h2.len() as int) =~= rest.take(
            (t2 + sent).len() as int,
        ));
        lemma_sentinel_chunks_prefix_unique(ms1.skip(1), ms2.skip(1), rest);
        assert forall|k: int| 0 <= k < ms1.len() implies ms1[k] == ms2[k] by {
            if k > 0 {
                assert(ms1[k] == ms1.skip(1)[k - 1]);
                assert(ms2[k] == ms2.skip(1)[k - 1]);
            }
        }
        assert(ms1 =~= ms2);
    }
}


} // verus!
