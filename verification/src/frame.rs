//! Frame codec primitives: big-endian integers over a byte stream.
//!
//! All wire integers are big-endian. The reading primitives tolerate
//! arbitrary fragmentation and transient interruptions, and they distinguish
//! a clean end of stream (no byte available at the very start of a read)
//! from truncation (the stream died after a read had begun).

use vstd::prelude::*;

use crate::errors::DlxError;
use crate::stream::{ByteSink, ByteSource, ReadStep};

verus! {

/// The big-endian encoding of a 16-bit integer.
pub open spec fn be16(x: u16) -> Seq<u8> {
    seq![((x >> 8) & 0xff) as u8, (x & 0xff) as u8]
}

/// The big-endian encoding of a 32-bit integer.
pub open spec fn be32(x: u32) -> Seq<u8> {
    seq![
        ((x >> 24) & 0xff) as u8,
        ((x >> 16) & 0xff) as u8,
        ((x >> 8) & 0xff) as u8,
        (x & 0xff) as u8,
    ]
}

/// The 16-bit integer denoted by two big-endian bytes.
pub open spec fn u16_of_be(s: Seq<u8>) -> u16
    recommends
        s.len() == 2,
{
    (s[0] as u16) << 8 | (s[1] as u16)
}

/// The 32-bit integer denoted by four big-endian bytes.
pub open spec fn u32_of_be(s: Seq<u8>) -> u32
    recommends
        s.len() == 4,
{
    (s[0] as u32) << 24 | (s[1] as u32) << 16 | (s[2] as u32) << 8 | (s[3] as u32)
}

/// Decoding inverts encoding for 16-bit integers.
pub proof fn lemma_be16_round_trip(x: u16)
    ensures
        u16_of_be(be16(x)) == x,
{
    let s = be16(x);
    let b0 = s[0];
    let b1 = s[1];
    assert(b0 == ((x >> 8) & 0xff) as u8 && b1 == (x & 0xff) as u8);
    assert((((((x >> 8) & 0xff) as u8) as u16) << 8 | (((x & 0xff) as u8) as u16)) == x)
        by (bit_vector);
}

/// Encoding inverts decoding for any two bytes.
pub proof fn lemma_be16_inverse(s: Seq<u8>)
    requires
        s.len() == 2,
    ensures
        be16(u16_of_be(s)) == s,
{
    let b0 = s[0];
    let b1 = s[1];
    let x = u16_of_be(s);
    assert(x == (b0 as u16) << 8 | (b1 as u16));
    assert({
        let y = (b0 as u16) << 8 | (b1 as u16);
        ((y >> 8) & 0xff) as u8 == b0 && (y & 0xff) as u8 == b1
    }) by (bit_vector);
    assert(be16(x) =~= s);
}

/// Decoding inverts encoding for 32-bit integers.
pub proof fn lemma_be32_round_trip(x: u32)
    ensures
        u32_of_be(be32(x)) == x,
{
    assert(((((x >> 24) & 0xff) as u8) as u32) << 24
        | ((((x >> 16) & 0xff) as u8) as u32) << 16
        | ((((x >> 8) & 0xff) as u8) as u32) << 8
        | (((x & 0xff) as u8) as u32) == x) by (bit_vector);
}

/// Encoding inverts decoding for any four bytes.
pub proof fn lemma_be32_inverse(s: Seq<u8>)
    requires
        s.len() == 4,
    ensures
        be32(u32_of_be(s)) == s,
{
    let b0 = s[0];
    let b1 = s[1];
    let b2 = s[2];
    let b3 = s[3];
    let x = u32_of_be(s);
    assert(x == (b0 as u32) << 24 | (b1 as u32) << 16 | (b2 as u32) << 8 | (b3 as u32));
    assert({
        let y = (b0 as u32) << 24 | (b1 as u32) << 16 | (b2 as u32) << 8 | (b3 as u32);
        &&& ((y >> 24) & 0xff) as u8 == b0
        &&& ((y >> 16) & 0xff) as u8 == b1
        &&& ((y >> 8) & 0xff) as u8 == b2
        &&& (y & 0xff) as u8 == b3
    }) by (bit_vector);
    assert(be32(x) =~= s);
}

/// A prefix of a sequence followed by a prefix of the rest is a longer
/// prefix of the whole.
pub proof fn lemma_take_skip_concat(s: Seq<u8>, a: int, b: int)
    requires
        0 <= a,
        0 <= b,
        a + b <= s.len(),
    ensures
        s.take(a) + s.skip(a).take(b) == s.take(a + b),
{
    assert(s.take(a) + s.skip(a).take(b) =~= s.take(a + b));
}

/// The big-endian bytes of a 16-bit integer, as a vector.
pub fn u16_to_be(x: u16) -> (r: Vec<u8>)
    ensures
        r@ == be16(x),
{
    let mut v: Vec<u8> = Vec::new();
    v.push(((x >> 8) & 0xff) as u8);
    v.push((x & 0xff) as u8);
    proof {
        assert(v@ =~= be16(x));
    }
    v
}

/// The big-endian bytes of a 32-bit integer, as a vector.
pub fn u32_to_be(x: u32) -> (r: Vec<u8>)
    ensures
        r@ == be32(x),
{
    let mut v: Vec<u8> = Vec::new();
    v.push(((x >> 24) & 0xff) as u8);
    v.push(((x >> 16) & 0xff) as u8);
    v.push(((x >> 8) & 0xff) as u8);
    v.push((x & 0xff) as u8);
    proof {
        assert(v@ =~= be32(x));
    }
    v
}

/// Read the 16-bit integer stored big-endian at `off` in `buf`.
pub fn u16_from_be(buf: &Vec<u8>, off: usize) -> (x: u16)
    requires
        off + 2 <= buf@.len(),
    ensures
        x == u16_of_be(buf@.subrange(off as int, off + 2 as int)),
{
    let len = buf.len();
    let hi = buf[off] as u16;
    let lo = buf[off + 1] as u16;
    let x = hi << 8u16 | lo;
    proof {
        let s = buf@.subrange(off as int, off + 2 as int);
        assert(s[0] == buf@[off as int] && s[1] == buf@[off + 1 as int]);
    }
    x
}

/// Read the 32-bit integer stored big-endian at `off` in `buf`.
pub fn u32_from_be(buf: &Vec<u8>, off: usize) -> (x: u32)
    requires
        off + 4 <= buf@.len(),
    ensures
        x == u32_of_be(buf@.subrange(off as int, off + 4 as int)),
{
    let len = buf.len();
    let b0 = buf[off] as u32;
    let b1 = buf[off + 1] as u32;
    let b2 = buf[off + 2] as u32;
    let b3 = buf[off + 3] as u32;
    let x = b0 << 24u32 | b1 << 16u32 | b2 << 8u32 | b3;
    proof {
        let s = buf@.subrange(off as int, off + 4 as int);
        assert(s[0] == buf@[off as int] && s[1] == buf@[off + 1 as int] && s[2] == buf@[off
            + 2 as int] && s[3] == buf@[off + 3 as int]);
    }
    x
}

/// Read exactly `n` bytes, or report a clean end of stream.
///
/// `Ok(None)` is returned only when the stream held no byte at all; a stream
/// that dies after delivering at least one byte of the request is truncation
/// and yields `UnexpectedEof`. Transient interruptions are retried here and
/// are invisible to callers.
pub fn read_exact_or_none<S: ByteSource>(source: &mut S, n: usize) -> (r: Result<
    Option<Vec<u8>>,
    DlxError,
>)
    ensures
        match r {
            Ok(opt) => match opt {
                Some(buf) => {
                    &&& buf@.len() == n
                    &&& n <= old(source).remaining().len()
                    &&& buf@ == old(source).remaining().take(n as int)
                    &&& final(source).remaining() == old(source).remaining().skip(n as int)
                },
                None => {
                    &&& n > 0
                    &&& old(source).remaining().len() == 0
                    &&& final(source).remaining() == old(source).remaining()
                },
            },
            Err(e) => match e {
                DlxError::UnexpectedEof { needed, read } => {
                    &&& needed == n
                    &&& read == old(source).remaining().len()
                    &&& 0 < old(source).remaining().len() < n
                },
                DlxError::Transport { .. } => true,
                _ => false,
            },
        },
{
    let mut out: Vec<u8> = Vec::new();
    while out.len() < n
        invariant
            out@.len() <= n,
            out@.len() <= old(source).remaining().len(),
            out@ == old(source).remaining().take(out@.len() as int),
            source.remaining() == old(source).remaining().skip(out@.len() as int),
        decreases source.remaining().len(), source.patience(),
    {
        let want = n - out.len();
        match source.read_some(want) {
            ReadStep::Data(chunk) => {
                let ghost rem_before = source.remaining();
                let ghost got = out@.len() as int;
                let ghost step = chunk@.len() as int;
                let mut chunk = chunk;
                out.append(&mut chunk);
                proof {
                    lemma_take_skip_concat(old(source).remaining(), got, step);
                    vstd::seq_lib::lemma_seq_skip_of_skip(
                        old(source).remaining(),
                        got,
                        step,
                    );
                }
            },
            ReadStep::End => {
                if out.len() == 0 {
                    return Ok(None);
                }
                proof {
                    assert(old(source).remaining().skip(out@.len() as int).len() == 0);
                }
                return Err(DlxError::UnexpectedEof { needed: n, read: out.len() });
            },
            ReadStep::Interrupted => {},
            ReadStep::Failed(message) => {
                return Err(DlxError::Transport { message });
            },
        }
    }
    proof {
        assert(out@.len() == n);
    }
    Ok(Some(out))
}

/// Read exactly `n` bytes; any shortfall, even at the very start, is
/// truncation.
pub fn read_exact_required<S: ByteSource>(source: &mut S, n: usize) -> (r: Result<
    Vec<u8>,
    DlxError,
>)
    ensures
        match r {
            Ok(buf) => {
                &&& buf@.len() == n
                &&& n <= old(source).remaining().len()
                &&& buf@ == old(source).remaining().take(n as int)
                &&& final(source).remaining() == old(source).remaining().skip(n as int)
            },
            Err(e) => match e {
                DlxError::UnexpectedEof { needed, read } => {
                    &&& needed == n
                    &&& read == old(source).remaining().len()
                    &&& old(source).remaining().len() < n
                },
                DlxError::Transport { .. } => true,
                _ => false,
            },
        },
{
    match read_exact_or_none(source, n) {
        Ok(Some(buf)) => Ok(buf),
        Ok(None) => Err(DlxError::UnexpectedEof { needed: n, read: 0 }),
        Err(e) => Err(e),
    }
}

/// Write a 16-bit integer in big-endian order.
pub fn write_u16<W: ByteSink>(sink: &mut W, x: u16) -> (r: Result<(), DlxError>)
    ensures
        r is Ok ==> final(sink).written() == old(sink).written() + be16(x),
        r is Err ==> r->Err_0 is Transport,
{
    let bytes = u16_to_be(x);
    sink.write_all(&bytes)
}

/// Write a 32-bit integer in big-endian order.
pub fn write_u32<W: ByteSink>(sink: &mut W, x: u32) -> (r: Result<(), DlxError>)
    ensures
        r is Ok ==> final(sink).written() == old(sink).written() + be32(x),
        r is Err ==> r->Err_0 is Transport,
{
    let bytes = u32_to_be(x);
    sink.write_all(&bytes)
}

/// Read a big-endian 32-bit integer.
pub fn read_u32<S: ByteSource>(source: &mut S) -> (r: Result<u32, DlxError>)
    ensures
        match r {
            Ok(x) => {
                &&& 4 <= old(source).remaining().len()
                &&& be32(x) == old(source).remaining().take(4)
                &&& x == u32_of_be(old(source).remaining().take(4))
                &&& final(source).remaining() == old(source).remaining().skip(4)
            },
            Err(e) => match e {
                DlxError::UnexpectedEof { needed, read } => {
                    &&& needed == 4
                    &&& read == old(source).remaining().len()
                    &&& old(source).remaining().len() < 4
                },
                DlxError::Transport { .. } => true,
                _ => false,
            },
        },
{
    let buf = match read_exact_required(source, 4) {
        Ok(buf) => buf,
        Err(e) => {
            return Err(e);
        },
    };
    let x = u32_from_be(&buf, 0);
    proof {
        assert(buf@.subrange(0, 4) =~= buf@);
        lemma_be32_inverse(buf@);
    }
    Ok(x)
}

/// Read a big-endian 16-bit integer.
pub fn read_u16<S: ByteSource>(source: &mut S) -> (r: Result<u16, DlxError>)
    ensures
        match r {
            Ok(x) => {
                &&& 2 <= old(source).remaining().len()
                &&& be16(x) == old(source).remaining().take(2)
                &&& x == u16_of_be(old(source).remaining().take(2))
                &&& final(source).remaining() == old(source).remaining().skip(2)
            },
            Err(e) => match e {
                DlxError::UnexpectedEof { needed, read } => {
                    &&& needed == 2
                    &&& read == old(source).remaining().len()
                    &&& old(source).remaining().len() < 2
                },
                DlxError::Transport { .. } => true,
                _ => false,
            },
        },
{
    let buf = match read_exact_required(source, 2) {
        Ok(buf) => buf,
        Err(e) => {
            return Err(e);
        },
    };
    let x = u16_from_be(&buf, 0);
    proof {
        assert(buf@.subrange(0, 2) =~= buf@);
        lemma_be16_inverse(buf@);
    }
    Ok(x)
}

} // verus!
