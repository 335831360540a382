//! Abstract byte transports.
//!
//! The codecs are generic over a source and a sink of bytes, so the same
//! verified logic runs over a file, a pipe, or a socket. A source is modelled
//! by the sequence of bytes it will still deliver; a sink by the sequence of
//! bytes it has accepted so far. Reads may be fragmented arbitrarily and may
//! be interrupted transiently; both behaviours are part of the contract, so
//! every reader proved against it tolerates them.

use vstd::prelude::*;

use crate::errors::DlxError;

verus! {

/// One attempt to pull bytes from a source.
pub enum ReadStep {
    /// A non-empty prefix of the bytes still to come.
    Data(Vec<u8>),
    /// The source is exhausted: no byte was delivered and none will come.
    End,
    /// A transient interruption; the attempt should simply be repeated.
    Interrupted,
    /// The transport failed; the message describes the failure.
    Failed(String),
}

/// A blocking, in-order source of bytes.
///
/// `remaining` is the sequence of bytes the source will still deliver, in
/// order. `patience` bounds how many transient interruptions may still occur
/// before the next byte arrives, which is what lets retry loops terminate.
pub trait ByteSource {
    /// The bytes this source will still deliver.
    spec fn remaining(&self) -> Seq<u8>;

    /// An upper bound on the transient interruptions still to come.
    spec fn patience(&self) -> nat;

    /// Attempt to read up to `want` bytes.
    ///
    /// Delivered bytes are always a prefix of `remaining`; an `End` outcome
    /// means the source held no bytes at all, never that it merely stalled.
    fn read_some(&mut self, want: usize) -> (step: ReadStep)
        requires
            want >= 1,
        ensures
            match step {
                ReadStep::Data(chunk) => {
                    &&& 1 <= chunk@.len() <= want
                    &&& chunk@.len() <= old(self).remaining().len()
                    &&& chunk@ == old(self).remaining().take(chunk@.len() as int)
                    &&& final(self).remaining() == old(self).remaining().skip(chunk@.len() as int)
                },
                ReadStep::End => {
                    &&& old(self).remaining().len() == 0
                    &&& final(self).remaining() == old(self).remaining()
                },
                ReadStep::Interrupted => {
                    &&& final(self).remaining() == old(self).remaining()
                    &&& final(self).patience() < old(self).patience()
                },
                ReadStep::Failed(_) => true,
            },
    ;
}

/// A blocking, in-order sink of bytes.
pub trait ByteSink {
    /// The bytes this sink has accepted so far.
    spec fn written(&self) -> Seq<u8>;

    /// Append all of `data` to the sink, or fail with a transport error.
    fn write_all(&mut self, data: &Vec<u8>) -> (r: Result<(), DlxError>)
        ensures
            r is Ok ==> final(self).written() == old(self).written() + data@,
            r is Err ==> r->Err_0 is Transport,
    ;
}

/// An in-memory source backed by a byte vector.
///
/// Besides plain replay it can serve bytes in bounded slices and inject
/// transient interruptions, so tests exercise the fragmentation and retry
/// paths the trait permits.
pub struct MemSource {
    data: Vec<u8>,
    pos: usize,
    max_chunk: usize,
    hiccups: usize,
}

impl MemSource {
    /// The cursor never runs past the backing data.
    #[verifier::type_invariant]
    spec fn cursor_in_bounds(self) -> bool {
        self.pos <= self.data@.len()
    }

    /// A source that will deliver exactly `data`.
    pub fn new(data: Vec<u8>) -> (s: MemSource)
        ensures
            s.remaining() == data@,
    {
        MemSource { data, pos: 0, max_chunk: 0, hiccups: 0 }
    }

    /// A source that delivers `data` at most `max_chunk` bytes at a time
    /// (`0` meaning unbounded) after reporting `hiccups` transient
    /// interruptions.
    pub fn throttled(data: Vec<u8>, max_chunk: usize, hiccups: usize) -> (s: MemSource)
        ensures
            s.remaining() == data@,
    {
        MemSource { data, pos: 0, max_chunk, hiccups }
    }
}

impl ByteSource for MemSource {
    closed spec fn remaining(&self) -> Seq<u8> {
        self.data@.skip(self.pos as int)
    }

    closed spec fn patience(&self) -> nat {
        self.hiccups as nat
    }

    fn read_some(&mut self, want: usize) -> (step: ReadStep) {
        proof {
            use_type_invariant(&*self);
        }
        if self.hiccups > 0 {
            self.hiccups = self.hiccups - 1;
            return ReadStep::Interrupted;
        }
        if self.pos >= self.data.len() {
            proof {
                assert(self.remaining() =~= Seq::<u8>::empty());
            }
            return ReadStep::End;
        }
        let avail = self.data.len() - self.pos;
        let mut give = if want < avail {
            want
        } else {
            avail
        };
        if self.max_chunk > 0 && self.max_chunk < give {
            give = self.max_chunk;
        }
        let end = self.pos + give;
        let mut chunk: Vec<u8> = Vec::new();
        let mut j = self.pos;
        while j < end
            invariant
                self.pos <= j <= end,
                end <= self.data@.len(),
                chunk@.len() == j - self.pos,
                chunk@ == self.data@.subrange(self.pos as int, j as int),
            decreases end - j,
        {
            chunk.push(self.data[j]);
            proof {
                assert(chunk@ =~= self.data@.subrange(self.pos as int, j + 1 as int));
            }
            j = j + 1;
        }
        let ghost pre = *self;
        self.pos = end;
        proof {
            assert(chunk@ =~= pre.remaining().take(give as int));
            assert(self.remaining() =~= pre.remaining().skip(give as int));
        }
        ReadStep::Data(chunk)
    }
}

/// An in-memory sink that accumulates everything written to it.
pub struct MemSink {
    bytes: Vec<u8>,
}

impl MemSink {
    /// An empty sink.
    pub fn new() -> (s: MemSink)
        ensures
            s.written() == Seq::<u8>::empty(),
    {
        MemSink { bytes: Vec::new() }
    }

    /// Surrender the accumulated bytes.
    pub fn into_bytes(self) -> (r: Vec<u8>)
        ensures
            r@ == self.written(),
    {
        self.bytes
    }

    /// The number of bytes accepted so far.
    pub fn len(&self) -> (n: usize)
        ensures
            n == self.written().len(),
    {
        self.bytes.len()
    }
}

impl ByteSink for MemSink {
    closed spec fn written(&self) -> Seq<u8> {
        self.bytes@
    }

    fn write_all(&mut self, data: &Vec<u8>) -> (r: Result<(), DlxError>) {
        let mut i: usize = 0;
        while i < data.len()
            invariant
                i <= data@.len(),
                self.bytes@ == old(self).bytes@ + data@.take(i as int),
            decreases data@.len() - i,
        {
            self.bytes.push(data[i]);
            proof {
                assert(old(self).bytes@ + data@.take(i as int) + seq![data@[i as int]]
                    =~= old(self).bytes@ + data@.take(i + 1 as int));
            }
            i = i + 1;
        }
        proof {
            assert(data@.take(data@.len() as int) =~= data@);
        }
        Ok(())
    }
}

} // verus!
