use vstd::prelude::*;

pub mod hashers;
pub mod model;
pub mod source;
pub mod text;

use crate::hashers::Hasher;
use crate::model::{
    ceil_div, covered, dynamic_size_for, expected_chunks, fixed_size_for, lemma_ceil_div,
    lemma_ceil_div_parts, lemma_ceil_div_unique, padded,
};
pub use crate::source::ReadAndSeek;
use crate::source::{full_read_len, SourceError};
use crate::text::{decimal, decimal_text, hex_encode, hex_text};
use vstd::string::StringExecFns;
use std::marker::PhantomData;
use vstd::arithmetic::div_mod::lemma_fundamental_div_mod;
use vstd::arithmetic::mul::lemma_mul_inequality;

verus! {

/// Why a chunked hasher could not be built.
#[derive(Debug, Clone, Copy, PartialEq, Eq, Structural)]
pub enum ChunkError {
    /// The stream size or the sizing parameter is zero.
    InvalidArgument,
}

/// Splits a byte source into contiguous chunks and hashes each of them.
///
/// The chunk size is fixed at construction. Each step seeks to the start of
/// the next chunk, reads up to a chunk's worth of bytes into a zeroed buffer,
/// hashes the whole buffer with `H` and hands out a `Chunk`. Iteration ends
/// once the bytes read reach the stream size or `chunk_count` chunks were
/// handed out, and for good after a failed seek or read.
pub struct ChunkedHasher<R, H> {
    source: R,
    chunk_size: u64,
    next_chunk: u64,
    read_data: u64,
    stream_size: u64,
    failed: bool,
    _marker: PhantomData<H>,
}

impl<R: ReadAndSeek, H: Hasher> ChunkedHasher<R, H> {
    /// The chunk size fixed at construction.
    pub closed spec fn spec_chunk_size(&self) -> nat {
        self.chunk_size as nat
    }

    /// Index of the chunk the next step reads.
    pub closed spec fn spec_next_chunk(&self) -> nat {
        self.next_chunk as nat
    }

    /// Bytes read so far, saturating at `u64::MAX`.
    pub closed spec fn spec_read_data(&self) -> nat {
        self.read_data as nat
    }

    /// The stream size the caller declared.
    pub closed spec fn spec_stream_size(&self) -> nat {
        self.stream_size as nat
    }

    /// Whether a seek or read has failed.
    pub closed spec fn spec_failed(&self) -> bool {
        self.failed
    }

    /// The source being read.
    pub closed spec fn spec_source(&self) -> R {
        self.source
    }

    /// The chunk size is positive and no larger than the stream.
    pub open spec fn wf(&self) -> bool {
        0 < self.spec_chunk_size() <= self.spec_stream_size() <= u64::MAX
    }

    /// Nothing has been read yet.
    pub open spec fn fresh(&self) -> bool {
        &&& self.spec_next_chunk() == 0
        &&& self.spec_read_data() == 0
        &&& !self.spec_failed()
    }

    /// No chunk is left: all declared bytes were read, `chunk_count` chunks
    /// were handed out, or the source failed.
    pub open spec fn is_done(&self) -> bool {
        ||| self.spec_failed()
        ||| self.spec_read_data() >= self.spec_stream_size()
        ||| self.spec_next_chunk() >= ceil_div(self.spec_stream_size(), self.spec_chunk_size())
    }

    /// A chunk's buffer fits the address space.
    pub open spec fn can_step(&self) -> bool {
        self.spec_chunk_size() <= usize::MAX
    }

    /// What a step leaves alone: the sizes and the source's content.
    pub open spec fn keeps(&self, after: &Self) -> bool {
        &&& after.spec_chunk_size() == self.spec_chunk_size()
        &&& after.spec_stream_size() == self.spec_stream_size()
        &&& after.spec_source().modeled() == self.spec_source().modeled()
        &&& after.spec_source().content() == self.spec_source().content()
        &&& after.spec_source().dependable() == self.spec_source().dependable()
    }

    /// A step from `self` to `after` read chunk `c`: it sought to the chunk's
    /// start, read `c.size` bytes there into a zeroed buffer of a chunk's
    /// size, and hashed that whole buffer (which bytes those were, a modeled
    /// source tells).
    pub open spec fn produced(&self, after: &Self, c: Chunk) -> bool {
        let size = self.spec_chunk_size();
        let start = self.spec_next_chunk() * size;
        let content = self.spec_source().content();
        &&& !self.is_done()
        &&& c.index == self.spec_next_chunk()
        &&& c.size <= size
        &&& exists|b: Seq<u8>| b.len() == size && c.hash@ == #[trigger] H::spec_hash(b)
        &&& self.spec_source().modeled() ==> {
            &&& (c.size > 0 ==> start + c.size <= content.len())
            &&& c.hash@ == H::spec_hash(padded(content, start as int, c.size as int, size as int))
            &&& after.spec_source().position() == start + c.size
        }
        &&& after.spec_next_chunk() == self.spec_next_chunk() + 1
        &&& after.spec_read_data() == if self.spec_read_data() + c.size > u64::MAX {
            u64::MAX as nat
        } else {
            (self.spec_read_data() + c.size) as nat
        }
        &&& !after.spec_failed()
        &&& self.spec_source().modeled() && self.spec_source().dependable() ==> c.size == full_read_len(
            content,
            start as int,
            size as int,
        )
    }

    /// A hasher over `buffer` with chunks of `fixed_size` bytes, or of the
    /// whole stream where it is shorter. The last chunk holds the remainder.
    pub fn fixed_chunks(buffer: R, stream_size: u64, fixed_size: u64) -> (r: Result<
        Self,
        ChunkError,
    >)
        ensures
            r is Err <==> (stream_size == 0 || fixed_size == 0),
            r matches Ok(h) ==> {
                &&& h.wf()
                &&& h.fresh()
                &&& h.spec_chunk_size() == fixed_size_for(stream_size as nat, fixed_size as nat)
                &&& h.spec_stream_size() == stream_size
                &&& h.spec_source() == buffer
            },
    {
        if stream_size == 0 || fixed_size == 0 {
            return Err(ChunkError::InvalidArgument);
        }
        let chunk_size = if fixed_size <= stream_size {
            fixed_size
        } else {
            stream_size
        };
        Ok(ChunkedHasher {
            source: buffer,
            chunk_size,
            next_chunk: 0,
            read_data: 0,
            stream_size,
            failed: false,
            _marker: PhantomData,
        })
    }

    /// A hasher over `buffer` that aims at `dynamic_amount` chunks: the chunk
    /// size is the stream size divided by that amount, rounded down, so the
    /// remainder forms trailing shorter chunks instead of being spread out.
    /// With more chunks asked for than bytes, one chunk holds everything.
    pub fn dynamic_chunks(buffer: R, stream_size: u64, dynamic_amount: u64) -> (r: Result<
        Self,
        ChunkError,
    >)
        ensures
            r is Err <==> (stream_size == 0 || dynamic_amount == 0),
            r matches Ok(h) ==> {
                &&& h.wf()
                &&& h.fresh()
                &&& h.spec_chunk_size() == dynamic_size_for(
                    stream_size as nat,
                    dynamic_amount as nat,
                )
                &&& h.spec_stream_size() == stream_size
                &&& h.spec_source() == buffer
            },
    {
        if stream_size == 0 || dynamic_amount == 0 {
            return Err(ChunkError::InvalidArgument);
        }
        let chunk_size = if dynamic_amount <= stream_size {
            proof {
                lemma_fundamental_div_mod(stream_size as int, dynamic_amount as int);
                assert(stream_size / dynamic_amount >= 1) by (nonlinear_arith)
                    requires
                        dynamic_amount <= stream_size,
                        dynamic_amount > 0,
                ;
            }
            stream_size / dynamic_amount
        } else {
            stream_size
        };
        Ok(ChunkedHasher {
            source: buffer,
            chunk_size,
            next_chunk: 0,
            read_data: 0,
            stream_size,
            failed: false,
            _marker: PhantomData,
        })
    }

    /// Ends the pass and hands the source back.
    pub fn into_source(self) -> (r: R)
        ensures
            r == self.spec_source(),
    {
        self.source
    }

    /// Size of every chunk but possibly the last.
    pub fn chunk_size(&self) -> (r: u64)
        ensures
            r == self.spec_chunk_size(),
    {
        self.chunk_size
    }

    /// How many chunks a full pass yields: the stream size divided by the
    /// chunk size, rounded up.
    pub fn chunk_count(&self) -> (r: u64)
        requires
            self.wf(),
        ensures
            r == ceil_div(self.spec_stream_size(), self.spec_chunk_size()),
    {
        let q = self.stream_size / self.chunk_size;
        let rem = self.stream_size % self.chunk_size;
        proof {
            let l = self.stream_size as int;
            let s = self.chunk_size as int;
            lemma_ceil_div_parts(l as nat, s as nat);
            lemma_fundamental_div_mod(l, s);
            if rem != 0 {
                assert(q < l) by (nonlinear_arith)
                    requires
                        l == s * q + rem,
                        0 < rem < s,
                ;
            }
        }
        if rem != 0 {
            q + 1
        } else {
            q
        }
    }

    /// One step that tells failure apart from the end: `Ok(Some(c))` hands out
    /// the next chunk, `Ok(None)` says no chunk is left, `Err` says that the
    /// source failed, after which the hasher is done for good.
    pub fn try_next(&mut self) -> (r: Result<Option<Chunk>, SourceError>)
        requires
            old(self).wf(),
        ensures
            final(self).wf(),
            old(self).keeps(final(self)),
            old(self).is_done() ==> r is Ok && r->Ok_0 is None && *final(self) == *old(self),
            !old(self).is_done() ==> {
                &&& r matches Ok(Some(c)) ==> old(self).produced(final(self), c)
                &&& r matches Ok(None) ==> false
                &&& r is Err ==> final(self).spec_failed()
            },
            r matches Ok(Some(c)) ==> c.index < ceil_div(
                old(self).spec_stream_size(),
                old(self).spec_chunk_size(),
            ),
            !old(self).is_done() && !old(self).can_step() ==> r is Err && r->Err_0
                == SourceError::TooLarge,
            !old(self).is_done() && old(self).can_step() && r is Err ==> r->Err_0
                != SourceError::TooLarge,
            !old(self).is_done() && old(self).can_step() && old(self).spec_source().modeled()
                && old(self).spec_source().dependable() ==> r is Ok,
    {
        if self.failed || self.read_data >= self.stream_size || self.next_chunk
            >= self.chunk_count() {
            return Ok(None);
        }
        proof {
            let count = ceil_div(self.stream_size as nat, self.chunk_size as nat);
            lemma_ceil_div(self.stream_size as nat, self.chunk_size as nat);
            lemma_mul_inequality(self.next_chunk as int, count - 1, self.chunk_size as int);
        }
        let start = self.next_chunk * self.chunk_size;
        if self.chunk_size as u128 > usize::MAX as u128 {
            self.failed = true;
            return Err(SourceError::TooLarge);
        }
        match self.source.seek_start(start) {
            Ok(_) => {},
            Err(_) => {
                self.failed = true;
                return Err(SourceError::Seek);
            },
        }
        self.next_chunk = self.next_chunk + 1;
        let mut buf: Vec<u8> = vec![0u8; self.chunk_size as usize];
        let ghost zeroed = buf@;
        proof {
            assert forall|i: int| 0 <= i < zeroed.len() implies zeroed[i] == 0u8 by {
                assert(cloned(0u8, zeroed[i]));
            }
        }
        match self.source.read_into(&mut buf) {
            Ok(n) => {
                let size = n as u64;
                self.read_data = self.read_data.saturating_add(size);
                proof {
                    if self.source.modeled() {
                        let content = self.source.content();
                        let want = self.chunk_size as int;
                        if n > 0 {
                            assert(buf@.subrange(0, n as int) == content.subrange(
                                start as int,
                                start + n,
                            ));
                        }
                        assert(buf@.subrange(n as int, want) == zeroed.subrange(n as int, want));
                        assert(buf@ =~= padded(content, start as int, n as int, want)) by {
                            assert forall|i: int| 0 <= i < want implies buf@[i] == padded(
                                content,
                                start as int,
                                n as int,
                                want,
                            )[i] by {
                                if i < n {
                                    assert(buf@[i] == buf@.subrange(0, n as int)[i]);
                                    assert(buf@[i] == content.subrange(start as int, start + n)[i]);
                                } else {
                                    assert(buf@[i] == buf@.subrange(n as int, want)[i - n]);
                                }
                            }
                        }
                    }
                }
                let hash = H::hash_bytes(buf.as_slice());
                proof {
                    assert(buf@.len() == self.chunk_size && hash@ == H::spec_hash(buf@));
                }
                Ok(Some(Chunk { index: self.next_chunk - 1, size, hash }))
            },
            Err(_) => {
                self.failed = true;
                Err(SourceError::Read)
            },
        }
    }

    /// The next chunk, or `None` once no chunk is left or the source failed:
    /// a failure ends the sequence like its end does (`try_next` tells the two
    /// apart).
    pub fn next(&mut self) -> (r: Option<Chunk>)
        requires
            old(self).wf(),
        ensures
            final(self).wf(),
            old(self).keeps(final(self)),
            old(self).is_done() ==> r is None && *final(self) == *old(self),
            !old(self).is_done() ==> {
                &&& r matches Some(c) ==> old(self).produced(final(self), c)
                &&& r is None ==> final(self).spec_failed()
            },
            r matches Some(c) ==> c.index < ceil_div(
                old(self).spec_stream_size(),
                old(self).spec_chunk_size(),
            ),
            !old(self).is_done() && old(self).can_step() && old(self).spec_source().modeled()
                && old(self).spec_source().dependable() ==> r is Some,
    {
        match self.try_next() {
            Ok(c) => c,
            Err(_) => None,
        }
    }

    /// Runs the hasher to its end and returns the chunks it handed out.
    ///
    /// Their indices count on densely from where the hasher stood. For a fresh
    /// hasher over a modeled, dependable source that holds exactly the declared number
    /// of bytes, the chunks are exactly `expected_chunks`.
    pub fn collect_chunks(&mut self) -> (r: Vec<Chunk>)
        requires
            old(self).wf(),
        ensures
            final(self).wf(),
            old(self).keeps(final(self)),
            final(self).is_done(),
            forall|i: int| 0 <= i < r.len() ==> r[i].index == old(self).spec_next_chunk() + i,
            old(self).fresh() && old(self).spec_source().modeled()
                && old(self).spec_source().dependable() && old(self).spec_source().content().len() == old(self).spec_stream_size()
                && old(self).spec_chunk_size() <= usize::MAX ==> r@.map_values(|c: Chunk| c@)
                == expected_chunks::<H>(old(self).spec_source().content(), old(self).spec_chunk_size()),
    {
        let ghost first = *self;
        let ghost content = self.spec_source().content();
        let ghost size = self.spec_chunk_size();
        let ghost len = self.spec_stream_size();
        let ghost good = first.fresh() && first.spec_source().modeled()
            && first.spec_source().dependable() && content.len() == len
            && size <= usize::MAX;
        let ghost expected = expected_chunks::<H>(content, size);
        let mut out: Vec<Chunk> = Vec::new();
        loop
            invariant_except_break
                first.spec_next_chunk() <= self.spec_next_chunk(),
                out.len() == self.spec_next_chunk() - first.spec_next_chunk(),
            invariant
                expected == expected_chunks::<H>(content, size),
                good == (first.fresh() && first.spec_source().modeled()
                    && first.spec_source().dependable() && content.len() == len
                    && size <= usize::MAX),
                content == first.spec_source().content(),
                size == first.spec_chunk_size(),
                len == first.spec_stream_size(),
                self.wf(),
                first.keeps(self),
                self.spec_chunk_size() == size,
                self.spec_stream_size() == len,
                self.spec_source().content() == content,
                forall|i: int|
                    0 <= i < out.len() ==> out[i].index == first.spec_next_chunk() + i,
                good ==> {
                    &&& !self.spec_failed()
                    &&& first.spec_next_chunk() == 0
                    &&& out.len() == self.spec_next_chunk()
                    &&& self.spec_next_chunk() <= ceil_div(len, size)
                    &&& self.spec_read_data() == covered(len, size, self.spec_next_chunk())
                    &&& (self.spec_next_chunk() == 0 || (self.spec_next_chunk() - 1) * size < len)
                    &&& forall|i: int| 0 <= i < out.len() ==> out[i]@ == expected[i]
                },
            ensures
                self.is_done(),
            decreases u64::MAX - self.spec_next_chunk(),
        {
            let ghost before = *self;
            proof {
                if good && !before.is_done() {
                    let i = before.spec_next_chunk();
                    lemma_mul_inequality(1, size as int, i as int);
                    assert(i * size < len);
                    lemma_ceil_div(len, size);
                    if i >= ceil_div(len, size) {
                        lemma_mul_inequality(ceil_div(len, size) as int, i as int, size as int);
                    }
                    assert(expected.len() == ceil_div(len, size));
                    assert(i < expected.len());
                }
            }
            match self.next() {
                Some(c) => {
                    proof {
                        if good {
                            let i = before.spec_next_chunk();
                            assert(c.hash@ =~= expected[i as int].2);
                            assert(i * size + size == (i + 1) * size) by (nonlinear_arith);
                            assert(c@ == expected[i as int]);
                        }
                    }
                    out.push(c);
                },
                None => {
                    break;
                },
            }
        }
        proof {
            if good && self.spec_next_chunk() < ceil_div(len, size) {
                lemma_ceil_div_unique(len, size, self.spec_next_chunk());
            }
            if good {
                assert(out@.map_values(|c: Chunk| c@) =~= expected);
            }
        }
        out
    }
}

/// One chunk of a stream: where it stands, how many bytes were read into it,
/// and the digest of its buffer.
#[derive(Debug)]
pub struct Chunk {
    /// Position of the chunk in the stream, counted from zero.
    pub index: u64,
    /// Number of bytes read into the chunk.
    pub size: u64,
    /// Digest of the chunk's buffer.
    pub hash: Vec<u8>,
}

impl View for Chunk {
    type V = (nat, nat, Seq<u8>);

    open spec fn view(&self) -> (nat, nat, Seq<u8>) {
        (self.index as nat, self.size as nat, self.hash@)
    }
}

impl Chunk {
    /// The chunk as text: `index/size/digest`, the digest in lowercase hex.
    pub fn to_string(&self) -> (r: String)
        ensures
            r@ == decimal_text(self.index as nat) + seq!['/'] + decimal_text(self.size as nat)
                + seq!['/'] + hex_text(self.hash@),
    {
        let mut text = decimal(self.index);
        let size = decimal(self.size);
        let digest = hex_encode(self.hash.as_slice());
        proof {
            reveal_strlit("/");
        }
        text.append("/");
        text.append(size.as_str());
        text.append("/");
        text.append(digest.as_str());
        text
    }
}

/// Whether two byte vectors hold the same bytes.
fn same_bytes(a: &Vec<u8>, b: &Vec<u8>) -> (r: bool)
    ensures
        r == (a@ == b@),
{
    if a.len() != b.len() {
        return false;
    }
    let mut i: usize = 0;
    while i < a.len()
        invariant
            a@.len() == b@.len(),
            i <= a@.len(),
            forall|j: int| 0 <= j < i ==> a@[j] == b@[j],
        decreases a@.len() - i,
    {
        if a[i] != b[i] {
            return false;
        }
        i = i + 1;
    }
    assert(a@ =~= b@);
    true
}

impl PartialEq for Chunk {
    fn eq(&self, other: &Chunk) -> (r: bool) {
        self.index == other.index && self.size == other.size && same_bytes(&self.hash, &other.hash)
    }
}

impl vstd::std_specs::cmp::PartialEqSpecImpl for Chunk {
    open spec fn obeys_eq_spec() -> bool {
        true
    }

    open spec fn eq_spec(&self, other: &Chunk) -> bool {
        self@ == other@
    }
}

} // verus!
