use vstd::prelude::*;

verus! {

/// Why an operation on a byte source did not succeed.
#[derive(Debug, Clone, Copy, PartialEq, Eq, Structural)]
pub enum SourceError {
    /// Positioning the source failed.
    Seek,
    /// Reading from the source failed.
    Read,
    /// A chunk's buffer would not fit the address space.
    TooLarge,
}

/// How many bytes a read of `want` bytes at `pos` gets from `content` when
/// the source hands over everything it can.
pub open spec fn full_read_len(content: Seq<u8>, pos: int, want: int) -> int {
    if pos >= content.len() {
        0
    } else if want <= content.len() - pos {
        want
    } else {
        content.len() - pos
    }
}

/// A successful read of `n` bytes at `pos` turned `before` into `after`: the
/// first `n` bytes of the buffer hold the content from `pos` on, the rest is
/// left as it was.
pub open spec fn read_fills(
    content: Seq<u8>,
    pos: int,
    before: Seq<u8>,
    after: Seq<u8>,
    n: int,
) -> bool {
    &&& 0 <= n <= before.len()
    &&& after.len() == before.len()
    &&& (n > 0 ==> 0 <= pos && pos + n <= content.len() && after.subrange(0, n) == content.subrange(
        pos,
        pos + n,
    ))
    &&& after.subrange(n, after.len() as int) == before.subrange(n, before.len() as int)
}

/// A byte source with random access: it can be positioned at an absolute
/// offset and read into a buffer from there.
///
/// A source that is `modeled` states what it holds (`content`) and where the
/// next read starts (`position`), and each read then says which bytes it
/// placed. A read may hand over fewer bytes than asked for. A modeled source
/// that is also `dependable` never fails and always hands over as much as it
/// holds. A source that is not modeled promises only that a read keeps the
/// buffer's length and reports no more bytes than fit in it.
pub trait ReadAndSeek {
    closed spec fn modeled(&self) -> bool {
        false
    }

    closed spec fn content(&self) -> Seq<u8> {
        Seq::empty()
    }

    closed spec fn position(&self) -> int {
        0
    }

    closed spec fn dependable(&self) -> bool {
        false
    }

    /// Moves to the absolute offset `pos`, and returns it.
    fn seek_start(&mut self, pos: u64) -> (r: Result<u64, SourceError>)
        ensures
            final(self).modeled() == old(self).modeled(),
            final(self).content() == old(self).content(),
            final(self).dependable() == old(self).dependable(),
            old(self).modeled() && old(self).dependable() ==> r is Ok,
            old(self).modeled() && r is Ok ==> r->Ok_0 == pos && final(self).position() == pos,
    ;

    /// Reads into the front of `buf`, whose length stays, and returns how
    /// many bytes were placed.
    fn read_into(&mut self, buf: &mut Vec<u8>) -> (r: Result<usize, SourceError>)
        ensures
            final(self).modeled() == old(self).modeled(),
            final(self).content() == old(self).content(),
            final(self).dependable() == old(self).dependable(),
            final(buf)@.len() == old(buf)@.len(),
            r is Ok ==> r->Ok_0 <= old(buf)@.len(),
            old(self).modeled() && r is Ok ==> read_fills(
                old(self).content(),
                old(self).position(),
                old(buf)@,
                final(buf)@,
                r->Ok_0 as int,
            ) && final(self).position() == old(self).position() + r->Ok_0,
            old(self).modeled() && old(self).dependable() ==> r is Ok && r->Ok_0
                == full_read_len(old(self).content(), old(self).position(), old(buf)@.len() as int),
    ;
}

/// A byte source held in memory.
pub struct MemorySource {
    data: Vec<u8>,
    pos: u64,
}

impl MemorySource {
    /// A source over `data`, positioned at its start.
    pub fn new(data: Vec<u8>) -> (r: MemorySource)
        ensures
            r.modeled(),
            r.dependable(),
            r.content() == data@,
            r.position() == 0,
    {
        MemorySource { data, pos: 0 }
    }

    /// Number of bytes the source holds.
    pub fn len(&self) -> (r: usize)
        ensures
            r == self.content().len(),
    {
        self.data.len()
    }
}

impl ReadAndSeek for MemorySource {
    closed spec fn modeled(&self) -> bool {
        true
    }

    closed spec fn content(&self) -> Seq<u8> {
        self.data@
    }

    closed spec fn position(&self) -> int {
        self.pos as int
    }

    closed spec fn dependable(&self) -> bool {
        true
    }

    fn seek_start(&mut self, pos: u64) -> (r: Result<u64, SourceError>) {
        self.pos = pos;
        Ok(pos)
    }

    fn read_into(&mut self, buf: &mut Vec<u8>) -> (r: Result<usize, SourceError>) {
        let len = self.data.len();
        if self.pos as u128 >= len as u128 {
            assert(buf@.subrange(0, buf@.len() as int) =~= buf@);
            return Ok(0);
        }
        let start = self.pos as usize;
        let n: usize = if buf.len() <= len - start {
            buf.len()
        } else {
            len - start
        };
        let ghost before = buf@;
        let mut k: usize = 0;
        while k < n
            invariant
                start < len == self.data@.len(),
                n <= before.len(),
                start + n <= len,
                k <= n,
                buf@.len() == before.len(),
                forall|i: int| 0 <= i < k ==> buf@[i] == self.data@[start + i],
                forall|i: int| k <= i < before.len() ==> buf@[i] == before[i],
            decreases n - k,
        {
            buf.set(k, self.data[start + k]);
            k = k + 1;
        }
        assert(buf@.subrange(0, n as int) =~= self.data@.subrange(start as int, start + n));
        assert(buf@.subrange(n as int, buf@.len() as int) =~= before.subrange(
            n as int,
            before.len() as int,
        ));
        self.pos = self.pos + n as u64;
        Ok(n)
    }
}

} // verus!
