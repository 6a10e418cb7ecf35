//! A fixed-size re-chunker for byte streams.
//!
//! Bytes are buffered until a full chunk of the configured size is
//! available, which is then handed back; the remainder stays buffered.

use vstd::prelude::*;

verus! {

/// Buffers incoming bytes and deals them out in fixed-size chunks.
pub struct FileStream {
    /// The size of the chunks handed back.
    pub chunk_size: usize,
    /// Bytes received and not yet handed back.
    pub buffer: Vec<u8>,
    /// A cursor for the caller's own bookkeeping; never moved here.
    pub position: usize,
}

impl FileStream {
    /// A fresh, empty re-chunker.
    pub fn new(chunk_size: usize) -> (r: FileStream)
        ensures
            r.chunk_size == chunk_size,
            r.buffer@ == Seq::<u8>::empty(),
            r.position == 0,
    {
        FileStream { chunk_size, buffer: Vec::new(), position: 0 }
    }

    /// Appends `data` to the buffer; when at least one full chunk is
    /// buffered, removes and returns the first `chunk_size` bytes,
    /// else returns nothing.
    pub fn process_chunk(&mut self, data: &[u8]) -> (r: Vec<u8>)
        requires
            old(self).buffer@.len() + data@.len() <= usize::MAX,
        ensures
            final(self).chunk_size == old(self).chunk_size,
            final(self).position == old(self).position,
            old(self).buffer@.len() + data@.len() >= old(self).chunk_size ==> {
                &&& r@ == (old(self).buffer@ + data@).subrange(0, old(self).chunk_size as int)
                &&& final(self).buffer@ == (old(self).buffer@ + data@).subrange(
                    old(self).chunk_size as int,
                    (old(self).buffer@.len() + data@.len()) as int,
                )
            },
            old(self).buffer@.len() + data@.len() < old(self).chunk_size ==> {
                &&& r@ == Seq::<u8>::empty()
                &&& final(self).buffer@ == old(self).buffer@ + data@
            },
    {
        let ghost whole = old(self).buffer@ + data@;
        let mut i: usize = 0;
        while i < data.len()
            invariant
                i <= data@.len(),
                self.buffer@.len() + data@.len() <= usize::MAX + i,
                self.buffer@ == old(self).buffer@ + data@.subrange(0, i as int),
                self.chunk_size == old(self).chunk_size,
                self.position == old(self).position,
            decreases data@.len() - i,
        {
            self.buffer.push(data[i]);
            proof {
                assert(old(self).buffer@ + data@.subrange(0, i as int).push(data@[i as int])
                    =~= old(self).buffer@ + data@.subrange(0, i + 1));
                assert((old(self).buffer@ + data@.subrange(0, i as int)).push(data@[i as int])
                    =~= old(self).buffer@ + data@.subrange(0, i as int).push(data@[i as int]));
            }
            i += 1;
        }
        proof {
            assert(data@.subrange(0, data@.len() as int) == data@);
            assert(self.buffer@ == whole);
        }
        if self.buffer.len() >= self.chunk_size {
            let n = self.chunk_size;
            let mut out: Vec<u8> = Vec::new();
            let mut j: usize = 0;
            while j < n
                invariant
                    j <= n,
                    n == self.chunk_size <= self.buffer@.len(),
                    self.buffer@ == whole,
                    self.chunk_size == old(self).chunk_size,
                    self.position == old(self).position,
                    out@ == whole.subrange(0, j as int),
                decreases n - j,
            {
                out.push(self.buffer[j]);
                proof {
                    assert(whole.subrange(0, j as int).push(whole[j as int]) =~= whole.subrange(
                        0,
                        j + 1,
                    ));
                }
                j += 1;
            }
            let mut rest: Vec<u8> = Vec::new();
            let mut k: usize = n;
            let blen = self.buffer.len();
            while k < blen
                invariant
                    n <= k <= blen,
                    blen == self.buffer@.len(),
                    self.buffer@ == whole,
                    self.chunk_size == old(self).chunk_size,
                    self.position == old(self).position,
                    n == self.chunk_size,
                    rest@ == whole.subrange(n as int, k as int),
                decreases blen - k,
            {
                rest.push(self.buffer[k]);
                proof {
                    assert(whole.subrange(n as int, k as int).push(whole[k as int])
                        =~= whole.subrange(n as int, k + 1));
                }
                k += 1;
            }
            self.buffer = rest;
            out
        } else {
            Vec::new()
        }
    }
}

} // verus!
