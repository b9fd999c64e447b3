use vstd::prelude::*;

use crate::bytestream::{Sink, Source};
use crate::error::CryptoError;

verus! {

/// An in-memory byte stream: a growable buffer together with a read cursor.
///
/// Writing appends to the buffer and advances the cursor past the written
/// bytes; reading hands out the bytes between the cursor and the end of the
/// buffer. `rewind` moves the cursor back to the start, so that everything
/// written so far can be read back.
pub struct MemoryStream {
    buffer: Vec<u8>,
    offset: usize,
}

impl MemoryStream {
    /// The bytes between the read cursor and the end of the buffer: what
    /// `read_some` will hand out next. Equal to the stream's `avail`.
    pub closed spec fn remaining(&self) -> Seq<u8> {
        if self.offset <= self.buffer@.len() {
            self.buffer@.skip(self.offset as int)
        } else {
            Seq::empty()
        }
    }

    pub fn new() -> (r: MemoryStream)
        ensures
            r.sunk() == Seq::<u8>::empty(),
            r.avail() == Seq::<u8>::empty(),
    {
        let r = MemoryStream { buffer: Vec::new(), offset: 0 };
        proof {
            assert(r.buffer@.skip(0) =~= r.buffer@);
        }
        r
    }

    /// Move the read cursor back to the start: everything ever written
    /// becomes available to read again.
    pub fn rewind(&mut self)
        ensures
            final(self).sunk() == old(self).sunk(),
            final(self).avail() == old(self).sunk(),
    {
        self.offset = 0;
        proof {
            assert(self.buffer@.skip(0) =~= self.buffer@);
        }
    }

    /// A copy of everything ever written to this stream.
    pub fn get_buffer(&self) -> (r: Vec<u8>)
        ensures
            r@ == self.sunk(),
    {
        vstd::slice::slice_to_vec(self.buffer.as_slice())
    }
}

impl Sink for MemoryStream {
    closed spec fn sunk(&self) -> Seq<u8> {
        self.buffer@
    }

    /// A memory stream never fails and always accepts the whole write; the
    /// read cursor moves past the appended bytes, so nothing new is
    /// readable until `rewind`.
    fn write_some(&mut self, data: &[u8]) -> (r: Result<usize, CryptoError>)
        ensures
            r == Ok::<usize, CryptoError>(data@.len() as usize),
            final(self).sunk() == old(self).sunk() + data@,
            old(self).remaining().len() == 0 ==> final(self).remaining().len() == 0,
    {
        let n = data.len();
        let mut i: usize = 0;
        while i < n
            invariant
                i <= n,
                n == data@.len(),
                self.buffer@ == old(self).buffer@ + data@.take(i as int),
                self.offset == old(self).offset,
            decreases n - i,
        {
            self.buffer.push(data[i]);
            i = i + 1;
            proof {
                assert(old(self).buffer@ + data@.take(i - 1) + seq![data@[i - 1]]
                    =~= old(self).buffer@ + data@.take(i as int));
            }
        }
        // writing advances the read cursor past the appended bytes
        let blen = self.buffer.len();
        let off = self.offset;
        self.offset = if off <= usize::MAX - n { off + n } else { usize::MAX };
        proof {
            assert(data@.take(n as int) =~= data@);
            assert(self.buffer@.len() == blen);
            if old(self).remaining().len() == 0 {
                assert(old(self).offset >= old(self).buffer@.len());
                assert(self.offset >= self.buffer@.len());
                assert(self.remaining().len() == 0);
            }
        }
        Ok(n)
    }

    /// Flushing a memory stream never fails and changes nothing.
    fn flush(&mut self) -> (r: Result<(), CryptoError>)
        ensures
            r == Ok::<(), CryptoError>(()),
            *final(self) == *old(self),
    {
        Ok(())
    }
}

impl Source for MemoryStream {
    closed spec fn avail(&self) -> Seq<u8> {
        self.remaining()
    }

    /// A memory stream never fails and always hands out as many bytes as
    /// are asked for and available.
    fn read_some(&mut self, max: usize) -> (r: Result<Vec<u8>, CryptoError>)
        ensures
            r.is_ok(),
            r matches Ok(v) ==> v@.len() == vstd::math::min(
                max as int,
                old(self).remaining().len() as int,
            ),
            final(self).sunk() == old(self).sunk(),
    {
        let len = self.buffer.len();
        let rem = if self.offset <= len { len - self.offset } else { 0 };
        let n = if max < rem { max } else { rem };
        let mut v: Vec<u8> = Vec::new();
        let mut i: usize = 0;
        while i < n
            invariant
                i <= n,
                self == old(self),
                n > 0 ==> self.offset + n <= self.buffer@.len(),
                self.buffer@.len() <= usize::MAX,
                v@ == self.buffer@.skip(self.offset as int).take(i as int),
            decreases n - i,
        {
            v.push(self.buffer[self.offset + i]);
            i = i + 1;
            proof {
                let av = self.buffer@.skip(self.offset as int);
                assert(av.take(i - 1).push(av[i - 1]) =~= av.take(i as int));
            }
        }
        self.offset = self.offset + n;
        proof {
            let av = old(self).avail();
            assert(old(self).avail().len() == rem);
            assert(v@ =~= av.take(n as int));
            assert(self.avail() =~= av.skip(n as int));
        }
        Ok(v)
    }
}

} // verus!
