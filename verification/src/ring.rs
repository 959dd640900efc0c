//! A ring of bytes: the receive and flight buffers of the virtual sockets.

use vstd::prelude::*;

verus! {

/// Bytes a ring holds
pub const RING: usize = 65536;

pub struct Ring {
    buf: Vec<u8>,
    head: usize,
    len: usize,
}

impl View for Ring {
    type V = Seq<u8>;

    /// The bytes in the ring, the oldest first
    closed spec fn view(&self) -> Seq<u8> {
        Seq::new(self.len as nat, |i: int| self.buf@[(self.head + i) % (RING as int)])
    }
}

impl Ring {
    pub closed spec fn wf(self) -> bool {
        &&& self.buf@.len() == RING
        &&& self.head < RING
        &&& self.len <= RING
    }

    pub fn new() -> (r: Ring)
        ensures
            r.wf(),
            r@ == Seq::<u8>::empty(),
    {
        let r = Ring { buf: vec![0u8; RING], head: 0, len: 0 };
        assert(r@ =~= Seq::<u8>::empty());
        r
    }

    pub fn len(&self) -> (n: usize)
        requires
            self.wf(),
        ensures
            n == self@.len(),
            n <= RING,
    {
        self.len
    }

    pub fn clear(&mut self)
        requires
            old(self).wf(),
        ensures
            final(self).wf(),
            final(self)@ == Seq::<u8>::empty(),
    {
        self.head = 0;
        self.len = 0;
        assert(self@ =~= Seq::<u8>::empty());
    }

    /// Append bytes, for which there must be room.
    pub fn push(&mut self, bytes: &[u8])
        requires
            old(self).wf(),
            old(self)@.len() + bytes@.len() <= RING,
        ensures
            final(self).wf(),
            final(self)@ == old(self)@ + bytes@,
    {
        let mut at: usize = (self.head + self.len) % RING;
        let mut i: usize = 0;
        let ghost before = self@;
        while i < bytes.len()
            invariant
                i <= bytes@.len(),
                self.buf@.len() == RING,
                self.head < RING,
                self.head == old(self).head,
                self.len == old(self).len,
                self.len + bytes@.len() <= RING,
                at == (self.head + self.len + i) % (RING as int),
                before == old(self)@,
                forall|k: int|
                    0 <= k < self.len ==> #[trigger] self.buf@[(self.head + k) % (RING as int)] == before[k],
                forall|k: int|
                    0 <= k < i ==> #[trigger] self.buf@[(self.head + self.len + k) % (RING as int)]
                        == bytes@[k],
            decreases bytes@.len() - i,
        {
            let ghost was = self.buf@;
            self.buf.set(at, bytes[i]);
            proof {
                assert forall|k: int| 0 <= k < self.len implies #[trigger] self.buf@[(self.head + k)
                    % (RING as int)] == before[k] by {
                    assert((self.head + k) % (RING as int) != at);
                }
                assert forall|k: int| 0 <= k < i + 1 implies #[trigger] self.buf@[(self.head + self.len
                    + k) % (RING as int)] == bytes@[k] by {
                    if k < i {
                        assert((self.head + self.len + k) % (RING as int) != at);
                    }
                }
            }
            at = (at + 1) % RING;
            i += 1;
        }
        self.len += bytes.len();
        proof {
            assert forall|k: int| 0 <= k < self@.len() implies self@[k] == (before + bytes@)[k] by {
                let n = before.len() as int;
                if k < n {
                    assert(self.buf@[(self.head + k) % (RING as int)] == before[k]);
                } else {
                    assert(self.buf@[(self.head + n + (k - n)) % (RING as int)] == bytes@[k - n]);
                }
            }
            assert(self@ =~= before + bytes@);
        }
    }

    /// Copy the `n` bytes from `offset` on to the front of `out`, without
    /// consuming them.
    pub fn peek(&self, offset: usize, out: &mut [u8], n: usize)
        requires
            self.wf(),
            offset + n <= self@.len(),
            n <= old(out)@.len(),
        ensures
            final(out)@ == self@.subrange(offset as int, offset + n) + old(out)@.skip(n as int),
    {
        let mut at: usize = (self.head + offset) % RING;
        let mut i: usize = 0;
        while i < n
            invariant
                self.wf(),
                i <= n,
                offset + n <= self@.len(),
                n <= old(out)@.len(),
                out@.len() == old(out)@.len(),
                at == (self.head + offset + i) % (RING as int),
                forall|k: int| 0 <= k < i ==> #[trigger] out@[k] == self@[offset + k],
                forall|k: int| i <= k < out@.len() ==> #[trigger] out@[k] == old(out)@[k],
            decreases n - i,
        {
            assert(self@[offset + i] == self.buf@[(self.head + (offset + i)) % (RING as int)]);
            out[i] = self.buf[at];
            at = (at + 1) % RING;
            i += 1;
        }
        assert(out@ =~= self@.subrange(offset as int, offset + n) + old(out)@.skip(n as int));
    }

    /// The `n` bytes from `offset` on
    pub fn copy(&self, offset: usize, n: usize) -> (r: Vec<u8>)
        requires
            self.wf(),
            offset + n <= self@.len(),
        ensures
            r@ == self@.subrange(offset as int, offset + n),
    {
        let mut out: Vec<u8> = Vec::new();
        let mut i: usize = 0;
        while i < n
            invariant
                self.wf(),
                i <= n,
                offset + n <= self@.len(),
                out@ == self@.subrange(offset as int, offset + i),
            decreases n - i,
        {
            assert(self@[offset + i] == self.buf@[(self.head + (offset + i)) % (RING as int)]);
            out.push(self.buf[(self.head + offset + i) % RING]);
            i += 1;
            assert(out@ =~= self@.subrange(offset as int, offset + i));
        }
        out
    }

    /// Consume the oldest `n` bytes.
    pub fn skip(&mut self, n: usize)
        requires
            old(self).wf(),
            n <= old(self)@.len(),
        ensures
            final(self).wf(),
            final(self)@ == old(self)@.skip(n as int),
    {
        let ghost before = self@;
        self.head = (self.head + n) % RING;
        self.len -= n;
        proof {
            assert forall|k: int| 0 <= k < self@.len() implies self@[k] == before.skip(n as int)[k] by {
                assert((self.head + k) % (RING as int) == (old(self).head + (n + k)) % (RING as int));
            }
            assert(self@ =~= before.skip(n as int));
        }
    }
}

} // verus!
