//! A fixed-capacity circular buffer of bytes.
use vstd::prelude::*;

verus! {

/// A ring buffer: bytes leave it in the order in which they entered, and it
/// never holds more than the capacity it was made with.
pub struct LwRb {
    buf: Vec<u8>,
    head: usize,
    len: usize,
}

/// The position in a store of `cap` bytes of the `i`-th byte after `head`.
pub open spec fn slot(head: int, i: int, cap: int) -> int {
    if head + i < cap {
        head + i
    } else {
        head + i - cap
    }
}

impl View for LwRb {
    type V = Seq<u8>;

    /// The bytes held, oldest first.
    closed spec fn view(&self) -> Seq<u8> {
        Seq::new(self.len as nat, |i: int| self.buf@[slot(self.head as int, i, self.buf@.len() as int)])
    }
}

impl LwRb {
    #[verifier::type_invariant]
    spec fn inv(self) -> bool {
        &&& self.len <= self.buf@.len()
        &&& self.head <= self.buf@.len()
        &&& self.head < self.buf@.len() || self.buf@.len() == 0
    }

    /// The number of bytes that the buffer can hold.
    pub closed spec fn capacity(&self) -> nat {
        self.buf@.len()
    }

    /// An empty buffer that can hold `size` bytes.
    pub fn new(size: usize) -> (rb: LwRb)
        ensures
            rb@ == Seq::<u8>::empty(),
            rb.capacity() == size,
    {
        let rb = LwRb { buf: vec![0u8; size], head: 0, len: 0 };
        assert(rb@ =~= Seq::<u8>::empty());
        rb
    }

    /// The capacity in bytes.
    pub fn size(&self) -> (n: usize)
        ensures
            n == self.capacity(),
    {
        self.buf.len()
    }

    /// The number of bytes held.
    pub fn used(&self) -> (n: usize)
        ensures
            n == self@.len(),
            n <= self.capacity(),
    {
        proof {
            use_type_invariant(self);
        }
        self.len
    }

    /// The number of bytes that can still be stored.
    pub fn free_space(&self) -> (n: usize)
        ensures
            n == self.capacity() - self@.len(),
    {
        proof {
            use_type_invariant(self);
        }
        self.buf.len() - self.len
    }

    /// The oldest byte held, which stays in the buffer.
    pub fn peek(&self) -> (b: Option<u8>)
        ensures
            self@.len() == 0 ==> b is None,
            self@.len() > 0 ==> b == Some(self@[0]),
    {
        proof {
            use_type_invariant(self);
        }
        if self.len == 0 {
            None
        } else {
            Some(self.buf[self.head])
        }
    }

    /// Takes the oldest byte out of the buffer.
    pub fn pop(&mut self) -> (b: Option<u8>)
        ensures
            final(self).capacity() == old(self).capacity(),
            old(self)@.len() == 0 ==> b is None && final(self)@ == old(self)@,
            old(self)@.len() > 0 ==> b == Some(old(self)@[0]) && final(self)@ == old(self)@.skip(1),
    {
        proof {
            use_type_invariant(&*self);
        }
        if self.len == 0 {
            return None;
        }
        let b = self.buf[self.head];
        let ghost before = *self;
        let cap = self.buf.len();
        self.len = self.len - 1;
        self.head = if self.head + 1 == cap {
            0
        } else {
            self.head + 1
        };
        assert(self@ =~= before@.skip(1));
        Some(b)
    }

    /// Stores one byte behind those held, if there is room for it.
    pub fn push(&mut self, b: u8) -> (stored: bool)
        ensures
            final(self).capacity() == old(self).capacity(),
            stored <==> old(self)@.len() < old(self).capacity(),
            stored ==> final(self)@ == old(self)@.push(b),
            !stored ==> final(self)@ == old(self)@,
    {
        proof {
            use_type_invariant(&*self);
        }
        let cap = self.buf.len();
        if self.len == cap {
            return false;
        }
        let ghost before = *self;
        let room = cap - self.len;
        let at = if self.head >= room {
            self.head - room
        } else {
            self.head + self.len
        };
        self.buf[at] = b;
        self.len = self.len + 1;
        assert(self@ =~= before@.push(b));
        true
    }

    /// Stores as many of the bytes of `data`, from its start, as there is
    /// room for, and returns their number. What does not fit is not stored.
    pub fn write(&mut self, data: &[u8]) -> (n: usize)
        ensures
            final(self).capacity() == old(self).capacity(),
            n == vstd::math::min(data@.len() as int, old(self).capacity() - old(self)@.len()),
            final(self)@ == old(self)@ + data@.take(n as int),
    {
        let mut n: usize = 0;
        let room = self.free_space();
        while n < data.len() && n < room
            invariant
                self.capacity() == old(self).capacity(),
                room == old(self).capacity() - old(self)@.len(),
                n <= data@.len(),
                n <= room,
                self@ == old(self)@ + data@.take(n as int),
            decreases data@.len() - n,
        {
            let stored = self.push(data[n]);
            assert(stored);
            assert(data@.take(n as int).push(data@[n as int]) =~= data@.take(n + 1));
            n = n + 1;
        }
        n
    }

    /// Takes up to `max` of the oldest bytes out of the buffer, oldest first.
    pub fn read(&mut self, max: usize) -> (out: Vec<u8>)
        ensures
            final(self).capacity() == old(self).capacity(),
            out@.len() == vstd::math::min(max as int, old(self)@.len() as int),
            out@ == old(self)@.take(out@.len() as int),
            final(self)@ == old(self)@.skip(out@.len() as int),
    {
        let mut out: Vec<u8> = Vec::new();
        while out.len() < max && self.used() > 0
            invariant
                self.capacity() == old(self).capacity(),
                out@.len() <= max,
                out@.len() <= old(self)@.len(),
                out@ == old(self)@.take(out@.len() as int),
                self@ == old(self)@.skip(out@.len() as int),
            decreases self@.len(),
        {
            let ghost k = out@.len() as int;
            let b = self.pop();
            out.push(b.unwrap());
            assert(out@ =~= old(self)@.take(k + 1));
            assert(self@ =~= old(self)@.skip(k + 1));
        }
        out
    }

    /// Empties the buffer.
    pub fn reset(&mut self)
        ensures
            final(self).capacity() == old(self).capacity(),
            final(self)@ == Seq::<u8>::empty(),
    {
        proof {
            use_type_invariant(&*self);
        }
        self.len = 0;
        self.head = 0;
        assert(self@ =~= Seq::<u8>::empty());
    }
}

} // verus!
