//! A single-pass source of octets.

use vstd::prelude::*;

verus! {

/// The first `n` octets of `s`, or all of `s` where it holds fewer.
pub open spec fn head(s: Seq<u8>, n: nat) -> Seq<u8> {
    if n < s.len() {
        s.take(n as int)
    } else {
        s
    }
}

/// What is left of `s` behind its first `n` octets; nothing where it holds
/// no more than `n`.
pub open spec fn tail(s: Seq<u8>, n: nat) -> Seq<u8> {
    if n < s.len() {
        s.skip(n as int)
    } else {
        Seq::empty()
    }
}

/// A finite run of octets that is read once, front to back. Its view is the
/// octets that have not been read yet.
pub struct ByteSource {
    data: Vec<u8>,
    pos: usize,
}

impl View for ByteSource {
    type V = Seq<u8>;

    closed spec fn view(&self) -> Seq<u8> {
        self.data@.skip(self.pos as int)
    }
}

impl ByteSource {
    #[verifier::type_invariant]
    spec fn in_bounds(&self) -> bool {
        self.pos <= self.data.len()
    }

    /// A source that will hand out the octets of `data` in order.
    pub fn new(data: Vec<u8>) -> (src: ByteSource)
        ensures
            src@ == data@,
    {
        let src = ByteSource { data, pos: 0 };
        assert(src@ =~= data@);
        src
    }

    /// The number of octets still to come.
    pub fn remaining(&self) -> (n: usize)
        ensures
            n == self@.len(),
    {
        proof {
            use_type_invariant(self);
        }
        self.data.len() - self.pos
    }

    /// Whether every octet has been read.
    pub fn is_empty(&self) -> (b: bool)
        ensures
            b == (self@.len() == 0),
    {
        self.remaining() == 0
    }

    /// The next octet, left in place.
    pub fn peek(&self) -> (b: Option<u8>)
        ensures
            b == (if self@.len() == 0 {
                None
            } else {
                Some(self@[0])
            }),
    {
        proof {
            use_type_invariant(self);
        }
        if self.pos < self.data.len() {
            Some(self.data[self.pos])
        } else {
            None
        }
    }

    /// Reads one octet; `None` once the source is exhausted, which leaves it
    /// exhausted.
    pub fn next(&mut self) -> (b: Option<u8>)
        ensures
            b == (if old(self)@.len() == 0 {
                None
            } else {
                Some(old(self)@[0])
            }),
            final(self)@ == tail(old(self)@, 1),
    {
        proof {
            use_type_invariant(&*self);
        }
        if self.pos < self.data.len() {
            let b = self.data[self.pos];
            self.pos = self.pos + 1;
            assert(self@ =~= tail(old(self)@, 1));
            Some(b)
        } else {
            assert(self@ =~= tail(old(self)@, 1));
            None
        }
    }

    /// Reads up to `n` octets: exactly `n` where that many are left, else
    /// all that are left.
    pub fn take(&mut self, n: u64) -> (run: Vec<u8>)
        ensures
            run@ == head(old(self)@, n as nat),
            final(self)@ == tail(old(self)@, n as nat),
    {
        proof {
            use_type_invariant(&*self);
        }
        let mut run: Vec<u8> = Vec::new();
        let left = self.data.len() - self.pos;
        let count: usize = if n < left as u64 {
            n as usize
        } else {
            left
        };
        let start = self.pos;
        let mut i: usize = 0;
        while i < count
            invariant
                i <= count,
                start + count <= self.data.len(),
                run@ == self.data@.subrange(start as int, start + i),
            decreases count - i,
        {
            run.push(self.data[start + i]);
            i = i + 1;
            assert(run@ =~= self.data@.subrange(start as int, start + i));
        }
        self.pos = start + count;
        assert(run@ =~= head(old(self)@, n as nat));
        assert(self@ =~= tail(old(self)@, n as nat));
        run
    }
}

} // verus!
