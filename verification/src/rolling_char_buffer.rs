//! A fixed-capacity circular buffer of characters.
//!
//! The buffer supports O(1) operations at both ends, so it serves both as a
//! FIFO queue (`push` / `read`) and as a LIFO stack (`push` / `pop`), with
//! `prefix` and `prepend` to put characters back at the front. The engine
//! uses it to replay over-read characters and to rewind tokens.

use vstd::prelude::*;

verus! {

/// Errors the buffer can report.
#[derive(Debug, PartialEq, Eq, Clone, Copy, Structural)]
pub enum RollingCharBufferError {
    /// There is no room left in the buffer.
    BufferFullError,
    /// Nothing can be taken out of an empty buffer.
    BufferEmptyError,
}

/// A fixed-size circular character buffer usable as a LIFO or FIFO stack.
///
/// The contents are modelled as the sequence of characters from front to
/// back: `read` takes the first element of the view, `pop` the last.
#[derive(Debug)]
pub struct RollingCharBuffer<const CAP: usize> {
    full: bool,
    start: usize,
    end: usize,
    buffer: Vec<char>,
}

impl<const CAP: usize> Default for RollingCharBuffer<CAP> {
    /// An empty buffer of capacity `CAP`.
    fn default() -> (r: Self)
        ensures
            CAP >= 1 ==> r.wf(),
            r@ == Seq::<char>::empty(),
    {
        Self::new()
    }
}

impl<const CAP: usize> RollingCharBuffer<CAP> {
    /// Structural validity: the indices stay below the capacity and the
    /// backing storage has exactly the capacity.
    pub closed spec fn wf(&self) -> bool {
        &&& CAP >= 1
        &&& self.buffer.len() == CAP
        &&& self.start < CAP
        &&& self.end < CAP
        &&& (self.full ==> self.start == self.end)
    }

    /// Number of characters held.
    pub closed spec fn spec_len(&self) -> int {
        if self.full {
            CAP as int
        } else if self.end >= self.start {
            self.end - self.start
        } else {
            CAP - (self.start - self.end)
        }
    }

    /// Physical index of the `i`-th element of the contents.
    pub closed spec fn slot(&self, i: int) -> int {
        if self.start + i < CAP {
            self.start + i
        } else {
            self.start + i - CAP
        }
    }

    /// The contents, front to back.
    pub closed spec fn view(&self) -> Seq<char> {
        Seq::new(self.spec_len() as nat, |i: int| self.buffer[self.slot(i)])
    }

    /// A valid buffer never holds more than `CAP` characters.
    pub proof fn lemma_len_bound(&self)
        requires
            self.wf(),
        ensures
            self@.len() <= CAP,
    {
    }

    /// Creates an empty buffer of capacity `CAP`.
    pub fn new() -> (r: Self)
        ensures
            CAP >= 1 ==> r.wf(),
            r@ == Seq::<char>::empty(),
    {
        let mut buffer: Vec<char> = Vec::new();
        let mut i: usize = 0;
        while i < CAP
            invariant
                i <= CAP,
                buffer.len() == i,
            decreases CAP - i,
        {
            buffer.push('x');
            i = i + 1;
        }
        let start = if CAP == 0 {
            0
        } else {
            CAP - 1
        };
        let r = RollingCharBuffer { full: false, start, end: start, buffer };
        proof {
            assert(r@ =~= Seq::<char>::empty());
        }
        r
    }

    /// Returns how many characters are in the buffer.
    pub fn len(&self) -> (n: usize)
        requires
            self.wf(),
        ensures
            n == self@.len(),
    {
        if self.full {
            CAP
        } else if self.end >= self.start {
            self.end - self.start
        } else {
            CAP - (self.start - self.end)
        }
    }

    /// Whether the buffer holds nothing.
    pub fn is_empty(&self) -> (r: bool)
        requires
            self.wf(),
        ensures
            r == (self@.len() == 0),
    {
        self.start == self.end && !self.full
    }

    /// Whether the buffer holds `CAP` characters.
    pub fn is_full(&self) -> (r: bool)
        requires
            self.wf(),
        ensures
            r == (self@.len() == CAP),
    {
        self.full
    }

    /// Empties the buffer without releasing its storage.
    pub fn clear(&mut self)
        requires
            old(self).wf(),
        ensures
            final(self).wf(),
            final(self)@ == Seq::<char>::empty(),
    {
        self.full = false;
        self.start = self.end;
        proof {
            assert(self@ =~= Seq::<char>::empty());
        }
    }

    /// Adds a character at the end of the buffer; fails if the buffer is full.
    pub fn push(&mut self, c: char) -> (r: Result<(), RollingCharBufferError>)
        requires
            old(self).wf(),
        ensures
            final(self).wf(),
            match r {
                Ok(()) => old(self)@.len() < CAP && final(self)@ == old(self)@.push(c),
                Err(e) => e == RollingCharBufferError::BufferFullError && old(self)@.len()
                    == CAP && *final(self) == *old(self),
            },
    {
        if self.full {
            return Err(RollingCharBufferError::BufferFullError);
        }
        self.buffer.set(self.end, c);
        self.end = if self.end + 1 == CAP {
            0
        } else {
            self.end + 1
        };
        if self.end == self.start {
            self.full = true;
        }
        proof {
            assert(final(self)@ =~= old(self)@.push(c));
        }
        Ok(())
    }

    /// Takes the character at the front of the buffer; fails if empty.
    pub fn read(&mut self) -> (r: Result<char, RollingCharBufferError>)
        requires
            old(self).wf(),
        ensures
            final(self).wf(),
            match r {
                Ok(c) => old(self)@.len() >= 1 && c == old(self)@[0] && final(self)@ == old(
                    self,
                )@.skip(1),
                Err(e) => e == RollingCharBufferError::BufferEmptyError && old(self)@.len() == 0
                    && *final(self) == *old(self),
            },
    {
        if self.start == self.end && !self.full {
            return Err(RollingCharBufferError::BufferEmptyError);
        }
        let c = self.buffer[self.start];
        self.start = if self.start + 1 == CAP {
            0
        } else {
            self.start + 1
        };
        self.full = false;
        proof {
            assert(final(self)@ =~= old(self)@.skip(1));
        }
        Ok(c)
    }

    /// Takes the character at the end of the buffer; fails if empty.
    pub fn pop(&mut self) -> (r: Result<char, RollingCharBufferError>)
        requires
            old(self).wf(),
        ensures
            final(self).wf(),
            match r {
                Ok(c) => old(self)@.len() >= 1 && c == old(self)@.last() && final(self)@ == old(
                    self,
                )@.drop_last(),
                Err(e) => e == RollingCharBufferError::BufferEmptyError && old(self)@.len() == 0
                    && *final(self) == *old(self),
            },
    {
        if self.start == self.end && !self.full {
            return Err(RollingCharBufferError::BufferEmptyError);
        }
        self.end = if self.end == 0 {
            CAP - 1
        } else {
            self.end - 1
        };
        self.full = false;
        let c = self.buffer[self.end];
        proof {
            assert(final(self)@ =~= old(self)@.drop_last());
        }
        Ok(c)
    }

    /// Adds a character at the front of the buffer; fails if the buffer is full.
    pub fn prefix(&mut self, c: char) -> (r: Result<(), RollingCharBufferError>)
        requires
            old(self).wf(),
        ensures
            final(self).wf(),
            match r {
                Ok(()) => old(self)@.len() < CAP && final(self)@ == seq![c] + old(self)@,
                Err(e) => e == RollingCharBufferError::BufferFullError && old(self)@.len()
                    == CAP && *final(self) == *old(self),
            },
    {
        if self.full {
            return Err(RollingCharBufferError::BufferFullError);
        }
        self.start = if self.start == 0 {
            CAP - 1
        } else {
            self.start - 1
        };
        self.buffer.set(self.start, c);
        if self.end == self.start {
            self.full = true;
        }
        proof {
            assert(final(self)@ =~= seq![c] + old(self)@);
        }
        Ok(())
    }

    /// Appends a whole character sequence at the end of the buffer. The
    /// operation is atomic: it succeeds only if every character fits, and on
    /// failure the buffer is left exactly as it was. On success the returned
    /// number is the capacity still free.
    pub fn extend(&mut self, charvec: &[char]) -> (r: Result<usize, RollingCharBufferError>)
        requires
            old(self).wf(),
        ensures
            final(self).wf(),
            match r {
                Ok(free) => old(self)@.len() + charvec@.len() <= CAP && final(self)@ == old(self)@
                    + charvec@ && free == CAP - final(self)@.len(),
                Err(e) => e == RollingCharBufferError::BufferFullError && old(self)@.len()
                    + charvec@.len() > CAP && *final(self) == *old(self),
            },
    {
        let n = self.len();
        if charvec.len() > CAP - n {
            return Err(RollingCharBufferError::BufferFullError);
        }
        let mut i: usize = 0;
        while i < charvec.len()
            invariant
                self.wf(),
                i <= charvec@.len(),
                old(self)@.len() + charvec@.len() <= CAP,
                self@ == old(self)@ + charvec@.take(i as int),
            decreases charvec@.len() - i,
        {
            let c = charvec[i];
            let res = self.push(c);
            proof {
                assert(res is Ok);
                assert(old(self)@ + charvec@.take((i + 1) as int) == (old(self)@
                    + charvec@.take(i as int)).push(c));
            }
            i = i + 1;
        }
        proof {
            assert(charvec@.take(charvec@.len() as int) == charvec@);
        }
        Ok(CAP - self.len())
    }

    /// Puts a whole character sequence back at the front of the buffer, in
    /// its original order: after the call, reading from the front yields the
    /// sequence first, then the prior contents. Atomic like [`Self::extend`];
    /// on success the returned number is the capacity still free.
    pub fn prepend(&mut self, cs: &[char]) -> (r: Result<usize, RollingCharBufferError>)
        requires
            old(self).wf(),
        ensures
            final(self).wf(),
            match r {
                Ok(free) => old(self)@.len() + cs@.len() <= CAP && final(self)@ == cs@ + old(
                    self,
                )@ && free == CAP - final(self)@.len(),
                Err(e) => e == RollingCharBufferError::BufferFullError && old(self)@.len()
                    + cs@.len() > CAP && *final(self) == *old(self),
            },
    {
        let n = self.len();
        if cs.len() > CAP - n {
            return Err(RollingCharBufferError::BufferFullError);
        }
        let mut i: usize = cs.len();
        while i > 0
            invariant
                self.wf(),
                i <= cs@.len(),
                old(self)@.len() + cs@.len() <= CAP,
                self@ == cs@.skip(i as int) + old(self)@,
            decreases i,
        {
            i = i - 1;
            let c = cs[i];
            let res = self.prefix(c);
            proof {
                assert(res is Ok);
                assert(cs@.skip(i as int) == seq![c] + cs@.skip(i + 1));
                assert(self@ =~= cs@.skip(i as int) + old(self)@);
            }
        }
        proof {
            assert(cs@.skip(0) == cs@);
        }
        Ok(CAP - self.len())
    }
}

} // verus!
