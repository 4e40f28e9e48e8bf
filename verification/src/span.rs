//! Span references: descriptors of contiguous runs of characters in one of
//! the two backing buffers of a document.

use vstd::prelude::*;

verus! {

/// A contiguous run of characters inside a backing buffer, given as the
/// buffer it lives in, the offset of its first character and its length.
#[derive(Copy, Clone, Debug, PartialEq, Eq, Structural)]
pub enum Ref {
    /// `Original(start, length)`: a run inside the immutable original buffer.
    Original(usize, usize),
    /// `Append(start, length)`: a run inside the append-only edit buffer.
    Append(usize, usize),
}

impl Ref {
    /// Offset of the first character of the run inside its buffer.
    pub open spec fn start(self) -> nat {
        match self {
            Ref::Original(x, _) => x as nat,
            Ref::Append(x, _) => x as nat,
        }
    }

    /// Number of characters in the run.
    pub open spec fn length(self) -> nat {
        match self {
            Ref::Original(_, l) => l as nat,
            Ref::Append(_, l) => l as nat,
        }
    }

    /// Offset just past the last character of the run inside its buffer.
    pub open spec fn end(self) -> nat {
        self.start() + self.length()
    }

    /// Whether the run lives in the append buffer.
    pub open spec fn in_append(self) -> bool {
        self is Append
    }

    /// The run in the same buffer that starts at `start` and has `length`
    /// characters.
    pub open spec fn with_bounds(self, start: usize, length: usize) -> Ref {
        match self {
            Ref::Original(_, _) => Ref::Original(start, length),
            Ref::Append(_, _) => Ref::Append(start, length),
        }
    }

    /// The first `at` characters of the run.
    pub open spec fn head(self, at: nat) -> Ref {
        self.with_bounds(self.start() as usize, at as usize)
    }

    /// The run without its first `at` characters.
    pub open spec fn tail(self, at: nat) -> Ref {
        self.with_bounds((self.start() + at) as usize, (self.length() - at) as usize)
    }

    /// Number of characters in the run.
    pub fn len(&self) -> (n: usize)
        ensures
            n == self.length(),
    {
        match self {
            Ref::Original(_, l) => *l,
            Ref::Append(_, l) => *l,
        }
    }

    /// Cuts the run in two after its first `len` characters.
    pub fn split(&self, len: usize) -> (parts: (Ref, Ref))
        requires
            len <= self.length(),
            self.start() + len <= usize::MAX,
        ensures
            parts == (self.head(len as nat), self.tail(len as nat)),
    {
        match self {
            Ref::Original(x, l) => (Ref::Original(*x, len), Ref::Original(*x + len, *l - len)),
            Ref::Append(x, l) => (Ref::Append(*x, len), Ref::Append(*x + len, *l - len)),
        }
    }

    /// The run without its first `len` characters.
    pub fn skip(self, len: usize) -> (rest: Ref)
        requires
            len <= self.length(),
            self.start() + len <= usize::MAX,
        ensures
            rest == self.tail(len as nat),
    {
        match self {
            Ref::Original(x, l) => Ref::Original(x + len, l - len),
            Ref::Append(x, l) => Ref::Append(x + len, l - len),
        }
    }

    /// The run without its last `len` characters.
    pub fn pop(self, len: usize) -> (rest: Ref)
        requires
            len <= self.length(),
        ensures
            rest == self.head((self.length() - len) as nat),
    {
        match self {
            Ref::Original(x, l) => Ref::Original(x, l - len),
            Ref::Append(x, l) => Ref::Append(x, l - len),
        }
    }
}

} // verus!
