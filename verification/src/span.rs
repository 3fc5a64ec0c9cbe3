//! Byte ranges of source text.

use vstd::prelude::*;

verus! {

/// A half-open range `[lo, hi)` of byte positions in a source map, together
/// with the expansion context that produced it.
#[derive(Clone, Copy, Debug, PartialEq, Eq, Structural)]
pub struct Span {
    pub lo: u32,
    pub hi: u32,
    pub ctxt: u32,
}

impl Span {
    /// A span without any width.
    #[verifier::allow_in_spec]
    pub fn is_empty(self) -> bool
        returns
            self.lo == self.hi,
    {
        self.lo == self.hi
    }

    /// Whether `other` lies within `self`; the ends may coincide.
    #[verifier::allow_in_spec]
    pub fn contains(self, other: Span) -> bool
        returns
            self.lo <= other.lo && other.hi <= self.hi,
    {
        self.lo <= other.lo && other.hi <= self.hi
    }

    /// Whether both spans come from the same expansion context.
    #[verifier::allow_in_spec]
    pub fn eq_ctxt(self, other: Span) -> bool
        returns
            self.ctxt == other.ctxt,
    {
        self.ctxt == other.ctxt
    }

    /// The empty span at the start of `self`.
    #[verifier::allow_in_spec]
    pub fn shrink_to_lo(self) -> Span
        returns
            (Span { lo: self.lo, hi: self.lo, ctxt: self.ctxt }),
    {
        Span { lo: self.lo, hi: self.lo, ctxt: self.ctxt }
    }

    /// The empty span at the end of `self`.
    #[verifier::allow_in_spec]
    pub fn shrink_to_hi(self) -> Span
        returns
            (Span { lo: self.hi, hi: self.hi, ctxt: self.ctxt }),
    {
        Span { lo: self.hi, hi: self.hi, ctxt: self.ctxt }
    }

    /// `self` with its end moved to `hi`.
    #[verifier::allow_in_spec]
    pub fn with_hi(self, hi: u32) -> Span
        returns
            (Span { lo: self.lo, hi, ctxt: self.ctxt }),
    {
        Span { lo: self.lo, hi, ctxt: self.ctxt }
    }
}

} // verus!
