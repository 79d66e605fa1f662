//! Dirty flags of a node: which passes a node still owes.

use vstd::prelude::*;

verus! {

/// Bit of [`ChangeFlags`] that stands for a pending paint pass.
pub const PAINT_BIT: u32 = 1;

/// Bit of [`ChangeFlags`] that stands for a pending layout pass.
pub const LAYOUT_BIT: u32 = 2;

/// A set of dirty flags, kept as a bit mask.
#[derive(Copy, Clone, Debug, PartialEq, Eq, Hash, Structural)]
pub struct ChangeFlags {
    pub bits: u32,
}

impl ChangeFlags {
    /// No flag set.
    pub open spec fn spec_none() -> ChangeFlags {
        ChangeFlags { bits: 0 }
    }

    /// Only the paint flag.
    pub open spec fn spec_paint() -> ChangeFlags {
        ChangeFlags { bits: PAINT_BIT }
    }

    /// Only the layout flag.
    pub open spec fn spec_layout() -> ChangeFlags {
        ChangeFlags { bits: LAYOUT_BIT }
    }

    /// Both the layout and the paint flag.
    pub open spec fn spec_all() -> ChangeFlags {
        ChangeFlags { bits: 3 }
    }

    /// The flags of `self` and those of `other` together.
    pub open spec fn spec_union(self, other: ChangeFlags) -> ChangeFlags {
        ChangeFlags { bits: self.bits | other.bits }
    }

    /// The flags of `self` that `other` does not hold.
    pub open spec fn spec_difference(self, other: ChangeFlags) -> ChangeFlags {
        ChangeFlags { bits: self.bits & !other.bits }
    }

    /// Whether every flag of `other` is set in `self`.
    pub open spec fn spec_contains(self, other: ChangeFlags) -> bool {
        self.bits & other.bits == other.bits
    }

    #[verifier::when_used_as_spec(spec_none)]
    pub fn none() -> (r: ChangeFlags)
        ensures
            r == Self::spec_none(),
    {
        ChangeFlags { bits: 0 }
    }

    #[verifier::when_used_as_spec(spec_paint)]
    pub fn paint() -> (r: ChangeFlags)
        ensures
            r == Self::spec_paint(),
    {
        ChangeFlags { bits: PAINT_BIT }
    }

    #[verifier::when_used_as_spec(spec_layout)]
    pub fn layout() -> (r: ChangeFlags)
        ensures
            r == Self::spec_layout(),
    {
        ChangeFlags { bits: LAYOUT_BIT }
    }

    #[verifier::when_used_as_spec(spec_all)]
    pub fn all() -> (r: ChangeFlags)
        ensures
            r == Self::spec_all(),
    {
        ChangeFlags { bits: 3 }
    }

    /// The raw bit mask.
    pub fn bits(&self) -> (r: u32)
        ensures
            r == self.bits,
    {
        self.bits
    }

    #[verifier::when_used_as_spec(spec_union)]
    pub fn union(self, other: ChangeFlags) -> (r: ChangeFlags)
        ensures
            r == self.spec_union(other),
    {
        ChangeFlags { bits: self.bits | other.bits }
    }

    #[verifier::when_used_as_spec(spec_difference)]
    pub fn difference(self, other: ChangeFlags) -> (r: ChangeFlags)
        ensures
            r == self.spec_difference(other),
    {
        ChangeFlags { bits: self.bits & !other.bits }
    }

    #[verifier::when_used_as_spec(spec_contains)]
    pub fn contains(self, other: ChangeFlags) -> (r: bool)
        ensures
            r == self.spec_contains(other),
    {
        self.bits & other.bits == other.bits
    }

    /// Whether no flag is set.
    pub fn is_empty(&self) -> (r: bool)
        ensures
            r == (self.bits == 0),
    {
        self.bits == 0
    }

    /// A union holds whatever either side holds.
    pub proof fn lemma_union_contains(self, other: ChangeFlags, probe: ChangeFlags)
        ensures
            self.spec_union(other).spec_contains(other),
            self.spec_union(other).spec_contains(self),
            self.spec_contains(probe) ==> self.spec_union(other).spec_contains(probe),
            other.spec_contains(probe) ==> self.spec_union(other).spec_contains(probe),
    {
        let a = self.bits;
        let b = other.bits;
        let c = probe.bits;
        assert((a | b) & b == b) by (bit_vector);
        assert((a | b) & a == a) by (bit_vector);
        assert(a & c == c ==> (a | b) & c == c) by (bit_vector);
        assert(b & c == c ==> (a | b) & c == c) by (bit_vector);
    }

    /// A union with a single-bit flag adds no other single-bit flag.
    pub proof fn lemma_union_paint_keeps_layout(self)
        ensures
            self.spec_union(Self::spec_paint()).spec_contains(Self::spec_layout())
                == self.spec_contains(Self::spec_layout()),
    {
        let a = self.bits;
        assert(((a | 1) & 2 == 2) == (a & 2 == 2)) by (bit_vector);
    }

    /// A difference drops the flags taken away and keeps the single-bit flags
    /// that were not.
    pub proof fn lemma_difference(self)
        ensures
            !self.spec_difference(Self::spec_layout()).spec_contains(Self::spec_layout()),
            !self.spec_difference(Self::spec_paint()).spec_contains(Self::spec_paint()),
            self.spec_difference(Self::spec_layout()).spec_contains(Self::spec_paint())
                == self.spec_contains(Self::spec_paint()),
            self.spec_difference(Self::spec_paint()).spec_contains(Self::spec_layout())
                == self.spec_contains(Self::spec_layout()),
    {
        let a = self.bits;
        assert((a & !2u32) & 2 != 2) by (bit_vector);
        assert((a & !1u32) & 1 != 1) by (bit_vector);
        assert(((a & !2u32) & 1 == 1) == (a & 1 == 1)) by (bit_vector);
        assert(((a & !1u32) & 2 == 2) == (a & 2 == 2)) by (bit_vector);
    }
}

impl Default for ChangeFlags {
    fn default() -> (r: ChangeFlags)
        ensures
            r == ChangeFlags::spec_none(),
    {
        ChangeFlags { bits: 0 }
    }
}

} // verus!
