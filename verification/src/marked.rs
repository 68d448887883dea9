use vstd::prelude::*;

verus! {

/// A non-owning, nullable, equality-comparable handle to a tree node.
///
/// The tag distinguishes a leaf from an internal node; the address is a plain
/// machine word.  The cache only records where the owning tree last saw a
/// node; it never keeps one alive.  The address `u64::MAX` under the `Leaf`
/// tag is reserved as the tombstone sentinel of the backing table and is
/// never a valid reference (see [`MarkedRef::wf`]).
#[derive(Clone, Copy, PartialEq, Eq, Structural, Debug, Hash)]
pub enum MarkedRef {
    Null,
    Leaf(u64),
    Internal(u64),
}

impl MarkedRef {
    /// A reference the cache may be asked to store: anything except the
    /// reserved tombstone sentinel.
    pub open spec fn wf(self) -> bool {
        self != MarkedRef::Leaf(u64::MAX)
    }

    pub open spec fn spec_is_null(&self) -> bool {
        self is Null
    }

    #[verifier::when_used_as_spec(spec_is_null)]
    pub fn is_null(&self) -> (r: bool)
        ensures
            r == self.spec_is_null(),
    {
        matches!(self, MarkedRef::Null)
    }
}

/// One slot of the dense hash table: a fixed-width key (the first eight bytes
/// of a prefix, packed big-endian into a `u64`) paired with a tagged
/// reference.  A slot is in exactly one of three states, read off the
/// reference alone: null (probe search stops), tombstone (probe search
/// continues, slot reusable), or live.  A tombstone's key field is never
/// inspected.
#[derive(Clone, Copy, PartialEq, Eq, Structural, Debug)]
pub struct MarkedElt {
    pub prefix: u64,
    pub ptr: MarkedRef,
}

impl MarkedElt {
    pub open spec fn spec_is_null(self) -> bool {
        self.ptr is Null
    }

    pub open spec fn spec_is_tombstone(self) -> bool {
        self.ptr == MarkedRef::Leaf(u64::MAX)
    }

    /// A slot that holds a real key/reference pair.
    pub open spec fn is_live(self) -> bool {
        !self.spec_is_null() && !self.spec_is_tombstone()
    }

    pub fn null() -> (r: Self)
        ensures
            r.spec_is_null(),
            !r.is_live(),
            !r.spec_is_tombstone(),
    {
        MarkedElt { prefix: 0, ptr: MarkedRef::Null }
    }

    pub fn tombstone() -> (r: Self)
        ensures
            r.spec_is_tombstone(),
            !r.is_live(),
            !r.spec_is_null(),
    {
        MarkedElt { prefix: 0, ptr: MarkedRef::Leaf(u64::MAX) }
    }

    pub fn is_null(&self) -> (r: bool)
        ensures
            r == self.spec_is_null(),
    {
        self.ptr.is_null()
    }

    pub fn is_tombstone(&self) -> (r: bool)
        ensures
            r == self.spec_is_tombstone(),
    {
        self.ptr == MarkedRef::Leaf(u64::MAX)
    }

    pub fn key(&self) -> (r: u64)
        ensures
            r == self.prefix,
    {
        self.prefix
    }
}

} // verus!
