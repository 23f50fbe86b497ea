use vstd::prelude::*;

verus! {

/// A Pasta base-field element, held in its canonical little-endian 64-bit
/// limb encoding. The tree engine never looks inside a value: field elements
/// are opaque, copyable and equality-comparable leaf and hash data. Values
/// are produced by the hash primitive (which always emits the canonical
/// encoding) or supplied by callers as leaf data.
#[derive(Clone, Copy, PartialEq, Eq, Structural, Debug)]
pub struct FieldElem {
    pub l0: u64,
    pub l1: u64,
    pub l2: u64,
    pub l3: u64,
}

impl FieldElem {
    /// The field's additive identity, the root of an empty tree.
    pub open spec fn zero_spec() -> FieldElem {
        FieldElem { l0: 0, l1: 0, l2: 0, l3: 0 }
    }

    /// The field's additive identity.
    pub fn zero() -> (r: FieldElem)
        ensures
            r == FieldElem::zero_spec(),
    {
        FieldElem { l0: 0, l1: 0, l2: 0, l3: 0 }
    }

    /// The canonical encoding of a small nonnegative integer.
    pub fn from_u64(x: u64) -> (r: FieldElem)
        ensures
            r == (FieldElem { l0: x, l1: 0, l2: 0, l3: 0 }),
    {
        FieldElem { l0: x, l1: 0, l2: 0, l3: 0 }
    }
}

} // verus!
