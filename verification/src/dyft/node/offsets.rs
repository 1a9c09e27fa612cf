//! The three node layouts.

use crate::dyft::node::node_types::IntoMartNode;
use crate::dyft::node::traits::MartOffsets;
use core::marker::PhantomData;
use vstd::prelude::*;

verus! {

/// Number of stored references in a node that is indexed by label.
pub const MAX_PTRS: usize = 256;

/// Header, `K` labels, `K` stored references: slot `i` belongs to label
/// `i`.
pub struct MartSparseOffsets<T>(pub PhantomData<T>);

/// Header, 256 slot indices by label, `K` stored references.
pub struct MartDenseOffsets<T>(pub PhantomData<T>);

/// Header, 256 stored references by label.
pub struct MartFullOffsets<T>(pub PhantomData<T>);

impl<T: IntoMartNode> MartOffsets for MartSparseOffsets<T> {
    open spec fn spec_k() -> nat {
        T::spec_bytes()
    }

    open spec fn spec_ptrs_offset() -> nat {
        1 + T::spec_bytes()
    }

    open spec fn spec_bytes() -> nat {
        1 + T::spec_bytes() + 5 * T::spec_bytes()
    }

    open spec fn spec_slots() -> nat {
        T::spec_bytes()
    }

    fn k() -> (r: usize) {
        T::bytes()
    }

    fn ptrs_offset() -> (r: usize) {
        1 + T::bytes()
    }

    fn bytes() -> (r: usize) {
        1 + T::bytes() + 5 * T::bytes()
    }
}

impl<T: IntoMartNode> MartOffsets for MartDenseOffsets<T> {
    open spec fn spec_k() -> nat {
        T::spec_bytes()
    }

    open spec fn spec_ptrs_offset() -> nat {
        257
    }

    open spec fn spec_bytes() -> nat {
        257 + 5 * T::spec_bytes()
    }

    open spec fn spec_slots() -> nat {
        T::spec_bytes()
    }

    fn k() -> (r: usize) {
        T::bytes()
    }

    fn ptrs_offset() -> (r: usize) {
        1 + MAX_PTRS
    }

    fn bytes() -> (r: usize) {
        1 + MAX_PTRS + 5 * T::bytes()
    }
}

impl<T: IntoMartNode> MartOffsets for MartFullOffsets<T> {
    open spec fn spec_k() -> nat {
        T::spec_bytes()
    }

    open spec fn spec_ptrs_offset() -> nat {
        1
    }

    open spec fn spec_bytes() -> nat {
        1281
    }

    open spec fn spec_slots() -> nat {
        256
    }

    fn k() -> (r: usize) {
        T::bytes()
    }

    fn ptrs_offset() -> (r: usize) {
        1
    }

    fn bytes() -> (r: usize) {
        1 + MAX_PTRS * 5
    }
}

} // verus!
