//! One marker type per tier: it fixes the fan-out and the tag of the
//! references into that tier's arena.

use crate::dyft::node::common::{MartNodeTypes, MartPointer, MART_NILID};
use vstd::prelude::*;

verus! {

pub trait IntoMartNode: Sized {
    /// Fan-out of the tier; 1 for leaves and 0 for nil.
    spec fn spec_bytes() -> nat;

    /// Tag of the references into the tier.
    spec fn spec_type_id() -> MartNodeTypes;

    /// The id that the marker carries.
    spec fn spec_nid(&self) -> u32;

    fn bytes() -> (r: usize)
        ensures
            r == Self::spec_bytes(),
            r <= 256,
    ;

    fn type_id() -> (r: MartNodeTypes)
        ensures
            r == Self::spec_type_id(),
    ;

    fn create(nid: u32) -> (r: Self)
        ensures
            Self::spec_type_id() != MartNodeTypes::MartNilNode ==> r.spec_nid() == nid,
    ;

    fn ntype(&self) -> (r: MartNodeTypes)
        ensures
            r == Self::spec_type_id(),
    {
        Self::type_id()
    }

    fn nid(&self) -> (r: u32)
        ensures
            r == self.spec_nid(),
    ;

    fn into_mart(&self) -> (r: MartPointer)
        ensures
            r == (MartPointer { nid: self.spec_nid(), ntype: Self::spec_type_id() }),
    {
        MartPointer::new(self.nid(), Self::type_id())
    }
}

#[derive(PartialEq, Eq, Structural)]
pub struct MartNilType;

impl IntoMartNode for MartNilType {
    open spec fn spec_bytes() -> nat {
        0
    }

    open spec fn spec_type_id() -> MartNodeTypes {
        MartNodeTypes::MartNilNode
    }

    open spec fn spec_nid(&self) -> u32 {
        MART_NILID
    }

    fn bytes() -> (r: usize) {
        0
    }

    fn type_id() -> (r: MartNodeTypes) {
        MartNodeTypes::MartNilNode
    }

    fn create(_nid: u32) -> (r: Self) {
        MartNilType
    }

    fn nid(&self) -> (r: u32) {
        MART_NILID
    }
}

#[derive(Debug, PartialEq, Eq, Structural, Clone, Copy)]
pub struct MartLeaf(pub u32);

impl IntoMartNode for MartLeaf {
    open spec fn spec_bytes() -> nat {
        1
    }

    open spec fn spec_type_id() -> MartNodeTypes {
        MartNodeTypes::MartLeafNode
    }

    open spec fn spec_nid(&self) -> u32 {
        self.0
    }

    fn bytes() -> (r: usize) {
        1
    }

    fn type_id() -> (r: MartNodeTypes) {
        MartNodeTypes::MartLeafNode
    }

    fn create(nid: u32) -> (r: Self) {
        MartLeaf(nid)
    }

    fn nid(&self) -> (r: u32) {
        self.0
    }
}

#[derive(Debug, PartialEq, Eq, Structural, Clone, Copy)]
pub struct MartNode2(pub u32);

impl IntoMartNode for MartNode2 {
    open spec fn spec_bytes() -> nat {
        2
    }

    open spec fn spec_type_id() -> MartNodeTypes {
        MartNodeTypes::Mart2Node
    }

    open spec fn spec_nid(&self) -> u32 {
        self.0
    }

    fn bytes() -> (r: usize) {
        2
    }

    fn type_id() -> (r: MartNodeTypes) {
        MartNodeTypes::Mart2Node
    }

    fn create(nid: u32) -> (r: Self) {
        MartNode2(nid)
    }

    fn nid(&self) -> (r: u32) {
        self.0
    }
}

#[derive(Debug, PartialEq, Eq, Structural, Clone, Copy)]
pub struct MartNode4(pub u32);

impl IntoMartNode for MartNode4 {
    open spec fn spec_bytes() -> nat {
        4
    }

    open spec fn spec_type_id() -> MartNodeTypes {
        MartNodeTypes::Mart4Node
    }

    open spec fn spec_nid(&self) -> u32 {
        self.0
    }

    fn bytes() -> (r: usize) {
        4
    }

    fn type_id() -> (r: MartNodeTypes) {
        MartNodeTypes::Mart4Node
    }

    fn create(nid: u32) -> (r: Self) {
        MartNode4(nid)
    }

    fn nid(&self) -> (r: u32) {
        self.0
    }
}

#[derive(Debug, PartialEq, Eq, Structural, Clone, Copy)]
pub struct MartNode8(pub u32);

impl IntoMartNode for MartNode8 {
    open spec fn spec_bytes() -> nat {
        8
    }

    open spec fn spec_type_id() -> MartNodeTypes {
        MartNodeTypes::Mart8Node
    }

    open spec fn spec_nid(&self) -> u32 {
        self.0
    }

    fn bytes() -> (r: usize) {
        8
    }

    fn type_id() -> (r: MartNodeTypes) {
        MartNodeTypes::Mart8Node
    }

    fn create(nid: u32) -> (r: Self) {
        MartNode8(nid)
    }

    fn nid(&self) -> (r: u32) {
        self.0
    }
}

#[derive(Debug, PartialEq, Eq, Structural, Clone, Copy)]
pub struct MartNode16(pub u32);

impl IntoMartNode for MartNode16 {
    open spec fn spec_bytes() -> nat {
        16
    }

    open spec fn spec_type_id() -> MartNodeTypes {
        MartNodeTypes::Mart16Node
    }

    open spec fn spec_nid(&self) -> u32 {
        self.0
    }

    fn bytes() -> (r: usize) {
        16
    }

    fn type_id() -> (r: MartNodeTypes) {
        MartNodeTypes::Mart16Node
    }

    fn create(nid: u32) -> (r: Self) {
        MartNode16(nid)
    }

    fn nid(&self) -> (r: u32) {
        self.0
    }
}

#[derive(Debug, PartialEq, Eq, Structural, Clone, Copy)]
pub struct MartNode32(pub u32);

impl IntoMartNode for MartNode32 {
    open spec fn spec_bytes() -> nat {
        32
    }

    open spec fn spec_type_id() -> MartNodeTypes {
        MartNodeTypes::Mart32Node
    }

    open spec fn spec_nid(&self) -> u32 {
        self.0
    }

    fn bytes() -> (r: usize) {
        32
    }

    fn type_id() -> (r: MartNodeTypes) {
        MartNodeTypes::Mart32Node
    }

    fn create(nid: u32) -> (r: Self) {
        MartNode32(nid)
    }

    fn nid(&self) -> (r: u32) {
        self.0
    }
}

#[derive(Debug, PartialEq, Eq, Structural, Clone, Copy)]
pub struct MartNode64(pub u32);

impl IntoMartNode for MartNode64 {
    open spec fn spec_bytes() -> nat {
        64
    }

    open spec fn spec_type_id() -> MartNodeTypes {
        MartNodeTypes::Mart64Node
    }

    open spec fn spec_nid(&self) -> u32 {
        self.0
    }

    fn bytes() -> (r: usize) {
        64
    }

    fn type_id() -> (r: MartNodeTypes) {
        MartNodeTypes::Mart64Node
    }

    fn create(nid: u32) -> (r: Self) {
        MartNode64(nid)
    }

    fn nid(&self) -> (r: u32) {
        self.0
    }
}

#[derive(Debug, PartialEq, Eq, Structural, Clone, Copy)]
pub struct MartNode128(pub u32);

impl IntoMartNode for MartNode128 {
    open spec fn spec_bytes() -> nat {
        128
    }

    open spec fn spec_type_id() -> MartNodeTypes {
        MartNodeTypes::Mart128Node
    }

    open spec fn spec_nid(&self) -> u32 {
        self.0
    }

    fn bytes() -> (r: usize) {
        128
    }

    fn type_id() -> (r: MartNodeTypes) {
        MartNodeTypes::Mart128Node
    }

    fn create(nid: u32) -> (r: Self) {
        MartNode128(nid)
    }

    fn nid(&self) -> (r: u32) {
        self.0
    }
}

#[derive(Debug, PartialEq, Eq, Structural, Clone, Copy)]
pub struct MartNode256(pub u32);

impl IntoMartNode for MartNode256 {
    open spec fn spec_bytes() -> nat {
        256
    }

    open spec fn spec_type_id() -> MartNodeTypes {
        MartNodeTypes::Mart256Node
    }

    open spec fn spec_nid(&self) -> u32 {
        self.0
    }

    fn bytes() -> (r: usize) {
        256
    }

    fn type_id() -> (r: MartNodeTypes) {
        MartNodeTypes::Mart256Node
    }

    fn create(nid: u32) -> (r: Self) {
        MartNode256(nid)
    }

    fn nid(&self) -> (r: u32) {
        self.0
    }
}

} // verus!
