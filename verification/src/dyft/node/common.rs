//! Tagged node references, the cursor that insertion moves down the trie,
//! and labelled edges.

use vstd::prelude::*;

verus! {

/// Node id of the nil reference.
pub const MART_NILID: u32 = u32::MAX;

/// The byte that marks an unused label or slot index.
pub const MART_NIL_LABEL: u8 = u8::MAX;

pub const MART_NID_BITS: usize = 32;

pub const MART_NTYPE_BITS: usize = 8;

/// Bytes of a stored reference: four of the node id, lowest first, and one
/// of the tag.
pub const MART_PTR_SIZE: usize = 5;

pub type RawMartPointer = [u8; 5];

pub type MartNodeId = u32;

pub type MartByteLabel = u8;

pub type MartPointerOffset = usize;

/// What an insertion into a node came to.
#[derive(Debug, Copy, Clone, PartialEq, Eq, Structural)]
pub enum MartInsertFlags {
    /// The label was there; the cursor now stands on its child.
    MartFound,
    /// The label was added with the given child.
    MartInserted,
    /// The label was not there and the node is full.
    MartNeededToExpand,
}

/// The tag of a reference: which arena, if any, the id belongs to.
#[derive(Debug, Clone, Copy, PartialEq, Eq, Structural, Hash)]
pub enum MartNodeTypes {
    MartLeafNode,
    Mart2Node,
    Mart4Node,
    Mart8Node,
    Mart16Node,
    Mart32Node,
    Mart64Node,
    Mart128Node,
    Mart256Node,
    MartNilNode,
}

/// The tag byte of a node type.
pub open spec fn tag_of(t: MartNodeTypes) -> u8 {
    match t {
        MartNodeTypes::MartLeafNode => 0,
        MartNodeTypes::Mart2Node => 1,
        MartNodeTypes::Mart4Node => 2,
        MartNodeTypes::Mart8Node => 3,
        MartNodeTypes::Mart16Node => 4,
        MartNodeTypes::Mart32Node => 5,
        MartNodeTypes::Mart64Node => 6,
        MartNodeTypes::Mart128Node => 7,
        MartNodeTypes::Mart256Node => 8,
        MartNodeTypes::MartNilNode => 9,
    }
}

/// The node type of a tag byte; every byte above 8 stands for nil.
pub open spec fn type_of_tag(b: u8) -> MartNodeTypes {
    if b == 0 {
        MartNodeTypes::MartLeafNode
    } else if b == 1 {
        MartNodeTypes::Mart2Node
    } else if b == 2 {
        MartNodeTypes::Mart4Node
    } else if b == 3 {
        MartNodeTypes::Mart8Node
    } else if b == 4 {
        MartNodeTypes::Mart16Node
    } else if b == 5 {
        MartNodeTypes::Mart32Node
    } else if b == 6 {
        MartNodeTypes::Mart64Node
    } else if b == 7 {
        MartNodeTypes::Mart128Node
    } else if b == 8 {
        MartNodeTypes::Mart256Node
    } else {
        MartNodeTypes::MartNilNode
    }
}

/// Fan-out of the tier that a tag names; 0 for leaf and nil.
pub open spec fn fanout_of(t: MartNodeTypes) -> nat {
    match t {
        MartNodeTypes::MartLeafNode => 0,
        MartNodeTypes::Mart2Node => 2,
        MartNodeTypes::Mart4Node => 4,
        MartNodeTypes::Mart8Node => 8,
        MartNodeTypes::Mart16Node => 16,
        MartNodeTypes::Mart32Node => 32,
        MartNodeTypes::Mart64Node => 64,
        MartNodeTypes::Mart128Node => 128,
        MartNodeTypes::Mart256Node => 256,
        MartNodeTypes::MartNilNode => 0,
    }
}

impl MartNodeTypes {
    /// The tag byte.
    pub fn tag(self) -> (r: u8)
        ensures
            r == tag_of(self),
    {
        match self {
            MartNodeTypes::MartLeafNode => 0,
            MartNodeTypes::Mart2Node => 1,
            MartNodeTypes::Mart4Node => 2,
            MartNodeTypes::Mart8Node => 3,
            MartNodeTypes::Mart16Node => 4,
            MartNodeTypes::Mart32Node => 5,
            MartNodeTypes::Mart64Node => 6,
            MartNodeTypes::Mart128Node => 7,
            MartNodeTypes::Mart256Node => 8,
            MartNodeTypes::MartNilNode => 9,
        }
    }

    /// The node type of a tag byte.
    pub fn from_tag(value: u8) -> (r: Self)
        ensures
            r == type_of_tag(value),
    {
        match value {
            0 => MartNodeTypes::MartLeafNode,
            1 => MartNodeTypes::Mart2Node,
            2 => MartNodeTypes::Mart4Node,
            3 => MartNodeTypes::Mart8Node,
            4 => MartNodeTypes::Mart16Node,
            5 => MartNodeTypes::Mart32Node,
            6 => MartNodeTypes::Mart64Node,
            7 => MartNodeTypes::Mart128Node,
            8 => MartNodeTypes::Mart256Node,
            _ => MartNodeTypes::MartNilNode,
        }
    }

    /// Whether the tag names one of the eight node tiers.
    pub open spec fn is_inner(self) -> bool {
        self != MartNodeTypes::MartLeafNode && self != MartNodeTypes::MartNilNode
    }
}

/// A tag survives the way through its byte.
pub proof fn lemma_tag_round_trip(t: MartNodeTypes)
    ensures
        type_of_tag(tag_of(t)) == t,
        tag_of(t) <= 9,
{
}

/// A reference to a node or a leaf: an id and the tag that says where the
/// id lives.
#[derive(Debug, Copy, Clone, PartialEq, Eq, Structural, Hash)]
pub struct MartPointer {
    pub nid: u32,
    pub ntype: MartNodeTypes,
}

/// The node id that four bytes spell, lowest byte first.
pub open spec fn nid_of_bytes(b0: u8, b1: u8, b2: u8, b3: u8) -> u32 {
    (b0 as int + 0x100 * (b1 as int) + 0x1_0000 * (b2 as int) + 0x100_0000 * (b3 as int)) as u32
}

/// The five bytes of a stored reference.
pub open spec fn ptr_bytes(p: MartPointer) -> Seq<u8> {
    seq![
        (p.nid % 0x100) as u8,
        ((p.nid / 0x100) % 0x100) as u8,
        ((p.nid / 0x1_0000) % 0x100) as u8,
        (p.nid / 0x100_0000) as u8,
        tag_of(p.ntype),
    ]
}

/// The reference that five bytes spell.
pub open spec fn ptr_of_bytes(s: Seq<u8>) -> MartPointer {
    MartPointer { nid: nid_of_bytes(s[0], s[1], s[2], s[3]), ntype: type_of_tag(s[4]) }
}

/// Whether four id bytes spell the nil id: all of them 0xFF.
pub open spec fn nil_nid_bytes(s: Seq<u8>) -> bool {
    s[0] == 0xFF && s[1] == 0xFF && s[2] == 0xFF && s[3] == 0xFF
}

/// A reference survives the way through its bytes, and its id bytes are all
/// 0xFF exactly for the nil id.
pub proof fn lemma_ptr_round_trip(p: MartPointer)
    ensures
        ptr_bytes(p).len() == 5,
        ptr_of_bytes(ptr_bytes(p)) == p,
        nil_nid_bytes(ptr_bytes(p)) == (p.nid == MART_NILID),
{
    lemma_tag_round_trip(p.ntype);
}

/// The id that four bytes spell is nil exactly when all are 0xFF.
pub proof fn lemma_nil_bytes(s: Seq<u8>)
    requires
        s.len() >= 4,
    ensures
        nil_nid_bytes(s) == (nid_of_bytes(s[0], s[1], s[2], s[3]) == MART_NILID),
{
}

impl MartPointer {
    pub fn new(nid: u32, ntype: MartNodeTypes) -> (r: Self)
        ensures
            r == (MartPointer { nid, ntype }),
    {
        Self { nid, ntype }
    }

    /// The reference to leaf `nid`.
    pub fn leaf(nid: u32) -> (r: Self)
        ensures
            r == (MartPointer { nid, ntype: MartNodeTypes::MartLeafNode }),
    {
        MartPointer { nid, ntype: MartNodeTypes::MartLeafNode }
    }

    pub fn is_leaf(&self) -> (r: bool)
        ensures
            r == (self.ntype == MartNodeTypes::MartLeafNode),
    {
        self.ntype == MartNodeTypes::MartLeafNode
    }

    /// The nil reference.
    pub fn nil() -> (r: Self)
        ensures
            r == (MartPointer { nid: MART_NILID, ntype: MartNodeTypes::MartNilNode }),
    {
        MartPointer { nid: MART_NILID, ntype: MartNodeTypes::MartNilNode }
    }

    /// The bytes of an empty slot.
    pub fn nil_raw() -> (r: RawMartPointer)
        ensures
            r@ == seq![0xFFu8, 0xFFu8, 0xFFu8, 0xFFu8, 0xFFu8],
    {
        let r: [u8; 5] = [0xFF, 0xFF, 0xFF, 0xFF, 0xFF];
        assert(r@ =~= seq![0xFFu8, 0xFFu8, 0xFFu8, 0xFFu8, 0xFFu8]);
        r
    }

    /// Whether the reference refers to nothing: by its id or by its tag.
    pub open spec fn spec_is_null(&self) -> bool {
        self.nid == MART_NILID || self.ntype == MartNodeTypes::MartNilNode
    }

    pub fn is_null_ptr(&self) -> (r: bool)
        ensures
            r == self.spec_is_null(),
    {
        self.nid == MART_NILID || self.ntype == MartNodeTypes::MartNilNode
    }

    pub fn nid(&self) -> (r: u32)
        ensures
            r == self.nid,
    {
        self.nid
    }

    pub fn nid_idx(&self) -> (r: usize)
        ensures
            r == self.nid,
    {
        self.nid as usize
    }

    pub fn nid_mut(&mut self) -> (r: &mut u32)
        ensures
            *r == old(self).nid,
            *final(self) == (MartPointer { nid: *final(r), ntype: old(self).ntype }),
    {
        &mut self.nid
    }

    pub fn ntype(&self) -> (r: MartNodeTypes)
        ensures
            r == self.ntype,
    {
        self.ntype
    }

    pub fn ntype_mut(&mut self) -> (r: &mut MartNodeTypes)
        ensures
            *r == old(self).ntype,
            *final(self) == (MartPointer { nid: old(self).nid, ntype: *final(r) }),
    {
        &mut self.ntype
    }

    /// The five bytes under which the reference is stored.
    pub fn to_raw(&self) -> (r: RawMartPointer)
        ensures
            r@ == ptr_bytes(*self),
    {
        let nid = self.nid;
        let r: [u8; 5] = [
            (nid % 0x100) as u8,
            ((nid / 0x100) % 0x100) as u8,
            ((nid / 0x1_0000) % 0x100) as u8,
            (nid / 0x100_0000) as u8,
            self.ntype.tag(),
        ];
        assert(r@ =~= ptr_bytes(*self));
        r
    }

    /// The reference stored under five bytes.
    pub fn from_raw(value: &RawMartPointer) -> (r: Self)
        ensures
            r == ptr_of_bytes(value@),
    {
        let nid: u32 = (value[0] as u32) + 0x100 * (value[1] as u32) + 0x1_0000 * (value[2] as u32)
            + 0x100_0000 * (value[3] as u32);
        MartPointer { nid, ntype: MartNodeTypes::from_tag(value[4]) }
    }

    /// The reference stored under a slice of exactly five bytes; the nil
    /// reference as the error for any other length.
    pub fn try_from_slice(value: &[u8]) -> (r: Result<Self, Self>)
        ensures
            value@.len() == 5 ==> r == Ok::<Self, Self>(ptr_of_bytes(value@)),
            value@.len() != 5 ==> r == Err::<Self, Self>(
                MartPointer { nid: MART_NILID, ntype: MartNodeTypes::MartNilNode },
            ),
    {
        if value.len() == 5 {
            let raw: [u8; 5] = [value[0], value[1], value[2], value[3], value[4]];
            Ok(MartPointer::from_raw(&raw))
        } else {
            Err(MartPointer::nil())
        }
    }
}

impl Default for MartPointer {
    fn default() -> (r: Self)
        ensures
            r == (MartPointer { nid: MART_NILID, ntype: MartNodeTypes::MartNilNode }),
    {
        MartPointer::nil()
    }
}

/// Where insertion stands: on `nptr`, which was reached from slot `offset`
/// of `pptr`.
#[derive(Debug)]
pub struct MartCursor {
    pub offset: MartPointerOffset,
    pub pptr: MartPointer,
    pub nptr: MartPointer,
}

impl MartCursor {
    pub fn new(offset: MartPointerOffset, pptr: MartPointer, nptr: MartPointer) -> (r: Self)
        ensures
            r.offset == offset,
            r.pptr == pptr,
            r.nptr == nptr,
    {
        Self { offset, pptr, nptr }
    }

    /// The cursor that stands on `nptr` without a parent.
    pub fn from_next(nptr: &MartPointer) -> (r: Self)
        ensures
            r.offset == MART_NILID as usize,
            r.pptr == (MartPointer { nid: MART_NILID, ntype: MartNodeTypes::MartNilNode }),
            r.nptr == *nptr,
    {
        Self {
            offset: MART_NILID as usize,
            pptr: MartPointer::nil(),
            nptr: MartPointer { nid: nptr.nid(), ntype: nptr.ntype() },
        }
    }

    pub fn offset(&self) -> (r: MartPointerOffset)
        ensures
            r == self.offset,
    {
        self.offset
    }

    pub fn pptr(&self) -> (r: &MartPointer)
        ensures
            *r == self.pptr,
    {
        &self.pptr
    }

    pub fn nptr(&self) -> (r: &MartPointer)
        ensures
            *r == self.nptr,
    {
        &self.nptr
    }

    pub fn nptr_mut(&mut self) -> (r: &mut MartPointer)
        ensures
            *r == old(self).nptr,
            final(self).nptr == *final(r),
            final(self).pptr == old(self).pptr,
            final(self).offset == old(self).offset,
    {
        &mut self.nptr
    }

    pub fn ntype(&self) -> (r: MartNodeTypes)
        ensures
            r == self.nptr.ntype,
    {
        self.nptr.ntype
    }

    pub fn ptype(&self) -> (r: MartNodeTypes)
        ensures
            r == self.pptr.ntype,
    {
        self.pptr.ntype
    }

    /// Steps down: the node stood on becomes the parent, `nptr` the node
    /// stood on, reached from slot `offset`.
    pub fn update(&mut self, offset: MartPointerOffset, nptr: &MartPointer)
        ensures
            final(self).offset == offset,
            final(self).pptr == old(self).nptr,
            final(self).nptr == *nptr,
    {
        self.offset = offset;
        self.pptr = MartPointer::new(self.nptr.nid(), self.nptr.ntype());
        self.nptr = MartPointer::new(nptr.nid(), nptr.ntype());
    }

    pub fn is_leaf(&self) -> (r: bool)
        ensures
            r == (self.nptr.ntype == MartNodeTypes::MartLeafNode),
    {
        self.nptr.ntype == MartNodeTypes::MartLeafNode
    }
}

/// An edge of a node: a label and the child under it.
#[derive(Debug, Clone, Copy, PartialEq, Eq, Structural)]
pub struct MartEdge {
    pub label: u8,
    pub ptr: MartPointer,
}

impl MartEdge {
    pub fn label_idx(&self) -> (r: usize)
        ensures
            r == self.label,
    {
        self.label as usize
    }

    pub fn is_leaf(&self) -> (r: bool)
        ensures
            r == (self.ptr.ntype == MartNodeTypes::MartLeafNode),
    {
        self.ptr.is_leaf()
    }
}

} // verus!
