//! A state of the search: a node, the byte position of the label that is
//! looked up in it, and the distance used up on the way to it.

use crate::dyft::node::common::{MartNodeTypes, MartPointer};
use vstd::prelude::*;

verus! {

#[derive(Debug, Copy, Clone, PartialEq, Eq, Structural)]
pub struct StateType {
    pub nptr: MartPointer,
    pub bpos: usize,
    pub dist: u8,
}

impl StateType {
    /// The state one level down: at node `nid` of tier `ntype`, with `dist`
    /// more distance used up.
    pub fn next(&self, nid: u32, ntype: MartNodeTypes, dist: u8) -> (r: StateType)
        requires
            self.bpos < usize::MAX,
            self.dist + dist <= u8::MAX,
        ensures
            r.nptr == (MartPointer { nid, ntype }),
            r.bpos == self.bpos + 1,
            r.dist == self.dist + dist,
    {
        StateType { nptr: MartPointer::new(nid, ntype), bpos: self.bpos + 1, dist: self.dist + dist }
    }

    pub fn new(nptr: MartPointer, bpos: usize, dist: u8) -> (r: Self)
        ensures
            r.nptr == nptr,
            r.bpos == bpos,
            r.dist == dist,
    {
        Self { nptr, bpos, dist }
    }

    pub fn pos(&self) -> (r: usize)
        ensures
            r == self.bpos,
    {
        self.bpos
    }

    pub fn pos_mut(&mut self) -> (r: &mut usize)
        ensures
            *r == old(self).bpos,
            final(self).bpos == *final(r),
            final(self).nptr == old(self).nptr,
            final(self).dist == old(self).dist,
    {
        &mut self.bpos
    }

    pub fn ptr(&self) -> (r: &MartPointer)
        ensures
            *r == self.nptr,
    {
        &self.nptr
    }

    pub fn ptr_mut(&mut self) -> (r: &mut MartPointer)
        ensures
            *r == old(self).nptr,
            final(self).nptr == *final(r),
            final(self).bpos == old(self).bpos,
            final(self).dist == old(self).dist,
    {
        &mut self.nptr
    }

    pub fn dist(&self) -> (r: u8)
        ensures
            r == self.dist,
    {
        self.dist
    }

    pub fn ntype(&self) -> (r: MartNodeTypes)
        ensures
            r == self.nptr.ntype,
    {
        self.nptr.ntype
    }

    pub fn nid(&self) -> (r: u32)
        ensures
            r == self.nptr.nid,
    {
        self.nptr.nid
    }
}

} // verus!
