//! The label bytes of a node: they follow its header.

use crate::dyft::node::mart_vec::MartVec;
use crate::dyft::node::traits::MartOffsets;
use vstd::prelude::*;

verus! {

/// A byte vector of nodes together with access to their label bytes.
pub struct ByteLabels<T: MartOffsets> {
    pub inner: MartVec<T>,
}

impl<T: MartOffsets> ByteLabels<T> {
    pub fn new(inner: MartVec<T>) -> (r: Self)
        ensures
            r.inner == inner,
    {
        Self { inner }
    }

    /// Index, within all bytes, of label byte `idx` of node `node_id`.
    pub fn label_offset(&self, node_id: u32, idx: usize) -> (r: usize)
        requires
            self.inner.wf(),
            node_id < self.inner@.len(),
            1 + idx < T::spec_ptrs_offset(),
        ensures
            r == node_id * T::spec_bytes() + 1 + idx,
    {
        self.inner.header_index(node_id) + 1 + idx
    }

    /// Label byte `idx` of node `node_id`.
    pub fn label(&self, node_id: u32, idx: usize) -> (r: u8)
        requires
            self.inner.wf(),
            node_id < self.inner@.len(),
            1 + idx < T::spec_ptrs_offset(),
        ensures
            r == self.inner@[node_id as int][1 + idx],
    {
        self.inner.read(node_id, 1 + idx)
    }

    /// Sets label byte `idx` of node `node_id`.
    pub fn set_label(&mut self, node_id: u32, idx: usize, value: u8)
        requires
            old(self).inner.wf(),
            node_id < old(self).inner@.len(),
            1 + idx < T::spec_ptrs_offset(),
        ensures
            final(self).inner.wf(),
            final(self).inner@ == old(self).inner@.update(
                node_id as int,
                old(self).inner@[node_id as int].update(1 + idx, value),
            ),
    {
        self.inner.write(node_id, 1 + idx, value)
    }
}

} // verus!
