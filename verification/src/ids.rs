//! Identifiers of frames and pipelines.

use vstd::prelude::*;

verus! {

/// The identifier of a frame (a browsing context).
#[derive(Clone, Copy, Debug, PartialEq, Eq, Structural, Hash)]
pub struct FrameId {
    /// The namespace the identifier was made in.
    pub namespace_id: u32,
    /// The index of the identifier within its namespace.
    pub index: u32,
}

/// The identifier of a pipeline (a document loaded in a frame).
#[derive(Clone, Copy, Debug, PartialEq, Eq, Structural, Hash)]
pub struct PipelineId {
    /// The namespace the identifier was made in.
    pub namespace_id: u32,
    /// The index of the identifier within its namespace.
    pub index: u32,
}

/// The 64-bit key that packs a namespace and an index: the namespace in
/// the upper 32 bits, the index in the lower 32.
pub open spec fn pack_key(namespace_id: u32, index: u32) -> u64 {
    (namespace_id as int * 0x1_0000_0000 + index as int) as u64
}

/// Two identifiers with the same key are the same identifier.
pub proof fn lemma_pack_key_injective(n1: u32, i1: u32, n2: u32, i2: u32)
    requires
        pack_key(n1, i1) == pack_key(n2, i2),
    ensures
        n1 == n2 && i1 == i2,
{
    assert(n1 as int * 0x1_0000_0000 + i1 as int <= u64::MAX) by (nonlinear_arith)
        requires
            n1 <= u32::MAX,
            i1 <= u32::MAX,
    ;
    assert(n2 as int * 0x1_0000_0000 + i2 as int <= u64::MAX) by (nonlinear_arith)
        requires
            n2 <= u32::MAX,
            i2 <= u32::MAX,
    ;
    assert(n1 == n2 && i1 == i2) by (nonlinear_arith)
        requires
            n1 as int * 0x1_0000_0000 + i1 as int == n2 as int * 0x1_0000_0000 + i2 as int,
            0 <= i1 < 0x1_0000_0000,
            0 <= i2 < 0x1_0000_0000,
            0 <= n1,
            0 <= n2,
    ;
}

fn pack(namespace_id: u32, index: u32) -> (r: u64)
    ensures
        r == pack_key(namespace_id, index),
{
    assert(namespace_id as int * 0x1_0000_0000 + index as int <= u64::MAX) by (nonlinear_arith)
        requires
            namespace_id <= u32::MAX,
            index <= u32::MAX,
    ;
    (namespace_id as u64) * 0x1_0000_0000 + (index as u64)
}

impl FrameId {
    /// The key of this identifier in the maps of frames.
    pub open spec fn spec_key(self) -> u64 {
        pack_key(self.namespace_id, self.index)
    }

    /// The key of this identifier in the maps of frames.
    pub fn key(&self) -> (r: u64)
        ensures
            r == self.spec_key(),
    {
        pack(self.namespace_id, self.index)
    }
}

impl PipelineId {
    /// The key of this identifier in the maps of pipelines.
    pub open spec fn spec_key(self) -> u64 {
        pack_key(self.namespace_id, self.index)
    }

    /// The key of this identifier in the maps of pipelines.
    pub fn key(&self) -> (r: u64)
        ensures
            r == self.spec_key(),
    {
        pack(self.namespace_id, self.index)
    }
}

} // verus!
