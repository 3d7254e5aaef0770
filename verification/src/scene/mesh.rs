use vstd::prelude::*;

verus! {

/// The index data of an imported mesh, in the width the file stores it.
pub enum IndexBufferProxy {
    NoIndices,
    U8(Vec<u8>),
    U16(Vec<u16>),
    U32(Vec<u32>),
}

impl IndexBufferProxy {
    /// Size of one index in bytes; 0 when the mesh has no indices.
    pub fn index_size_bytes(&self) -> (r: u8)
        ensures
            r == (match self {
                IndexBufferProxy::NoIndices => 0u8,
                IndexBufferProxy::U8(_) => 1u8,
                IndexBufferProxy::U16(_) => 2u8,
                IndexBufferProxy::U32(_) => 4u8,
            }),
    {
        match self {
            IndexBufferProxy::NoIndices => 0u8,
            IndexBufferProxy::U8(_) => 1u8,
            IndexBufferProxy::U16(_) => 2u8,
            IndexBufferProxy::U32(_) => 4u8,
        }
    }

    /// Number of indices; 0 when the mesh has none.
    pub fn index_count(&self) -> (r: usize)
        ensures
            r == (match self {
                IndexBufferProxy::NoIndices => 0,
                IndexBufferProxy::U8(v) => v@.len(),
                IndexBufferProxy::U16(v) => v@.len(),
                IndexBufferProxy::U32(v) => v@.len(),
            }),
    {
        match self {
            IndexBufferProxy::NoIndices => 0,
            IndexBufferProxy::U8(v) => v.len(),
            IndexBufferProxy::U16(v) => v.len(),
            IndexBufferProxy::U32(v) => v.len(),
        }
    }
}

} // verus!
