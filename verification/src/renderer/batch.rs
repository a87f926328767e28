//! Batches of vertex data, and when a batch has to be flushed.

use vstd::prelude::*;

verus! {

/// mode for how the renderer is to render data.
#[derive(Debug, Clone, Copy, PartialEq, Eq, Structural)]
pub enum RenderMode {
    Text,
    Rect,
    /// nothing has been submitted since the last flush
    Idle,
}

/// The result of adding a new element to render buffers.
#[derive(Debug, Clone, Copy, PartialEq, Eq, Structural)]
pub enum SubmitResult {
    /// when the data buffer for the current mode is full then a
    /// flush most be executed.
    BufferFull,
    /// When the render mode changes then currently active buffer
    /// flushed to allow for the mode to change.
    ChangeMode,
    /// Element was added without error.
    Added,
}

/// Data of one vertex, as a batch holds it.
pub trait Vertex {

}

/// Vertex data collected for one draw call, up to a limit that the batch
/// is made with.
pub struct Batch<T> {
    pub data: Vec<T>,
    /// how many elements the batch was made for
    pub limit: usize,
}

impl<T: Clone> Batch<T> {
    /// The limit that the batch was made with.
    pub open spec fn spec_capacity(self) -> usize {
        self.limit
    }

    /// An empty batch for up to `size` elements.
    pub fn new(size: usize) -> (batch: Self)
        ensures
            batch.data@ == Seq::<T>::empty(),
            batch.spec_capacity() == size,
    {
        Self { data: Vec::with_capacity(size), limit: size }
    }

    pub fn len(&self) -> (len: usize)
        ensures
            len == self.data@.len(),
    {
        self.data.len()
    }

    pub fn capacity(&self) -> (capacity: usize)
        ensures
            capacity == self.spec_capacity(),
    {
        self.limit
    }

    /// Whether one more element can be added and the batch is then still
    /// below its limit.
    pub fn has_room(&self) -> (room: bool)
        ensures
            room == (self.data@.len() + 1 < self.spec_capacity()),
    {
        let len = self.len();
        len < self.limit && len + 1 < self.limit
    }

    /// Adds a copy of `data` at the end of the batch.
    pub fn push(&mut self, data: &T)
        ensures
            final(self).data@.len() == old(self).data@.len() + 1,
            final(self).data@.take(old(self).data@.len() as int) == old(self).data@,
            cloned::<T>(*data, final(self).data@.last()),
            final(self).spec_capacity() == old(self).spec_capacity(),
    {
        let ghost before = self.data@;
        self.data.push(data.clone());
        assert(self.data@.take(before.len() as int) =~= before);
    }

    pub fn clear(&mut self)
        ensures
            final(self).data@ == Seq::<T>::empty(),
            final(self).spec_capacity() == old(self).spec_capacity(),
    {
        self.data.clear();
    }
}

/// What has to happen before an element of mode `wanted` goes into its
/// batch while the renderer is in mode `mode`: the active batch is flushed
/// when the mode changes, or when the batch of the mode has no room; else
/// nothing.
pub fn submit(mode: RenderMode, wanted: RenderMode, has_room: bool) -> (result: SubmitResult)
    ensures
        result == if mode != wanted {
            SubmitResult::ChangeMode
        } else if !has_room {
            SubmitResult::BufferFull
        } else {
            SubmitResult::Added
        },
{
    if mode != wanted {
        SubmitResult::ChangeMode
    } else if !has_room {
        SubmitResult::BufferFull
    } else {
        SubmitResult::Added
    }
}

/// The indices of the two triangles that make up a quad.
pub fn generate_indices() -> (indices: Vec<u32>)
    ensures
        indices@ == seq![0u32, 1u32, 2u32, 0u32, 2u32, 3u32],
{
    let mut indices: Vec<u32> = Vec::new();
    indices.push(0);
    indices.push(1);
    indices.push(2);
    indices.push(0);
    indices.push(2);
    indices.push(3);
    assert(indices@ =~= seq![0u32, 1u32, 2u32, 0u32, 2u32, 3u32]);
    indices
}

} // verus!
