//! A view: which lines of a document a client wants to see.

use vstd::prelude::*;
use super::buffer::BufferId;
use super::CoreError;
use crate::geometry::Vector2U;

verus! {

#[derive(Debug, Clone, Copy, Hash, PartialEq, Eq, PartialOrd, Ord, Structural)]
pub struct ViewId(pub usize);

impl ViewId {
    /// The id that no view has.
    pub fn invalid() -> (id: Self)
        ensures
            id == ViewId(0),
    {
        ViewId(0)
    }
}

pub struct View {
    /// unique identifier for this view.
    id: ViewId,
    /// the size of the view in pixels.
    size: Vector2U,
    /// the buffer associated with this view.
    buffer: BufferId,
    /// the first line visible
    start_line: usize,
    /// the number of lines this view can show
    lines: usize,
}

impl View {
    pub closed spec fn spec_id(self) -> ViewId {
        self.id
    }

    pub closed spec fn spec_buffer(self) -> BufferId {
        self.buffer
    }

    pub closed spec fn spec_size(self) -> Vector2U {
        self.size
    }

    pub closed spec fn spec_start_line(self) -> usize {
        self.start_line
    }

    pub closed spec fn spec_lines(self) -> usize {
        self.lines
    }

    /// A view with the given values. Never fails.
    pub fn new(id: usize, buffer: BufferId, size: Vector2U, start_line: usize, lines: usize) -> (view:
        Result<Self, CoreError>)
        ensures
            view is Ok,
            view->Ok_0.spec_id() == ViewId(id),
            view->Ok_0.spec_buffer() == buffer,
            view->Ok_0.spec_size() == size,
            view->Ok_0.spec_start_line() == start_line,
            view->Ok_0.spec_lines() == lines,
    {
        Ok(Self { id: ViewId(id), size, buffer, start_line, lines })
    }

    pub fn id(&self) -> (id: ViewId)
        ensures
            id == self.spec_id(),
    {
        self.id
    }

    pub fn buffer(&self) -> (buffer: BufferId)
        ensures
            buffer == self.spec_buffer(),
    {
        self.buffer
    }
}

#[derive(Debug, Clone)]
pub struct ViewInfo {
    /// view id
    pub view: ViewId,
    /// the pixel size of the new view
    pub size: Vector2U,
    /// the lines to be shown first
    pub start_line: usize,
    /// the number of lines show in this view
    pub lines: usize,
}

} // verus!
