//! How the frames of a window are arranged.

use vstd::prelude::*;
use super::frame::FrameId;

verus! {

#[derive(Debug, Clone, Copy, PartialEq, Eq, Structural)]
pub struct FrameInfo {
    pub frame: FrameId,
}

#[derive(Debug, Clone, Copy, PartialEq, Eq, Structural)]
pub enum Layout {
    Vertical,
    Horizontal,
    Frame(FrameInfo),
}

#[derive(Debug, Clone)]
pub struct FrameLayout {
    layout: Vec<Layout>,
}

/// Walks the frames of a layout in order, passing over the splits.
pub struct FrameIter<'a> {
    layout: &'a FrameLayout,
    pos: usize,
}

impl View for FrameLayout {
    type V = Seq<Layout>;

    closed spec fn view(&self) -> Seq<Layout> {
        self.layout@
    }
}

impl FrameLayout {
    pub fn new() -> (layout: Self)
        ensures
            layout@ == Seq::<Layout>::empty(),
    {
        Self { layout: Vec::new() }
    }

    pub fn get(&self, idx: usize) -> (entry: Option<&Layout>)
        ensures
            entry == if idx < self@.len() {
                Some(&self@[idx as int])
            } else {
                None
            },
    {
        if idx < self.layout.len() {
            Some(&self.layout[idx])
        } else {
            None
        }
    }

    /// The entry at `idx`, to write to: what it is when the borrow ends is
    /// what the layout then holds at `idx`.
    pub fn get_mut(&mut self, idx: usize) -> (entry: Option<&mut Layout>)
        ensures
            match entry {
                Some(entry) => {
                    &&& idx < old(self)@.len()
                    &&& *entry == old(self)@[idx as int]
                    &&& final(self)@ == old(self)@.update(idx as int, *final(entry))
                },
                None => idx >= old(self)@.len() && final(self)@ == old(self)@,
            },
    {
        if idx < self.layout.len() {
            Some(&mut self.layout[idx])
        } else {
            None
        }
    }

    pub fn push_frame(&mut self, frame_info: FrameInfo)
        ensures
            final(self)@ == old(self)@.push(Layout::Frame(frame_info)),
    {
        self.layout.push(Layout::Frame(frame_info));
    }

    pub fn frame_iter(&self) -> (iter: FrameIter<'_>)
        ensures
            iter.layout() == self@,
            iter.pos() == 0,
    {
        FrameIter { layout: self, pos: 0 }
    }
}

impl<'a> FrameIter<'a> {
    /// The layout that is walked.
    pub closed spec fn layout(self) -> Seq<Layout> {
        self.layout@
    }

    /// The position of the entry that is looked at next.
    pub closed spec fn pos(self) -> int {
        self.pos as int
    }

    /// The next frame of the layout: the first entry from the current
    /// position on that is a frame. `None` when no frame is left.
    #[verifier::loop_isolation(false)]
    pub fn next(&mut self) -> (frame: Option<&'a FrameInfo>)
        ensures
            final(self).layout() == old(self).layout(),
            match frame {
                Some(info) => {
                    &&& old(self).pos() < final(self).pos() <= old(self).layout().len()
                    &&& old(self).layout()[final(self).pos() - 1] == Layout::Frame(*info)
                    &&& forall|i: int|
                        old(self).pos() <= i < final(self).pos() - 1 ==> !(
                        #[trigger] old(self).layout()[i] is Frame)
                },
                None => {
                    &&& final(self).pos() >= old(self).layout().len()
                    &&& final(self).pos() >= old(self).pos()
                    &&& forall|i: int|
                        old(self).pos() <= i < old(self).layout().len() ==> !(
                        #[trigger] old(self).layout()[i] is Frame)
                },
            },
    {
        let layout: &'a FrameLayout = self.layout;
        let ghost start = self.pos;
        while self.pos < layout.layout.len()
            invariant
                self.layout == layout,
                start <= self.pos,
                forall|i: int| start <= i < self.pos && i < layout@.len() ==> !(
                #[trigger] layout@[i] is Frame),
            decreases layout.layout@.len() - self.pos,
        {
            let at = self.pos;
            self.pos = at + 1;
            match &layout.layout[at] {
                Layout::Vertical | Layout::Horizontal => {},
                Layout::Frame(info) => {
                    return Some(info);
                },
            }
        }
        None
    }
}

} // verus!
