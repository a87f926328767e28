//! The lines that a frame holds ready for display.

use vstd::prelude::*;
use crate::renderer::style::StyleSpan;

verus! {

/// One line laid out for display.
#[derive(Debug, Clone)]
pub struct Text<T> {
    /// the value
    pub text: String,
    /// the line number of this line in the text buffer.
    pub line_number: usize,
    /// is this line a visual line.
    pub visual_line: bool,
    /// optionally generated render data for this text
    pub assoc: Option<T>,
    /// the location of any cursors in this line.
    pub cursors: Vec<usize>,
    /// a list of styles to be used on text.
    /// the spans should be ordered and non overlapping. (if overlapping then the latter
    /// style will be used).
    pub styles: Vec<StyleSpan>,
}

impl<T> Text<T> {
    /// A line without render data, cursors or styles.
    pub fn from_string(line: usize, text: String) -> (record: Self)
        ensures
            record.text == text,
            record.line_number == line,
            !record.visual_line,
            record.assoc is None,
            record.cursors@ == Seq::<usize>::empty(),
            record.styles@ == Seq::<StyleSpan>::empty(),
    {
        Self::new(text, line, false, None, Vec::new(), Vec::new())
    }

    pub fn new(
        text: String,
        line_number: usize,
        visual_line: bool,
        assoc: Option<T>,
        cursors: Vec<usize>,
        styles: Vec<StyleSpan>,
    ) -> (record: Self)
        ensures
            record == (Text { text, line_number, visual_line, assoc, cursors, styles }),
    {
        Self { text, line_number, visual_line, assoc, cursors, styles }
    }

    /// Attaches render data to the line; nothing else changes.
    pub fn set_assoc(&mut self, assoc: T)
        ensures
            *final(self) == (Text { assoc: Some(assoc), ..*old(self) }),
    {
        self.assoc = Some(assoc);
    }
}

/// A fixed number of slots, each empty or holding a line.
#[derive(Debug, Clone)]
pub struct LineCache<T> {
    lines: Vec<Option<Text<T>>>,
}

impl<T> View for LineCache<T> {
    type V = Seq<Option<Text<T>>>;

    closed spec fn view(&self) -> Seq<Option<Text<T>>> {
        self.lines@
    }
}

impl<T> LineCache<T> {
    /// A cache of `size` empty slots.
    pub fn new(size: usize) -> (cache: Self)
        ensures
            cache@.len() == size,
            forall|i: int| 0 <= i < size ==> cache@[i] is None,
    {
        let mut lines: Vec<Option<Text<T>>> = Vec::new();
        while lines.len() < size
            invariant
                lines@.len() <= size,
                forall|i: int| 0 <= i < lines@.len() ==> lines@[i] is None,
            decreases size - lines@.len(),
        {
            lines.push(None);
        }
        Self { lines }
    }

    /// Puts `text` into slot `idx`; does nothing when there is no such
    /// slot.
    pub fn replace(&mut self, idx: usize, text: Text<T>)
        ensures
            final(self)@ == if idx < old(self)@.len() {
                old(self)@.update(idx as int, Some(text))
            } else {
                old(self)@
            },
    {
        if idx < self.lines.len() {
            self.lines.set(idx, Some(text));
        }
    }

    pub fn len(&self) -> (len: usize)
        ensures
            len == self@.len(),
    {
        self.lines.len()
    }

    pub fn lines(&self) -> (lines: &[Option<Text<T>>])
        ensures
            lines@ == self@,
    {
        self.lines.as_slice()
    }

    /// The slots, to write to: what they hold when the borrow ends is what
    /// the cache then holds.
    pub fn lines_mut(&mut self) -> (lines: &mut [Option<Text<T>>])
        ensures
            lines@ == old(self)@,
            final(lines)@ == final(self)@,
    {
        self.lines.as_mut_slice()
    }

    /// Moves the slots towards the front by as many places as `fresh` is
    /// long: the first slots are dropped, the others keep what they hold, and
    /// `fresh` fills the slots that come free at the back.
    pub fn scroll_forward(&mut self, fresh: Vec<Option<Text<T>>>)
        requires
            fresh@.len() <= old(self)@.len(),
        ensures
            final(self)@ == old(self)@.skip(fresh@.len() as int) + fresh@,
    {
        let mut fresh = fresh;
        let mut kept = self.lines.split_off(fresh.len());
        kept.append(&mut fresh);
        self.lines = kept;
    }

    /// Moves the slots towards the back by as many places as `fresh` is
    /// long: the last slots are dropped, the others keep what they hold, and
    /// `fresh` fills the slots that come free at the front.
    pub fn scroll_backward(&mut self, fresh: Vec<Option<Text<T>>>)
        requires
            fresh@.len() <= old(self)@.len(),
        ensures
            final(self)@ == fresh@ + old(self)@.take(old(self)@.len() - fresh@.len()),
    {
        let mut fresh = fresh;
        let keep = self.lines.len() - fresh.len();
        self.lines.truncate(keep);
        fresh.append(&mut self.lines);
        self.lines = fresh;
    }
}

} // verus!
