//! A frame: a window of fixed height over the lines of a document.
//!
//! A frame holds one slot for each line that it can show. Slot `i` stands
//! for line `view.start + i` of the document and is empty where the document
//! has no such line. Scrolling moves the slots that stay visible and lays
//! out only the lines that come into view.

use std::ops::Range;
use vstd::prelude::*;
use vstd::utf8::*;
use crate::engine::buffer::{Buffer, BufferId};
use crate::engine::store::TextStore;
use crate::geometry::Vector2U;
use crate::renderer::style::{Span, StyleId, StyleSpan};
use crate::ui::edits::Operation;
use crate::ui::line_cache::{LineCache, Text};

verus! {

#[derive(Debug, Clone, Copy, PartialEq, Eq, Structural)]
pub enum CursorMotion {
    Left,
    Right,
    Up,
    Down,
}

/// cursor position, zero-indexed.
#[derive(Debug, Clone, Copy, PartialEq, Eq, Structural)]
pub struct Cursor {
    pub line: usize,
    pub column: usize,
}

impl Cursor {
    pub fn new(line: usize, column: usize) -> (cursor: Self)
        ensures
            cursor.line == line,
            cursor.column == column,
    {
        Self { line, column }
    }

    #[inline]
    pub fn line(&self) -> (line: usize)
        ensures
            line == self.line,
    {
        self.line
    }

    #[inline]
    pub fn column(&self) -> (column: usize)
        ensures
            column == self.column,
    {
        self.column
    }
}

#[derive(Debug, Clone, Copy, Hash, Ord, PartialOrd, Eq, PartialEq, Structural)]
pub struct FrameId(pub usize);

/// schemas for how the buffer can be invalidated
#[derive(Debug, Clone, Copy, PartialEq, Eq, Structural)]
pub enum Invalidation {
    /// the frame is new and needs to be populated.
    Init,
    /// The user scrolled up, towards the start of the document, by this
    /// many pixels and lines
    ScrollUp { pixels: usize, lines: usize },
    /// The user scrolled down, towards the end of the document, by this
    /// many pixels and lines
    ScrollDown { pixels: usize, lines: usize },
}

impl Invalidation {
    /// The scroll that moves a view by `delta` lines, as `move_cursor`
    /// reports them: down for a positive number, up for a negative one, by
    /// the largest `usize` where the number is beyond it, and none for zero.
    pub open spec fn spec_from_delta(delta: int) -> Option<Invalidation> {
        if delta > 0 {
            Some(
                Invalidation::ScrollDown {
                    pixels: 0,
                    lines: if delta <= usize::MAX {
                        delta as usize
                    } else {
                        usize::MAX
                    },
                },
            )
        } else if delta < 0 {
            Some(
                Invalidation::ScrollUp {
                    pixels: 0,
                    lines: if -delta <= usize::MAX {
                        (-delta) as usize
                    } else {
                        usize::MAX
                    },
                },
            )
        } else {
            None
        }
    }

    pub fn from_delta(delta: i128) -> (scroll: Option<Invalidation>)
        ensures
            scroll == Self::spec_from_delta(delta as int),
    {
        let most = usize::MAX as i128;
        if delta > 0 {
            let lines = if delta <= most { delta as usize } else { usize::MAX };
            Some(Invalidation::ScrollDown { pixels: 0, lines })
        } else if delta < 0 {
            let lines = if delta >= -most { (-delta) as usize } else { usize::MAX };
            Some(Invalidation::ScrollUp { pixels: 0, lines })
        } else {
            None
        }
    }
}

/// Whether `record` is the line `text` with the number `number` as it
/// comes out of the layout: not wrapped, without render data, with the
/// column of `cursor`, if any, and with one span of the default style over
/// all its bytes.
pub open spec fn is_laid_out<T>(
    record: Text<T>,
    text: Seq<char>,
    number: usize,
    cursor: Option<Cursor>,
) -> bool {
    &&& record.text@ == text
    &&& record.line_number == number
    &&& !record.visual_line
    &&& record.assoc is None
    &&& record.cursors@ == match cursor {
        Some(cursor) => seq![cursor.column],
        None => Seq::<usize>::empty(),
    }
    &&& record.styles@.len() == 1
    &&& record.styles@[0].spec_style() == StyleId(0)
    &&& record.styles@[0].spec_span() == (Span {
        start: 0,
        end: encode_utf8(text).len() as usize,
    })
}

/// The cursor as far as it concerns line `line`.
pub open spec fn cursor_on(cursor: Cursor, line: int) -> Option<Cursor> {
    if cursor.line == line {
        Some(cursor)
    } else {
        None
    }
}

/// Whether `slot` is what laying out line `line` of `buffer`, counted from
/// zero, gives while the cursor is at `cursor`: empty where the document has
/// no such line.
pub open spec fn slot_shows<T, S: TextStore>(
    slot: Option<Text<T>>,
    buffer: Buffer<S>,
    line: int,
    cursor: Cursor,
) -> bool {
    match buffer.line(line) {
        Some(text) => slot is Some && is_laid_out(
            slot->Some_0,
            text,
            (line + 1) as usize,
            cursor_on(cursor, line),
        ),
        None => slot is None,
    }
}

/// Whether `slot` holds the text and the number of line `line` of
/// `buffer`, counted from zero: empty where the document has no such line.
pub open spec fn slot_holds<T, S: TextStore>(slot: Option<Text<T>>, buffer: Buffer<S>, line: int) -> bool {
    match buffer.line(line) {
        Some(text) => slot is Some && slot->Some_0.text@ == text && slot->Some_0.line_number
            == line + 1,
        None => slot is None,
    }
}

/// Where the cursor stands after a move by `amount` lines or columns in
/// `direction`: it stops at line or column zero and at the largest `usize`.
pub open spec fn moved_cursor(cursor: Cursor, direction: CursorMotion, amount: usize) -> Cursor {
    match direction {
        CursorMotion::Up => Cursor {
            line: if amount <= cursor.line {
                (cursor.line - amount) as usize
            } else {
                0
            },
            column: cursor.column,
        },
        CursorMotion::Down => Cursor {
            line: if cursor.line + amount <= usize::MAX {
                (cursor.line + amount) as usize
            } else {
                usize::MAX
            },
            column: cursor.column,
        },
        CursorMotion::Left => Cursor {
            line: cursor.line,
            column: if amount <= cursor.column {
                (cursor.column - amount) as usize
            } else {
                0
            },
        },
        CursorMotion::Right => Cursor {
            line: cursor.line,
            column: if cursor.column + amount <= usize::MAX {
                (cursor.column + amount) as usize
            } else {
                usize::MAX
            },
        },
    }
}

/// The direction in which a cursor operation moves the cursor; `None` for
/// the operations that scroll.
pub open spec fn motion_of(operation: Operation) -> Option<CursorMotion> {
    match operation {
        Operation::ScrollUp => None,
        Operation::ScrollDown => None,
        Operation::CursorDown => Some(CursorMotion::Down),
        Operation::CursorUp => Some(CursorMotion::Up),
        Operation::CursorLeft => Some(CursorMotion::Left),
        Operation::CursorRight => Some(CursorMotion::Right),
    }
}

pub struct Frame<T> {
    /// id of this frame
    id: FrameId,
    /// the buffer this frame is rendering
    buffer: BufferId,
    /// the pixel size of the frame
    size: Vector2U,
    /// the lower left corner of this frame in pixels.
    origin: Vector2U,
    /// is this frame the focus of the user.
    active: bool,
    /// a cache of the current visible lines.
    cache: LineCache<T>,
    /// the lines of the buffer this view is viewing.
    view: Range<usize>,
    /// the position of the cursor in the buffer. For now there is only one, this will be expanded
    /// to allow multiple cursors.
    cursor: Cursor,
}

impl<T> Frame<T> {
    pub closed spec fn spec_id(self) -> FrameId {
        self.id
    }

    pub closed spec fn spec_buffer(self) -> BufferId {
        self.buffer
    }

    pub closed spec fn spec_size(self) -> Vector2U {
        self.size
    }

    pub closed spec fn spec_origin(self) -> Vector2U {
        self.origin
    }

    pub closed spec fn spec_active(self) -> bool {
        self.active
    }

    pub closed spec fn spec_cursor(self) -> Cursor {
        self.cursor
    }

    /// The first line that the frame stands over, counted from zero.
    pub closed spec fn view_start(self) -> int {
        self.view.start as int
    }

    /// One past the last line that the frame stands over.
    pub closed spec fn view_end(self) -> int {
        self.view.end as int
    }

    /// The slots of the frame, from the top.
    pub closed spec fn slots(self) -> Seq<Option<Text<T>>> {
        self.cache@
    }

    /// The frame has one slot for each line that it stands over.
    pub closed spec fn wf(self) -> bool {
        &&& self.view.start <= self.view.end
        &&& self.cache@.len() == self.view.end - self.view.start
    }

    /// Every slot holds the line of `buffer` that it stands for.
    pub open spec fn shows<S: TextStore>(self, buffer: Buffer<S>) -> bool {
        forall|i: int|
            0 <= i < self.slots().len() ==> slot_holds(
                #[trigger] self.slots()[i],
                buffer,
                self.view_start() + i,
            )
    }

    /// Whether line `line` is in view once the view has moved by `by` lines.
    pub open spec fn in_view_after(self, line: int, by: int) -> bool {
        self.view_start() + by <= line < self.view_end() + by
    }

    /// The signed number of lines by which the view has to move for line
    /// `line` to come into it: negative where the line lies above the view,
    /// positive where it lies below, and `None` where it is in view.
    pub open spec fn spec_cursor_delta(self, line: int) -> Option<int> {
        if line < self.view_start() {
            Some(line - self.view_start())
        } else if line >= self.view_end() {
            Some(line - self.view_end() + 1)
        } else {
            None
        }
    }

    /// The frame is the frame `before` as far as its id, its document, its
    /// place on the screen, its focus and the number of its slots go.
    pub open spec fn kept(self, before: Self) -> bool {
        &&& self.spec_id() == before.spec_id()
        &&& self.spec_buffer() == before.spec_buffer()
        &&& self.spec_size() == before.spec_size()
        &&& self.spec_origin() == before.spec_origin()
        &&& self.spec_active() == before.spec_active()
        &&& self.slots().len() == before.slots().len()
    }

    /// By how many lines `ScrollDown` moves a view that ends at `view_end`
    /// when asked for `lines`: by fewer only where the line numbers would
    /// leave the range of `usize`.
    pub open spec fn down_by(view_end: int, lines: usize) -> int {
        if lines <= usize::MAX - view_end {
            lines as int
        } else {
            usize::MAX - view_end
        }
    }

    /// By how many lines `ScrollUp` moves a view that starts at
    /// `view_start` when asked for `lines`: by fewer only where the view
    /// reaches the first line.
    pub open spec fn up_by(view_start: int, lines: usize) -> int {
        if lines <= view_start {
            lines as int
        } else {
            view_start
        }
    }

    /// Whether the view and the slots of the frame are those of the frame
    /// `before` brought up to date with `buffer` after `invalidation`.
    ///
    /// After `Init` the view starts at the first line and every slot is laid
    /// out anew. After a scroll the view has moved, a slot whose line was in
    /// view before holds the very record that stood for that line, and the
    /// slots of the lines that came into view are laid out anew. Where the
    /// frame showed the document before a scroll, it shows it afterwards.
    pub open spec fn updated<S: TextStore>(
        self,
        before: Self,
        buffer: Buffer<S>,
        invalidation: Invalidation,
    ) -> bool {
        match invalidation {
            Invalidation::Init => {
                &&& self.view_start() == 0
                &&& self.view_end() == before.slots().len()
                &&& forall|i: int|
                    0 <= i < self.slots().len() ==> slot_shows(
                        #[trigger] self.slots()[i],
                        buffer,
                        i,
                        self.spec_cursor(),
                    )
                &&& self.shows(buffer)
            },
            Invalidation::ScrollDown { pixels, lines } => {
                let by = Self::down_by(before.view_end(), lines);
                &&& self.view_start() == before.view_start() + by
                &&& self.view_end() == before.view_end() + by
                &&& forall|i: int|
                    0 <= i < self.slots().len() ==> if i + by < before.slots().len() {
                        #[trigger] self.slots()[i] == before.slots()[i + by]
                    } else {
                        slot_shows(
                            self.slots()[i],
                            buffer,
                            self.view_start() + i,
                            self.spec_cursor(),
                        )
                    }
                &&& before.shows(buffer) ==> self.shows(buffer)
            },
            Invalidation::ScrollUp { pixels, lines } => {
                let by = Self::up_by(before.view_start(), lines);
                &&& self.view_start() == before.view_start() - by
                &&& self.view_end() == before.view_end() - by
                &&& forall|i: int|
                    0 <= i < self.slots().len() ==> if i >= by {
                        #[trigger] self.slots()[i] == before.slots()[i - by]
                    } else {
                        slot_shows(
                            self.slots()[i],
                            buffer,
                            self.view_start() + i,
                            self.spec_cursor(),
                        )
                    }
                &&& before.shows(buffer) ==> self.shows(buffer)
            },
        }
    }

    /// What `operation` asks of the view while the frame is as it is: a
    /// scroll by one line, with `pixels` as its size in pixels, for the two
    /// scroll operations, and for a cursor operation the scroll that brings
    /// the cursor back into view once it has moved by one, if it leaves the
    /// view at all.
    pub open spec fn spec_invalidation_for(self, operation: Operation, pixels: usize) -> Option<
        Invalidation,
    > {
        match motion_of(operation) {
            Some(direction) => match self.spec_cursor_delta(
                moved_cursor(self.spec_cursor(), direction, 1).line as int,
            ) {
                Some(by) => Invalidation::spec_from_delta(by),
                None => None,
            },
            None => if operation == Operation::ScrollUp {
                Some(Invalidation::ScrollUp { pixels, lines: 1 })
            } else {
                Some(Invalidation::ScrollDown { pixels, lines: 1 })
            },
        }
    }

    /// The lines that the frame stands over are as many as it has slots.
    pub proof fn lemma_capacity(self)
        requires
            self.wf(),
        ensures
            0 <= self.view_start() <= self.view_end() <= usize::MAX,
            self.slots().len() == self.view_end() - self.view_start(),
    {
    }

    /// A frame of `lines` empty slots over the first lines of the document
    /// `buffer`, with the cursor at the start of the text.
    pub fn new(id: FrameId, buffer: BufferId, size: Vector2U, origin: Vector2U, lines: usize) -> (frame:
        Self)
        ensures
            frame.wf(),
            frame.spec_id() == id,
            frame.spec_buffer() == buffer,
            frame.spec_size() == size,
            frame.spec_origin() == origin,
            !frame.spec_active(),
            frame.spec_cursor() == (Cursor { line: 0, column: 0 }),
            frame.view_start() == 0,
            frame.view_end() == lines,
            frame.slots().len() == lines,
            forall|i: int| 0 <= i < lines ==> frame.slots()[i] is None,
    {
        Self {
            id,
            buffer,
            size,
            origin,
            active: false,
            cache: LineCache::new(lines),
            view: Range { start: 0, end: lines },
            cursor: Cursor::new(0, 0),
        }
    }

    /// How many lines of height `line_height` fit into `height`, both in
    /// pixels.
    pub fn compute_lines(height: u32, line_height: u32) -> (lines: usize)
        requires
            line_height > 0,
        ensures
            lines == height as int / line_height as int,
    {
        (height / line_height) as usize
    }

    pub fn buffer(&self) -> (buffer: BufferId)
        ensures
            buffer == self.spec_buffer(),
    {
        self.buffer
    }

    pub fn id(&self) -> (id: FrameId)
        ensures
            id == self.spec_id(),
    {
        self.id
    }

    pub fn width(&self) -> (width: u32)
        ensures
            width == self.spec_size().x,
    {
        self.size.x()
    }

    pub fn height(&self) -> (height: u32)
        ensures
            height == self.spec_size().y,
    {
        self.size.y()
    }

    pub fn origin(&self) -> (origin: &Vector2U)
        ensures
            *origin == self.spec_origin(),
    {
        &self.origin
    }

    pub fn is_active(&self) -> (active: bool)
        ensures
            active == self.spec_active(),
    {
        self.active
    }

    pub fn set_active(&mut self, active: bool)
        ensures
            final(self).spec_active() == active,
            final(self).spec_id() == old(self).spec_id(),
            final(self).spec_buffer() == old(self).spec_buffer(),
            final(self).spec_size() == old(self).spec_size(),
            final(self).spec_origin() == old(self).spec_origin(),
            final(self).spec_cursor() == old(self).spec_cursor(),
            final(self).view_start() == old(self).view_start(),
            final(self).view_end() == old(self).view_end(),
            final(self).slots() == old(self).slots(),
            final(self).wf() == old(self).wf(),
    {
        self.active = active
    }

    /// The lines that the frame stands over: `start` is the first, `end`
    /// one past the last.
    pub fn view(&self) -> (view: Range<usize>)
        ensures
            view.start == self.view_start(),
            view.end == self.view_end(),
    {
        Range { start: self.view.start, end: self.view.end }
    }

    pub fn cursor(&self) -> (cursor: Cursor)
        ensures
            cursor == self.spec_cursor(),
    {
        self.cursor
    }

    pub fn lines(&self) -> (lines: &[Option<Text<T>>])
        ensures
            lines@ == self.slots(),
    {
        self.cache.lines()
    }

    /// The slots, for a renderer to attach its data: what they hold when
    /// the borrow ends is what the frame then holds. Their number cannot
    /// change.
    pub fn lines_mut(&mut self) -> (lines: &mut [Option<Text<T>>])
        ensures
            lines@ == old(self).slots(),
            final(lines)@ == final(self).slots(),
            final(self).spec_id() == old(self).spec_id(),
            final(self).spec_buffer() == old(self).spec_buffer(),
            final(self).spec_size() == old(self).spec_size(),
            final(self).spec_origin() == old(self).spec_origin(),
            final(self).spec_active() == old(self).spec_active(),
            final(self).spec_cursor() == old(self).spec_cursor(),
            final(self).view_start() == old(self).view_start(),
            final(self).view_end() == old(self).view_end(),
    {
        self.cache.lines_mut()
    }

    /// Brings the slots up to date with `buffer` after `invalidation`.
    ///
    /// `Init` moves the view to the first lines of the document and lays
    /// out every slot. `ScrollDown` moves the view towards the end of the
    /// document by `lines` lines, by fewer only where the line numbers would
    /// leave the range of `usize`; `ScrollUp` moves it towards the start by
    /// `lines` lines, by fewer only where the view reaches the first line.
    /// A slot whose line was in view before keeps its record untouched; the
    /// slots of the lines that come into view are laid out anew, and are
    /// empty where the document has no such line.
    pub fn update_line_cache<S: TextStore>(&mut self, buffer: &Buffer<S>, invalidation: Invalidation)
        requires
            old(self).wf(),
            buffer.wf(),
        ensures
            final(self).wf(),
            final(self).kept(*old(self)),
            final(self).spec_cursor() == old(self).spec_cursor(),
            final(self).updated(*old(self), *buffer, invalidation),
    {
        match invalidation {
            Invalidation::Init => self.fill_cache(buffer),
            Invalidation::ScrollUp { pixels: _, lines } => self.scroll_up(buffer, lines),
            Invalidation::ScrollDown { pixels: _, lines } => self.scroll_down(buffer, lines),
        }
    }

    fn fill_cache<S: TextStore>(&mut self, buffer: &Buffer<S>)
        requires
            old(self).wf(),
            buffer.wf(),
        ensures
            final(self).wf(),
            final(self).id == old(self).id,
            final(self).buffer == old(self).buffer,
            final(self).size == old(self).size,
            final(self).origin == old(self).origin,
            final(self).active == old(self).active,
            final(self).cursor == old(self).cursor,
            final(self).view.start == 0,
            final(self).view.end == old(self).cache@.len(),
            forall|i: int|
                0 <= i < final(self).cache@.len() ==> slot_shows(
                    #[trigger] final(self).cache@[i],
                    *buffer,
                    i,
                    old(self).cursor,
                ),
            final(self).shows(*buffer),
    {
        let capacity = self.cache.len();
        let fresh = self.layout_lines(buffer, 0, capacity);
        self.cache.scroll_forward(fresh);
        self.view = Range { start: 0, end: capacity };
    }

    fn scroll_down<S: TextStore>(&mut self, buffer: &Buffer<S>, lines: usize)
        requires
            old(self).wf(),
            buffer.wf(),
        ensures
            final(self).wf(),
            final(self).id == old(self).id,
            final(self).buffer == old(self).buffer,
            final(self).size == old(self).size,
            final(self).origin == old(self).origin,
            final(self).active == old(self).active,
            final(self).cursor == old(self).cursor,
            final(self).cache@.len() == old(self).cache@.len(),
            ({
                let by = if lines <= usize::MAX - old(self).view.end {
                    lines as int
                } else {
                    usize::MAX - old(self).view.end
                };
                &&& final(self).view.start == old(self).view.start + by
                &&& final(self).view.end == old(self).view.end + by
                &&& forall|i: int|
                    0 <= i < final(self).cache@.len() ==> if i + by < old(self).cache@.len() {
                        #[trigger] final(self).cache@[i] == old(self).cache@[i + by]
                    } else {
                        slot_shows(
                            final(self).cache@[i],
                            *buffer,
                            final(self).view.start + i,
                            old(self).cursor,
                        )
                    }
            }),
            old(self).shows(*buffer) ==> final(self).shows(*buffer),
    {
        let capacity = self.cache.len();
        let by = if lines <= usize::MAX - self.view.end {
            lines
        } else {
            usize::MAX - self.view.end
        };
        let count = if by < capacity { by } else { capacity };
        let first = self.view.end + by - count;
        let fresh = self.layout_lines(buffer, first, count);
        self.cache.scroll_forward(fresh);
        self.view = Range { start: self.view.start + by, end: self.view.end + by };
        proof {
            if old(self).shows(*buffer) {
                assert forall|i: int| 0 <= i < self.slots().len() implies slot_holds(
                    #[trigger] self.slots()[i],
                    *buffer,
                    self.view_start() + i,
                ) by {
                    if i + by < capacity {
                        assert(slot_holds(
                            old(self).slots()[i + by],
                            *buffer,
                            old(self).view_start() + (i + by),
                        ));
                    }
                }
            }
        }
    }

    fn scroll_up<S: TextStore>(&mut self, buffer: &Buffer<S>, lines: usize)
        requires
            old(self).wf(),
            buffer.wf(),
        ensures
            final(self).wf(),
            final(self).id == old(self).id,
            final(self).buffer == old(self).buffer,
            final(self).size == old(self).size,
            final(self).origin == old(self).origin,
            final(self).active == old(self).active,
            final(self).cursor == old(self).cursor,
            final(self).cache@.len() == old(self).cache@.len(),
            ({
                let by = if lines <= old(self).view.start {
                    lines as int
                } else {
                    old(self).view.start as int
                };
                &&& final(self).view.start == old(self).view.start - by
                &&& final(self).view.end == old(self).view.end - by
                &&& forall|i: int|
                    0 <= i < final(self).cache@.len() ==> if i >= by {
                        #[trigger] final(self).cache@[i] == old(self).cache@[i - by]
                    } else {
                        slot_shows(
                            final(self).cache@[i],
                            *buffer,
                            final(self).view.start + i,
                            old(self).cursor,
                        )
                    }
            }),
            old(self).shows(*buffer) ==> final(self).shows(*buffer),
    {
        let capacity = self.cache.len();
        let by = if lines <= self.view.start {
            lines
        } else {
            self.view.start
        };
        let count = if by < capacity { by } else { capacity };
        let first = self.view.start - by;
        let fresh = self.layout_lines(buffer, first, count);
        self.cache.scroll_backward(fresh);
        self.view = Range { start: self.view.start - by, end: self.view.end - by };
        proof {
            if old(self).shows(*buffer) {
                assert forall|i: int| 0 <= i < self.slots().len() implies slot_holds(
                    #[trigger] self.slots()[i],
                    *buffer,
                    self.view_start() + i,
                ) by {
                    if i >= by {
                        assert(slot_holds(
                            old(self).slots()[i - by],
                            *buffer,
                            old(self).view_start() + (i - by),
                        ));
                    }
                }
            }
        }
    }

    /// Lays out the lines `[first, first + count)` of `buffer`, one slot
    /// for each; the slots of lines that the document does not have are
    /// empty.
    #[verifier::loop_isolation(false)]
    fn layout_lines<S: TextStore>(&self, buffer: &Buffer<S>, first: usize, count: usize) -> (fresh: Vec<
        Option<Text<T>>,
    >)
        requires
            buffer.wf(),
            first + count <= usize::MAX,
        ensures
            fresh@.len() == count,
            forall|j: int|
                0 <= j < count ==> slot_shows(#[trigger] fresh@[j], *buffer, first + j, self.cursor),
    {
        let lines = buffer.request_lines(first, first + count);
        let mut fresh: Vec<Option<Text<T>>> = Vec::new();
        let mut idx: usize = 0;
        while idx < count
            invariant
                idx <= count,
                fresh@.len() == idx,
                forall|j: int|
                    0 <= j < idx ==> slot_shows(
                        #[trigger] fresh@[j],
                        *buffer,
                        first + j,
                        self.cursor,
                    ),
            decreases count - idx,
        {
            let slot = if idx < lines.len() {
                let line = lines[idx].clone();
                let cursor = self.get_cursors(first + idx);
                let mut laid = self.layout_line(first + idx + 1, line, cursor);
                laid.pop()
            } else {
                None
            };
            fresh.push(slot);
            idx += 1;
        }
        fresh
    }

    /// Puts `text` into the slot of line `line_idx`; does nothing when that
    /// line is not in view.
    pub fn set_line(&mut self, line_idx: usize, text: Text<T>)
        requires
            old(self).wf(),
        ensures
            final(self).wf(),
            final(self).spec_id() == old(self).spec_id(),
            final(self).spec_buffer() == old(self).spec_buffer(),
            final(self).spec_size() == old(self).spec_size(),
            final(self).spec_origin() == old(self).spec_origin(),
            final(self).spec_active() == old(self).spec_active(),
            final(self).spec_cursor() == old(self).spec_cursor(),
            final(self).view_start() == old(self).view_start(),
            final(self).view_end() == old(self).view_end(),
            final(self).slots() == if old(self).view_start() <= line_idx < old(self).view_end() {
                old(self).slots().update(line_idx - old(self).view_start(), Some(text))
            } else {
                old(self).slots()
            },
    {
        if self.view.start <= line_idx && line_idx < self.view.end {
            // gets the index relative to the view of the buffer.
            let line_cache_idx = line_idx - self.view.start;
            self.cache.replace(line_cache_idx, text);
        }
    }

    /// Lays out one line of text: a single record that is not wrapped,
    /// has no render data, carries the column of `cursor`, if any, and one
    /// span of the default style over all its bytes.
    pub fn layout_line(&self, line_number: usize, text: String, cursor: Option<Cursor>) -> (laid:
        Vec<Text<T>>)
        ensures
            laid@.len() == 1,
            is_laid_out(laid@[0], text@, line_number, cursor),
    {
        let style = StyleSpan::new(StyleId(0), Span::new(0, text.as_str().len()));
        let mut cursors: Vec<usize> = Vec::new();
        if let Some(cursor) = cursor {
            cursors.push(cursor.column);
        }
        let mut styles: Vec<StyleSpan> = Vec::new();
        styles.push(style);
        let line = Text::new(text, line_number, false, None, cursors, styles);
        let mut laid: Vec<Text<T>> = Vec::new();
        laid.push(line);
        laid
    }

    /// retreives all cursors for a given line.
    pub fn get_cursors(&self, line: usize) -> (cursor: Option<Cursor>)
        ensures
            cursor == cursor_on(self.spec_cursor(), line as int),
    {
        if self.cursor.line == line {
            Some(self.cursor)
        } else {
            None
        }
    }

    /// Moves the cursor by `amount` lines up or down, or columns left or
    /// right, stopping at line or column zero and at the largest `usize`.
    /// Where the cursor then stands outside the view, the result is the
    /// signed number of lines by which the view has to scroll to hold it
    /// again: negative for up, positive for down, and the least such number.
    /// The view and the slots do not change.
    pub fn move_cursor(&mut self, direction: CursorMotion, amount: usize) -> (delta: Option<i128>)
        requires
            old(self).wf(),
        ensures
            final(self).wf(),
            final(self).kept(*old(self)),
            final(self).view_start() == old(self).view_start(),
            final(self).view_end() == old(self).view_end(),
            final(self).slots() == old(self).slots(),
            final(self).spec_cursor() == moved_cursor(old(self).spec_cursor(), direction, amount),
            match delta {
                Some(by) => final(self).spec_cursor_delta(final(self).spec_cursor().line as int)
                    == Some(by as int),
                None => final(self).spec_cursor_delta(final(self).spec_cursor().line as int)
                    is None,
            },
    {
        let line = self.cursor.line;
        let column = self.cursor.column;
        match direction {
            CursorMotion::Up => {
                self.cursor.line = if amount <= line { line - amount } else { 0 };
            },
            CursorMotion::Down => {
                self.cursor.line = if amount <= usize::MAX - line {
                    line + amount
                } else {
                    usize::MAX
                };
            },
            CursorMotion::Left => {
                self.cursor.column = if amount <= column { column - amount } else { 0 };
            },
            CursorMotion::Right => {
                self.cursor.column = if amount <= usize::MAX - column {
                    column + amount
                } else {
                    usize::MAX
                };
            },
        }
        let line = self.cursor.line;
        if line < self.view.start {
            Some(line as i128 - self.view.start as i128)
        } else if line >= self.view.end {
            Some(line as i128 - self.view.end as i128 + 1)
        } else {
            None
        }
    }

    /// Does what the key-bound `operation` asks for: a scroll operation
    /// scrolls by one line; a cursor operation moves the cursor by one and,
    /// where the cursor leaves the view, scrolls by as many lines as bring it
    /// back. Reports the invalidation that the slots were brought up to date
    /// after, if any.
    pub fn perform<S: TextStore>(
        &mut self,
        buffer: &Buffer<S>,
        operation: Operation,
        pixels: usize,
    ) -> (applied:
        Option<Invalidation>)
        requires
            old(self).wf(),
            buffer.wf(),
        ensures
            final(self).wf(),
            final(self).kept(*old(self)),
            final(self).spec_cursor() == (match motion_of(operation) {
                Some(direction) => moved_cursor(old(self).spec_cursor(), direction, 1),
                None => old(self).spec_cursor(),
            }),
            applied == old(self).spec_invalidation_for(operation, pixels),
            match applied {
                Some(invalidation) => final(self).updated(*old(self), *buffer, invalidation),
                None => {
                    &&& final(self).view_start() == old(self).view_start()
                    &&& final(self).view_end() == old(self).view_end()
                    &&& final(self).slots() == old(self).slots()
                },
            },
    {
        let applied = match operation {
            Operation::ScrollUp => Some(Invalidation::ScrollUp { pixels, lines: 1 }),
            Operation::ScrollDown => Some(Invalidation::ScrollDown { pixels, lines: 1 }),
            Operation::CursorDown => Self::follow(self.move_cursor(CursorMotion::Down, 1)),
            Operation::CursorUp => Self::follow(self.move_cursor(CursorMotion::Up, 1)),
            Operation::CursorLeft => Self::follow(self.move_cursor(CursorMotion::Left, 1)),
            Operation::CursorRight => Self::follow(self.move_cursor(CursorMotion::Right, 1)),
        };
        if let Some(invalidation) = applied {
            self.update_line_cache(buffer, invalidation);
        }
        applied
    }

    /// The scroll that answers what `move_cursor` reported.
    fn follow(delta: Option<i128>) -> (scroll: Option<Invalidation>)
        ensures
            scroll == match delta {
                Some(by) => Invalidation::spec_from_delta(by as int),
                None => None,
            },
    {
        match delta {
            Some(by) => Invalidation::from_delta(by),
            None => None,
        }
    }

    /// Scrolling by what `move_cursor` reported brings the cursor back into
    /// view: where a frame with a slot at least is brought up to date after
    /// the scroll for the reported number of lines, the line of the cursor is
    /// in view again. The one line that no view can hold is the last that a
    /// `usize` can number.
    pub proof fn lemma_scroll_brings_into_view<S: TextStore>(
        self,
        before: Self,
        buffer: Buffer<S>,
        line: usize,
        by: int,
        scroll: Invalidation,
    )
        requires
            before.wf(),
            before.slots().len() > 0,
            line < usize::MAX,
            before.spec_cursor_delta(line as int) == Some(by),
            Invalidation::spec_from_delta(by) == Some(scroll),
            self.updated(before, buffer, scroll),
        ensures
            self.view_start() <= line < self.view_end(),
            self.spec_cursor_delta(line as int) is None,
    {
    }

    /// The number that `move_cursor` reports brings the line into view,
    /// where the frame has any slot, and no move by fewer lines does.
    pub proof fn lemma_cursor_delta_is_least(self, line: int, by: int)
        requires
            self.wf(),
            self.spec_cursor_delta(line) == Some(by),
        ensures
            by != 0,
            !self.in_view_after(line, 0),
            self.slots().len() > 0 ==> self.in_view_after(line, by),
            forall|other: int| #[trigger]
                self.in_view_after(line, other) ==> (if by > 0 {
                    other >= by
                } else {
                    other <= by
                }),
    {
    }
}

} // verus!
