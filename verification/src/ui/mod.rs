//! What a frame of the editor shows: the lines cached for display, the
//! cursor, and how frames are laid out.

pub mod edits;
pub mod frame;
pub mod layout;
pub mod line_cache;

pub use edits::Operation;
pub use frame::{Cursor, CursorMotion, Frame, FrameId, Invalidation};
pub use layout::{FrameInfo, FrameIter, FrameLayout, Layout};
pub use line_cache::{LineCache, Text};
