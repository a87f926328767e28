//! What the text engine shares with a renderer: style spans over a line,
//! the batches that vertex data is collected in, and the places of the
//! glyphs in a font atlas.

pub mod atlas;
pub mod batch;
pub mod style;

pub use atlas::{flip_y, AtlasPacker, PackError, Placement};
pub use batch::{generate_indices, submit, Batch, RenderMode, SubmitResult, Vertex};
pub use style::{Span, StyleId, StyleSpan};
