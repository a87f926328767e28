//! Documents: the stores that hold their text, their line index and the
//! registry that owns them.

pub mod buffer;
pub mod edit;
pub mod rope;
pub mod ropey_store;
pub mod store;
pub mod view;

pub use buffer::{Buffer, BufferId};
pub use edit::{BufferInfo, Core};
pub use ropey_store::RopeyStore;
pub use store::TextStore;
pub use view::{ViewId, ViewInfo};

use vstd::prelude::*;

verus! {

/// Why a document could not be opened. Each variant carries the path that
/// was asked for.
#[derive(Debug, Clone, PartialEq, Eq)]
pub enum CoreError {
    /// file not found
    FileNotFound(String),
    /// do not have permission to open
    FilePermissions(String),
    /// any other failure to read the file
    Io(String),
}

/// How reading a file failed, as far as opening a document tells the cases
/// apart.
#[derive(Debug, Clone, Copy, PartialEq, Eq, Structural)]
pub enum IoFailure {
    NotFound,
    PermissionDenied,
    Interrupted,
    Other,
}

impl CoreError {
    /// The path of the file that could not be opened.
    pub open spec fn spec_path(self) -> Seq<char> {
        match self {
            CoreError::FileNotFound(path) => path@,
            CoreError::FilePermissions(path) => path@,
            CoreError::Io(path) => path@,
        }
    }

    /// What the error says, as one line of text for a log or a status bar.
    pub fn message(&self) -> (text: String)
        ensures
            text@ == (match self {
                CoreError::FileNotFound(_) => "file not found: '"@,
                CoreError::FilePermissions(_) => "do not have permission to open: '"@,
                CoreError::Io(_) => "failed to read: '"@,
            }) + self.spec_path() + "'"@,
    {
        let (head, path) = match self {
            CoreError::FileNotFound(path) => ("file not found: '", path),
            CoreError::FilePermissions(path) => ("do not have permission to open: '", path),
            CoreError::Io(path) => ("failed to read: '", path),
        };
        let mut text = head.to_owned();
        text.append(path.as_str());
        text.append("'");
        text
    }
}

} // verus!
