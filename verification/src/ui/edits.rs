//! The operations that a key can be bound to.

use vstd::prelude::*;
use vstd::utf8::*;
use crate::engine::rope::encoding::lemma_encode_injective;

verus! {

#[derive(Debug, Clone, Copy, PartialEq, Eq, Structural)]
pub enum Operation {
    ScrollUp,
    ScrollDown,
    // InsertChar,
    CursorDown,
    CursorUp,
    CursorLeft,
    CursorRight,
}

/// Whether two strings hold the same text.
#[verifier::loop_isolation(false)]
fn same_text(a: &str, b: &str) -> (same: bool)
    ensures
        same == (a@ == b@),
{
    let left = a.as_bytes();
    let right = b.as_bytes();
    if left.len() != right.len() {
        return false;
    }
    let mut at: usize = 0;
    while at < left.len()
        invariant
            left@.len() == right@.len(),
            at <= left@.len(),
            forall|i: int| 0 <= i < at ==> left@[i] == right@[i],
        decreases left@.len() - at,
    {
        if left[at] != right[at] {
            return false;
        }
        at += 1;
    }
    proof {
        assert(left@ =~= right@);
        lemma_encode_injective(a@, b@);
    }
    true
}

impl Operation {
    /// The operation that the name `s` stands for, if it stands for any.
    pub open spec fn spec_from_str(s: Seq<char>) -> Result<Operation, ()> {
        if s == "scroll_up"@ {
            Ok(Operation::ScrollUp)
        } else if s == "scroll_down"@ {
            Ok(Operation::ScrollDown)
        } else if s == "cursor_down"@ {
            Ok(Operation::CursorDown)
        } else if s == "cursor_up"@ {
            Ok(Operation::CursorUp)
        } else if s == "cursor_left"@ {
            Ok(Operation::CursorLeft)
        } else if s == "cursor_right"@ {
            Ok(Operation::CursorRight)
        } else {
            Err(())
        }
    }

    /// Reads the name of an operation as a configuration file gives it.
    pub fn from_str(s: &str) -> (parsed: Result<Self, ()>)
        ensures
            parsed == Self::spec_from_str(s@),
    {
        if same_text(s, "scroll_up") {
            Ok(Self::ScrollUp)
        } else if same_text(s, "scroll_down") {
            Ok(Self::ScrollDown)
        } else if same_text(s, "cursor_down") {
            Ok(Self::CursorDown)
        } else if same_text(s, "cursor_up") {
            Ok(Self::CursorUp)
        } else if same_text(s, "cursor_left") {
            Ok(Self::CursorLeft)
        } else if same_text(s, "cursor_right") {
            Ok(Self::CursorRight)
        } else {
            Err(())
        }
    }
}

} // verus!
