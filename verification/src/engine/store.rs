//! What a document asks of the structure that holds its text.
//!
//! A document works on any store that keeps a text, finds the lines in its
//! bytes and cuts out ranges of whole characters. Two stores are at hand:
//! the rope of this library, and the rope of the `ropey` crate.

use vstd::prelude::*;
use vstd::utf8::*;
use super::rope::lines::{count_lf, is_text_range, line_end};
use super::rope::RopeError;

verus! {

pub trait TextStore: Sized {
    /// The text that the store holds.
    spec fn contents(&self) -> Seq<char>;

    /// What holds of a store that was made and changed through this trait.
    spec fn valid(&self) -> bool;

    /// A store without text.
    fn empty() -> (store: Self)
        ensures
            store.valid(),
            store.contents() == Seq::<char>::empty(),
    ;

    /// A store of the given text.
    fn from_text(text: &str) -> (store: Self)
        ensures
            store.valid(),
            store.contents() == text@,
    ;

    /// The length of the text in bytes.
    fn len_bytes(&self) -> (len: usize)
        requires
            self.valid(),
        ensures
            len == encode_utf8(self.contents()).len(),
    ;

    /// The length of the text in characters.
    fn len_chars(&self) -> (len: usize)
        requires
            self.valid(),
        ensures
            len == self.contents().len(),
    ;

    /// The byte at byte index `idx`, or `None` past the end.
    fn get_byte(&self, idx: usize) -> (byte: Option<u8>)
        requires
            self.valid(),
        ensures
            byte == if idx < encode_utf8(self.contents()).len() {
                Some(encode_utf8(self.contents())[idx as int])
            } else {
                None
            },
    ;

    /// One past the last byte of the line that starts at byte `start`; the
    /// length of the text when `start` lies past its end.
    fn line_end(&self, start: usize) -> (end: usize)
        requires
            self.valid(),
        ensures
            end == if start <= encode_utf8(self.contents()).len() {
                line_end(encode_utf8(self.contents()), start as int)
            } else {
                encode_utf8(self.contents()).len() as int
            },
    ;

    /// The text between bytes `start` and `end`, or `None` when these do not
    /// delimit whole characters of the text.
    fn slice_bytes(&self, start: usize, end: usize) -> (part: Option<String>)
        requires
            self.valid(),
        ensures
            match part {
                Some(text) => {
                    &&& is_text_range(encode_utf8(self.contents()), start as int, end as int)
                    &&& text@ == decode_utf8(
                        encode_utf8(self.contents()).subrange(start as int, end as int),
                    )
                },
                None => !is_text_range(encode_utf8(self.contents()), start as int, end as int),
            },
    ;

    /// Inserts `val` before character index `idx` and reports the line in
    /// which the text changes first, counted from zero: as many lines as
    /// there are line feeds before the place of the insertion. Fails, and
    /// changes nothing, when `idx` lies past the end of the text.
    fn insert(&mut self, idx: usize, val: &str) -> (changed: Result<usize, RopeError>)
        requires
            old(self).valid(),
            encode_utf8(old(self).contents()).len() + encode_utf8(val@).len() <= usize::MAX,
        ensures
            final(self).valid(),
            match changed {
                Ok(line) => {
                    &&& idx <= old(self).contents().len()
                    &&& final(self).contents() == old(self).contents().subrange(0, idx as int) + val@
                        + old(self).contents().subrange(
                        idx as int,
                        old(self).contents().len() as int,
                    )
                    &&& line == count_lf(encode_utf8(old(self).contents().subrange(0, idx as int)))
                },
                Err(e) => {
                    &&& e == RopeError::OutOfBounds
                    &&& idx > old(self).contents().len()
                    &&& final(self).contents() == old(self).contents()
                },
            },
    ;

    /// Removes the characters at character indices `[start, end)` and
    /// reports the line in which the text changes first, counted from zero.
    /// Fails, and changes nothing, when these are no range of characters of
    /// the text.
    fn remove_range(&mut self, start: usize, end: usize) -> (changed: Result<usize, RopeError>)
        requires
            old(self).valid(),
        ensures
            final(self).valid(),
            match changed {
                Ok(line) => {
                    &&& start <= end <= old(self).contents().len()
                    &&& final(self).contents() == old(self).contents().subrange(0, start as int)
                        + old(self).contents().subrange(
                        end as int,
                        old(self).contents().len() as int,
                    )
                    &&& line == count_lf(
                        encode_utf8(old(self).contents().subrange(0, start as int)),
                    )
                },
                Err(e) => {
                    &&& e == RopeError::OutOfBounds
                    &&& !(start <= end <= old(self).contents().len())
                    &&& final(self).contents() == old(self).contents()
                },
            },
    ;
}

} // verus!
