//! A text store that keeps its text in the rope of the `ropey` crate.

use vstd::prelude::*;
use vstd::utf8::*;
use super::rope::encoding::lemma_encode_concat;
use super::rope::lines::{count_lf, is_text_range, lemma_next_lf_unique, line_end, LF};
use super::rope::RopeError;
use super::store::TextStore;

verus! {

/// A text kept in a rope of `ropey`.
#[verifier::external_body]
pub struct RopeyStore {
    rope: ropey::Rope,
}

/// The text that the rope of the store holds.
pub uninterp spec fn rope_text(store: RopeyStore) -> Seq<char>;

/// The empty rope that `Rope::new` makes.
#[verifier::external_body]
fn rope_new() -> (store: RopeyStore)
    ensures
        rope_text(store) == Seq::<char>::empty(),
{
    RopeyStore { rope: ropey::Rope::new() }
}

/// The rope that `Rope::from_str` makes: it holds the given text.
#[verifier::external_body]
fn rope_from_str(text: &str) -> (store: RopeyStore)
    ensures
        rope_text(store) == text@,
{
    RopeyStore { rope: ropey::Rope::from_str(text) }
}

/// `Rope::len_bytes`: the length of the text in bytes, which are those of
/// its UTF-8 encoding.
#[verifier::external_body]
fn rope_len_bytes(store: &RopeyStore) -> (len: usize)
    ensures
        len == encode_utf8(rope_text(*store)).len(),
{
    store.rope.len_bytes()
}

/// `Rope::len_chars`: the length of the text in characters.
#[verifier::external_body]
fn rope_len_chars(store: &RopeyStore) -> (len: usize)
    ensures
        len == rope_text(*store).len(),
{
    store.rope.len_chars()
}

/// `Rope::get_byte`: the byte at a byte index, and `None` at an index
/// that is not below the length of the text in bytes.
#[verifier::external_body]
fn rope_get_byte(store: &RopeyStore, idx: usize) -> (byte: Option<u8>)
    ensures
        byte == if idx < encode_utf8(rope_text(*store)).len() {
            Some(encode_utf8(rope_text(*store))[idx as int])
        } else {
            None
        },
{
    store.rope.get_byte(idx)
}

/// `Rope::char_to_byte`: the byte index at which the character with the
/// given index starts, which is the length in bytes of the text before it.
/// The index may be the number of characters; beyond that the call panics.
#[verifier::external_body]
fn rope_char_to_byte(store: &RopeyStore, idx: usize) -> (byte_idx: usize)
    requires
        idx <= rope_text(*store).len(),
    ensures
        byte_idx == encode_utf8(rope_text(*store).subrange(0, idx as int)).len(),
{
    store.rope.char_to_byte(idx)
}

/// `Rope::get_byte_slice` over `start..end`, turned into a string: the
/// text between the two byte indices, and `None` where `start` is greater
/// than `end`, `end` lies past the end of the text, or one of the two is no
/// character boundary.
#[verifier::external_body]
fn rope_byte_slice(store: &RopeyStore, start: usize, end: usize) -> (part: Option<String>)
    ensures
        match part {
            Some(text) => {
                &&& is_text_range(encode_utf8(rope_text(*store)), start as int, end as int)
                &&& text@ == decode_utf8(
                    encode_utf8(rope_text(*store)).subrange(start as int, end as int),
                )
            },
            None => !is_text_range(encode_utf8(rope_text(*store)), start as int, end as int),
        },
{
    store.rope.get_byte_slice(start..end).map(String::from)
}

/// `Rope::insert`: puts the text before the character with the given
/// index. The index may be the number of characters; beyond that the call
/// panics.
#[verifier::external_body]
fn rope_insert(store: &mut RopeyStore, idx: usize, text: &str)
    requires
        idx <= rope_text(*old(store)).len(),
    ensures
        rope_text(*final(store)) == rope_text(*old(store)).subrange(0, idx as int) + text@
            + rope_text(*old(store)).subrange(idx as int, rope_text(*old(store)).len() as int),
{
    store.rope.insert(idx, text)
}

/// `Rope::remove` over `start..end`: takes the characters with these
/// indices out. The call panics where `start` is greater than `end` or `end`
/// greater than the number of characters.
#[verifier::external_body]
fn rope_remove(store: &mut RopeyStore, start: usize, end: usize)
    requires
        start <= end <= rope_text(*old(store)).len(),
    ensures
        rope_text(*final(store)) == rope_text(*old(store)).subrange(0, start as int) + rope_text(
            *old(store),
        ).subrange(end as int, rope_text(*old(store)).len() as int),
{
    store.rope.remove(start..end)
}

impl RopeyStore {
    /// The text of the rope.
    pub open spec fn text(self) -> Seq<char> {
        rope_text(self)
    }

    /// The bytes of the text.
    pub open spec fn bytes(self) -> Seq<u8> {
        encode_utf8(self.text())
    }

    /// How many line feeds the first `end` bytes of the text hold.
    fn count_line_feeds(&self, end: usize) -> (count: usize)
        requires
            end <= self.bytes().len(),
        ensures
            count == count_lf(self.bytes().subrange(0, end as int)),
    {
        let mut count: usize = 0;
        let mut at: usize = 0;
        assert(self.bytes().subrange(0, 0) =~= Seq::<u8>::empty());
        while at < end
            invariant
                at <= end <= self.bytes().len(),
                count == count_lf(self.bytes().subrange(0, at as int)),
                count <= at,
            decreases end - at,
        {
            assert(self.bytes().subrange(0, at + 1).drop_last() =~= self.bytes().subrange(
                0,
                at as int,
            ));
            if rope_get_byte(self, at) == Some(LF) {
                count += 1;
            }
            at += 1;
        }
        count
    }
}

impl TextStore for RopeyStore {
    open spec fn contents(&self) -> Seq<char> {
        self.text()
    }

    open spec fn valid(&self) -> bool {
        true
    }

    fn empty() -> (store: Self) {
        rope_new()
    }

    fn from_text(text: &str) -> (store: Self) {
        rope_from_str(text)
    }

    fn len_bytes(&self) -> (len: usize) {
        rope_len_bytes(self)
    }

    fn len_chars(&self) -> (len: usize) {
        rope_len_chars(self)
    }

    fn get_byte(&self, idx: usize) -> (byte: Option<u8>) {
        rope_get_byte(self, idx)
    }

    fn line_end(&self, start: usize) -> (end: usize) {
        let len = rope_len_bytes(self);
        if start > len {
            return len;
        }
        let mut at = start;
        while at < len && rope_get_byte(self, at) != Some(LF)
            invariant
                start <= at <= len,
                len == self.bytes().len(),
                forall|i: int| start <= i < at ==> self.bytes()[i] != LF,
            decreases len - at,
        {
            at += 1;
        }
        proof {
            lemma_next_lf_unique(self.bytes(), start as int, at as int);
        }
        if at < len {
            at + 1
        } else {
            len
        }
    }

    fn slice_bytes(&self, start: usize, end: usize) -> (part: Option<String>) {
        rope_byte_slice(self, start, end)
    }

    fn insert(&mut self, idx: usize, val: &str) -> (changed: Result<usize, RopeError>) {
        if idx > rope_len_chars(self) {
            return Err(RopeError::OutOfBounds);
        }
        let at = rope_char_to_byte(self, idx);
        proof {
            let head = self.text().subrange(0, idx as int);
            let tail = self.text().subrange(idx as int, self.text().len() as int);
            assert(self.text() =~= head + tail);
            lemma_encode_concat(head, tail);
            assert(self.bytes().subrange(0, at as int) =~= encode_utf8(head));
        }
        let line = self.count_line_feeds(at);
        rope_insert(self, idx, val);
        Ok(line)
    }

    fn remove_range(&mut self, start: usize, end: usize) -> (changed: Result<usize, RopeError>) {
        if start > end || end > rope_len_chars(self) {
            return Err(RopeError::OutOfBounds);
        }
        let at = rope_char_to_byte(self, start);
        proof {
            let head = self.text().subrange(0, start as int);
            let tail = self.text().subrange(start as int, self.text().len() as int);
            assert(self.text() =~= head + tail);
            lemma_encode_concat(head, tail);
            assert(self.bytes().subrange(0, at as int) =~= encode_utf8(head));
        }
        let line = self.count_line_feeds(at);
        rope_remove(self, start, end);
        Ok(line)
    }
}

} // verus!
