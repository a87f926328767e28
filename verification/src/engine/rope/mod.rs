//! A rope: text kept as a binary tree over short string chunks.
//!
//! An internal node caches the size of its left subtree, in bytes and in
//! characters, so that a position is found by one descent. The text of a
//! tree is the concatenation of its leaves from left to right; its bytes are
//! the UTF-8 encoding of that text.

pub mod encoding;
pub mod lines;

use vstd::prelude::*;
use vstd::utf8::*;
use encoding::{
    lemma_boundary_concat, lemma_boundary_iff, lemma_boundary_nearby, lemma_boundary_subrange,
    lemma_decode_subrange_split, lemma_encode_concat, lemma_encode_injective, lemma_encode_len,
};
use super::store::TextStore;
use lines::{
    count_lf, is_text_range, lemma_count_lf_bound, lemma_count_lf_concat, lemma_line_end_bounds,
    lemma_lines_from_bound, lemma_next_lf, lemma_next_lf_concat, lemma_next_lf_unique, line_end,
    lines_from, next_lf, LF,
};

verus! {

/// The maximum size of a leaf string, in bytes.
pub const MAX_LEAF_SIZE: usize = 32;

/// The minimum size of a leaf string that bulk loading produces, in bytes.
pub const MIN_LEAF_SIZE: usize = 8;

#[derive(Debug, Clone, Copy, PartialEq, Eq, Structural)]
pub enum RopeError {
    /// No text was given to build a rope from.
    Empty,
    /// A position past the end of the text.
    OutOfBounds,
}

/// Payload that a leaf may carry along with its text.
pub trait TreeData: Clone {

}

#[derive(Debug)]
pub struct InternalNode<T> {
    /// Left child node
    left: Box<Node<T>>,
    /// Right child node
    right: Box<Node<T>>,
    /// Size of the left subtree in bytes; used for indexing by byte.
    weight: usize,
    /// Size of the left subtree in characters; used for indexing by
    /// character.
    chars: usize,
}

#[derive(Debug)]
pub struct LeafNode<T> {
    value: String,
    meta: Option<T>,
}

#[derive(Debug)]
pub enum Node<T> {
    Internal(InternalNode<T>),
    Leaf(LeafNode<T>),
}

#[derive(Debug, Clone, Copy)]
enum IndexMode {
    Chars,
    Bytes,
}

impl<T> Node<T> {
    /// The text that the tree holds.
    pub closed spec fn text(self) -> Seq<char>
        decreases self,
    {
        match self {
            Node::Internal(data) => data.left.text() + data.right.text(),
            Node::Leaf(data) => data.value@,
        }
    }

    /// The bytes of the text.
    pub open spec fn bytes(self) -> Seq<u8> {
        encode_utf8(self.text())
    }

    /// The character at character index `idx`, if the text has one there.
    pub open spec fn spec_get(self, idx: int) -> Option<char> {
        if 0 <= idx < self.text().len() {
            Some(self.text()[idx])
        } else {
            None
        }
    }

    /// The byte at byte index `idx`, if the text has one there.
    pub open spec fn spec_get_byte(self, idx: int) -> Option<u8> {
        if 0 <= idx < self.bytes().len() {
            Some(self.bytes()[idx])
        } else {
            None
        }
    }

    /// A tree that holds the text `source` gives at every index the
    /// character, and the byte, that `source` has there, and nothing past
    /// its end.
    pub proof fn lemma_indexing_follows_source(self, source: Seq<char>, idx: int)
        requires
            self.text() == source,
            0 <= idx,
        ensures
            self.spec_get(idx) == if idx < source.len() {
                Some(source[idx])
            } else {
                None
            },
            self.spec_get_byte(idx) == if idx < encode_utf8(source).len() {
                Some(encode_utf8(source)[idx])
            } else {
                None
            },
    {
    }

    /// The texts of the leaves, from left to right.
    pub closed spec fn chunks(self) -> Seq<Seq<char>>
        decreases self,
    {
        match self {
            Node::Internal(data) => data.left.chunks() + data.right.chunks(),
            Node::Leaf(data) => seq![data.value@],
        }
    }

    /// The number of internal nodes on the longest way from the root to a
    /// leaf.
    pub closed spec fn height(self) -> nat
        decreases self,
    {
        match self {
            Node::Internal(data) => 1 + if data.left.height() >= data.right.height() {
                data.left.height()
            } else {
                data.right.height()
            },
            Node::Leaf(data) => 0,
        }
    }

    /// The cached sizes agree with the subtrees, no leaf is longer than
    /// `MAX_LEAF_SIZE` bytes, and the length of the text fits a `usize`.
    pub closed spec fn wf(self) -> bool
        decreases self,
    {
        match self {
            Node::Internal(data) => {
                &&& data.left.wf()
                &&& data.right.wf()
                &&& data.weight == data.left.bytes().len()
                &&& data.chars == data.left.text().len()
                &&& self.bytes().len() <= usize::MAX
            },
            Node::Leaf(data) => encode_utf8(data.value@).len() <= MAX_LEAF_SIZE,
        }
    }

    /// The size that `weight` reports: of the left subtree for an internal
    /// node, of the chunk for a leaf.
    pub closed spec fn spec_weight(self) -> nat {
        match self {
            Node::Internal(data) => data.left.bytes().len(),
            Node::Leaf(data) => encode_utf8(data.value@).len(),
        }
    }

    /// The size in characters that goes with `spec_weight`: of the left
    /// subtree for an internal node, of the chunk for a leaf.
    pub closed spec fn spec_chars(self) -> nat {
        match self {
            Node::Internal(data) => data.left.text().len(),
            Node::Leaf(data) => data.value@.len(),
        }
    }

    /// Whether chunk `j` of the tree is `leaf`, and position `off` in it is
    /// position `idx` of the text: the chunks before chunk `j` hold `idx -
    /// off` characters, or bytes, as `mode` has it.
    spec fn locates(self, j: int, leaf: Seq<char>, off: int, idx: int, mode: IndexMode) -> bool {
        &&& 0 <= j < self.chunks().len()
        &&& leaf == self.chunks()[j]
        &&& match mode {
            IndexMode::Chars => self.chunks().take(j).flatten().len() + off == idx,
            IndexMode::Bytes => encode_utf8(self.chunks().take(j).flatten()).len() + off == idx,
        }
    }

    /// The cached sizes are those of a part of the text that starts it: of
    /// the whole text for a tree of a single leaf, and never more than the
    /// text holds.
    pub proof fn lemma_weight_within_text(self)
        ensures
            self.spec_weight() <= self.bytes().len(),
            self.spec_chars() <= self.text().len(),
            self.height() == 0 ==> self.spec_weight() == self.bytes().len() && self.spec_chars()
                == self.text().len(),
    {
        match self {
            Node::Internal(data) => {
                lemma_encode_concat(data.left.text(), data.right.text());
            },
            Node::Leaf(data) => {},
        }
    }

    /// The text of a tree is its chunks joined.
    pub proof fn lemma_text_is_chunks(self)
        ensures
            self.text() == self.chunks().flatten(),
        decreases self,
    {
        match self {
            Node::Internal(data) => {
                data.left.lemma_text_is_chunks();
                data.right.lemma_text_is_chunks();
                data.left.chunks().lemma_flatten_and_flatten_alt_are_equivalent();
                data.right.chunks().lemma_flatten_and_flatten_alt_are_equivalent();
                vstd::seq_lib::lemma_flatten_concat(data.left.chunks(), data.right.chunks());
            },
            Node::Leaf(data) => {
                assert(seq![data.value@].drop_first() =~= Seq::<Seq<char>>::empty());
                assert(seq![data.value@].flatten() =~= data.value@) by {
                    reveal_with_fuel(Seq::flatten, 2);
                }
            },
        }
    }

    /// No chunk is longer than the whole text.
    pub proof fn lemma_chunk_in_text(self, i: int)
        requires
            0 <= i < self.chunks().len(),
        ensures
            self.chunks()[i].len() <= self.text().len(),
        decreases self,
    {
        match self {
            Node::Internal(data) => {
                if i < data.left.chunks().len() {
                    data.left.lemma_chunk_in_text(i);
                } else {
                    data.right.lemma_chunk_in_text(i - data.left.chunks().len());
                }
            },
            Node::Leaf(data) => {},
        }
    }

    /// In a well-formed tree every chunk is at most `MAX_LEAF_SIZE` bytes.
    pub proof fn lemma_chunks_bounded(self)
        requires
            self.wf(),
        ensures
            forall|i: int|
                0 <= i < self.chunks().len() ==> encode_utf8(#[trigger] self.chunks()[i]).len()
                    <= MAX_LEAF_SIZE,
            self.chunks().len() >= 1,
        decreases self,
    {
        match self {
            Node::Internal(data) => {
                data.left.lemma_chunks_bounded();
                data.right.lemma_chunks_bounded();
            },
            Node::Leaf(data) => {},
        }
    }
}

impl<T: TreeData> Node<T> {
    fn internal(left: Node<T>, right: Node<T>) -> (node: Self)
        requires
            left.wf(),
            right.wf(),
            left.bytes().len() + right.bytes().len() <= usize::MAX,
        ensures
            node.wf(),
            node.text() == left.text() + right.text(),
            node.chunks() == left.chunks() + right.chunks(),
            node.height() == 1 + taller(left.height(), right.height()),
            node.spec_weight() == left.bytes().len(),
            node.spec_chars() == left.text().len(),
    {
        proof {
            lemma_encode_concat(left.text(), right.text());
            lemma_encode_len(left.text());
        }
        let weight = left.compute_len();
        let chars = left.compute_chars();
        Self::Internal(InternalNode { left: Box::new(left), right: Box::new(right), weight, chars })
    }

    fn leaf(value: &str, meta: Option<T>) -> (node: Self)
        requires
            encode_utf8(value@).len() <= MAX_LEAF_SIZE,
        ensures
            node.wf(),
            node.text() == value@,
            node.chunks() == seq![value@],
            node.height() == 0,
            node.spec_weight() == encode_utf8(value@).len(),
            node.spec_chars() == value@.len(),
    {
        Self::Leaf(LeafNode::<T> { value: value.to_owned(), meta })
    }

    /// Joins two trees under a new root, in constant time beyond measuring
    /// the left one. The new root caches the size of `left`, in bytes and in
    /// characters.
    pub fn concatenate(left: Self, right: Self) -> (node: Self)
        requires
            left.wf(),
            right.wf(),
            left.bytes().len() + right.bytes().len() <= usize::MAX,
        ensures
            node.wf(),
            node.text() == left.text() + right.text(),
            node.chunks() == left.chunks() + right.chunks(),
            node.height() == 1 + taller(left.height(), right.height()),
            node.spec_weight() == left.bytes().len(),
            node.spec_chars() == left.text().len(),
    {
        Node::<T>::internal(left, right)
    }

    /// The height of the tree; the largest `usize` where it is greater.
    pub fn depth(&self) -> (depth: usize)
        ensures
            depth == if self.height() <= usize::MAX {
                self.height()
            } else {
                usize::MAX as nat
            },
        decreases self,
    {
        match &self {
            Self::Internal(ref data) => {
                let left = data.left.depth();
                let right = data.right.depth();
                let below = if left >= right { left } else { right };
                if below < usize::MAX {
                    below + 1
                } else {
                    below
                }
            },
            Self::Leaf(_) => 0,
        }
    }

    /// A copy of the tree with the same shape and text.
    pub fn duplicate(&self) -> (copy: Self)
        ensures
            copy.wf() == self.wf(),
            copy.text() == self.text(),
            copy.chunks() == self.chunks(),
            copy.height() == self.height(),
            copy.spec_weight() == self.spec_weight(),
            copy.spec_chars() == self.spec_chars(),
        decreases self,
    {
        match &self {
            Self::Internal(ref data) => {
                let left = data.left.duplicate();
                let right = data.right.duplicate();
                Self::Internal(
                    InternalNode {
                        left: Box::new(left),
                        right: Box::new(right),
                        weight: data.weight,
                        chars: data.chars,
                    },
                )
            },
            Self::Leaf(ref data) => Self::Leaf(
                LeafNode { value: data.value.clone(), meta: data.meta.clone() },
            ),
        }
    }

    /// The cached size of the left subtree in bytes, or of the chunk for a
    /// leaf.
    pub fn weight(&self) -> (weight: usize)
        requires
            self.wf(),
        ensures
            weight == self.spec_weight(),
    {
        match &self {
            Self::Internal(ref data) => data.weight,
            Self::Leaf(ref data) => data.value.as_str().len(),
        }
    }

    /// The cached size of the left subtree in characters, or of the chunk
    /// for a leaf.
    pub fn weight_chars(&self) -> (chars: usize)
        requires
            self.wf(),
        ensures
            chars == self.spec_chars(),
    {
        match &self {
            Self::Internal(ref data) => data.chars,
            Self::Leaf(ref data) => {
                proof {
                    lemma_encode_len(data.value@);
                }
                data.value.as_str().unicode_len()
            },
        }
    }

    /// Cuts the tree in two at character index `idx`: the first tree holds
    /// the characters before `idx`, the second the rest. Joining the two again
    /// gives the text back. Fails when `idx` lies past the end of the text.
    pub fn split(node: Self, idx: usize) -> (parts: Result<(Self, Self), RopeError>)
        requires
            node.wf(),
        ensures
            match parts {
                Ok((left, right)) => {
                    &&& idx <= node.text().len()
                    &&& left.wf()
                    &&& right.wf()
                    &&& left.text() == node.text().subrange(0, idx as int)
                    &&& right.text() == node.text().subrange(idx as int, node.text().len() as int)
                    &&& left.text() + right.text() == node.text()
                },
                Err(e) => e == RopeError::OutOfBounds && idx > node.text().len(),
            },
    {
        if idx > node.compute_chars() {
            Err(RopeError::OutOfBounds)
        } else {
            let parts = Self::split_within(node, idx);
            assert(parts.0.text() + parts.1.text() =~= node.text());
            Ok(parts)
        }
    }

    fn split_within(node: Self, idx: usize) -> (parts: (Self, Self))
        requires
            node.wf(),
            idx <= node.text().len(),
        ensures
            parts.0.wf(),
            parts.1.wf(),
            parts.0.text() == node.text().subrange(0, idx as int),
            parts.1.text() == node.text().subrange(idx as int, node.text().len() as int),
        decreases node,
    {
        match node {
            Self::Internal(data) => {
                let InternalNode { left, right, weight: _, chars } = data;
                let ghost before = left.text();
                let ghost after = right.text();
                proof {
                    lemma_encode_concat(before, after);
                }
                if idx < chars {
                    let (head, rest) = Self::split_within(*left, idx);
                    proof {
                        assert(before =~= head.text() + rest.text());
                        lemma_encode_concat(head.text(), rest.text());
                    }
                    let tail = Self::internal(rest, *right);
                    assert(head.text() =~= (before + after).subrange(0, idx as int));
                    assert(tail.text() =~= (before + after).subrange(
                        idx as int,
                        (before + after).len() as int,
                    ));
                    (head, tail)
                } else if idx == chars {
                    assert(before =~= (before + after).subrange(0, idx as int));
                    assert(after =~= (before + after).subrange(
                        idx as int,
                        (before + after).len() as int,
                    ));
                    (*left, *right)
                } else {
                    let (rest, tail) = Self::split_within(*right, idx - chars);
                    proof {
                        assert(after =~= rest.text() + tail.text());
                        lemma_encode_concat(rest.text(), tail.text());
                    }
                    let head = Self::internal(*left, rest);
                    assert(head.text() =~= (before + after).subrange(0, idx as int));
                    assert(tail.text() =~= (before + after).subrange(
                        idx as int,
                        (before + after).len() as int,
                    ));
                    (head, tail)
                }
            },
            Self::Leaf(data) => {
                let value = data.value.as_str();
                let count = value.unicode_len();
                let head = value.substring_char(0, idx);
                let tail = value.substring_char(idx, count);
                proof {
                    assert(value@ =~= head@ + tail@);
                    lemma_encode_concat(head@, tail@);
                }
                (Self::leaf(head, None), Self::leaf(tail, None))
            },
        }
    }

    /// The whole text in one string.
    pub fn to_string(&self) -> (text: String)
        requires
            self.wf(),
        ensures
            text@ == self.text(),
    {
        let mut text = String::new();
        self.append_text(&mut text);
        assert(Seq::<char>::empty() + self.text() =~= self.text());
        text
    }

    fn append_text(&self, out: &mut String)
        requires
            self.wf(),
        ensures
            final(out)@ == old(out)@ + self.text(),
        decreases self,
    {
        match &self {
            Self::Internal(ref data) => {
                data.left.append_text(out);
                data.right.append_text(out);
                assert(old(out)@ + data.left.text() + data.right.text() =~= old(out)@ + (
                data.left.text() + data.right.text()));
            },
            Self::Leaf(ref data) => {
                out.append(data.value.as_str());
            },
        }
    }

    /// The sizes of the chunks in bytes, from left to right.
    pub fn chunk_sizes(&self) -> (sizes: Vec<usize>)
        requires
            self.wf(),
        ensures
            sizes@.len() == self.chunks().len(),
            forall|i: int|
                0 <= i < sizes@.len() ==> sizes@[i] == encode_utf8(#[trigger] self.chunks()[i]).len(),
    {
        let mut sizes: Vec<usize> = Vec::new();
        self.append_chunk_sizes(&mut sizes);
        assert(Seq::<Seq<char>>::empty() + self.chunks() =~= self.chunks());
        sizes
    }

    fn append_chunk_sizes(&self, sizes: &mut Vec<usize>)
        requires
            self.wf(),
        ensures
            final(sizes)@.len() == old(sizes)@.len() + self.chunks().len(),
            forall|i: int| 0 <= i < old(sizes)@.len() ==> final(sizes)@[i] == old(sizes)@[i],
            forall|i: int|
                0 <= i < self.chunks().len() ==> final(sizes)@[old(sizes)@.len() + i]
                    == encode_utf8(#[trigger] self.chunks()[i]).len(),
        decreases self,
    {
        match &self {
            Self::Internal(ref data) => {
                data.left.append_chunk_sizes(sizes);
                let ghost middle = sizes@;
                data.right.append_chunk_sizes(sizes);
                proof {
                    let split = data.left.chunks().len() as int;
                    assert forall|i: int| 0 <= i < self.chunks().len() implies sizes@[old(
                        sizes,
                    )@.len() + i] == encode_utf8(#[trigger] self.chunks()[i]).len() by {
                        if i < split {
                            assert(self.chunks()[i] == data.left.chunks()[i]);
                            assert(sizes@[old(sizes)@.len() + i] == middle[old(sizes)@.len() + i]);
                        } else {
                            assert(self.chunks()[i] == data.right.chunks()[i - split]);
                            assert(sizes@[middle.len() + (i - split)] == encode_utf8(
                                data.right.chunks()[i - split],
                            ).len());
                        }
                    }
                }
            },
            Self::Leaf(ref data) => {
                sizes.push(data.value.as_str().len());
            },
        }
    }

    /// The tree of the empty text: a single empty leaf.
    pub fn empty() -> (node: Self)
        ensures
            node.wf(),
            node.text() == Seq::<char>::empty(),
            node.height() == 0,
            node.spec_weight() == 0,
            node.spec_chars() == 0,
    {
        Self::Leaf(LeafNode { value: String::new(), meta: None })
    }

    /// The index of the first line feed at or after byte `from`, or the
    /// length of the text in bytes when none follows.
    fn find_line_feed(&self, from: usize) -> (at: usize)
        requires
            self.wf(),
            from <= self.bytes().len(),
        ensures
            at == next_lf(self.bytes(), from as int),
        decreases self,
    {
        match &self {
            Self::Internal(ref data) => {
                proof {
                    lemma_encode_concat(data.left.text(), data.right.text());
                    lemma_next_lf_concat(data.left.bytes(), data.right.bytes(), from as int);
                    lemma_next_lf(data.right.bytes(), 0);
                }
                if from < data.weight {
                    proof {
                        lemma_next_lf(data.left.bytes(), from as int);
                    }
                    let at = data.left.find_line_feed(from);
                    if at < data.weight {
                        at
                    } else {
                        data.weight + data.right.find_line_feed(0)
                    }
                } else {
                    proof {
                        lemma_next_lf(data.right.bytes(), from - data.weight);
                    }
                    data.weight + data.right.find_line_feed(from - data.weight)
                }
            },
            Self::Leaf(ref data) => {
                let bytes = data.value.as_str().as_bytes();
                let mut at = from;
                while at < bytes.len() && bytes[at] != LF
                    invariant
                        from <= at <= bytes@.len(),
                        forall|i: int| from <= i < at ==> bytes@[i] != LF,
                    decreases bytes@.len() - at,
                {
                    at += 1;
                }
                proof {
                    lemma_next_lf_unique(bytes@, from as int, at as int);
                }
                at
            },
        }
    }

    /// One past the last byte of the line that starts at byte `start`; the
    /// length of the text when `start` lies past its end.
    pub fn line_end(&self, start: usize) -> (end: usize)
        requires
            self.wf(),
        ensures
            end == if start <= self.bytes().len() {
                line_end(self.bytes(), start as int)
            } else {
                self.bytes().len() as int
            },
    {
        let len = self.compute_len();
        if start > len {
            len
        } else {
            let at = self.find_line_feed(start);
            if at < len {
                at + 1
            } else {
                len
            }
        }
    }

    /// How many line feeds the text holds.
    pub fn count_line_feeds(&self) -> (count: usize)
        requires
            self.wf(),
        ensures
            count == count_lf(self.bytes()),
        decreases self,
    {
        match &self {
            Self::Internal(ref data) => {
                proof {
                    lemma_encode_concat(data.left.text(), data.right.text());
                    lemma_count_lf_concat(data.left.bytes(), data.right.bytes());
                    lemma_count_lf_bound(self.bytes());
                }
                data.left.count_line_feeds() + data.right.count_line_feeds()
            },
            Self::Leaf(ref data) => {
                let bytes = data.value.as_str().as_bytes();
                let mut count: usize = 0;
                let mut at: usize = 0;
                assert(bytes@.subrange(0, 0) =~= Seq::<u8>::empty());
                while at < bytes.len()
                    invariant
                        at <= bytes@.len(),
                        count == count_lf(bytes@.subrange(0, at as int)),
                        count <= at,
                    decreases bytes@.len() - at,
                {
                    assert(bytes@.subrange(0, at + 1).drop_last() =~= bytes@.subrange(
                        0,
                        at as int,
                    ));
                    if bytes[at] == LF {
                        count += 1;
                    }
                    at += 1;
                }
                assert(bytes@.subrange(0, at as int) =~= bytes@);
                count
            },
        }
    }

    /// The text between bytes `start` and `end`, or `None` when these do not
    /// delimit whole characters of the text.
    pub fn slice_bytes(&self, start: usize, end: usize) -> (part: Option<String>)
        requires
            self.wf(),
        ensures
            match part {
                Some(text) => {
                    &&& is_text_range(self.bytes(), start as int, end as int)
                    &&& text@ == decode_utf8(self.bytes().subrange(start as int, end as int))
                },
                None => !is_text_range(self.bytes(), start as int, end as int),
            },
    {
        if start > end || end > self.compute_len() {
            return None;
        }
        let mut text = String::new();
        let whole = self.append_range(start, end, &mut text);
        if whole {
            assert(Seq::<char>::empty() + decode_utf8(
                self.bytes().subrange(start as int, end as int),
            ) =~= decode_utf8(self.bytes().subrange(start as int, end as int)));
            Some(text)
        } else {
            None
        }
    }

    /// Appends the text between bytes `start` and `end` to `out`. Reports
    /// whether both are character boundaries; when one is not, what `out`
    /// then holds is of no use.
    fn append_range(&self, start: usize, end: usize, out: &mut String) -> (whole: bool)
        requires
            self.wf(),
            start <= end <= self.bytes().len(),
        ensures
            whole == (is_char_boundary(self.bytes(), start as int) && is_char_boundary(
                self.bytes(),
                end as int,
            )),
            whole ==> final(out)@ == old(out)@ + decode_utf8(
                self.bytes().subrange(start as int, end as int),
            ),
        decreases self,
    {
        proof {
            encode_utf8_valid_utf8(self.text());
        }
        match &self {
            Self::Internal(ref data) => {
                let ghost head = data.left.bytes();
                let ghost tail = data.right.bytes();
                proof {
                    lemma_encode_concat(data.left.text(), data.right.text());
                    encode_utf8_valid_utf8(data.left.text());
                    encode_utf8_valid_utf8(data.right.text());
                    lemma_boundary_concat(head, tail, start as int);
                    lemma_boundary_concat(head, tail, end as int);
                    lemma_boundary_concat(head, tail, head.len() as int);
                    lemma_boundary_iff(head, head.len() as int);
                    lemma_boundary_iff(tail, 0);
                }
                if end <= data.weight {
                    assert((head + tail).subrange(start as int, end as int) =~= head.subrange(
                        start as int,
                        end as int,
                    ));
                    data.left.append_range(start, end, out)
                } else if start >= data.weight {
                    assert((head + tail).subrange(start as int, end as int) =~= tail.subrange(
                        start - data.weight,
                        end - data.weight,
                    ));
                    data.right.append_range(start - data.weight, end - data.weight, out)
                } else {
                    let first = data.left.append_range(start, data.weight, out);
                    if !first {
                        return false;
                    }
                    let ghost middle = out@;
                    let second = data.right.append_range(0, end - data.weight, out);
                    proof {
                        if second {
                            lemma_decode_subrange_split(
                                head + tail,
                                start as int,
                                head.len() as int,
                                end as int,
                            );
                            assert((head + tail).subrange(start as int, head.len() as int)
                                =~= head.subrange(start as int, head.len() as int));
                            assert((head + tail).subrange(head.len() as int, end as int)
                                =~= tail.subrange(0, end - head.len()));
                            assert(out@ =~= old(out)@ + decode_utf8(
                                (head + tail).subrange(start as int, end as int),
                            ));
                        }
                    }
                    second
                }
            },
            Self::Leaf(ref data) => {
                let value = data.value.as_str();
                let ghost bytes = encode_utf8(value@);
                if value.is_char_boundary(start) && value.is_char_boundary(end) {
                    let (head, _) = value.split_at(end);
                    proof {
                        lemma_boundary_subrange(bytes, 0, end as int, start as int);
                        lemma_boundary_iff(bytes, 0);
                        assert(encode_utf8(head@) =~= bytes.subrange(0, end as int));
                    }
                    let (_, part) = head.split_at(start);
                    proof {
                        assert(encode_utf8(part@) =~= bytes.subrange(start as int, end as int));
                        encode_utf8_decode_utf8(part@);
                    }
                    out.append(part);
                    true
                } else {
                    false
                }
            },
        }
    }

    fn compute_len(&self) -> (len: usize)
        requires
            self.wf(),
        ensures
            len == self.bytes().len(),
        decreases self,
    {
        match &self {
            Self::Internal(ref data) => {
                proof {
                    lemma_encode_concat(data.left.text(), data.right.text());
                }
                data.weight + data.right.compute_len()
            },
            Self::Leaf(ref data) => data.value.as_str().len(),
        }
    }

    fn compute_chars(&self) -> (count: usize)
        requires
            self.wf(),
        ensures
            count == self.text().len(),
        decreases self,
    {
        proof {
            lemma_encode_len(self.text());
        }
        match &self {
            Self::Internal(ref data) => {
                proof {
                    lemma_encode_len(data.right.text());
                }
                data.chars + data.right.compute_chars()
            },
            Self::Leaf(ref data) => data.value.as_str().unicode_len(),
        }
    }

    /// The leaf that holds position `idx` of the text, counted in
    /// characters or in bytes as `mode` has it, and the position in the leaf:
    /// what is left of `idx` once the sizes of the leaves before that leaf are
    /// taken off. Past the end of the text this is the last leaf, with a
    /// position past its end.
    fn index(&self, idx: usize, mode: IndexMode) -> (found: (&LeafNode<T>, usize))
        requires
            self.wf(),
        ensures
            exists|j: int| #[trigger]
                self.locates(j, found.0.value@, found.1 as int, idx as int, mode),
            encode_utf8(found.0.value@).len() <= MAX_LEAF_SIZE,
            mode is Chars ==> (found.1 < found.0.value@.len() <==> idx < self.text().len()),
            mode is Chars && idx < self.text().len() ==> found.0.value@[found.1 as int]
                == self.text()[idx as int],
            mode is Bytes ==> (found.1 < encode_utf8(found.0.value@).len() <==> idx
                < self.bytes().len()),
            mode is Bytes && idx < self.bytes().len() ==> encode_utf8(found.0.value@)[found.1 as int]
                == self.bytes()[idx as int],
        decreases self,
    {
        match &self {
            Self::Internal(ref data) => {
                proof {
                    lemma_encode_concat(data.left.text(), data.right.text());
                }
                let size = match mode {
                    IndexMode::Chars => data.chars,
                    IndexMode::Bytes => data.weight,
                };
                if idx < size {
                    let found = data.left.index(idx, mode);
                    proof {
                        let j = choose|j: int| #[trigger]
                            data.left.locates(j, found.0.value@, found.1 as int, idx as int, mode);
                        assert(self.chunks().take(j) =~= data.left.chunks().take(j));
                        assert(self.locates(j, found.0.value@, found.1 as int, idx as int, mode));
                    }
                    found
                } else {
                    let found = data.right.index(idx - size, mode);
                    proof {
                        let before = data.left.chunks();
                        let j = choose|j: int| #[trigger]
                            data.right.locates(
                                j,
                                found.0.value@,
                                found.1 as int,
                                idx - size,
                                mode,
                            );
                        let within = data.right.chunks().take(j);
                        assert(self.chunks().take(before.len() + j) =~= before + within);
                        vstd::seq_lib::lemma_flatten_concat(before, within);
                        data.left.lemma_text_is_chunks();
                        lemma_encode_concat(before.flatten(), within.flatten());
                        assert(self.locates(
                            before.len() + j,
                            found.0.value@,
                            found.1 as int,
                            idx as int,
                            mode,
                        ));
                    }
                    found
                }
            },
            Self::Leaf(ref data) => {
                let found = (data, idx);
                proof {
                    assert(self.chunks().take(0) =~= Seq::<Seq<char>>::empty());
                    assert(self.locates(0, found.0.value@, found.1 as int, idx as int, mode));
                }
                found
            },
        }
    }
}

/// Every chunk from index `from` on holds at least `floor` bytes and at
/// most `MAX_LEAF_SIZE`.
pub open spec fn chunks_sized(chunks: Seq<Seq<char>>, from: int, floor: nat) -> bool {
    forall|i: int|
        from <= i < chunks.len() ==> floor <= #[trigger] encode_utf8(chunks[i]).len()
            <= MAX_LEAF_SIZE
}

/// The least size of the chunks that a text of `len` bytes is loaded into:
/// `MIN_LEAF_SIZE`, unless the whole text is shorter.
pub open spec fn chunk_floor(len: nat) -> nat {
    if len >= MIN_LEAF_SIZE {
        MIN_LEAF_SIZE as nat
    } else {
        1
    }
}

/// The greater of two heights.
pub open spec fn taller(a: nat, b: nat) -> nat {
    if a >= b {
        a
    } else {
        b
    }
}

/// The texts of the trees, joined from left to right.
pub open spec fn joined_text<T>(nodes: Seq<Node<T>>) -> Seq<char>
    decreases nodes.len(),
{
    if nodes.len() == 0 {
        Seq::empty()
    } else {
        joined_text(nodes.drop_last()) + nodes.last().text()
    }
}

/// The chunks of the trees, from left to right.
pub open spec fn joined_chunks<T>(nodes: Seq<Node<T>>) -> Seq<Seq<char>>
    decreases nodes.len(),
{
    if nodes.len() == 0 {
        Seq::empty()
    } else {
        joined_chunks(nodes.drop_last()) + nodes.last().chunks()
    }
}

/// The height of the tallest of the trees.
pub open spec fn tallest<T>(nodes: Seq<Node<T>>) -> nat
    decreases nodes.len(),
{
    if nodes.len() == 0 {
        0
    } else {
        taller(tallest(nodes.drop_last()), nodes.last().height())
    }
}

/// How many levels joining `count` trees by halves adds above them: zero
/// for one tree, and one more than for the greater half otherwise.
pub open spec fn depth_for(count: nat) -> nat
    decreases count,
{
    if count <= 1 {
        0
    } else {
        1 + depth_for((count - count / 2) as nat)
    }
}

/// Two to the power of `k`.
pub open spec fn two_to(k: nat) -> nat
    decreases k,
{
    if k == 0 {
        1
    } else {
        2 * two_to((k - 1) as nat)
    }
}

/// Joining more trees never takes fewer levels.
pub proof fn lemma_depth_for_grows(fewer: nat, more: nat)
    requires
        fewer <= more,
    ensures
        depth_for(fewer) <= depth_for(more),
    decreases more,
{
    if fewer > 1 {
        lemma_depth_for_grows((fewer - fewer / 2) as nat, (more - more / 2) as nat);
    }
}

/// Joining up to two to the `k` trees takes at most `k` levels.
pub proof fn lemma_depth_for_is_logarithmic(count: nat, k: nat)
    requires
        count <= two_to(k),
    ensures
        depth_for(count) <= k,
    decreases k,
{
    if count > 1 {
        lemma_depth_for_is_logarithmic((count - count / 2) as nat, (k - 1) as nat);
    }
}

/// What trees side by side hold is what the trees of the first part hold,
/// followed by what those of the second hold.
pub proof fn lemma_joined_concat<T>(a: Seq<Node<T>>, b: Seq<Node<T>>)
    ensures
        joined_text(a + b) == joined_text(a) + joined_text(b),
        joined_chunks(a + b) == joined_chunks(a) + joined_chunks(b),
        tallest(a + b) == taller(tallest(a), tallest(b)),
    decreases b.len(),
{
    if b.len() == 0 {
        assert(a + b =~= a);
        assert(joined_text(a) + joined_text(b) =~= joined_text(a));
        assert(joined_chunks(a) + joined_chunks(b) =~= joined_chunks(a));
    } else {
        lemma_joined_concat(a, b.drop_last());
        assert((a + b).drop_last() =~= a + b.drop_last());
        assert(joined_text(a + b) =~= joined_text(a) + joined_text(b));
        assert(joined_chunks(a + b) =~= joined_chunks(a) + joined_chunks(b));
    }
}

/// Builds a rope from pieces of text pushed one after the other. The pieces
/// are cut into chunks, and the chunks are joined by halves into a tree of
/// logarithmic height when the rope is asked for.
pub struct RopeBuilder<T: TreeData> {
    root: Vec<Node<T>>,
}

impl<T: TreeData> RopeBuilder<T> {
    /// The text pushed so far.
    pub closed spec fn text(self) -> Seq<char> {
        joined_text(self.root@)
    }

    /// The chunks that the text pushed so far was cut into.
    pub closed spec fn chunks(self) -> Seq<Seq<char>> {
        joined_chunks(self.root@)
    }

    /// The number of trees that wait to be joined: one for each chunk of a
    /// text that was pushed, and one for each tree that was.
    pub closed spec fn pieces(self) -> nat {
        self.root@.len()
    }

    /// The height of the tallest tree that was pushed; zero where only text
    /// was.
    pub closed spec fn tallest(self) -> nat {
        tallest(self.root@)
    }

    /// The trees that wait to be joined are well formed, and the length of
    /// their text fits a `usize`.
    pub closed spec fn wf(self) -> bool {
        &&& forall|i: int| 0 <= i < self.root@.len() ==> (#[trigger] self.root@[i]).wf()
        &&& encode_utf8(joined_text(self.root@)).len() <= usize::MAX
    }

    pub fn new() -> (builder: Self)
        ensures
            builder.wf(),
            builder.text() == Seq::<char>::empty(),
            builder.chunks() == Seq::<Seq<char>>::empty(),
            builder.pieces() == 0,
            builder.tallest() == 0,
    {
        Self { root: Vec::new() }
    }

    /// Cuts `val` into chunks and appends them. A chunk ends at a character
    /// boundary; it takes `MAX_LEAF_SIZE` bytes, less up to three to reach a
    /// boundary, while at least `MIN_LEAF_SIZE` bytes more are left after
    /// it, and what is left then goes into one chunk or two halves.
    #[verifier::loop_isolation(false)]
    pub fn push(&mut self, val: &str)
        requires
            old(self).wf(),
            encode_utf8(old(self).text()).len() + encode_utf8(val@).len() <= usize::MAX,
        ensures
            final(self).wf(),
            final(self).text() == old(self).text() + val@,
            old(self).chunks().len() <= final(self).chunks().len(),
            final(self).chunks().subrange(0, old(self).chunks().len() as int) == old(
                self,
            ).chunks(),
            chunks_sized(
                final(self).chunks(),
                old(self).chunks().len() as int,
                chunk_floor(encode_utf8(val@).len()),
            ),
            final(self).tallest() == old(self).tallest(),
            final(self).pieces() - old(self).pieces() == final(self).chunks().len() - old(
                self,
            ).chunks().len(),
    {
        let ghost start_tallest = self.tallest();
        let ghost start_pieces = self.pieces();
        let ghost start_text = self.text();
        let ghost start_chunks = self.chunks();
        let ghost floor = chunk_floor(encode_utf8(val@).len());
        let mut rest: &str = val;
        proof {
            assert(start_chunks.subrange(0, start_chunks.len() as int) =~= start_chunks);
            assert(self.text() + rest@ =~= start_text + val@);
        }
        while rest.len() != 0
            invariant
                self.wf(),
                self.text() + rest@ == start_text + val@,
                encode_utf8(self.text()).len() + encode_utf8(rest@).len() <= usize::MAX,
                start_chunks.len() <= self.chunks().len(),
                self.chunks().subrange(0, start_chunks.len() as int) == start_chunks,
                chunks_sized(self.chunks(), start_chunks.len() as int, floor),
                floor == 1 || floor == MIN_LEAF_SIZE,
                self.tallest() == start_tallest,
                self.pieces() - start_pieces == self.chunks().len() - start_chunks.len(),
                floor == MIN_LEAF_SIZE ==> encode_utf8(rest@).len() == 0 || encode_utf8(
                    rest@,
                ).len() >= MIN_LEAF_SIZE,
            decreases encode_utf8(rest@).len(),
        {
            let slice_length = rest.len();
            let target = if slice_length >= MAX_LEAF_SIZE && slice_length - MAX_LEAF_SIZE
                >= MIN_LEAF_SIZE {
                // enough is left for a full chunk and for a chunk after it
                MAX_LEAF_SIZE
            } else if MAX_LEAF_SIZE > slice_length {
                slice_length
            } else {
                slice_length / 2
            };
            let ghost bytes = encode_utf8(rest@);
            proof {
                encode_utf8_valid_utf8(rest@);
                lemma_boundary_nearby(bytes, target as int);
                lemma_boundary_iff(bytes, target as int);
            }
            let ghost near = choose|j: int|
                0 <= j <= target && target - 3 <= j && is_char_boundary(bytes, j);
            let mut split_point = target;
            while !rest.is_char_boundary(split_point)
                invariant
                    bytes == encode_utf8(rest@),
                    near <= split_point <= target,
                    0 <= near,
                    is_char_boundary(bytes, near),
                    is_char_boundary(bytes, target as int) ==> split_point == target,
                decreases split_point,
            {
                split_point -= 1;
            }
            let (chunk, tail) = rest.split_at(split_point);
            proof {
                assert(encode_utf8(chunk@).len() == split_point);
                assert(encode_utf8(tail@).len() == slice_length - split_point);
                assert(split_point >= 1);
                assert(encode_utf8(chunk@) + encode_utf8(tail@) =~= bytes);
                lemma_encode_concat(chunk@, tail@);
                lemma_encode_injective(chunk@ + tail@, rest@);
                lemma_encode_concat(self.text(), chunk@);
                assert((self.text() + chunk@) + tail@ =~= self.text() + (chunk@ + tail@));
            }
            let ghost before = self.chunks();
            self.push_node(Node::leaf(chunk, None));
            proof {
                assert(self.chunks() =~= before + seq![chunk@]);
                assert(self.chunks().subrange(0, start_chunks.len() as int) =~= before.subrange(
                    0,
                    start_chunks.len() as int,
                ));
                assert forall|i: int| start_chunks.len() <= i < self.chunks().len() implies floor
                    <= #[trigger] encode_utf8(self.chunks()[i]).len() <= MAX_LEAF_SIZE by {
                    if i < before.len() {
                        assert(self.chunks()[i] == before[i]);
                    } else {
                        assert(self.chunks()[i] == chunk@);
                    }
                }
            }
            rest = tail;
        }
        proof {
            lemma_encode_len(rest@);
            assert(rest@ =~= Seq::<char>::empty());
            assert(self.text() + rest@ =~= self.text());
        }
    }

    /// Puts `node` to the right of what was pushed so far.
    pub fn push_node(&mut self, node: Node<T>)
        requires
            old(self).wf(),
            node.wf(),
            encode_utf8(old(self).text()).len() + node.bytes().len() <= usize::MAX,
        ensures
            final(self).wf(),
            final(self).text() == old(self).text() + node.text(),
            final(self).chunks() == old(self).chunks() + node.chunks(),
            final(self).pieces() == old(self).pieces() + 1,
            final(self).tallest() == taller(old(self).tallest(), node.height()),
    {
        proof {
            assert(self.root@.push(node).drop_last() =~= self.root@);
            lemma_encode_concat(self.text(), node.text());
        }
        self.root.push(node);
    }

    /// The rope that was built, or `Empty` when nothing was pushed. The
    /// trees are joined by halves, so the rope is taller than the tallest of
    /// them by no more than the logarithm of their number, rounded up.
    pub fn rope(self) -> (built: Result<Node<T>, RopeError>)
        requires
            self.wf(),
        ensures
            match built {
                Ok(node) => {
                    &&& self.pieces() > 0
                    &&& node.wf()
                    &&& node.text() == self.text()
                    &&& node.chunks() == self.chunks()
                    &&& node.height() <= self.tallest() + depth_for(self.pieces())
                },
                Err(e) => {
                    &&& e == RopeError::Empty
                    &&& self.pieces() == 0
                    &&& self.chunks().len() == 0
                    &&& self.text().len() == 0
                },
            },
    {
        if self.root.len() == 0 {
            Err(RopeError::Empty)
        } else {
            Ok(Self::join(self.root))
        }
    }

    /// Joins the trees into one: a single tree is left as it is, more are
    /// joined half by half and the two halves under a new root.
    fn join(nodes: Vec<Node<T>>) -> (node: Node<T>)
        requires
            nodes@.len() >= 1,
            forall|i: int| 0 <= i < nodes@.len() ==> (#[trigger] nodes@[i]).wf(),
            encode_utf8(joined_text(nodes@)).len() <= usize::MAX,
        ensures
            node.wf(),
            node.text() == joined_text(nodes@),
            node.chunks() == joined_chunks(nodes@),
            node.height() <= tallest(nodes@) + depth_for(nodes@.len()),
        decreases nodes@.len(),
    {
        let mut nodes = nodes;
        let ghost all = nodes@;
        let len = nodes.len();
        if len == 1 {
            let node = nodes.pop().unwrap();
            proof {
                assert(node == all.last());
                assert(all.drop_last().len() == 0);
                assert(joined_text(all.drop_last()) =~= Seq::<char>::empty());
                assert(joined_chunks(all.drop_last()) =~= Seq::<Seq<char>>::empty());
                assert(tallest(all.drop_last()) == 0);
                assert(joined_text(all) =~= node.text());
                assert(joined_chunks(all) =~= node.chunks());
            }
            node
        } else {
            let right = nodes.split_off(len / 2);
            proof {
                assert(all =~= nodes@ + right@);
                lemma_joined_concat(nodes@, right@);
                lemma_encode_concat(joined_text(nodes@), joined_text(right@));
                lemma_depth_for_grows(nodes@.len(), right@.len());
            }
            let left_node = Self::join(nodes);
            let right_node = Self::join(right);
            Node::concatenate(left_node, right_node)
        }
    }
}

/// The byte range of one line of a text, its line feed included.
#[derive(Debug, Clone, Copy, PartialEq, Eq, Structural)]
pub struct LineSlice {
    pub start: usize,
    pub end: usize,
}

/// Walks the non-empty lines of a rope from a byte position on, one line per
/// call of `next`. A new walk can be started at any time.
pub struct Lines<'a, T> {
    rope: &'a Node<T>,
    pos: usize,
}

impl<'a, T: TreeData> Lines<'a, T> {
    /// The rope that is walked.
    pub closed spec fn rope(self) -> Node<T> {
        *self.rope
    }

    /// The byte at which the next line starts.
    pub closed spec fn pos(self) -> int {
        self.pos as int
    }

    pub closed spec fn wf(self) -> bool {
        &&& self.rope.wf()
        &&& self.pos <= self.rope.bytes().len()
    }

    /// The next line: it starts where the last one ended and runs through
    /// its line feed, or to the end of the text. `None` at the end of the
    /// text.
    pub fn next(&mut self) -> (line: Option<LineSlice>)
        requires
            old(self).wf(),
        ensures
            final(self).wf(),
            final(self).rope() == old(self).rope(),
            match line {
                Some(slice) => {
                    &&& old(self).pos() < old(self).rope().bytes().len()
                    &&& slice.start == old(self).pos()
                    &&& slice.end == line_end(old(self).rope().bytes(), old(self).pos())
                    &&& final(self).pos() == slice.end
                },
                None => {
                    &&& old(self).pos() == old(self).rope().bytes().len()
                    &&& final(self).pos() == old(self).pos()
                },
            },
    {
        let start = self.pos;
        if start >= self.rope.compute_len() {
            None
        } else {
            proof {
                lemma_line_end_bounds(self.rope.bytes(), start as int);
            }
            let end = self.rope.line_end(start);
            self.pos = end;
            Some(LineSlice { start, end })
        }
    }
}

/// The string that holds the one character `ch`, as `String::from` makes
/// it.
#[verifier::external_body]
pub(crate) fn char_to_string(ch: char) -> (text: String)
    ensures
        text@ == seq![ch],
{
    String::from(ch)
}

impl<T: TreeData> Clone for Node<T> {
    fn clone(&self) -> (copy: Self)
        ensures
            copy.wf() == self.wf(),
            copy.text() == self.text(),
            copy.chunks() == self.chunks(),
            copy.height() == self.height(),
            copy.spec_weight() == self.spec_weight(),
            copy.spec_chars() == self.spec_chars(),
    {
        self.duplicate()
    }
}

#[derive(Debug, Clone, Default)]
pub struct RopeMetrics {
    /// number of lines
    lines: usize,
}

impl TreeData for RopeMetrics {

}

pub type Rope = Node<RopeMetrics>;

impl Node<RopeMetrics> {
    /// Loads a text in one pass, cut into chunks of `MIN_LEAF_SIZE` to
    /// `MAX_LEAF_SIZE` bytes (into one shorter chunk when the whole text is
    /// shorter) that are joined into a tree of logarithmic height. An empty
    /// text gives `Empty`.
    pub fn from_str(val: &str) -> (built: Result<Self, RopeError>)
        ensures
            match built {
                Ok(rope) => {
                    &&& val@.len() > 0
                    &&& rope.wf()
                    &&& rope.text() == val@
                    &&& chunks_sized(rope.chunks(), 0, chunk_floor(encode_utf8(val@).len()))
                    &&& rope.height() <= depth_for(rope.chunks().len())
                },
                Err(e) => e == RopeError::Empty && val@.len() == 0,
            },
    {
        // the length of a string in bytes fits a `usize`
        let _ = val.as_bytes().len();
        let mut rope_builder = RopeBuilder::<RopeMetrics>::new();
        assert(Seq::<char>::empty() + val@ =~= val@);
        rope_builder.push(val);
        let built = rope_builder.rope();
        proof {
            if let Ok(rope) = &built {
                // the first chunk holds a byte, and so does the text
                lemma_encode_len(rope.chunks()[0]);
                rope.lemma_chunk_in_text(0);
            }
        }
        built
    }

    /// The character at character index `idx`, or `None` past the end.
    pub fn get(&self, idx: usize) -> (ch: Option<char>)
        requires
            self.wf(),
        ensures
            ch == self.spec_get(idx as int),
    {
        let (leaf, idx) = self.index(idx, IndexMode::Chars);
        let value = leaf.value.as_str();
        if idx < value.unicode_len() {
            Some(value.get_char(idx))
        } else {
            None
        }
    }

    /// The byte at byte index `idx`, or `None` past the end.
    pub fn get_byte(&self, idx: usize) -> (byte: Option<u8>)
        requires
            self.wf(),
        ensures
            byte == self.spec_get_byte(idx as int),
    {
        let (leaf, idx) = self.index(idx, IndexMode::Bytes);
        let value = leaf.value.as_str();
        if idx < value.len() {
            Some(value.as_bytes()[idx])
        } else {
            None
        }
    }

    /// Inserts `val` before character index `idx` and reports the line in
    /// which the text changes first, counted from zero: as many lines as
    /// there are line feeds before the place of the insertion. Fails, and
    /// changes nothing, when `idx` lies past the end of the text.
    pub fn insert(&mut self, idx: usize, val: &str) -> (changed: Result<usize, RopeError>)
        requires
            old(self).wf(),
            old(self).bytes().len() + encode_utf8(val@).len() <= usize::MAX,
        ensures
            match changed {
                Ok(line) => {
                    &&& idx <= old(self).text().len()
                    &&& final(self).wf()
                    &&& final(self).text() == old(self).text().subrange(0, idx as int) + val@
                        + old(self).text().subrange(idx as int, old(self).text().len() as int)
                    &&& line == count_lf(encode_utf8(old(self).text().subrange(0, idx as int)))
                },
                Err(e) => {
                    &&& e == RopeError::OutOfBounds
                    &&& idx > old(self).text().len()
                    &&& *final(self) == *old(self)
                },
            },
    {
        if idx > self.compute_chars() {
            return Err(RopeError::OutOfBounds);
        }
        let mut tree = Self::empty();
        std::mem::swap(self, &mut tree);
        let ghost text = tree.text();
        let (left, right) = Self::split_within(tree, idx);
        proof {
            assert(text =~= left.text() + right.text());
            lemma_encode_concat(left.text(), right.text());
            lemma_encode_concat(left.text(), val@);
            lemma_encode_concat(left.text() + val@, right.text());
        }
        let line = left.count_line_feeds();
        let head = match Self::from_str(val) {
            Ok(middle) => Self::concatenate(left, middle),
            Err(_) => {
                assert(left.text() + val@ =~= left.text());
                left
            },
        };
        *self = Self::concatenate(head, right);
        Ok(line)
    }

    /// Inserts the character `ch` before character index `idx`, as `insert`
    /// does with a text of that one character.
    pub fn insert_char(&mut self, idx: usize, ch: char) -> (changed: Result<usize, RopeError>)
        requires
            old(self).wf(),
            old(self).bytes().len() + encode_utf8(seq![ch]).len() <= usize::MAX,
        ensures
            match changed {
                Ok(line) => {
                    &&& idx <= old(self).text().len()
                    &&& final(self).wf()
                    &&& final(self).text() == old(self).text().insert(idx as int, ch)
                    &&& line == count_lf(encode_utf8(old(self).text().subrange(0, idx as int)))
                },
                Err(e) => {
                    &&& e == RopeError::OutOfBounds
                    &&& idx > old(self).text().len()
                    &&& *final(self) == *old(self)
                },
            },
    {
        let text = char_to_string(ch);
        let changed = self.insert(idx, text.as_str());
        proof {
            if changed is Ok {
                let before = old(self).text();
                assert(before.insert(idx as int, ch) =~= before.subrange(0, idx as int) + seq![ch]
                    + before.subrange(idx as int, before.len() as int));
            }
        }
        changed
    }

    /// Removes the character at character index `idx` and reports the line
    /// in which the text changes first, counted from zero. Fails, and changes
    /// nothing, when there is no character at `idx`.
    pub fn remove(&mut self, idx: usize) -> (changed: Result<usize, RopeError>)
        requires
            old(self).wf(),
        ensures
            match changed {
                Ok(line) => {
                    &&& idx < old(self).text().len()
                    &&& final(self).wf()
                    &&& final(self).text() == old(self).text().remove(idx as int)
                    &&& line == count_lf(encode_utf8(old(self).text().subrange(0, idx as int)))
                },
                Err(e) => {
                    &&& e == RopeError::OutOfBounds
                    &&& idx >= old(self).text().len()
                    &&& *final(self) == *old(self)
                },
            },
    {
        if idx >= self.compute_chars() {
            return Err(RopeError::OutOfBounds);
        }
        let mut tree = Self::empty();
        std::mem::swap(self, &mut tree);
        let ghost text = tree.text();
        let (left, rest) = Self::split_within(tree, idx);
        let (gone, right) = Self::split_within(rest, 1);
        proof {
            assert(text =~= left.text() + rest.text());
            assert(rest.text() =~= gone.text() + right.text());
            lemma_encode_concat(left.text(), rest.text());
            lemma_encode_concat(gone.text(), right.text());
            assert(text.remove(idx as int) =~= left.text() + right.text());
        }
        let line = left.count_line_feeds();
        *self = Self::concatenate(left, right);
        Ok(line)
    }

    /// Removes the characters at character indices `[start, end)` and
    /// reports the line in which the text changes first, counted from zero.
    /// Fails, and changes nothing, when these are no range of characters of
    /// the text.
    pub fn remove_range(&mut self, start: usize, end: usize) -> (changed: Result<usize, RopeError>)
        requires
            old(self).wf(),
        ensures
            match changed {
                Ok(line) => {
                    &&& start <= end <= old(self).text().len()
                    &&& final(self).wf()
                    &&& final(self).text() == old(self).text().subrange(0, start as int) + old(
                        self,
                    ).text().subrange(end as int, old(self).text().len() as int)
                    &&& line == count_lf(encode_utf8(old(self).text().subrange(0, start as int)))
                },
                Err(e) => {
                    &&& e == RopeError::OutOfBounds
                    &&& !(start <= end <= old(self).text().len())
                    &&& *final(self) == *old(self)
                },
            },
    {
        if start > end || end > self.compute_chars() {
            return Err(RopeError::OutOfBounds);
        }
        let mut tree = Self::empty();
        std::mem::swap(self, &mut tree);
        let ghost text = tree.text();
        let (left, rest) = Self::split_within(tree, start);
        let (gone, right) = Self::split_within(rest, end - start);
        proof {
            assert(text =~= left.text() + rest.text());
            assert(rest.text() =~= gone.text() + right.text());
            lemma_encode_concat(left.text(), rest.text());
            lemma_encode_concat(gone.text(), right.text());
            assert(right.text() =~= text.subrange(end as int, text.len() as int));
        }
        let line = left.count_line_feeds();
        *self = Self::concatenate(left, right);
        Ok(line)
    }

    /// A walk over the non-empty lines of the text, from its first line on.
    pub fn lines(&self) -> (walk: Lines<'_, RopeMetrics>)
        requires
            self.wf(),
        ensures
            walk.wf(),
            walk.rope() == *self,
            walk.pos() == 0,
    {
        Lines { rope: self, pos: 0 }
    }

    /// A walk over the lines from byte `start` on, taken as the start of a
    /// line; from the end of the text when `start` lies past it.
    pub fn lines_from(&self, start: usize) -> (walk: Lines<'_, RopeMetrics>)
        requires
            self.wf(),
        ensures
            walk.wf(),
            walk.rope() == *self,
            walk.pos() == if start <= self.bytes().len() {
                start as int
            } else {
                self.bytes().len() as int
            },
    {
        let len = self.compute_len();
        Lines { rope: self, pos: if start <= len { start } else { len } }
    }

    /// The number of non-empty lines of the text: a text that ends in a line
    /// feed has no line after it.
    pub fn num_lines(&self) -> (count: usize)
        requires
            self.wf(),
        ensures
            count == lines_from(self.bytes(), 0),
    {
        let mut walk = self.lines();
        let mut count: usize = 0;
        proof {
            lemma_lines_from_bound(self.bytes(), 0);
        }
        loop
            invariant
                walk.wf(),
                walk.rope() == *self,
                count + lines_from(self.bytes(), walk.pos()) == lines_from(self.bytes(), 0),
                count <= walk.pos(),
            decreases self.bytes().len() - walk.pos(),
        {
            proof {
                lemma_line_end_bounds(self.bytes(), walk.pos());
            }
            match walk.next() {
                Some(_) => {
                    count += 1;
                },
                None => {
                    return count;
                },
            }
        }
    }

    /// The length of the text in characters.
    pub fn len(&self) -> (len: usize)
        requires
            self.wf(),
        ensures
            len == self.text().len(),
    {
        self.compute_chars()
    }

    /// The length of the text in bytes.
    pub fn len_bytes(&self) -> (len: usize)
        requires
            self.wf(),
        ensures
            len == self.bytes().len(),
    {
        self.compute_len()
    }
}

impl TextStore for Node<RopeMetrics> {
    open spec fn contents(&self) -> Seq<char> {
        self.text()
    }

    open spec fn valid(&self) -> bool {
        self.wf()
    }

    fn empty() -> (store: Self) {
        Node::<RopeMetrics>::empty()
    }

    fn from_text(text: &str) -> (store: Self) {
        match Self::from_str(text) {
            Ok(rope) => rope,
            Err(_) => {
                assert(text@ =~= Seq::<char>::empty());
                Node::<RopeMetrics>::empty()
            },
        }
    }

    fn len_bytes(&self) -> (len: usize) {
        self.compute_len()
    }

    fn len_chars(&self) -> (len: usize) {
        self.compute_chars()
    }

    fn get_byte(&self, idx: usize) -> (byte: Option<u8>) {
        self.get_byte(idx)
    }

    fn line_end(&self, start: usize) -> (end: usize) {
        self.line_end(start)
    }

    fn slice_bytes(&self, start: usize, end: usize) -> (part: Option<String>) {
        self.slice_bytes(start, end)
    }

    fn insert(&mut self, idx: usize, val: &str) -> (changed: Result<usize, RopeError>) {
        self.insert(idx, val)
    }

    fn remove_range(&mut self, start: usize, end: usize) -> (changed: Result<usize, RopeError>) {
        self.remove_range(start, end)
    }
}

} // verus!
