//! Facts about the UTF-8 encoding of text that the rope and the line index
//! rely on: how encoding distributes over concatenation and where character
//! boundaries lie.

use vstd::prelude::*;
use vstd::utf8::*;

verus! {

/// The encoding of a concatenation is the concatenation of the encodings.
pub proof fn lemma_encode_concat(a: Seq<char>, b: Seq<char>)
    ensures
        encode_utf8(a + b) == encode_utf8(a) + encode_utf8(b),
    decreases a.len(),
{
    if a.len() == 0 {
        assert(a + b =~= b);
        assert(encode_utf8(a) + encode_utf8(b) =~= encode_utf8(b));
    } else {
        lemma_encode_concat(a.drop_first(), b);
        assert((a + b).drop_first() =~= a.drop_first() + b);
        assert((a + b)[0] == a[0]);
        assert(encode_utf8(a + b) =~= encode_utf8(a) + encode_utf8(b));
    }
}

/// Every character takes at least one byte and at most four.
pub proof fn lemma_encode_len(a: Seq<char>)
    ensures
        a.len() <= encode_utf8(a).len() <= 4 * a.len(),
    decreases a.len(),
{
    if a.len() > 0 {
        lemma_encode_len(a.drop_first());
    }
}

/// Text is determined by its encoding.
pub proof fn lemma_encode_injective(a: Seq<char>, b: Seq<char>)
    requires
        encode_utf8(a) == encode_utf8(b),
    ensures
        a == b,
{
    encode_utf8_decode_utf8(a);
    encode_utf8_decode_utf8(b);
}

/// In valid UTF-8 an index is a character boundary exactly when it is the
/// end of the bytes or the byte there does not continue a character.
pub proof fn lemma_boundary_iff(bytes: Seq<u8>, i: int)
    requires
        valid_utf8(bytes),
    ensures
        is_char_boundary(bytes, i) <==> (0 <= i <= bytes.len() && (i == bytes.len()
            || !is_continuation_byte(bytes[i]))),
{
    if 0 <= i < bytes.len() {
        is_char_boundary_iff_not_is_continuation_byte(bytes, i);
    } else if i == bytes.len() {
        is_char_boundary_start_end_of_seq(bytes);
    } else {
    }
}

/// An ASCII byte is a whole character: it starts at a boundary and the
/// index after it is a boundary too.
pub proof fn lemma_boundary_around_ascii(bytes: Seq<u8>, i: int)
    requires
        valid_utf8(bytes),
        0 <= i < bytes.len(),
        bytes[i] < 0x80,
    ensures
        is_char_boundary(bytes, i),
        is_char_boundary(bytes, i + 1),
    decreases bytes.len(),
{
    lemma_boundary_iff(bytes, i);
    let width = length_of_first_scalar(bytes);
    let rest = pop_first_scalar(bytes);
    if i == 0 {
        assert(is_leading_byte_width_1(bytes[0]));
        assert(width == 1);
        assert(is_char_boundary(rest, 0));
    } else {
        assert(is_char_boundary(rest, i - width));
        lemma_boundary_iff(rest, i - width);
        assert(rest[i - width] == bytes[i]);
        lemma_boundary_around_ascii(rest, i - width);
    }
}

/// Going back from any index, a character boundary is at most three bytes
/// away.
pub proof fn lemma_boundary_nearby(bytes: Seq<u8>, i: int)
    requires
        valid_utf8(bytes),
        0 <= i <= bytes.len(),
    ensures
        exists|j: int| 0 <= j <= i && i - 3 <= j && is_char_boundary(bytes, j),
    decreases bytes.len(),
{
    if bytes.len() == 0 || i < length_of_first_scalar(bytes) {
        assert(is_char_boundary(bytes, 0));
    } else {
        let width = length_of_first_scalar(bytes);
        let rest = pop_first_scalar(bytes);
        lemma_boundary_nearby(rest, i - width);
        let j = choose|j: int| 0 <= j <= i - width && i - width - 3 <= j && is_char_boundary(rest, j);
        assert(is_char_boundary(bytes, j + width));
    }
}

/// A boundary of the whole is a boundary of the part it falls in, and the
/// seam between two valid parts is a boundary.
pub proof fn lemma_boundary_concat(a: Seq<u8>, b: Seq<u8>, i: int)
    requires
        valid_utf8(a),
        valid_utf8(b),
    ensures
        valid_utf8(a + b),
        i <= a.len() ==> (is_char_boundary(a + b, i) <==> is_char_boundary(a, i)),
        i >= a.len() ==> (is_char_boundary(a + b, i) <==> is_char_boundary(b, i - a.len())),
{
    valid_utf8_concat(a, b);
    lemma_boundary_iff(a + b, i);
    lemma_boundary_iff(a, i);
    lemma_boundary_iff(b, i - a.len());
    lemma_boundary_iff(b, 0);
}

/// A boundary inside a slice taken between two boundaries is a boundary of
/// the whole, and the slice is valid UTF-8.
pub proof fn lemma_boundary_subrange(bytes: Seq<u8>, from: int, to: int, i: int)
    requires
        valid_utf8(bytes),
        is_char_boundary(bytes, from),
        is_char_boundary(bytes, to),
        from <= to,
    ensures
        valid_utf8(bytes.subrange(from, to)),
        0 <= i <= to - from ==> (is_char_boundary(bytes.subrange(from, to), i) <==> is_char_boundary(
            bytes,
            from + i,
        )),
{
    lemma_boundary_iff(bytes, from);
    lemma_boundary_iff(bytes, to);
    valid_utf8_split(bytes, to);
    let head = bytes.subrange(0, to);
    lemma_boundary_iff(head, from);
    valid_utf8_split(head, from);
    assert(head.subrange(from, head.len() as int) =~= bytes.subrange(from, to));
    lemma_boundary_iff(bytes.subrange(from, to), i);
    lemma_boundary_iff(bytes, from + i);
}

/// Decoding a slice between boundaries can be done in two parts around a
/// boundary in between.
pub proof fn lemma_decode_subrange_split(bytes: Seq<u8>, from: int, mid: int, to: int)
    requires
        valid_utf8(bytes),
        is_char_boundary(bytes, from),
        is_char_boundary(bytes, mid),
        is_char_boundary(bytes, to),
        from <= mid <= to,
    ensures
        decode_utf8(bytes.subrange(from, to)) == decode_utf8(bytes.subrange(from, mid))
            + decode_utf8(bytes.subrange(mid, to)),
{
    let part = bytes.subrange(from, to);
    lemma_boundary_subrange(bytes, from, to, mid - from);
    decode_utf8_split(part, mid - from);
    assert(part.subrange(0, mid - from) =~= bytes.subrange(from, mid));
    assert(part.subrange(mid - from, part.len() as int) =~= bytes.subrange(mid, to));
}

} // verus!
