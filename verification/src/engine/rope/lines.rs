//! Where the lines of a text lie.
//!
//! A line runs up to and including its line feed, or to the end of the text
//! when no line feed follows. Everything here is stated over the bytes of
//! the text: a line feed is a single byte in UTF-8 and no other character
//! contains that byte.

use vstd::prelude::*;
use vstd::utf8::*;
use super::encoding::{lemma_boundary_around_ascii, lemma_boundary_iff};

verus! {

/// Line feed.
pub const LF: u8 = 10;

/// Carriage return.
pub const CR: u8 = 13;

/// The index of the first line feed at or after `from`, or the length of
/// the bytes when there is none.
pub open spec fn next_lf(bytes: Seq<u8>, from: int) -> int
    decreases bytes.len() - from,
{
    if from >= bytes.len() {
        bytes.len() as int
    } else if from >= 0 && bytes[from] == LF {
        from
    } else {
        next_lf(bytes, from + 1)
    }
}

/// One past the last byte of the line that starts at `start`.
pub open spec fn line_end(bytes: Seq<u8>, start: int) -> int {
    let lf = next_lf(bytes, start);
    if lf < bytes.len() {
        lf + 1
    } else {
        bytes.len() as int
    }
}

/// Where the content of the line `[start, end)` ends once a closing line
/// feed, and a carriage return before it, are left off.
pub open spec fn content_end(bytes: Seq<u8>, start: int, end: int) -> int {
    if start < end && bytes[end - 1] == LF {
        if start < end - 1 && bytes[end - 2] == CR {
            end - 2
        } else {
            end - 1
        }
    } else {
        end
    }
}

/// Where line `k` starts, counting lines from zero.
pub open spec fn line_start(bytes: Seq<u8>, k: nat) -> int
    decreases k,
{
    if k == 0 {
        0
    } else {
        line_end(bytes, line_start(bytes, (k - 1) as nat))
    }
}

/// How many non-empty lines begin at or after `from`.
pub open spec fn lines_from(bytes: Seq<u8>, from: int) -> nat
    decreases bytes.len() - from,
{
    if 0 <= from < bytes.len() {
        proof {
            lemma_line_end_bounds(bytes, from);
        }
        1 + lines_from(bytes, line_end(bytes, from))
    } else {
        0
    }
}

/// How many line feeds the bytes hold.
pub open spec fn count_lf(bytes: Seq<u8>) -> nat
    decreases bytes.len(),
{
    if bytes.len() == 0 {
        0
    } else {
        count_lf(bytes.drop_last()) + if bytes.last() == LF {
            1nat
        } else {
            0nat
        }
    }
}

/// Whether `[start, end)` is a range of whole characters of the text
/// encoded in `bytes`.
pub open spec fn is_text_range(bytes: Seq<u8>, start: int, end: int) -> bool {
    &&& 0 <= start <= end <= bytes.len()
    &&& is_char_boundary(bytes, start)
    &&& is_char_boundary(bytes, end)
}

/// There are no more line feeds than bytes.
pub proof fn lemma_count_lf_bound(bytes: Seq<u8>)
    ensures
        count_lf(bytes) <= bytes.len(),
    decreases bytes.len(),
{
    if bytes.len() > 0 {
        lemma_count_lf_bound(bytes.drop_last());
    }
}

/// The line feeds of two texts joined are those of the first and those of
/// the second.
pub proof fn lemma_count_lf_concat(a: Seq<u8>, b: Seq<u8>)
    ensures
        count_lf(a + b) == count_lf(a) + count_lf(b),
    decreases b.len(),
{
    if b.len() == 0 {
        assert(a + b =~= a);
    } else {
        assert((a + b).drop_last() =~= a + b.drop_last());
        lemma_count_lf_concat(a, b.drop_last());
    }
}

/// There are no more non-empty lines than bytes.
pub proof fn lemma_lines_from_bound(bytes: Seq<u8>, from: int)
    requires
        0 <= from <= bytes.len(),
    ensures
        lines_from(bytes, from) <= bytes.len() - from,
    decreases bytes.len() - from,
{
    if from < bytes.len() {
        lemma_line_end_bounds(bytes, from);
        lemma_lines_from_bound(bytes, line_end(bytes, from));
    }
}

/// `next_lf` finds a line feed, or the end, and passes none on the way.
pub proof fn lemma_next_lf(bytes: Seq<u8>, from: int)
    requires
        0 <= from <= bytes.len(),
    ensures
        from <= next_lf(bytes, from) <= bytes.len(),
        next_lf(bytes, from) < bytes.len() ==> bytes[next_lf(bytes, from)] == LF,
        forall|i: int| from <= i < next_lf(bytes, from) ==> bytes[i] != LF,
    decreases bytes.len() - from,
{
    if from < bytes.len() && bytes[from] != LF {
        lemma_next_lf(bytes, from + 1);
    }
}

/// Whatever index has these properties is the one `next_lf` finds.
pub proof fn lemma_next_lf_unique(bytes: Seq<u8>, from: int, at: int)
    requires
        0 <= from <= at <= bytes.len(),
        at < bytes.len() ==> bytes[at] == LF,
        forall|i: int| from <= i < at ==> bytes[i] != LF,
    ensures
        next_lf(bytes, from) == at,
    decreases at - from,
{
    if from < at {
        lemma_next_lf_unique(bytes, from + 1, at);
    }
}

/// A line that starts inside the text is not empty and ends inside it.
pub proof fn lemma_line_end_bounds(bytes: Seq<u8>, start: int)
    requires
        0 <= start <= bytes.len(),
    ensures
        start <= line_end(bytes, start) <= bytes.len(),
        start < bytes.len() ==> start < line_end(bytes, start),
        content_end(bytes, start, line_end(bytes, start)) <= line_end(bytes, start),
        start <= content_end(bytes, start, line_end(bytes, start)),
{
    lemma_next_lf(bytes, start);
}

/// In the bytes of two texts joined, a line feed is searched for in the
/// first and then in the second.
pub proof fn lemma_next_lf_concat(a: Seq<u8>, b: Seq<u8>, from: int)
    requires
        0 <= from <= a.len() + b.len(),
    ensures
        from <= a.len() && next_lf(a, from) < a.len() ==> next_lf(a + b, from) == next_lf(a, from),
        from <= a.len() && next_lf(a, from) == a.len() ==> next_lf(a + b, from) == a.len()
            + next_lf(b, 0),
        from >= a.len() ==> next_lf(a + b, from) == a.len() + next_lf(b, from - a.len()),
{
    let whole = a + b;
    if from <= a.len() {
        lemma_next_lf(a, from);
        let r = next_lf(a, from);
        if r < a.len() {
            lemma_next_lf_unique(whole, from, r);
        } else {
            lemma_next_lf(b, 0);
            lemma_next_lf_unique(whole, from, a.len() + next_lf(b, 0));
        }
    }
    if from >= a.len() {
        lemma_next_lf(b, from - a.len());
        lemma_next_lf_unique(whole, from, a.len() + next_lf(b, from - a.len()));
    }
}

/// The lines are searched for from the front: a line that ends within a
/// common prefix of two texts ends at the same place in both.
pub proof fn lemma_line_end_prefix(a: Seq<u8>, b: Seq<u8>, common: int, start: int)
    requires
        0 <= start <= common,
        common <= a.len(),
        common <= b.len(),
        a.subrange(0, common) == b.subrange(0, common),
        next_lf(a, start) < common,
    ensures
        line_end(b, start) == line_end(a, start),
        content_end(b, start, line_end(b, start)) == content_end(a, start, line_end(a, start)),
{
    lemma_next_lf(a, start);
    let r = next_lf(a, start);
    assert forall|i: int| 0 <= i < common implies a[i] == b[i] by {
        assert(a[i] == a.subrange(0, common)[i]);
        assert(b[i] == b.subrange(0, common)[i]);
    }
    lemma_next_lf_unique(b, start, r);
}

/// In valid UTF-8 a line starts and ends at character boundaries, and so
/// does its content.
pub proof fn lemma_line_boundaries(bytes: Seq<u8>, start: int)
    requires
        valid_utf8(bytes),
        is_char_boundary(bytes, start),
    ensures
        is_char_boundary(bytes, line_end(bytes, start)),
        is_char_boundary(bytes, content_end(bytes, start, line_end(bytes, start))),
{
    lemma_boundary_iff(bytes, start);
    lemma_next_lf(bytes, start);
    let end = line_end(bytes, start);
    lemma_boundary_iff(bytes, end);
    if start < end && bytes[end - 1] == LF {
        lemma_boundary_around_ascii(bytes, end - 1);
        if start < end - 1 && bytes[end - 2] == CR {
            lemma_boundary_around_ascii(bytes, end - 2);
        }
    }
}

/// Every line starts inside the text or at its end, at a character
/// boundary when the text is valid UTF-8.
pub proof fn lemma_line_start(bytes: Seq<u8>, k: nat)
    ensures
        0 <= line_start(bytes, k) <= bytes.len(),
        valid_utf8(bytes) ==> is_char_boundary(bytes, line_start(bytes, k)),
    decreases k,
{
    if k == 0 {
        if valid_utf8(bytes) {
            lemma_boundary_iff(bytes, 0);
        }
    } else {
        lemma_line_start(bytes, (k - 1) as nat);
        lemma_line_end_bounds(bytes, line_start(bytes, (k - 1) as nat));
        if valid_utf8(bytes) {
            lemma_line_boundaries(bytes, line_start(bytes, (k - 1) as nat));
        }
    }
}

/// The non-empty lines are the first `lines_from(bytes, 0)` lines: each of
/// them starts before the end of the text and before the next one.
pub proof fn lemma_line_starts_increase(bytes: Seq<u8>, k: nat)
    requires
        k < lines_from(bytes, 0),
    ensures
        line_start(bytes, k) < line_start(bytes, k + 1) <= bytes.len(),
        lines_from(bytes, line_start(bytes, k)) == lines_from(bytes, 0) - k,
    decreases k,
{
    lemma_line_start(bytes, k);
    if k > 0 {
        let before = (k - 1) as nat;
        lemma_line_starts_increase(bytes, before);
        assert(line_start(bytes, k) == line_end(bytes, line_start(bytes, before)));
        assert(lines_from(bytes, line_start(bytes, before)) == 1 + lines_from(
            bytes,
            line_start(bytes, k),
        ));
    }
    assert(lines_from(bytes, line_start(bytes, k)) > 0);
    assert(line_start(bytes, k) < bytes.len());
    lemma_line_end_bounds(bytes, line_start(bytes, k));
    assert(line_start(bytes, k + 1) == line_end(bytes, line_start(bytes, k)));
}

/// Bytes without a line feed count none.
pub proof fn lemma_count_lf_none(bytes: Seq<u8>)
    requires
        forall|i: int| 0 <= i < bytes.len() ==> bytes[i] != LF,
    ensures
        count_lf(bytes) == 0,
    decreases bytes.len(),
{
    if bytes.len() > 0 {
        lemma_count_lf_none(bytes.drop_last());
    }
}

/// A line that starts inside the text is one of its non-empty lines.
pub proof fn lemma_line_is_counted(bytes: Seq<u8>, k: nat)
    requires
        line_start(bytes, k) < bytes.len(),
    ensures
        k < lines_from(bytes, 0),
    decreases k,
{
    if k > 0 {
        let before = (k - 1) as nat;
        let start = line_start(bytes, before);
        lemma_line_start(bytes, before);
        lemma_line_end_bounds(bytes, start);
        assert(line_start(bytes, k) == line_end(bytes, start));
        lemma_line_is_counted(bytes, before);
        lemma_line_starts_increase(bytes, before);
        assert(lines_from(bytes, start) == 1 + lines_from(bytes, line_start(bytes, k)));
        assert(lines_from(bytes, line_start(bytes, k)) >= 1);
    } else {
        assert(lines_from(bytes, 0) >= 1);
    }
}

/// Two texts that agree on their first `common` bytes have the same lines
/// as far as these end within those bytes: as many as there are line feeds
/// among them.
pub proof fn lemma_lines_before_edit(a: Seq<u8>, b: Seq<u8>, common: int, k: nat)
    requires
        0 <= common <= a.len(),
        common <= b.len(),
        a.subrange(0, common) == b.subrange(0, common),
        k <= count_lf(a.subrange(0, common)),
    ensures
        line_start(a, k) == line_start(b, k),
        0 <= line_start(a, k) <= common,
        count_lf(a.subrange(line_start(a, k), common)) == count_lf(a.subrange(0, common)) - k,
        k < count_lf(a.subrange(0, common)) ==> next_lf(a, line_start(a, k)) < common,
    decreases k,
{
    let total = count_lf(a.subrange(0, common));
    if k > 0 {
        let before = (k - 1) as nat;
        lemma_lines_before_edit(a, b, common, before);
        let start = line_start(a, before);
        let lf = next_lf(a, start);
        lemma_next_lf(a, start);
        lemma_line_end_prefix(a, b, common, start);
        // the line feed that ends the line before is the only one in it
        assert(a.subrange(start, common) =~= a.subrange(start, lf + 1) + a.subrange(
            lf + 1,
            common,
        ));
        lemma_count_lf_concat(a.subrange(start, lf + 1), a.subrange(lf + 1, common));
        assert(a.subrange(start, lf + 1).drop_last() =~= a.subrange(start, lf));
        lemma_count_lf_none(a.subrange(start, lf));
    }
    let start = line_start(a, k);
    if k < total {
        lemma_next_lf(a, start);
        if next_lf(a, start) >= common {
            lemma_count_lf_none(a.subrange(start, common));
        }
    }
}

} // verus!
