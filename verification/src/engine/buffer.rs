//! A document: its text in a store, and an index of where its lines lie.
//!
//! The index holds one entry for each non-empty line, in order. It is not
//! rebuilt by itself: after the text changed from some line on, it has to be
//! invalidated from that line, and the entries before it are kept.

use vstd::prelude::*;
use vstd::utf8::*;
use super::rope::encoding::lemma_encode_concat;
use super::rope::lines::{
    content_end, count_lf, is_text_range, lemma_line_boundaries, lemma_line_end_bounds,
    lemma_line_end_prefix, lemma_line_is_counted, lemma_line_start, lemma_line_starts_increase,
    lemma_lines_before_edit, lemma_lines_from_bound, line_end, line_start, lines_from, CR, LF,
};
use super::rope::{char_to_string, RopeError};
use super::store::TextStore;
use super::{CoreError, IoFailure};

verus! {

#[derive(Debug, Clone, Copy, Hash, PartialEq, Eq, PartialOrd, Ord, Structural)]
pub struct BufferId(pub usize);

/// The error that opening `path` ends in when reading it failed with `e`.
pub fn map_error(e: IoFailure, path: &String) -> (error: CoreError)
    ensures
        error == (match e {
            IoFailure::NotFound => CoreError::FileNotFound(*path),
            IoFailure::PermissionDenied => CoreError::FilePermissions(*path),
            IoFailure::Interrupted => CoreError::Io(*path),
            IoFailure::Other => CoreError::Io(*path),
        }),
{
    match e {
        IoFailure::NotFound => CoreError::FileNotFound(path.clone()),
        IoFailure::PermissionDenied => CoreError::FilePermissions(path.clone()),
        IoFailure::Interrupted => CoreError::Io(path.clone()),
        IoFailure::Other => CoreError::Io(path.clone()),
    }
}

/// Where one line lies in the bytes of the text.
#[derive(Debug, Clone, Copy, PartialEq, Eq, Structural)]
pub struct LineIndices {
    /// the first byte of the line
    pub start: usize,
    /// one past the last byte of the line, its line break included
    pub end: usize,
    /// one past the last byte of the line's content, its line break left off
    pub end_line: usize,
}

impl LineIndices {
    pub fn new(start: usize, end: usize, end_line: usize) -> (indices: Self)
        ensures
            indices == (LineIndices { start, end, end_line }),
    {
        Self { start, end, end_line }
    }
}

/// One entry of the line index.
#[derive(Debug, Clone, Copy, PartialEq, Eq, Structural)]
pub struct Line {
    /// line number in line space (starts at 1)
    pub line: usize,
    /// the indices
    pub indices: LineIndices,
}

impl Line {
    pub fn new(line: usize, indices: LineIndices) -> (entry: Self)
        ensures
            entry == (Line { line, indices }),
    {
        Self { line, indices }
    }

    pub fn start_index(&self) -> (start: usize)
        ensures
            start == self.indices.start,
    {
        self.indices.start
    }

    pub fn end_index(&self) -> (end: usize)
        ensures
            end == self.indices.end,
    {
        self.indices.end
    }

    pub fn end_line(&self) -> (end: usize)
        ensures
            end == self.indices.end_line,
    {
        self.indices.end_line
    }
}

/// The entry of the line that starts at byte `start` and is line `number`,
/// counted from zero.
pub open spec fn entry_at(bytes: Seq<u8>, start: int, number: nat) -> Line {
    Line {
        line: (number + 1) as usize,
        indices: LineIndices {
            start: start as usize,
            end: line_end(bytes, start) as usize,
            end_line: content_end(bytes, start, line_end(bytes, start)) as usize,
        },
    }
}

/// The entries of the lines from the one that starts at byte `start` and
/// is line `number` to the last non-empty line.
pub open spec fn entries_from(bytes: Seq<u8>, start: int, number: nat) -> Seq<Line>
    decreases bytes.len() - start,
{
    if 0 <= start < bytes.len() {
        proof {
            lemma_line_end_bounds(bytes, start);
        }
        seq![entry_at(bytes, start, number)] + entries_from(
            bytes,
            line_end(bytes, start),
            number + 1,
        )
    } else {
        Seq::empty()
    }
}

/// The index of a text: the entry of each of its non-empty lines.
pub open spec fn all_entries(bytes: Seq<u8>) -> Seq<Line> {
    Seq::new(lines_from(bytes, 0), |k: int| entry_at(bytes, line_start(bytes, k as nat), k as nat))
}

/// The byte at which rebuilding an index resumes for line `first`: where
/// the entry before it ends, or the start of the text.
pub open spec fn resume_offset(entries: Seq<Line>, first: int) -> int {
    if 0 < first <= entries.len() {
        entries[first - 1].indices.end as int
    } else {
        0
    }
}

/// The text that the bytes `[start, end)` encode, or the empty text when
/// they are no range of whole characters.
pub open spec fn slice_text(bytes: Seq<u8>, start: int, end: int) -> Seq<char> {
    if is_text_range(bytes, start, end) {
        decode_utf8(bytes.subrange(start, end))
    } else {
        Seq::empty()
    }
}

/// The content of line `k`, counted from zero, without its line break.
pub open spec fn line_text(bytes: Seq<u8>, k: nat) -> Seq<char> {
    let start = line_start(bytes, k);
    decode_utf8(bytes.subrange(start, content_end(bytes, start, line_end(bytes, start))))
}

/// Walking on from a line gives the lines that follow it.
pub proof fn lemma_entries_from_line(bytes: Seq<u8>, k: nat)
    requires
        k <= lines_from(bytes, 0),
    ensures
        entries_from(bytes, line_start(bytes, k), k) == all_entries(bytes).skip(k as int),
    decreases lines_from(bytes, 0) - k,
{
    let all = all_entries(bytes);
    let start = line_start(bytes, k);
    lemma_line_start(bytes, k);
    if k < lines_from(bytes, 0) {
        lemma_line_starts_increase(bytes, k);
        lemma_entries_from_line(bytes, k + 1);
        assert(line_start(bytes, k + 1) == line_end(bytes, start));
        assert(all.skip(k as int) =~= seq![all[k as int]] + all.skip(k as int + 1));
    } else {
        if k > 0 {
            lemma_line_starts_increase(bytes, (k - 1) as nat);
            assert(lines_from(bytes, line_start(bytes, (k - 1) as nat)) == 1);
            assert(start == line_end(bytes, line_start(bytes, (k - 1) as nat)));
            assert(lines_from(bytes, start) == 0);
        }
        assert(all.skip(k as int) =~= Seq::<Line>::empty());
    }
}

/// The entry of a line, pushed behind the entries before it, stands where
/// the walk from that line on puts it.
pub proof fn lemma_entries_step(bytes: Seq<u8>, before: Seq<Line>, start: int, number: nat)
    requires
        0 <= start < bytes.len(),
    ensures
        before.push(entry_at(bytes, start, number)) + entries_from(
            bytes,
            line_end(bytes, start),
            number + 1,
        ) == before + entries_from(bytes, start, number),
{
    let rest = entries_from(bytes, line_end(bytes, start), number + 1);
    assert(before.push(entry_at(bytes, start, number)) + rest =~= before + (seq![
        entry_at(bytes, start, number),
    ] + rest));
}

/// An index whose first `first` entries are right is made right by walking
/// on from where the last of them ends.
pub proof fn lemma_resume_is_sound(bytes: Seq<u8>, entries: Seq<Line>, first: int)
    requires
        bytes.len() <= usize::MAX,
        0 <= first <= entries.len(),
        first <= all_entries(bytes).len(),
        entries.take(first) == all_entries(bytes).take(first),
    ensures
        entries.take(first) + entries_from(bytes, resume_offset(entries, first), first as nat)
            == all_entries(bytes),
{
    let all = all_entries(bytes);
    lemma_entries_from_line(bytes, first as nat);
    if first > 0 {
        let before = (first - 1) as nat;
        assert(entries[first - 1] == entries.take(first)[first - 1]);
        assert(all[first - 1] == all.take(first)[first - 1]);
        lemma_line_starts_increase(bytes, before);
        lemma_line_start(bytes, before);
        assert(line_start(bytes, first as nat) == line_end(bytes, line_start(bytes, before)));
    }
    assert(all.take(first) + all.skip(first) =~= all);
}

/// In the index of a text the lines are numbered from one, each starts
/// where the one before it ends, and the starts increase strictly.
pub proof fn lemma_index_is_ordered(bytes: Seq<u8>, i: int, j: int)
    requires
        bytes.len() <= usize::MAX,
        0 <= i < j < all_entries(bytes).len(),
    ensures
        all_entries(bytes).len() == lines_from(bytes, 0),
        all_entries(bytes)[i].line == i + 1,
        all_entries(bytes)[i].indices.start < all_entries(bytes)[j].indices.start,
        all_entries(bytes)[i].indices.end <= all_entries(bytes)[j].indices.start,
        all_entries(bytes)[i].indices.start <= all_entries(bytes)[i].indices.end_line
            <= all_entries(bytes)[i].indices.end,
        i + 1 == j ==> all_entries(bytes)[i].indices.end == all_entries(bytes)[j].indices.start,
    decreases j - i,
{
    lemma_lines_from_bound(bytes, 0);
    lemma_line_starts_increase(bytes, i as nat);
    lemma_line_starts_increase(bytes, j as nat);
    lemma_line_start(bytes, i as nat);
    lemma_line_start(bytes, j as nat);
    lemma_line_end_bounds(bytes, line_start(bytes, i as nat));
    assert(line_start(bytes, (i + 1) as nat) == line_end(bytes, line_start(bytes, i as nat)));
    if i + 1 < j {
        lemma_index_is_ordered(bytes, i + 1, j);
        lemma_line_start(bytes, (i + 1) as nat);
    }
}

/// A cache of where the lines lie, kept in line order.
pub struct ShallowCache {
    lines: Vec<Line>,
}

impl View for ShallowCache {
    type V = Seq<Line>;

    closed spec fn view(&self) -> Seq<Line> {
        self.lines@
    }
}

impl ShallowCache {
    pub fn new() -> (cache: Self)
        ensures
            cache@ == Seq::<Line>::empty(),
    {
        Self { lines: Vec::new() }
    }

    pub fn push_line(&mut self, line: Line)
        ensures
            final(self)@ == old(self)@.push(line),
    {
        self.lines.push(line);
    }

    /// Puts `line` at position `idx` and moves what follows up by one.
    pub fn insert_line(&mut self, idx: usize, line: Line)
        requires
            idx <= old(self)@.len(),
        ensures
            final(self)@ == old(self)@.insert(idx as int, line),
    {
        self.lines.insert(idx, line);
    }

    /// Overwrites the entry at `idx`; does nothing when there is none.
    pub fn replace_line(&mut self, idx: usize, line: Line)
        ensures
            final(self)@ == if idx < old(self)@.len() {
                old(self)@.update(idx as int, line)
            } else {
                old(self)@
            },
    {
        if idx < self.lines.len() {
            self.lines.set(idx, line);
        }
    }

    pub fn get(&self, idx: usize) -> (line: Option<&Line>)
        ensures
            line == if idx < self@.len() {
                Some(&self@[idx as int])
            } else {
                None
            },
    {
        if idx < self.lines.len() {
            Some(&self.lines[idx])
        } else {
            None
        }
    }

    pub fn clear(&mut self)
        ensures
            final(self)@ == Seq::<Line>::empty(),
    {
        self.lines.clear()
    }

    /// Drops the entries from position `len` on.
    pub fn truncate(&mut self, len: usize)
        ensures
            final(self)@ == if len <= old(self)@.len() {
                old(self)@.take(len as int)
            } else {
                old(self)@
            },
    {
        self.lines.truncate(len);
    }

    pub fn len(&self) -> (len: usize)
        ensures
            len == self@.len(),
    {
        self.lines.len()
    }

    /// The entries at positions `[start, end)`, or `None` when that is no
    /// range of positions of the cache.
    pub fn slice(&self, start: usize, end: usize) -> (lines: Option<&[Line]>)
        ensures
            match lines {
                Some(lines) => start <= end <= self@.len() && lines@ == self@.subrange(
                    start as int,
                    end as int,
                ),
                None => !(start <= end <= self@.len()),
            },
    {
        if start <= end && end <= self.lines.len() {
            Some(vstd::slice::slice_subrange(self.lines.as_slice(), start, end))
        } else {
            None
        }
    }
}

/// The entries are numbered from one in their order, and each line ends
/// after at least as many bytes as there are lines up to it.
pub open spec fn plausible(entries: Seq<Line>) -> bool {
    forall|i: int|
        0 <= i < entries.len() ==> (#[trigger] entries[i]).line == i + 1 && entries[i].indices.end
            > i
}

/// Two texts that agree on their first `common` bytes have the same index
/// entries for the lines that end within those bytes: for as many lines as
/// there are line feeds among those bytes.
pub proof fn lemma_entries_before_edit(a: Seq<u8>, b: Seq<u8>, common: int)
    requires
        0 <= common <= a.len(),
        common <= b.len(),
        a.subrange(0, common) == b.subrange(0, common),
    ensures
        count_lf(a.subrange(0, common)) <= all_entries(a).len(),
        count_lf(a.subrange(0, common)) <= all_entries(b).len(),
        all_entries(a).take(count_lf(a.subrange(0, common)) as int) == all_entries(b).take(
            count_lf(a.subrange(0, common)) as int,
        ),
{
    let total = count_lf(a.subrange(0, common));
    if total > 0 {
        let last = (total - 1) as nat;
        lemma_lines_before_edit(a, b, common, last);
        lemma_line_is_counted(a, last);
        lemma_line_is_counted(b, last);
    }
    assert forall|k: int| 0 <= k < total implies all_entries(a)[k] == all_entries(b)[k] by {
        lemma_lines_before_edit(a, b, common, k as nat);
        lemma_line_end_prefix(a, b, common, line_start(a, k as nat));
    }
    assert(all_entries(a).take(total as int) =~= all_entries(b).take(total as int));
}

/// The entry of a line of valid UTF-8 delimits the content of that line.
pub proof fn lemma_entry_slices_line(bytes: Seq<u8>, k: nat)
    requires
        bytes.len() <= usize::MAX,
        valid_utf8(bytes),
        k < lines_from(bytes, 0),
    ensures
        slice_text(
            bytes,
            all_entries(bytes)[k as int].indices.start as int,
            all_entries(bytes)[k as int].indices.end_line as int,
        ) == line_text(bytes, k),
{
    let start = line_start(bytes, k);
    lemma_line_start(bytes, k);
    lemma_line_end_bounds(bytes, start);
    lemma_line_boundaries(bytes, start);
}

/// One past the last byte of the content of the line `[start, end)`.
fn content_end_of<S: TextStore>(content: &S, start: usize, end: usize) -> (at: usize)
    requires
        content.valid(),
        start <= end <= encode_utf8(content.contents()).len(),
    ensures
        at == content_end(encode_utf8(content.contents()), start as int, end as int),
{
    if start < end && content.get_byte(end - 1) == Some(LF) {
        if start < end - 1 && content.get_byte(end - 2) == Some(CR) {
            end - 2
        } else {
            end - 1
        }
    } else {
        end
    }
}

/// A document over a text store `S`.
pub struct Buffer<S: TextStore> {
    id: BufferId,
    path: Option<String>,
    content: S,
    shallow_cache: ShallowCache,
}

impl<S: TextStore> Buffer<S> {
    pub closed spec fn spec_id(self) -> BufferId {
        self.id
    }

    /// The path that the document was opened from, if any.
    pub closed spec fn spec_path(self) -> Option<String> {
        self.path
    }

    /// The text of the document.
    pub closed spec fn text(self) -> Seq<char> {
        self.content.contents()
    }

    /// The bytes of the text.
    pub open spec fn bytes(self) -> Seq<u8> {
        encode_utf8(self.text())
    }

    /// The entries that the line index holds.
    pub closed spec fn entries(self) -> Seq<Line> {
        self.shallow_cache@
    }

    /// The store is valid, the length of the text in bytes fits a `usize`,
    /// and the line index is plausible.
    pub closed spec fn wf(self) -> bool {
        &&& self.content.valid()
        &&& encode_utf8(self.content.contents()).len() <= usize::MAX
        &&& plausible(self.shallow_cache@)
    }

    /// The line index is that of the text as it is now.
    pub open spec fn synced(self) -> bool {
        self.entries() == all_entries(self.bytes())
    }

    /// The content of line `k`, counted from zero, as the line index
    /// delimits it; `None` where the index has no such line.
    pub open spec fn line(self, k: int) -> Option<Seq<char>> {
        if 0 <= k < self.entries().len() {
            Some(
                slice_text(
                    self.bytes(),
                    self.entries()[k].indices.start as int,
                    self.entries()[k].indices.end_line as int,
                ),
            )
        } else {
            None
        }
    }

    /// Where the line index is that of the text, it has an entry for each
    /// non-empty line of the text, numbered from one, with starts that
    /// increase strictly, and it delimits the content of each line.
    pub proof fn lemma_synced_index(self, k: int)
        requires
            self.wf(),
            self.synced(),
        ensures
            self.entries().len() == lines_from(self.bytes(), 0),
            self.line(k) == if 0 <= k < lines_from(self.bytes(), 0) {
                Some(line_text(self.bytes(), k as nat))
            } else {
                None
            },
            0 <= k < self.entries().len() ==> self.entries()[k].line == k + 1,
            0 <= k < self.entries().len() ==> self.entries()[k].indices.start == line_start(
                self.bytes(),
                k as nat,
            ),
            0 < k < self.entries().len() ==> self.entries()[k - 1].indices.start
                < self.entries()[k].indices.start,
    {
        encode_utf8_valid_utf8(self.text());
        lemma_lines_from_bound(self.bytes(), 0);
        if 0 <= k < lines_from(self.bytes(), 0) {
            lemma_entry_slices_line(self.bytes(), k as nat);
            lemma_line_start(self.bytes(), k as nat);
            if k > 0 {
                lemma_index_is_ordered(self.bytes(), k - 1, k);
            }
        }
    }

    fn load(id: usize, path: Option<String>, text: &str) -> (buffer: Self)
        ensures
            buffer.wf(),
            buffer.synced(),
            buffer.spec_id() == BufferId(id),
            buffer.spec_path() == path,
            buffer.text() == text@,
    {
        let content = S::from_text(text);
        let _ = content.len_bytes();
        let mut buffer = Self { id: BufferId(id), path, content, shallow_cache: ShallowCache::new() };
        proof {
            assert(buffer.shallow_cache@.take(0) =~= all_entries(buffer.bytes()).take(0));
        }
        buffer.invalidate_line_cache(0);
        buffer
    }

    /// The document of the file at `path`, given what reading that file
    /// gave: its text, or why it could not be read.
    pub fn from_path(path: String, id: usize, read: Result<String, IoFailure>) -> (opened: Result<
        Self,
        CoreError,
    >)
        ensures
            match opened {
                Ok(buffer) => {
                    &&& read is Ok
                    &&& buffer.wf()
                    &&& buffer.synced()
                    &&& buffer.spec_id() == BufferId(id)
                    &&& buffer.spec_path() == Some(path)
                    &&& buffer.text() == read->Ok_0@
                },
                Err(error) => {
                    &&& read is Err
                    &&& error == (match read->Err_0 {
                        IoFailure::NotFound => CoreError::FileNotFound(path),
                        IoFailure::PermissionDenied => CoreError::FilePermissions(path),
                        IoFailure::Interrupted => CoreError::Io(path),
                        IoFailure::Other => CoreError::Io(path),
                    })
                },
            },
    {
        match read {
            Ok(text) => Ok(Self::load(id, Some(path), text.as_str())),
            Err(e) => Err(map_error(e, &path)),
        }
    }

    /// A document with the given text and no path.
    pub fn from_text(id: usize, text: &str) -> (buffer: Self)
        ensures
            buffer.wf(),
            buffer.synced(),
            buffer.spec_id() == BufferId(id),
            buffer.spec_path() == None::<String>,
            buffer.text() == text@,
    {
        Self::load(id, None, text)
    }

    /// A document without text or path. Never fails.
    pub fn empty(id: usize) -> (created: Result<Self, CoreError>)
        ensures
            created is Ok,
            created->Ok_0.wf(),
            created->Ok_0.synced(),
            created->Ok_0.spec_id() == BufferId(id),
            created->Ok_0.spec_path() == None::<String>,
            created->Ok_0.text() == Seq::<char>::empty(),
            created->Ok_0.entries() == Seq::<Line>::empty(),
    {
        let buffer = Self {
            id: BufferId(id),
            path: None,
            content: S::empty(),
            shallow_cache: ShallowCache::new(),
        };
        proof {
            assert(buffer.bytes() =~= Seq::<u8>::empty());
            assert(all_entries(buffer.bytes()) =~= Seq::<Line>::empty());
        }
        Ok(buffer)
    }

    pub fn id(&self) -> (id: BufferId)
        ensures
            id == self.spec_id(),
    {
        self.id
    }

    pub fn path(&self) -> (path: &Option<String>)
        ensures
            *path == self.spec_path(),
    {
        &self.path
    }

    pub fn content(&self) -> (content: &S)
        requires
            self.wf(),
        ensures
            content.valid(),
            content.contents() == self.text(),
    {
        &self.content
    }

    /// The line index as it stands.
    pub fn line_cache(&self) -> (cache: &ShallowCache)
        ensures
            cache@ == self.entries(),
    {
        &self.shallow_cache
    }

    /// Rebuilds the line index from line `start_line`, counted from zero, to
    /// the end of the text; from behind the last entry when `start_line` lies
    /// past it. The entries before that line are kept as they are, the walk
    /// over the text resumes where the last of them ends, and the entries
    /// from that line on are replaced by those of the lines found. Where the
    /// kept entries are those of the text, the index is afterwards that of
    /// the text.
    pub fn invalidate_line_cache(&mut self, start_line: usize)
        requires
            old(self).wf(),
        ensures
            final(self).wf(),
            final(self).spec_id() == old(self).spec_id(),
            final(self).spec_path() == old(self).spec_path(),
            final(self).text() == old(self).text(),
            ({
                let first = if start_line <= old(self).entries().len() {
                    start_line as int
                } else {
                    old(self).entries().len() as int
                };
                &&& final(self).entries() == old(self).entries().take(first) + entries_from(
                    old(self).bytes(),
                    resume_offset(old(self).entries(), first),
                    first as nat,
                )
                &&& forall|i: int| 0 <= i < first ==> final(self).entries()[i] == old(self).entries()[i]
                &&& first <= all_entries(old(self).bytes()).len() && old(self).entries().take(first)
                    == all_entries(old(self).bytes()).take(first) ==> final(self).synced()
            }),
            start_line == 0 ==> final(self).synced(),
    {
        let len = self.shallow_cache.len();
        let first = if start_line < len { start_line } else { len };
        let mut last_line_byte = if first == 0 {
            0
        } else {
            self.shallow_cache.lines[first - 1].end_index()
        };
        let ghost bytes = encode_utf8(self.content.contents());
        let ghost kept = self.shallow_cache@.take(first as int);
        let ghost target = kept + entries_from(bytes, last_line_byte as int, first as nat);
        self.shallow_cache.truncate(first);
        let total = self.content.len_bytes();
        if last_line_byte > total {
            last_line_byte = total;
        }
        let mut idx = first;
        while last_line_byte < total
            invariant
                self.content == old(self).content,
                self.id == old(self).id,
                self.path == old(self).path,
                bytes == encode_utf8(self.content.contents()),
                total == bytes.len(),
                self.content.valid(),
                plausible(self.shallow_cache@),
                idx == self.shallow_cache@.len(),
                last_line_byte <= total,
                last_line_byte < total ==> idx <= last_line_byte,
                self.shallow_cache@ + entries_from(bytes, last_line_byte as int, idx as nat)
                    == target,
            decreases total - last_line_byte,
        {
            let ghost before = self.shallow_cache@;
            proof {
                lemma_line_end_bounds(bytes, last_line_byte as int);
            }
            let end = self.content.line_end(last_line_byte);
            let end_line = content_end_of(&self.content, last_line_byte, end);
            let line = Line::new(idx + 1, LineIndices::new(last_line_byte, end, end_line));
            self.shallow_cache.push_line(line);
            proof {
                lemma_entries_step(bytes, before, last_line_byte as int, idx as nat);
            }
            idx += 1;
            last_line_byte = end;
        }
        proof {
            let entries = old(self).shallow_cache@;
            assert(entries_from(bytes, last_line_byte as int, idx as nat) =~= Seq::<Line>::empty());
            assert(self.shallow_cache@ + Seq::<Line>::empty() =~= self.shallow_cache@);
            assert forall|i: int| 0 <= i < first implies target[i] == entries[i] by {
                assert(kept[i] == entries[i]);
            }
            if first == 0 {
                assert(kept =~= all_entries(bytes).take(0));
            }
            if first <= all_entries(bytes).len() && kept == all_entries(bytes).take(first as int) {
                lemma_resume_is_sound(bytes, entries, first as int);
            }
        }
    }

    /// Inserts `val` before character index `idx` of the text and brings the
    /// line index up to date from the line in which the text changes first;
    /// that line is reported, counted from zero. The entries of the lines
    /// before it stay as they are. Fails, and changes nothing, when `idx`
    /// lies past the end of the text.
    pub fn insert(&mut self, idx: usize, val: &str) -> (changed: Result<usize, RopeError>)
        requires
            old(self).wf(),
            old(self).bytes().len() + encode_utf8(val@).len() <= usize::MAX,
        ensures
            final(self).wf(),
            final(self).spec_id() == old(self).spec_id(),
            final(self).spec_path() == old(self).spec_path(),
            old(self).synced() ==> final(self).synced(),
            match changed {
                Ok(line) => {
                    &&& idx <= old(self).text().len()
                    &&& final(self).text() == old(self).text().subrange(0, idx as int) + val@
                        + old(self).text().subrange(idx as int, old(self).text().len() as int)
                    &&& line == count_lf(encode_utf8(old(self).text().subrange(0, idx as int)))
                    &&& forall|i: int|
                        0 <= i < line && i < old(self).entries().len() ==> final(self).entries()[i]
                            == old(self).entries()[i]
                },
                Err(e) => {
                    &&& e == RopeError::OutOfBounds
                    &&& idx > old(self).text().len()
                    &&& final(self).text() == old(self).text()
                    &&& final(self).entries() == old(self).entries()
                },
            },
    {
        let ghost text = self.content.contents();
        match self.content.insert(idx, val) {
            Ok(line) => {
                let _ = self.content.len_bytes();
                proof {
                    let head = text.subrange(0, idx as int);
                    let tail = text.subrange(idx as int, text.len() as int);
                    assert(text =~= head + tail);
                    Self::lemma_edit_keeps_lines(head, tail, val@ + tail);
                    assert(head + val@ + tail =~= head + (val@ + tail));
                }
                self.invalidate_line_cache(line);
                Ok(line)
            },
            Err(e) => Err(e),
        }
    }

    /// Inserts the character `ch` before character index `idx`, as `insert`
    /// does with a text of that one character.
    pub fn insert_char(&mut self, idx: usize, ch: char) -> (changed: Result<usize, RopeError>)
        requires
            old(self).wf(),
            old(self).bytes().len() + encode_utf8(seq![ch]).len() <= usize::MAX,
        ensures
            final(self).wf(),
            final(self).spec_id() == old(self).spec_id(),
            final(self).spec_path() == old(self).spec_path(),
            old(self).synced() ==> final(self).synced(),
            match changed {
                Ok(line) => {
                    &&& idx <= old(self).text().len()
                    &&& final(self).text() == old(self).text().insert(idx as int, ch)
                    &&& line == count_lf(encode_utf8(old(self).text().subrange(0, idx as int)))
                    &&& forall|i: int|
                        0 <= i < line && i < old(self).entries().len() ==> final(self).entries()[i]
                            == old(self).entries()[i]
                },
                Err(e) => {
                    &&& e == RopeError::OutOfBounds
                    &&& idx > old(self).text().len()
                    &&& final(self).text() == old(self).text()
                    &&& final(self).entries() == old(self).entries()
                },
            },
    {
        let ghost text = self.content.contents();
        let inserted = char_to_string(ch);
        match self.content.insert(idx, inserted.as_str()) {
            Ok(line) => {
                let _ = self.content.len_bytes();
                proof {
                    let head = text.subrange(0, idx as int);
                    let tail = text.subrange(idx as int, text.len() as int);
                    assert(text =~= head + tail);
                    Self::lemma_edit_keeps_lines(head, tail, seq![ch] + tail);
                    assert(text.insert(idx as int, ch) =~= head + (seq![ch] + tail));
                    assert(head + inserted@ + tail =~= head + (seq![ch] + tail));
                }
                self.invalidate_line_cache(line);
                Ok(line)
            },
            Err(e) => Err(e),
        }
    }

    /// Removes the character at character index `idx` of the text and brings
    /// the line index up to date from the line in which the text changes
    /// first; that line is reported, counted from zero. Fails, and changes
    /// nothing, when there is no character at `idx`.
    pub fn remove(&mut self, idx: usize) -> (changed: Result<usize, RopeError>)
        requires
            old(self).wf(),
        ensures
            final(self).wf(),
            final(self).spec_id() == old(self).spec_id(),
            final(self).spec_path() == old(self).spec_path(),
            old(self).synced() ==> final(self).synced(),
            match changed {
                Ok(line) => {
                    &&& idx < old(self).text().len()
                    &&& final(self).text() == old(self).text().remove(idx as int)
                    &&& line == count_lf(encode_utf8(old(self).text().subrange(0, idx as int)))
                    &&& forall|i: int|
                        0 <= i < line && i < old(self).entries().len() ==> final(self).entries()[i]
                            == old(self).entries()[i]
                },
                Err(e) => {
                    &&& e == RopeError::OutOfBounds
                    &&& idx >= old(self).text().len()
                    &&& final(self).text() == old(self).text()
                    &&& final(self).entries() == old(self).entries()
                },
            },
    {
        let ghost text = self.content.contents();
        if idx >= self.content.len_chars() {
            return Err(RopeError::OutOfBounds);
        }
        match self.content.remove_range(idx, idx + 1) {
            Ok(line) => {
                let _ = self.content.len_bytes();
                proof {
                    let head = text.subrange(0, idx as int);
                    let tail = text.subrange(idx as int, text.len() as int);
                    assert(text =~= head + tail);
                    Self::lemma_edit_keeps_lines(head, tail, tail.drop_first());
                    assert(text.remove(idx as int) =~= head + tail.drop_first());
                }
                self.invalidate_line_cache(line);
                Ok(line)
            },
            Err(e) => Err(e),
        }
    }

    /// Removes the characters at character indices `[start, end)` of the
    /// text and brings the line index up to date from the line in which the
    /// text changes first; that line is reported, counted from zero. Fails,
    /// and changes nothing, when these are no range of characters of the
    /// text.
    pub fn remove_range(&mut self, start: usize, end: usize) -> (changed: Result<usize, RopeError>)
        requires
            old(self).wf(),
        ensures
            final(self).wf(),
            final(self).spec_id() == old(self).spec_id(),
            final(self).spec_path() == old(self).spec_path(),
            old(self).synced() ==> final(self).synced(),
            match changed {
                Ok(line) => {
                    &&& start <= end <= old(self).text().len()
                    &&& final(self).text() == old(self).text().subrange(0, start as int) + old(
                        self,
                    ).text().subrange(end as int, old(self).text().len() as int)
                    &&& line == count_lf(encode_utf8(old(self).text().subrange(0, start as int)))
                    &&& forall|i: int|
                        0 <= i < line && i < old(self).entries().len() ==> final(self).entries()[i]
                            == old(self).entries()[i]
                },
                Err(e) => {
                    &&& e == RopeError::OutOfBounds
                    &&& !(start <= end <= old(self).text().len())
                    &&& final(self).text() == old(self).text()
                    &&& final(self).entries() == old(self).entries()
                },
            },
    {
        let ghost text = self.content.contents();
        match self.content.remove_range(start, end) {
            Ok(line) => {
                let _ = self.content.len_bytes();
                proof {
                    let head = text.subrange(0, start as int);
                    let tail = text.subrange(start as int, text.len() as int);
                    assert(text =~= head + tail);
                    Self::lemma_edit_keeps_lines(
                        head,
                        tail,
                        text.subrange(end as int, text.len() as int),
                    );
                }
                self.invalidate_line_cache(line);
                Ok(line)
            },
            Err(e) => Err(e),
        }
    }

    /// Where a text changes behind `head` only, the index entries of the
    /// lines that end within `head` stay right.
    proof fn lemma_edit_keeps_lines(head: Seq<char>, tail: Seq<char>, changed: Seq<char>)
        ensures
            count_lf(encode_utf8(head)) <= all_entries(encode_utf8(head + tail)).len(),
            count_lf(encode_utf8(head)) <= all_entries(encode_utf8(head + changed)).len(),
            all_entries(encode_utf8(head + tail)).take(count_lf(encode_utf8(head)) as int)
                == all_entries(encode_utf8(head + changed)).take(count_lf(encode_utf8(head)) as int),
    {
        let a = encode_utf8(head + tail);
        let b = encode_utf8(head + changed);
        let common = encode_utf8(head).len() as int;
        lemma_encode_concat(head, tail);
        lemma_encode_concat(head, changed);
        assert(a.subrange(0, common) =~= encode_utf8(head));
        assert(b.subrange(0, common) =~= encode_utf8(head));
        lemma_entries_before_edit(a, b, common);
    }

    /// The content of the lines `[start, end)`, counted from zero, without
    /// their line breaks: of those among them that the line index holds, so
    /// fewer than asked for, or none, where the range reaches past the last
    /// line. Each is cut out of the text at the bytes that its entry gives;
    /// where the index is that of the text, these are the lines of the text.
    #[verifier::loop_isolation(false)]
    pub fn request_lines(&self, start: usize, end: usize) -> (res: Vec<String>)
        requires
            self.wf(),
        ensures
            res@.len() == if start < end && start < self.entries().len() {
                if end <= self.entries().len() {
                    end - start
                } else {
                    self.entries().len() - start
                }
            } else {
                0
            },
            forall|j: int| 0 <= j < res@.len() ==> Some((#[trigger] res@[j])@) == self.line(start + j),
            self.synced() ==> forall|j: int|
                0 <= j < res@.len() ==> (#[trigger] res@[j])@ == line_text(
                    self.bytes(),
                    (start + j) as nat,
                ),
    {
        let mut res: Vec<String> = Vec::new();
        let len = self.shallow_cache.len();
        let stop = if end < len { end } else { len };
        let mut at = start;
        while at < stop
            invariant
                self.wf(),
                stop <= self.entries().len(),
                stop <= end,
                start <= at,
                start < stop ==> at <= stop,
                start >= stop ==> at == start,
                res@.len() == at - start,
                forall|j: int|
                    0 <= j < res@.len() ==> (#[trigger] res@[j])@ == slice_text(
                        self.bytes(),
                        self.entries()[start + j].indices.start as int,
                        self.entries()[start + j].indices.end_line as int,
                    ),
            decreases stop - at,
        {
            let line = &self.shallow_cache.lines[at];
            let val = match self.content.slice_bytes(line.start_index(), line.end_line()) {
                Some(text) => text,
                None => String::new(),
            };
            res.push(val);
            at += 1;
        }
        proof {
            if self.synced() {
                encode_utf8_valid_utf8(self.text());
                assert forall|j: int| 0 <= j < res@.len() implies (#[trigger] res@[j])@
                    == line_text(self.bytes(), (start + j) as nat) by {
                    lemma_entry_slices_line(self.bytes(), (start + j) as nat);
                }
            }
        }
        res
    }
}

} // verus!
