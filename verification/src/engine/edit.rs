//! The registry of open documents. It mints the identifiers, so every
//! identifier that it handed out names a document that it holds.

use std::collections::BTreeMap;
use vstd::prelude::*;
use vstd::std_specs::btree::*;
use super::buffer::{line_text, Buffer, BufferId};
use super::store::TextStore;
use super::{CoreError, IoFailure};

verus! {

broadcast use group_btree_axioms;

#[derive(Debug, Clone)]
pub struct BufferInfo {
    pub path: Option<String>,
}

/// Hands out the numbers 1, 2, 3, ..., each once.
pub struct Counter {
    counter: usize,
}

impl Counter {
    /// The number that `next` hands out next.
    pub closed spec fn value(self) -> usize {
        self.counter
    }

    pub fn new() -> (counter: Self)
        ensures
            counter.value() == 1,
    {
        Self { counter: 1 }
    }

    pub fn next(&mut self) -> (id: usize)
        requires
            old(self).value() < usize::MAX,
        ensures
            id == old(self).value(),
            final(self).value() == old(self).value() + 1,
    {
        let id = self.counter;
        self.counter = id + 1;
        id
    }

    /// Whether a number is left to hand out.
    pub fn has_next(&self) -> (left: bool)
        ensures
            left == (self.value() < usize::MAX),
    {
        self.counter < usize::MAX
    }
}

/// The `&mut` to the value under `key`, as `BTreeMap::get_mut` gives it:
/// what is written through it is afterwards the value under `key`, and no
/// other entry changes.
#[verifier::external_body]
fn entry_mut<'a, V>(map: &'a mut BTreeMap<usize, V>, key: usize) -> (entry: Option<&'a mut V>)
    ensures
        match entry {
            Some(value) => {
                &&& old(map)@.contains_key(key)
                &&& *value == old(map)@[key]
                &&& final(map)@ == old(map)@.insert(key, *final(value))
            },
            None => !old(map)@.contains_key(key) && final(map)@ == old(map)@,
        },
{
    map.get_mut(&key)
}

/// The registry of the open documents, each over a text store `S`.
pub struct Core<S: TextStore> {
    id_counter: Counter,
    buffers: BTreeMap<usize, Buffer<S>>,
}

impl<S: TextStore> Core<S> {
    /// The documents that the registry holds, by the number of their id.
    pub closed spec fn buffers(self) -> Map<usize, Buffer<S>> {
        self.buffers@
    }

    /// The number of the id that the next document gets.
    pub closed spec fn next_free(self) -> usize {
        self.id_counter.value()
    }

    /// Whether the registry holds a document under `id`.
    pub open spec fn contains(self, id: BufferId) -> bool {
        self.buffers().contains_key(id.0)
    }

    /// The document under `id`.
    pub open spec fn buffer(self, id: BufferId) -> Buffer<S>
        recommends
            self.contains(id),
    {
        self.buffers()[id.0]
    }

    /// Every document is held under its own id, which was minted before;
    /// it is well formed and its line index is up to date.
    pub open spec fn wf(self) -> bool {
        &&& self.next_free() >= 1
        &&& forall|n: usize| #[trigger]
            self.buffers().contains_key(n) ==> {
                &&& 1 <= n < self.next_free()
                &&& self.buffers()[n].spec_id() == BufferId(n)
                &&& self.buffers()[n].wf()
                &&& self.buffers()[n].synced()
            }
    }

    pub fn new() -> (registry: Self)
        ensures
            registry.wf(),
            registry.next_free() == 1,
            registry.buffers() == Map::<usize, Buffer<S>>::empty(),
    {
        Self { id_counter: Counter::new(), buffers: BTreeMap::new() }
    }

    /// Whether another document can be opened: an id is left for it.
    pub fn has_free_id(&self) -> (left: bool)
        ensures
            left == (self.next_free() < usize::MAX),
    {
        self.id_counter.has_next()
    }

    fn next_id(&mut self) -> (id: usize)
        requires
            old(self).next_free() < usize::MAX,
        ensures
            id == old(self).next_free(),
            final(self).next_free() == id + 1,
            final(self).buffers() == old(self).buffers(),
    {
        self.id_counter.next()
    }

    fn insert_buffer(&mut self, buffer: Buffer<S>)
        requires
            !old(self).contains(buffer.spec_id()),
        ensures
            final(self).buffers() == old(self).buffers().insert(buffer.spec_id().0, buffer),
            final(self).next_free() == old(self).next_free(),
    {
        let id = buffer.id();
        let before = self.buffers.insert(id.0, buffer);
        assert(before is None);
    }

    /// Opens a document under a fresh id: that of the file at the path in
    /// `buffer_info`, given in `read` what reading that file gave, or an
    /// empty one when no path is named. The id is spent even when opening
    /// fails, so that no id is ever used twice.
    pub fn open_file(&mut self, buffer_info: BufferInfo, read: Result<String, IoFailure>) -> (opened:
        Result<BufferId, CoreError>)
        requires
            old(self).wf(),
            old(self).next_free() < usize::MAX,
        ensures
            final(self).wf(),
            final(self).next_free() == old(self).next_free() + 1,
            match opened {
                Ok(id) => {
                    &&& id == BufferId(old(self).next_free())
                    &&& buffer_info.path is None || read is Ok
                    &&& final(self).contains(id)
                    &&& final(self).buffers() == old(self).buffers().insert(
                        id.0,
                        final(self).buffer(id),
                    )
                    &&& final(self).buffer(id).spec_path() == buffer_info.path
                    &&& final(self).buffer(id).text() == if buffer_info.path is Some {
                        read->Ok_0@
                    } else {
                        Seq::<char>::empty()
                    }
                },
                Err(error) => {
                    &&& buffer_info.path is Some
                    &&& read is Err
                    &&& error == (match read->Err_0 {
                        IoFailure::NotFound => CoreError::FileNotFound(buffer_info.path->Some_0),
                        IoFailure::PermissionDenied => CoreError::FilePermissions(
                            buffer_info.path->Some_0,
                        ),
                        IoFailure::Interrupted => CoreError::Io(buffer_info.path->Some_0),
                        IoFailure::Other => CoreError::Io(buffer_info.path->Some_0),
                    })
                    &&& final(self).buffers() == old(self).buffers()
                },
            },
    {
        let buffer_id = self.next_id();
        let buffer = match buffer_info.path {
            Some(path) => Buffer::from_path(path, buffer_id, read),
            None => Buffer::empty(buffer_id),
        };
        match buffer {
            Ok(buffer) => {
                let buffer_id = buffer.id();
                self.insert_buffer(buffer);
                Ok(buffer_id)
            },
            Err(error) => Err(error),
        }
    }

    /// The content of the lines `[start, end)` of the document `buffer`, as
    /// `Buffer::request_lines` gives it.
    pub fn request_lines(&self, buffer: BufferId, start: usize, end: usize) -> (res: Vec<String>)
        requires
            self.wf(),
            self.contains(buffer),
        ensures
            res@.len() == if start < end && start < self.buffer(buffer).entries().len() {
                if end <= self.buffer(buffer).entries().len() {
                    end - start
                } else {
                    self.buffer(buffer).entries().len() - start
                }
            } else {
                0
            },
            forall|j: int|
                0 <= j < res@.len() ==> (#[trigger] res@[j])@ == line_text(
                    self.buffer(buffer).bytes(),
                    (start + j) as nat,
                ),
    {
        match self.buffers.get(&buffer.0) {
            Some(found) => found.request_lines(start, end),
            None => Vec::new(),
        }
    }

    /// retrieve the buffer of the given id.
    pub fn get_buffer(&self, id: &BufferId) -> (found: Option<&Buffer<S>>)
        ensures
            match found {
                Some(buffer) => self.contains(*id) && *buffer == self.buffer(*id),
                None => !self.contains(*id),
            },
    {
        self.buffers.get(&id.0)
    }

    /// retrieve the buffer of the given id, to change it. What the buffer
    /// is when the borrow ends is what the registry then holds under the id.
    pub fn get_buffer_mut(&mut self, id: &BufferId) -> (found: Option<&mut Buffer<S>>)
        ensures
            final(self).next_free() == old(self).next_free(),
            match found {
                Some(buffer) => {
                    &&& old(self).contains(*id)
                    &&& *buffer == old(self).buffer(*id)
                    &&& final(self).buffers() == old(self).buffers().insert(id.0, *final(buffer))
                },
                None => !old(self).contains(*id) && final(self).buffers() == old(self).buffers(),
            },
    {
        entry_mut(&mut self.buffers, id.0)
    }
}

} // verus!
