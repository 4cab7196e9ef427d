//! What the file tree hands to the scanner: entries, snapshots and change
//! events.

use vstd::prelude::*;

verus! {

/// Modification token of a file: the time of its last change, as seconds and
/// nanoseconds. Two tokens are compared for equality only.
#[derive(Clone, Copy, Debug, PartialEq, Eq, Structural)]
pub struct MTime {
    pub seconds: u64,
    pub nanos: u32,
}

impl MTime {
    pub fn from_seconds_and_nanos(seconds: u64, nanos: u32) -> (mtime: MTime)
        ensures
            mtime == (MTime { seconds, nanos }),
    {
        MTime { seconds, nanos }
    }
}

/// `true` exactly when two optional modification tokens are the same.
pub fn same_mtime(a: Option<MTime>, b: Option<MTime>) -> (same: bool)
    ensures
        same == (a == b),
{
    match (a, b) {
        (Some(x), Some(y)) => x == y,
        (None, None) => true,
        _ => false,
    }
}

#[derive(Clone, Copy, Debug, PartialEq, Eq, Structural)]
pub enum EntryKind {
    File,
    Dir,
}

/// One entry of the file tree.
#[derive(Debug, PartialEq, Eq)]
pub struct Entry {
    pub id: u64,
    pub kind: EntryKind,
    pub path: String,
    pub mtime: Option<MTime>,
}

impl Entry {
    pub fn is_file(&self) -> (file: bool)
        ensures
            file == (self.kind == EntryKind::File),
    {
        self.kind == EntryKind::File
    }

    /// The key under which the record of this entry is stored.
    pub open spec fn key(&self) -> Seq<char> {
        crate::keys::db_key(self.path@)
    }
}

impl Clone for Entry {
    fn clone(&self) -> (copy: Self)
        ensures
            copy == *self,
    {
        Entry { id: self.id, kind: self.kind, path: self.path.clone(), mtime: self.mtime }
    }
}

/// How a path changed since the last scan.
#[derive(Clone, Copy, Debug, PartialEq, Eq, Structural)]
pub enum PathChange {
    Added,
    Removed,
    Updated,
    AddedOrUpdated,
    Loaded,
}

/// One change event: the path, the id of its entry, and what happened to it.
#[derive(Debug, PartialEq, Eq)]
pub struct UpdatedEntry {
    pub path: String,
    pub entry_id: u64,
    pub change: PathChange,
}

/// The file tree at one moment: its entries, files and directories, in path
/// order.
#[derive(Debug)]
pub struct Snapshot {
    pub entries: Vec<Entry>,
}

impl Snapshot {
    /// The position of the first entry with the id `id`, if there is one.
    pub open spec fn position_of_id(entries: Seq<Entry>, id: u64) -> Option<int>
        decreases entries.len(),
    {
        if entries.len() == 0 {
            None
        } else if entries[0].id == id {
            Some(0int)
        } else {
            match Self::position_of_id(entries.drop_first(), id) {
                Some(k) => Some(k + 1),
                None => None,
            }
        }
    }

    /// The first entry with the id `id`, if there is one.
    pub open spec fn spec_entry_for_id(&self, id: u64) -> Option<Entry> {
        match Self::position_of_id(self.entries@, id) {
            Some(k) => Some(self.entries@[k]),
            None => None,
        }
    }

    /// What [`position_of_id`](Self::position_of_id) finds is an entry with
    /// that id, and no entry before it has the id; it finds nothing only
    /// where no entry has the id.
    pub proof fn lemma_position_of_id(entries: Seq<Entry>, id: u64)
        ensures
            match Self::position_of_id(entries, id) {
                Some(k) => 0 <= k < entries.len() && entries[k].id == id && forall|i: int|
                    0 <= i < k ==> entries[i].id != id,
                None => forall|i: int| 0 <= i < entries.len() ==> entries[i].id != id,
            },
        decreases entries.len(),
    {
        if entries.len() > 0 && entries[0].id != id {
            let rest = entries.drop_first();
            Self::lemma_position_of_id(rest, id);
            match Self::position_of_id(rest, id) {
                Some(k) => {
                    assert forall|i: int| 0 <= i < k + 1 implies entries[i].id != id by {
                        if i > 0 {
                            assert(entries[i] == rest[i - 1]);
                        }
                    }
                },
                None => {
                    assert forall|i: int| 0 <= i < entries.len() implies entries[i].id != id by {
                        if i > 0 {
                            assert(entries[i] == rest[i - 1]);
                        }
                    }
                },
            }
        }
    }

    /// Looks an entry up by its id.
    pub fn entry_for_id(&self, id: u64) -> (found: Option<&Entry>)
        ensures
            match found {
                Some(entry) => self.spec_entry_for_id(id) == Some(*entry),
                None => self.spec_entry_for_id(id) is None,
            },
    {
        let mut i: usize = 0;
        proof {
            Self::lemma_position_of_id(self.entries@, id);
        }
        while i < self.entries.len()
            invariant
                i <= self.entries.len(),
                forall|k: int| 0 <= k < i ==> self.entries@[k].id != id,
                match Self::position_of_id(self.entries@, id) {
                    Some(k) => 0 <= k < self.entries@.len() && self.entries@[k].id == id
                        && forall|i: int| 0 <= i < k ==> self.entries@[i].id != id,
                    None => forall|i: int|
                        0 <= i < self.entries@.len() ==> self.entries@[i].id != id,
                },
            decreases self.entries.len() - i,
        {
            if self.entries[i].id == id {
                return Some(&self.entries[i]);
            }
            i += 1;
        }
        None
    }
}

} // verus!
