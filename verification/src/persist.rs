//! The persister: applies deletions and embedded files to the store, one
//! after the other, in the order in which they arrive.

use crate::embedding_index::{EmbeddedFile, EmbeddingIndex};
use crate::indexing::{IndexingEntryHandle, IndexingEntrySet};
use crate::keys::{db_key, db_key_for_path};
use crate::store::{DeletionRange, DeletionRangeView};
use vstd::prelude::*;

verus! {

/// What arrives at the persister.
#[derive(Debug)]
pub enum PersistEvent<E> {
    /// A range of keys whose records are to be deleted.
    Delete(DeletionRange),
    /// A file with all its embeddings, to be stored, and the token of its
    /// registration.
    Save(EmbeddedFile<E>, IndexingEntryHandle),
}

/// The store after the deletion of `range`: every record whose key lies in
/// the range is gone, every other record is as before.
pub open spec fn delete_range_spec<E>(
    db: Map<Seq<char>, EmbeddedFile<E>>,
    range: DeletionRangeView,
) -> Map<Seq<char>, EmbeddedFile<E>> {
    db.remove_keys(Set::new(|key: Seq<char>| range.covers(key)))
}

/// The store after `file` was saved: `file` is the record under the key of
/// its path, every other record is as before.
pub open spec fn save_spec<E>(db: Map<Seq<char>, EmbeddedFile<E>>, file: EmbeddedFile<E>) -> Map<
    Seq<char>,
    EmbeddedFile<E>,
> {
    db.insert(db_key(file.path@), file)
}

/// The store after one event.
pub open spec fn apply_event<E>(db: Map<Seq<char>, EmbeddedFile<E>>, event: PersistEvent<E>) -> Map<
    Seq<char>,
    EmbeddedFile<E>,
> {
    match event {
        PersistEvent::Delete(range) => delete_range_spec(db, range@),
        PersistEvent::Save(file, _) => save_spec(db, file),
    }
}

/// The store after the events `events`, applied in their order.
pub open spec fn apply_events<E>(
    db: Map<Seq<char>, EmbeddedFile<E>>,
    events: Seq<PersistEvent<E>>,
) -> Map<Seq<char>, EmbeddedFile<E>>
    decreases events.len(),
{
    if events.len() == 0 {
        db
    } else {
        apply_event(apply_events(db, events.drop_last()), events.last())
    }
}

/// The registry after one event: the token of a file that was saved has
/// been given back.
pub open spec fn release_event<E>(registry: Set<u64>, event: PersistEvent<E>) -> Set<u64> {
    match event {
        PersistEvent::Delete(_) => registry,
        PersistEvent::Save(_, handle) => registry.remove(handle.entry_id),
    }
}

/// The registry after the events `events`: the token of every file that was
/// saved has been given back.
pub open spec fn release_saved<E>(registry: Set<u64>, events: Seq<PersistEvent<E>>) -> Set<u64>
    decreases events.len(),
{
    if events.len() == 0 {
        registry
    } else {
        release_event(release_saved(registry, events.drop_last()), events.last())
    }
}

impl<E> EmbeddingIndex<E> {
    /// Deletes from the store every record whose key lies in `range`.
    pub fn delete_entry_range(&mut self, range: &DeletionRange)
        requires
            old(self).wf(),
        ensures
            final(self).wf(),
            final(self).spec_db()@ == delete_range_spec(old(self).spec_db()@, range@),
    {
        let db = self.db_mut();
        db.delete_range(range);
    }

    /// Stores `file` under the key of its path, in place of the record that
    /// was there, and gives the token of the file back to
    /// `entries_being_indexed`.
    pub fn save_embedded_file(
        &mut self,
        file: EmbeddedFile<E>,
        handle: IndexingEntryHandle,
        entries_being_indexed: &mut IndexingEntrySet,
    )
        requires
            old(self).wf(),
            old(entries_being_indexed).wf(),
        ensures
            final(self).wf(),
            final(self).spec_db()@ == save_spec(old(self).spec_db()@, file),
            final(entries_being_indexed).wf(),
            final(entries_being_indexed)@ == old(entries_being_indexed)@.remove(handle.entry_id),
    {
        let key = db_key_for_path(file.path.as_str());
        let db = self.db_mut();
        db.put(key, file);
        entries_being_indexed.release(handle);
    }

    /// Applies one event to the store.
    pub fn persist(&mut self, event: PersistEvent<E>, entries_being_indexed: &mut IndexingEntrySet)
        requires
            old(self).wf(),
            old(entries_being_indexed).wf(),
        ensures
            final(self).wf(),
            final(self).spec_db()@ == apply_event(old(self).spec_db()@, event),
            final(entries_being_indexed).wf(),
            final(entries_being_indexed)@ == release_event(old(entries_being_indexed)@, event),
    {
        match event {
            PersistEvent::Delete(range) => {
                self.delete_entry_range(&range);
            },
            PersistEvent::Save(file, handle) => {
                self.save_embedded_file(file, handle, entries_being_indexed);
            },
        }
    }

    /// Applies the events to the store, each as it stands in `events`: no
    /// deletion and no file is applied before one that arrived earlier.
    pub fn persist_embeddings(
        &mut self,
        events: Vec<PersistEvent<E>>,
        entries_being_indexed: &mut IndexingEntrySet,
    )
        requires
            old(self).wf(),
            old(entries_being_indexed).wf(),
        ensures
            final(self).wf(),
            final(self).spec_db()@ == apply_events(old(self).spec_db()@, events@),
            final(entries_being_indexed).wf(),
            final(entries_being_indexed)@ == release_saved(old(entries_being_indexed)@, events@),
    {
        let ghost all = events@;
        let ghost db0 = self.spec_db()@;
        let ghost reg0 = entries_being_indexed@;
        proof {
            assert(all.take(0) =~= Seq::<PersistEvent<E>>::empty());
        }
        for event in it: events
            invariant
                it.seq() == all,
                self.wf(),
                entries_being_indexed.wf(),
                self.spec_db()@ == apply_events(db0, all.take(it.index())),
                entries_being_indexed@ == release_saved(reg0, all.take(it.index())),
        {
            proof {
                let k = it.index();
                assert(all.take(k + 1).drop_last() =~= all.take(k));
                assert(all.take(k + 1).last() == event);
            }
            self.persist(event, entries_being_indexed);
        }
        proof {
            assert(all.take(all.len() as int) =~= all);
        }
    }
}

} // verus!
