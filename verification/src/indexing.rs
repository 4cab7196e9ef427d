//! The registry of entries that are being indexed.

use vstd::prelude::*;

verus! {

/// Liveness token of one entry that is in the pipeline. It is handed out by
/// [`IndexingEntrySet::insert`] and given back with
/// [`IndexingEntrySet::release`].
#[derive(Debug, PartialEq, Eq)]
pub struct IndexingEntryHandle {
    pub entry_id: u64,
}

/// The set of entries that are being indexed.
#[derive(Debug)]
pub struct IndexingEntrySet {
    entry_ids: Vec<u64>,
}

impl View for IndexingEntrySet {
    type V = Set<u64>;

    closed spec fn view(&self) -> Set<u64> {
        self.entry_ids@.to_set()
    }
}

impl IndexingEntrySet {
    /// No id is held twice.
    pub closed spec fn wf(&self) -> bool {
        self.entry_ids@.no_duplicates()
    }

    /// The number of entries in the registry.
    pub closed spec fn spec_len(&self) -> nat {
        self.entry_ids@.len()
    }

    /// The registry counts each of its entries once.
    pub proof fn lemma_len(&self)
        requires
            self.wf(),
        ensures
            self@.finite(),
            self@.len() == self.spec_len(),
    {
        self.entry_ids@.unique_seq_to_set();
    }

    pub fn new() -> (set: Self)
        ensures
            set.wf(),
            set@ == Set::<u64>::empty(),
            set.spec_len() == 0,
    {
        let set = IndexingEntrySet { entry_ids: Vec::new() };
        assert(set.entry_ids@.to_set() =~= Set::<u64>::empty());
        set
    }

    fn position(&self, entry_id: u64) -> (found: Option<usize>)
        ensures
            match found {
                Some(k) => k < self.entry_ids@.len() && self.entry_ids@[k as int] == entry_id,
                None => !self.entry_ids@.contains(entry_id),
            },
    {
        let mut i: usize = 0;
        while i < self.entry_ids.len()
            invariant
                i <= self.entry_ids.len(),
                forall|k: int| 0 <= k < i ==> self.entry_ids@[k] != entry_id,
            decreases self.entry_ids.len() - i,
        {
            if self.entry_ids[i] == entry_id {
                return Some(i);
            }
            i += 1;
        }
        None
    }

    /// `true` exactly when the entry `entry_id` is being indexed.
    pub fn contains(&self, entry_id: u64) -> (held: bool)
        ensures
            held == self@.contains(entry_id),
    {
        self.position(entry_id).is_some()
    }

    /// The number of entries that are being indexed.
    pub fn len(&self) -> (n: usize)
        ensures
            n == self.spec_len(),
    {
        self.entry_ids.len()
    }

    /// `true` exactly when no entry is being indexed.
    pub fn is_empty(&self) -> (empty: bool)
        requires
            self.wf(),
        ensures
            empty == (self@ == Set::<u64>::empty()),
            empty == (self.spec_len() == 0),
    {
        proof {
            if self.entry_ids@.len() > 0 {
                assert(self.entry_ids@.contains(self.entry_ids@[0]));
                assert(self@.contains(self.entry_ids@[0]));
            } else {
                assert(self@ =~= Set::<u64>::empty());
            }
        }
        self.entry_ids.len() == 0
    }

    /// Registers the entry `entry_id` as being indexed and hands out its
    /// token.
    pub fn insert(&mut self, entry_id: u64) -> (handle: IndexingEntryHandle)
        requires
            old(self).wf(),
        ensures
            final(self).wf(),
            final(self)@ == old(self)@.insert(entry_id),
            final(self).spec_len() == old(self).spec_len() + (if old(self)@.contains(entry_id) {
                0int
            } else {
                1int
            }),
            handle.entry_id == entry_id,
    {
        let found = self.position(entry_id);
        if found.is_none() {
            self.entry_ids.push(entry_id);
            proof {
                assert(self.entry_ids@ == old(self).entry_ids@.push(entry_id));
                assert forall|i: int, j: int|
                    0 <= i < self.entry_ids@.len() && 0 <= j < self.entry_ids@.len() && i
                        != j implies self.entry_ids@[i] != self.entry_ids@[j] by {
                    if i < old(self).entry_ids@.len() {
                        assert(old(self).entry_ids@.contains(self.entry_ids@[i]));
                    }
                    if j < old(self).entry_ids@.len() {
                        assert(old(self).entry_ids@.contains(self.entry_ids@[j]));
                    }
                }
            }
        }
        proof {
            assert forall|id: u64| self@.contains(id) <==> old(self)@.insert(entry_id).contains(
                id,
            ) by {
                if self.entry_ids@.contains(id) {
                    let k = choose|k: int| 0 <= k < self.entry_ids@.len() && self.entry_ids@[k] == id;
                    if k < old(self).entry_ids@.len() {
                        assert(old(self).entry_ids@.contains(id));
                    }
                }
                if old(self).entry_ids@.contains(id) {
                    let k = choose|k: int|
                        0 <= k < old(self).entry_ids@.len() && old(self).entry_ids@[k] == id;
                    assert(self.entry_ids@[k] == id);
                }
                if id == entry_id {
                    let k = match found {
                        Some(k) => k as int,
                        None => self.entry_ids@.len() - 1,
                    };
                    assert(self.entry_ids@[k] == entry_id);
                }
            }
            assert(self@ =~= old(self)@.insert(entry_id));
        }
        IndexingEntryHandle { entry_id }
    }

    /// Takes a token back: its entry is no longer being indexed.
    pub fn release(&mut self, handle: IndexingEntryHandle)
        requires
            old(self).wf(),
        ensures
            final(self).wf(),
            final(self)@ == old(self)@.remove(handle.entry_id),
            final(self).spec_len() == old(self).spec_len() - (if old(self)@.contains(
                handle.entry_id,
            ) {
                1int
            } else {
                0int
            }),
    {
        match self.position(handle.entry_id) {
            Some(k) => {
                self.entry_ids.remove(k);
                proof {
                    let before = old(self).entry_ids@;
                    assert(self.entry_ids@ == before.remove(k as int));
                    assert forall|id: u64| self@.contains(id) <==> old(self)@.remove(
                        handle.entry_id,
                    ).contains(id) by {
                        if self.entry_ids@.contains(id) {
                            let i = choose|i: int|
                                0 <= i < self.entry_ids@.len() && self.entry_ids@[i] == id;
                            let j = if i < k { i } else { i + 1 };
                            assert(before[j] == id);
                            assert(before.contains(id));
                        }
                        if before.contains(id) && id != handle.entry_id {
                            let j = choose|j: int| 0 <= j < before.len() && before[j] == id;
                            let i = if j < k { j } else { j - 1 };
                            assert(self.entry_ids@[i] == id);
                        }
                    }
                    assert(self@ =~= old(self)@.remove(handle.entry_id));
                    assert(before.contains(handle.entry_id));
                }
            },
            None => {
                assert(self@ =~= old(self)@.remove(handle.entry_id));
            },
        }
    }
}

} // verus!
