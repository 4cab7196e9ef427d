//! The scanner: which files need indexing, and which stored records are
//! stale.

use crate::embedding_index::EmbeddingIndex;
use crate::indexing::{IndexingEntryHandle, IndexingEntrySet};
use crate::keys::{compare_keys, db_key, db_key_for_path, key_lt, KeyOrder};
use crate::store::{DeletionRange, DeletionRangeView, RangeEnd};
use crate::worktree::{same_mtime, Entry, EntryKind, MTime, PathChange, Snapshot, UpdatedEntry};
use vstd::prelude::*;

verus! {

/// What a scan found, as a mathematical value: the positions, in the
/// snapshot, of the entries to index, and the key ranges to delete, each in
/// the order in which the scan emits them.
pub struct ScanOutcome {
    pub updated: Seq<int>,
    pub ranges: Seq<DeletionRangeView>,
}

/// The run of stale keys that a scan has met and not yet emitted: its first
/// and its last key.
pub type OpenRange = Option<(Seq<char>, Seq<char>)>;

/// The open run, made to end with the stale key `key`.
pub open spec fn extend_open(open: OpenRange, key: Seq<char>) -> OpenRange {
    match open {
        Some((start, _)) => Some((start, key)),
        None => Some((key, key)),
    }
}

/// The open run as the range that is emitted for it.
pub open spec fn close_open(open: OpenRange) -> Seq<DeletionRangeView> {
    match open {
        Some((start, end)) => seq![DeletionRangeView { start, end: Some(end) }],
        None => seq![],
    }
}

/// The full scan as a merge of the snapshot's entries `live` with the rows
/// `stored` of the store, from the entry at `i` and the row at `j` on, with
/// the run `open` of stale keys met so far.
///
/// Directories are passed over. For a file, every row whose key sorts before
/// the file's key is stale and joins the open run. A row with the file's key
/// closes the run, which is emitted; the file is to be indexed if its
/// modification token differs from the row's. A file without a row is to be
/// indexed, and leaves the run open. When the entries are exhausted, the
/// rows that are left are deleted by one range without end; a run that is
/// still open then is not emitted.
pub open spec fn scan_from(
    live: Seq<Entry>,
    stored: Seq<(Seq<char>, Option<MTime>)>,
    i: int,
    j: int,
    open: OpenRange,
) -> ScanOutcome
    decreases live.len() - i, stored.len() - j,
{
    if i < 0 || i >= live.len() {
        ScanOutcome {
            updated: seq![],
            ranges: if 0 <= j < stored.len() {
                seq![DeletionRangeView { start: stored[j].0, end: None }]
            } else {
                seq![]
            },
        }
    } else if live[i].kind != EntryKind::File {
        scan_from(live, stored, i + 1, j, open)
    } else if 0 <= j < stored.len() && key_lt(stored[j].0, live[i].key()) {
        scan_from(live, stored, i, j + 1, extend_open(open, stored[j].0))
    } else if 0 <= j < stored.len() && stored[j].0 == live[i].key() {
        let rest = scan_from(live, stored, i + 1, j + 1, None);
        ScanOutcome {
            updated: if live[i].mtime != stored[j].1 {
                seq![i] + rest.updated
            } else {
                rest.updated
            },
            ranges: close_open(open) + rest.ranges,
        }
    } else {
        let rest = scan_from(live, stored, i + 1, j, open);
        ScanOutcome { updated: seq![i] + rest.updated, ranges: rest.ranges }
    }
}

/// The outcome of a full scan of the entries `live` against the rows
/// `stored`.
pub open spec fn spec_scan(live: Seq<Entry>, stored: Seq<(Seq<char>, Option<MTime>)>) -> ScanOutcome {
    scan_from(live, stored, 0, 0, None)
}

/// The ids of the entries at the positions `updated` of `live`.
pub open spec fn updated_ids(live: Seq<Entry>, updated: Seq<int>) -> Set<u64> {
    Set::new(|id: u64| exists|k: int| 0 <= k < updated.len() && #[trigger] live[updated[k]].id == id)
}

/// What one change event adds to an incremental scan. A file that was
/// added or updated is to be indexed, if the snapshot holds an entry with
/// the event's id and that entry is a file. A removed path has the record
/// under its key deleted, by a range of that one key. A path that was only
/// loaded adds nothing.
pub open spec fn change_outcome(entries: Seq<Entry>, change: UpdatedEntry) -> ScanOutcome {
    match change.change {
        PathChange::Added | PathChange::Updated | PathChange::AddedOrUpdated => ScanOutcome {
            updated: match Snapshot::position_of_id(entries, change.entry_id) {
                Some(p) => if entries[p].kind == EntryKind::File {
                    seq![p]
                } else {
                    seq![]
                },
                None => seq![],
            },
            ranges: seq![],
        },
        PathChange::Removed => ScanOutcome {
            updated: seq![],
            ranges: seq![
                DeletionRangeView { start: db_key(change.path@), end: Some(db_key(change.path@)) },
            ],
        },
        PathChange::Loaded => ScanOutcome { updated: seq![], ranges: seq![] },
    }
}

/// The outcome of an incremental scan: what each change event adds, in the
/// order of the events.
pub open spec fn spec_scan_updated(entries: Seq<Entry>, changes: Seq<UpdatedEntry>) -> ScanOutcome
    decreases changes.len(),
{
    if changes.len() == 0 {
        ScanOutcome { updated: seq![], ranges: seq![] }
    } else {
        let before = spec_scan_updated(entries, changes.drop_last());
        let last = change_outcome(entries, changes.last());
        ScanOutcome {
            updated: before.updated + last.updated,
            ranges: before.ranges + last.ranges,
        }
    }
}

/// What a scan hands to the next stages.
#[derive(Debug)]
pub struct ScanEntries {
    /// The entries to index, each with the token of its registration.
    pub updated_entries: Vec<(Entry, IndexingEntryHandle)>,
    /// The ranges of keys to delete from the store.
    pub deleted_entry_ranges: Vec<DeletionRange>,
}

impl ScanEntries {
    /// The entries to index are those at the positions `updated` of `live`,
    /// in that order, each with a token for its id.
    pub open spec fn updated_are(&self, live: Seq<Entry>, updated: Seq<int>) -> bool {
        &&& self.updated_entries@.len() == updated.len()
        &&& forall|k: int|
            0 <= k < updated.len() ==> {
                &&& 0 <= #[trigger] updated[k] < live.len()
                &&& self.updated_entries@[k].0 == live[updated[k]]
                &&& self.updated_entries@[k].1.entry_id == live[updated[k]].id
            }
    }

    /// The ranges to delete are `ranges`, in that order.
    pub open spec fn ranges_are(&self, ranges: Seq<DeletionRangeView>) -> bool {
        &&& self.deleted_entry_ranges@.len() == ranges.len()
        &&& forall|k: int| 0 <= k < ranges.len() ==> (#[trigger] self.deleted_entry_ranges@[k])@ == ranges[k]
    }

    /// The scan handed out exactly what `outcome` says.
    pub open spec fn matches(&self, live: Seq<Entry>, outcome: ScanOutcome) -> bool {
        self.updated_are(live, outcome.updated) && self.ranges_are(outcome.ranges)
    }
}

/// The open run of the executable scan as a mathematical value.
pub open spec fn open_view(open: Option<(String, String)>) -> OpenRange {
    match open {
        Some((start, end)) => Some((start@, end@)),
        None => None,
    }
}

impl<E> EmbeddingIndex<E> {
    /// Full scan: compares the files of `worktree` with the rows of the
    /// store in one pass over both, registers each file that is new or whose
    /// modification token differs from the stored one in
    /// `entries_being_indexed`, and hands out those files and the ranges of
    /// stale keys.
    ///
    /// The pass is a merge, and what it hands out is [`spec_scan`] of the
    /// snapshot and the store, whatever their order. It is what is new,
    /// changed and stale only where the files of the snapshot stand in the
    /// order of their keys: see
    /// [`lemma_scan_updates_new_and_changed`](crate::laws::lemma_scan_updates_new_and_changed)
    /// and
    /// [`lemma_scan_deletes_stale_rows`](crate::laws::lemma_scan_deletes_stale_rows).
    #[verifier::loop_isolation(false)]
    pub fn scan_entries(
        &self,
        worktree: &Snapshot,
        entries_being_indexed: &mut IndexingEntrySet,
    ) -> (scan: ScanEntries)
        requires
            self.wf(),
            old(entries_being_indexed).wf(),
        ensures
            final(entries_being_indexed).wf(),
            scan.matches(worktree.entries@, spec_scan(worktree.entries@, self.spec_db().listing())),
            final(entries_being_indexed)@ == old(entries_being_indexed)@.union(
                updated_ids(
                    worktree.entries@,
                    spec_scan(worktree.entries@, self.spec_db().listing()).updated,
                ),
            ),
    {
        let db = self.db();
        let n = worktree.entries.len();
        let m = db.len();
        let ghost live = worktree.entries@;
        let ghost stored = db.listing();
        let ghost total = spec_scan(live, stored);
        let mut scan = ScanEntries { updated_entries: Vec::new(), deleted_entry_ranges: Vec::new() };
        let mut open: Option<(String, String)> = None;
        let mut i: usize = 0;
        let mut j: usize = 0;
        let ghost mut upd = Seq::<int>::empty();
        let ghost mut rng = Seq::<DeletionRangeView>::empty();
        proof {
            assert(upd + total.updated =~= total.updated);
            assert(rng + total.ranges =~= total.ranges);
            assert(entries_being_indexed@ =~= old(entries_being_indexed)@.union(
                updated_ids(live, upd),
            ));
        }
        while i < n
            invariant
                i <= n,
                j <= m,
                entries_being_indexed.wf(),
                scan.updated_are(live, upd),
                scan.ranges_are(rng),
                upd + scan_from(live, stored, i as int, j as int, open_view(open)).updated
                    == total.updated,
                rng + scan_from(live, stored, i as int, j as int, open_view(open)).ranges
                    == total.ranges,
                entries_being_indexed@ == old(entries_being_indexed)@.union(updated_ids(live, upd)),
            decreases n - i,
        {
            let entry = &worktree.entries[i];
            if entry.is_file() {
                let key = db_key_for_path(entry.path.as_str());
                let mut order = KeyOrder::Greater;
                if j < m {
                    order = compare_keys(db.row(j).key.as_str(), key.as_str());
                }
                while j < m && order == KeyOrder::Less
                    invariant
                        j <= m,
                        j < m ==> (order == KeyOrder::Less <==> key_lt(stored[j as int].0, key@)),
                        j < m ==> (order == KeyOrder::Equal <==> stored[j as int].0 == key@),
                        upd + scan_from(live, stored, i as int, j as int, open_view(open)).updated
                            == total.updated,
                        rng + scan_from(live, stored, i as int, j as int, open_view(open)).ranges
                            == total.ranges,
                    decreases m - j,
                {
                    let stale = db.row(j).key.clone();
                    open = match open {
                        Some((start, _)) => Some((start, stale)),
                        None => Some((stale.clone(), stale)),
                    };
                    j += 1;
                    if j < m {
                        order = compare_keys(db.row(j).key.as_str(), key.as_str());
                    }
                }
                let ghost here = scan_from(live, stored, i as int, j as int, open_view(open));
                let mut changed = true;
                if j < m && order == KeyOrder::Equal {
                    let closed = open;
                    open = None;
                    match closed {
                        Some((start, end)) => {
                            scan.deleted_entry_ranges.push(
                                DeletionRange { start, end: RangeEnd::Included(end) },
                            );
                        },
                        None => {},
                    }
                    proof {
                        let rest = scan_from(live, stored, i + 1, j + 1, None);
                        assert(here.ranges == close_open(open_view(closed)) + rest.ranges);
                        assert((rng + close_open(open_view(closed))) + rest.ranges =~= rng
                            + here.ranges);
                        rng = rng + close_open(open_view(closed));
                    }
                    changed = !same_mtime(entry.mtime, db.row(j).file.mtime);
                    j += 1;
                }
                let ghost rest = scan_from(live, stored, i + 1, j as int, open_view(open));
                if changed {
                    let handle = entries_being_indexed.insert(entry.id);
                    scan.updated_entries.push((entry.clone(), handle));
                    proof {
                        assert(here.updated == seq![i as int] + rest.updated);
                        assert(upd.push(i as int) + rest.updated =~= upd + here.updated);
                        lemma_updated_ids_push(live, upd, i as int);
                        upd = upd.push(i as int);
                        assert(entries_being_indexed@ =~= old(entries_being_indexed)@.union(
                            updated_ids(live, upd),
                        ));
                    }
                }
            }
            i += 1;
        }
        proof {
            let last = scan_from(live, stored, n as int, j as int, open_view(open));
            assert(upd + last.updated =~= upd);
            assert(upd == total.updated);
        }
        if j < m {
            scan.deleted_entry_ranges.push(DeletionRange::from_key(db.row(j).key.clone()));
            proof {
                let end = DeletionRangeView { start: stored[j as int].0, end: None };
                assert(rng.push(end) =~= rng + seq![end]);
                rng = rng.push(end);
            }
        } else {
            proof {
                assert(rng + Seq::<DeletionRangeView>::empty() =~= rng);
            }
        }
        proof {
            assert(rng == total.ranges);
        }
        scan
    }

    /// Incremental scan: goes through the change events in their order,
    /// registers each file that was added or updated in
    /// `entries_being_indexed`, and hands out those files and, for each path
    /// that was removed, the range of its one key.
    pub fn scan_updated_entries(
        &self,
        worktree: &Snapshot,
        updated_entries: &Vec<UpdatedEntry>,
        entries_being_indexed: &mut IndexingEntrySet,
    ) -> (scan: ScanEntries)
        requires
            old(entries_being_indexed).wf(),
        ensures
            final(entries_being_indexed).wf(),
            scan.matches(worktree.entries@, spec_scan_updated(worktree.entries@, updated_entries@)),
            final(entries_being_indexed)@ == old(entries_being_indexed)@.union(
                updated_ids(
                    worktree.entries@,
                    spec_scan_updated(worktree.entries@, updated_entries@).updated,
                ),
            ),
    {
        let ghost live = worktree.entries@;
        let ghost changes = updated_entries@;
        let mut scan = ScanEntries { updated_entries: Vec::new(), deleted_entry_ranges: Vec::new() };
        let mut k: usize = 0;
        proof {
            assert(changes.take(0) =~= Seq::<UpdatedEntry>::empty());
            assert(entries_being_indexed@ =~= old(entries_being_indexed)@.union(
                updated_ids(live, Seq::<int>::empty()),
            ));
        }
        while k < updated_entries.len()
            invariant
                k <= updated_entries.len(),
                live == worktree.entries@,
                changes == updated_entries@,
                entries_being_indexed.wf(),
                scan.matches(live, spec_scan_updated(live, changes.take(k as int))),
                entries_being_indexed@ == old(entries_being_indexed)@.union(
                    updated_ids(live, spec_scan_updated(live, changes.take(k as int)).updated),
                ),
            decreases updated_entries.len() - k,
        {
            let change = &updated_entries[k];
            let ghost before = spec_scan_updated(live, changes.take(k as int));
            let ghost step = change_outcome(live, *change);
            let ghost after = spec_scan_updated(live, changes.take(k + 1));
            proof {
                assert(changes.take(k + 1).drop_last() =~= changes.take(k as int));
                assert(changes.take(k + 1).last() == *change);
                assert(after.updated == before.updated + step.updated);
                assert(after.ranges == before.ranges + step.ranges);
                Snapshot::lemma_position_of_id(live, change.entry_id);
            }
            match change.change {
                PathChange::Added | PathChange::Updated | PathChange::AddedOrUpdated => {
                    let mut registered = false;
                    match worktree.entry_for_id(change.entry_id) {
                        Some(entry) => {
                            if entry.is_file() {
                                let handle = entries_being_indexed.insert(entry.id);
                                scan.updated_entries.push((entry.clone(), handle));
                                registered = true;
                            }
                        },
                        None => {},
                    }
                    proof {
                        if registered {
                            let p = Snapshot::position_of_id(live, change.entry_id).unwrap();
                            assert(step.updated == seq![p]);
                            assert(after.updated =~= before.updated.push(p));
                            lemma_updated_ids_push(live, before.updated, p);
                        } else {
                            assert(after.updated =~= before.updated);
                        }
                        assert(after.ranges =~= before.ranges);
                    }
                },
                PathChange::Removed => {
                    let key = db_key_for_path(change.path.as_str());
                    scan.deleted_entry_ranges.push(DeletionRange::single(key));
                    proof {
                        assert(after.updated =~= before.updated);
                        assert(after.ranges =~= before.ranges.push(step.ranges[0]));
                    }
                },
                PathChange::Loaded => {
                    proof {
                        assert(after.updated =~= before.updated);
                        assert(after.ranges =~= before.ranges);
                    }
                },
            }
            k += 1;
        }
        proof {
            assert(changes.take(k as int) =~= changes);
        }
        scan
    }
}

/// The ids of the positions `updated` followed by `p` are those of `updated`
/// and the id of the entry at `p`.
pub proof fn lemma_updated_ids_push(live: Seq<Entry>, updated: Seq<int>, p: int)
    ensures
        updated_ids(live, updated.push(p)) == updated_ids(live, updated).insert(live[p].id),
{
    let more = updated.push(p);
    assert forall|id: u64| updated_ids(live, more).contains(id) <==> updated_ids(
        live,
        updated,
    ).insert(live[p].id).contains(id) by {
        if updated_ids(live, more).contains(id) {
            let k = choose|k: int| 0 <= k < more.len() && #[trigger] live[more[k]].id == id;
            if k < updated.len() {
                assert(live[updated[k]].id == id);
            }
        }
        if updated_ids(live, updated).contains(id) {
            let k = choose|k: int| 0 <= k < updated.len() && #[trigger] live[updated[k]].id == id;
            assert(live[more[k]].id == id);
        }
        if id == live[p].id {
            assert(live[more[updated.len() as int]].id == id);
        }
    }
    assert(updated_ids(live, more) =~= updated_ids(live, updated).insert(live[p].id));
}

} // verus!