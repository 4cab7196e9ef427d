//! What holds of the stages of an indexing pass, one with another.

use crate::chunking::ChunkedFile;
use crate::embed::is_record_of;
use crate::embedding_index::EmbeddedFile;
use crate::keys::{
    db_key, key_le, key_lt, lemma_key_lt_irreflexive, lemma_key_lt_transitive,
    lemma_key_order_exclusive,
};
use crate::persist::{apply_events, delete_range_spec, save_spec, PersistEvent};
use crate::query::spec_chunks_for_path;
use crate::scan::{
    close_open, extend_open, scan_from, spec_scan, spec_scan_updated, updated_ids, OpenRange,
    ScanOutcome,
};
use crate::store::{lemma_rows_map_row, row_of_key, Database, DeletionRangeView};
use crate::worktree::{Entry, EntryKind, MTime, PathChange, UpdatedEntry};
use vstd::prelude::*;

verus! {

/// The files of `live` stand in the strict order of their keys.
pub open spec fn files_sorted(live: Seq<Entry>) -> bool {
    forall|a: int, b: int|
        0 <= a < b < live.len() && live[a].kind == EntryKind::File && live[b].kind
            == EntryKind::File ==> key_lt(#[trigger] live[a].key(), #[trigger] live[b].key())
}

/// The rows of `stored` stand in the strict order of their keys.
pub open spec fn rows_sorted(stored: Seq<(Seq<char>, Option<MTime>)>) -> bool {
    forall|s: int, t: int| 0 <= s < t < stored.len() ==> key_lt(#[trigger] stored[s].0, #[trigger] stored[t].0)
}

/// The store holds the current state of the entry at `p`: a row with its key
/// and its modification token.
pub open spec fn is_current(live: Seq<Entry>, stored: Seq<(Seq<char>, Option<MTime>)>, p: int) -> bool {
    exists|t: int|
        0 <= t < stored.len() && #[trigger] stored[t].0 == live[p].key() && stored[t].1
            == live[p].mtime
}

/// Where the merge stands when it is at the entry `i` and the row `j`: every
/// row before `j` sorts before every file from `i` on, and every file before
/// `i` sorts before every row from `j` on.
pub open spec fn merge_inv(
    live: Seq<Entry>,
    stored: Seq<(Seq<char>, Option<MTime>)>,
    i: int,
    j: int,
) -> bool {
    &&& 0 <= i
    &&& 0 <= j <= stored.len()
    &&& forall|t: int, a: int|
        0 <= t < j && i <= a < live.len() && live[a].kind == EntryKind::File ==> key_lt(
            #[trigger] stored[t].0,
            #[trigger] live[a].key(),
        )
    &&& forall|t: int, a: int|
        j <= t < stored.len() && 0 <= a < i && a < live.len() && live[a].kind == EntryKind::File
            ==> key_lt(#[trigger] live[a].key(), #[trigger] stored[t].0)
}

/// The merge keeps its invariant in each of its steps.
proof fn lemma_merge_step(
    live: Seq<Entry>,
    stored: Seq<(Seq<char>, Option<MTime>)>,
    i: int,
    j: int,
)
    requires
        files_sorted(live),
        rows_sorted(stored),
        merge_inv(live, stored, i, j),
        i < live.len(),
    ensures
        live[i].kind != EntryKind::File ==> merge_inv(live, stored, i + 1, j),
        live[i].kind == EntryKind::File && j < stored.len() && key_lt(stored[j].0, live[i].key())
            ==> merge_inv(live, stored, i, j + 1),
        live[i].kind == EntryKind::File && j < stored.len() && stored[j].0 == live[i].key()
            ==> merge_inv(live, stored, i + 1, j + 1),
        live[i].kind == EntryKind::File && !(j < stored.len() && key_lt(
            stored[j].0,
            live[i].key(),
        )) && !(j < stored.len() && stored[j].0 == live[i].key()) ==> merge_inv(
            live,
            stored,
            i + 1,
            j,
        ),
{
    let key = live[i].key();
    if live[i].kind != EntryKind::File {
    } else if j < stored.len() && key_lt(stored[j].0, key) {
        assert forall|t: int, a: int|
            0 <= t < j + 1 && i <= a < live.len() && live[a].kind == EntryKind::File implies key_lt(
            #[trigger] stored[t].0,
            #[trigger] live[a].key(),
        ) by {
            if t == j && a > i {
                assert(key_lt(live[i].key(), live[a].key()));
                lemma_key_lt_transitive(stored[j].0, key, live[a].key());
            }
        }
    } else if j < stored.len() && stored[j].0 == key {
        assert forall|t: int, a: int|
            0 <= t < j + 1 && i + 1 <= a < live.len() && live[a].kind
                == EntryKind::File implies key_lt(#[trigger] stored[t].0, #[trigger] live[a].key()) by {
            if t == j {
                assert(key_lt(live[i].key(), live[a].key()));
            }
        }
        assert forall|t: int, a: int|
            j + 1 <= t < stored.len() && 0 <= a < i + 1 && a < live.len() && live[a].kind
                == EntryKind::File implies key_lt(#[trigger] live[a].key(), #[trigger] stored[t].0) by {
            if a == i {
                assert(key_lt(stored[j].0, stored[t].0));
            }
        }
    } else {
        assert forall|t: int, a: int|
            j <= t < stored.len() && 0 <= a < i + 1 && a < live.len() && live[a].kind
                == EntryKind::File implies key_lt(#[trigger] live[a].key(), #[trigger] stored[t].0) by {
            if a == i {
                lemma_key_order_exclusive(stored[j].0, key);
                assert(key_lt(key, stored[j].0));
                if t > j {
                    assert(key_lt(stored[j].0, stored[t].0));
                    lemma_key_lt_transitive(key, stored[j].0, stored[t].0);
                }
            }
        }
    }
}

/// From any state of the merge on, the entries to index are exactly the
/// files that are still to come and whose current state the store does not
/// hold, each once and in their order.
proof fn lemma_updated_from(
    live: Seq<Entry>,
    stored: Seq<(Seq<char>, Option<MTime>)>,
    i: int,
    j: int,
    open: OpenRange,
)
    requires
        files_sorted(live),
        rows_sorted(stored),
        merge_inv(live, stored, i, j),
    ensures
        forall|p: int|
            #![trigger scan_from(live, stored, i, j, open).updated.contains(p)]
            scan_from(live, stored, i, j, open).updated.contains(p) <==> i <= p < live.len()
                && live[p].kind == EntryKind::File && !is_current(live, stored, p),
        forall|x: int, y: int|
            #![trigger scan_from(live, stored, i, j, open).updated[x], scan_from(live, stored, i, j, open).updated[y]]
            0 <= x < y < scan_from(live, stored, i, j, open).updated.len() ==> scan_from(
                live,
                stored,
                i,
                j,
                open,
            ).updated[x] < scan_from(live, stored, i, j, open).updated[y],
    decreases live.len() - i, stored.len() - j,
{
    let out = scan_from(live, stored, i, j, open);
    if i >= live.len() {
        assert(out.updated.len() == 0);
    } else {
        lemma_merge_step(live, stored, i, j);
        let key = live[i].key();
        if live[i].kind != EntryKind::File {
            lemma_updated_from(live, stored, i + 1, j, open);
            assert(out == scan_from(live, stored, i + 1, j, open));
        } else if j < stored.len() && key_lt(stored[j].0, key) {
            lemma_updated_from(live, stored, i, j + 1, extend_open(open, stored[j].0));
            assert(out == scan_from(live, stored, i, j + 1, extend_open(open, stored[j].0)));
        } else {
            let matched = j < stored.len() && stored[j].0 == key;
            let rest = if matched {
                scan_from(live, stored, i + 1, j + 1, None)
            } else {
                scan_from(live, stored, i + 1, j, open)
            };
            if matched {
                lemma_updated_from(live, stored, i + 1, j + 1, None);
            } else {
                lemma_updated_from(live, stored, i + 1, j, open);
            }
            let here = if matched {
                live[i].mtime != stored[j].1
            } else {
                true
            };
            assert(out.updated == if here {
                seq![i] + rest.updated
            } else {
                rest.updated
            });
            // whether the store holds the current state of the entry at `i`
            assert(here <==> !is_current(live, stored, i)) by {
                if is_current(live, stored, i) {
                    let t = choose|t: int|
                        0 <= t < stored.len() && #[trigger] stored[t].0 == key && stored[t].1
                            == live[i].mtime;
                    lemma_key_lt_irreflexive(key);
                    if t < j {
                        assert(key_lt(stored[t].0, live[i].key()));
                    } else if matched {
                        if t > j {
                            assert(key_lt(stored[j].0, stored[t].0));
                        }
                    } else {
                        lemma_key_order_exclusive(stored[j].0, key);
                        if t > j {
                            assert(key_lt(stored[j].0, stored[t].0));
                            lemma_key_lt_transitive(key, stored[j].0, stored[t].0);
                        }
                    }
                }
                if !here {
                    assert(stored[j].0 == key && stored[j].1 == live[i].mtime);
                }
            }
            assert forall|p: int| #![trigger out.updated.contains(p)] out.updated.contains(p) <==> i <= p < live.len()
                && live[p].kind == EntryKind::File && !is_current(live, stored, p) by {
                if out.updated.contains(p) {
                    let x = choose|x: int| 0 <= x < out.updated.len() && out.updated[x] == p;
                    if here {
                        if x > 0 {
                            assert(rest.updated[x - 1] == p);
                            assert(rest.updated.contains(p));
                        }
                    } else {
                        assert(rest.updated.contains(p));
                    }
                }
                if i <= p < live.len() && live[p].kind == EntryKind::File && !is_current(
                    live,
                    stored,
                    p,
                ) {
                    if p == i {
                        assert(out.updated[0] == i);
                    } else {
                        assert(rest.updated.contains(p));
                        let x = choose|x: int| 0 <= x < rest.updated.len() && rest.updated[x] == p;
                        if here {
                            assert(out.updated[x + 1] == p);
                        } else {
                            assert(out.updated[x] == p);
                        }
                    }
                }
            }
            assert forall|x: int, y: int| 0 <= x < y < out.updated.len() implies #[trigger] out.updated[x]
                < #[trigger] out.updated[y] by {
                if here {
                    assert(out.updated[y] == rest.updated[y - 1]);
                    assert(rest.updated.contains(rest.updated[y - 1]));
                    if x > 0 {
                        assert(out.updated[x] == rest.updated[x - 1]);
                    }
                }
            }
        }
    }
}

/// No file of `live` has the key `key`.
pub open spec fn is_stale(live: Seq<Entry>, key: Seq<char>) -> bool {
    forall|p: int|
        0 <= p < live.len() && live[p].kind == EntryKind::File ==> (#[trigger] live[p]).key() != key
}

/// The open run of the merge at the row `j` is a run of stale rows that ends
/// with the row before `j`.
pub open spec fn open_inv(
    live: Seq<Entry>,
    stored: Seq<(Seq<char>, Option<MTime>)>,
    j: int,
    open: OpenRange,
) -> bool {
    match open {
        None => true,
        Some((start, end)) => exists|a: int|
            #![trigger stored[a]]
            {
                &&& 0 <= a < j <= stored.len()
                &&& start == stored[a].0
                &&& end == stored[j - 1].0
                &&& forall|t: int| a <= t < j ==> is_stale(live, #[trigger] stored[t].0)
            },
    }
}

/// In sorted rows, the order of two keys is the order of their places.
proof fn lemma_row_order(stored: Seq<(Seq<char>, Option<MTime>)>, s: int, t: int)
    requires
        rows_sorted(stored),
        0 <= s < stored.len(),
        0 <= t < stored.len(),
    ensures
        key_le(stored[s].0, stored[t].0) <==> s <= t,
{
    lemma_key_order_exclusive(stored[s].0, stored[t].0);
    if s < t {
        assert(key_lt(stored[s].0, stored[t].0));
    } else if t < s {
        assert(key_lt(stored[t].0, stored[s].0));
    }
}

/// From any state of the merge on, a range that is emitted holds no row of
/// the store but stale ones.
proof fn lemma_ranges_from(
    live: Seq<Entry>,
    stored: Seq<(Seq<char>, Option<MTime>)>,
    i: int,
    j: int,
    open: OpenRange,
)
    requires
        files_sorted(live),
        rows_sorted(stored),
        merge_inv(live, stored, i, j),
        open_inv(live, stored, j, open),
    ensures
        forall|k: int, t: int|
            #![trigger scan_from(live, stored, i, j, open).ranges[k], stored[t]]
            0 <= k < scan_from(live, stored, i, j, open).ranges.len() && 0 <= t < stored.len()
                && scan_from(live, stored, i, j, open).ranges[k].covers(stored[t].0) ==> is_stale(
                live,
                stored[t].0,
            ),
    decreases live.len() - i, stored.len() - j,
{
    let out = scan_from(live, stored, i, j, open);
    if i >= live.len() {
        assert forall|k: int, t: int|
            0 <= k < out.ranges.len() && 0 <= t < stored.len() && (#[trigger] out.ranges[k]).covers(
                (#[trigger] stored[t]).0,
            ) implies is_stale(live, stored[t].0) by {
            lemma_row_order(stored, j, t);
            assert forall|p: int|
                0 <= p < live.len() && live[p].kind == EntryKind::File implies (
            #[trigger] live[p]).key() != stored[t].0 by {
                assert(key_lt(live[p].key(), stored[t].0));
                lemma_key_lt_irreflexive(stored[t].0);
            }
        }
    } else {
        lemma_merge_step(live, stored, i, j);
        let key = live[i].key();
        if live[i].kind != EntryKind::File {
            lemma_ranges_from(live, stored, i + 1, j, open);
            assert(out == scan_from(live, stored, i + 1, j, open));
        } else if j < stored.len() && key_lt(stored[j].0, key) {
            let wider = extend_open(open, stored[j].0);
            assert(is_stale(live, stored[j].0)) by {
                assert forall|p: int|
                    0 <= p < live.len() && live[p].kind == EntryKind::File implies (
                #[trigger] live[p]).key() != stored[j].0 by {
                    lemma_key_lt_irreflexive(stored[j].0);
                    if p < i {
                        assert(key_lt(live[p].key(), stored[j].0));
                    } else {
                        assert(key_lt(stored[j].0, live[p].key()));
                    }
                }
            }
            assert(open_inv(live, stored, j + 1, wider)) by {
                match open {
                    Some((start, end)) => {
                        let a = choose|a: int|
                            #![trigger stored[a]]
                            {
                                &&& 0 <= a < j <= stored.len()
                                &&& start == stored[a].0
                                &&& end == stored[j - 1].0
                                &&& forall|t: int|
                                    a <= t < j ==> is_stale(live, #[trigger] stored[t].0)
                            };
                        assert(wider == Some((stored[a].0, stored[j].0)));
                        assert(forall|t: int|
                            a <= t < j + 1 ==> is_stale(live, #[trigger] stored[t].0));
                    },
                    None => {
                        assert(wider == Some((stored[j].0, stored[j].0)));
                        assert(forall|t: int|
                            j <= t < j + 1 ==> is_stale(live, #[trigger] stored[t].0));
                    },
                }
            }
            lemma_ranges_from(live, stored, i, j + 1, wider);
            assert(out == scan_from(live, stored, i, j + 1, wider));
        } else if j < stored.len() && stored[j].0 == key {
            let rest = scan_from(live, stored, i + 1, j + 1, None);
            lemma_ranges_from(live, stored, i + 1, j + 1, None);
            assert(out.ranges == close_open(open) + rest.ranges);
            assert forall|k: int, t: int|
                0 <= k < out.ranges.len() && 0 <= t < stored.len() && (#[trigger] out.ranges[k]).covers(
                    (#[trigger] stored[t]).0,
                ) implies is_stale(live, stored[t].0) by {
                if k < close_open(open).len() {
                    match open {
                        Some((start, end)) => {
                            let a = choose|a: int|
                                #![trigger stored[a]]
                                {
                                    &&& 0 <= a < j <= stored.len()
                                    &&& start == stored[a].0
                                    &&& end == stored[j - 1].0
                                    &&& forall|t: int|
                                        a <= t < j ==> is_stale(live, #[trigger] stored[t].0)
                                };
                            lemma_row_order(stored, a, t);
                            lemma_row_order(stored, t, j - 1);
                        },
                        None => {},
                    }
                } else {
                    assert(out.ranges[k] == rest.ranges[k - close_open(open).len()]);
                }
            }
        } else {
            lemma_ranges_from(live, stored, i + 1, j, open);
            assert(out.ranges == scan_from(live, stored, i + 1, j, open).ranges);
        }
    }
}

/// Some range of `ranges` holds `key`.
pub open spec fn covered_by(ranges: Seq<DeletionRangeView>, key: Seq<char>) -> bool {
    exists|k: int| 0 <= k < ranges.len() && (#[trigger] ranges[k]).covers(key)
}

/// Every file of `live` sorts before `key`.
pub open spec fn after_all_files(live: Seq<Entry>, key: Seq<char>) -> bool {
    forall|p: int|
        0 <= p < live.len() && live[p].kind == EntryKind::File ==> key_lt(
            (#[trigger] live[p]).key(),
            key,
        )
}

/// The row at `t` is one that a full scan deletes: it is stale, and either a
/// later row is the record of a file, or every file sorts before it.
pub open spec fn is_deleted_row(
    live: Seq<Entry>,
    stored: Seq<(Seq<char>, Option<MTime>)>,
    t: int,
) -> bool {
    &&& is_stale(live, stored[t].0)
    &&& {
        ||| exists|u: int| t < u < stored.len() && !is_stale(live, (#[trigger] stored[u]).0)
        ||| after_all_files(live, stored[t].0)
    }
}

/// The rows from `a` to `j` are the open run of the merge: stale rows, each
/// sorting before some file.
pub open spec fn pending_rows(
    live: Seq<Entry>,
    stored: Seq<(Seq<char>, Option<MTime>)>,
    a: int,
    j: int,
    open: OpenRange,
) -> bool {
    &&& 0 <= a <= j <= stored.len()
    &&& match open {
        None => a == j,
        Some((start, end)) => a < j && start == stored[a].0 && end == stored[j - 1].0,
    }
    &&& forall|t: int|
        a <= t < j ==> is_stale(live, (#[trigger] stored[t]).0) && !after_all_files(
            live,
            stored[t].0,
        )
}

/// From any state of the merge on, the rows that lie in a range that is
/// still to be emitted are, of the rows of the open run and those that
/// follow, exactly those that a full scan deletes.
proof fn lemma_covered_from(
    live: Seq<Entry>,
    stored: Seq<(Seq<char>, Option<MTime>)>,
    i: int,
    j: int,
    open: OpenRange,
    a: int,
)
    requires
        files_sorted(live),
        rows_sorted(stored),
        merge_inv(live, stored, i, j),
        pending_rows(live, stored, a, j, open),
    ensures
        forall|t: int|
            a <= t < stored.len() ==> (covered_by(
                scan_from(live, stored, i, j, open).ranges,
                (#[trigger] stored[t]).0,
            ) <==> is_deleted_row(live, stored, t)),
    decreases live.len() - i, stored.len() - j,
{
    let out = scan_from(live, stored, i, j, open);
    assert(open_inv(live, stored, j, open)) by {
        match open {
            Some((start, _)) => {
                assert(stored[a].0 == start);
            },
            None => {},
        }
    }
    if i >= live.len() {
        assert forall|t: int| a <= t < stored.len() implies (covered_by(
            out.ranges,
            (#[trigger] stored[t]).0,
        ) <==> is_deleted_row(live, stored, t)) by {
            if t < j {
                // a row of the open run: not in the last range, and no later row is matched
                if j < stored.len() {
                    lemma_row_order(stored, j, t);
                }
                assert(!covered_by(out.ranges, stored[t].0));
                assert forall|u: int| t < u < stored.len() implies is_stale(
                    live,
                    (#[trigger] stored[u]).0,
                ) by {
                    if u < j {
                        assert(is_stale(live, stored[u].0));
                    } else {
                        lemma_after_files_is_stale(live, stored, i, j, u);
                    }
                }
            } else {
                lemma_row_order(stored, j, t);
                assert(out.ranges[0].covers(stored[t].0));
                lemma_after_files_is_stale(live, stored, i, j, t);
            }
        }
    } else {
        lemma_merge_step(live, stored, i, j);
        let key = live[i].key();
        if live[i].kind != EntryKind::File {
            lemma_covered_from(live, stored, i + 1, j, open, a);
            assert(out == scan_from(live, stored, i + 1, j, open));
        } else if j < stored.len() && key_lt(stored[j].0, key) {
            let wider = extend_open(open, stored[j].0);
            assert(is_stale(live, stored[j].0)) by {
                assert forall|p: int|
                    0 <= p < live.len() && live[p].kind == EntryKind::File implies (
                #[trigger] live[p]).key() != stored[j].0 by {
                    lemma_key_lt_irreflexive(stored[j].0);
                    if p < i {
                        assert(key_lt(live[p].key(), stored[j].0));
                    } else {
                        assert(key_lt(stored[j].0, live[p].key()));
                    }
                }
            }
            assert(!after_all_files(live, stored[j].0)) by {
                if key_lt(live[i].key(), stored[j].0) {
                    lemma_key_order_exclusive(stored[j].0, key);
                }
            }
            lemma_covered_from(live, stored, i, j + 1, wider, a);
            assert(out == scan_from(live, stored, i, j + 1, wider));
        } else if j < stored.len() && stored[j].0 == key {
            let rest = scan_from(live, stored, i + 1, j + 1, None);
            let closed = close_open(open);
            lemma_covered_from(live, stored, i + 1, j + 1, None, j + 1);
            lemma_ranges_from(live, stored, i + 1, j + 1, None);
            assert(out.ranges == closed + rest.ranges);
            assert(!is_stale(live, stored[j].0));
            assert forall|t: int| a <= t < stored.len() implies (covered_by(
                out.ranges,
                (#[trigger] stored[t]).0,
            ) <==> is_deleted_row(live, stored, t)) by {
                let row = stored[t].0;
                // a range of the rest that holds a row is a range of all, and the other way
                if covered_by(rest.ranges, row) {
                    let k = choose|k: int|
                        0 <= k < rest.ranges.len() && (#[trigger] rest.ranges[k]).covers(row);
                    assert(out.ranges[closed.len() + k] == rest.ranges[k]);
                    assert(is_stale(live, stored[t].0));
                }
                if covered_by(out.ranges, row) {
                    let k = choose|k: int|
                        0 <= k < out.ranges.len() && (#[trigger] out.ranges[k]).covers(row);
                    if k >= closed.len() {
                        assert(rest.ranges[k - closed.len()] == out.ranges[k]);
                        assert(covered_by(rest.ranges, row));
                    } else {
                        assert(closed[0].covers(row));
                        lemma_row_order(stored, a, t);
                        lemma_row_order(stored, t, j - 1);
                    }
                }
                if t < j {
                    assert(closed.len() == 1);
                    lemma_row_order(stored, a, t);
                    lemma_row_order(stored, t, j - 1);
                    assert(out.ranges[0].covers(row));
                }
            }
        } else {
            lemma_covered_from(live, stored, i + 1, j, open, a);
            assert(out.ranges == scan_from(live, stored, i + 1, j, open).ranges);
        }
    }
}

/// When the files are exhausted, every row that is left is stale and sorts
/// after every file.
proof fn lemma_after_files_is_stale(
    live: Seq<Entry>,
    stored: Seq<(Seq<char>, Option<MTime>)>,
    i: int,
    j: int,
    t: int,
)
    requires
        merge_inv(live, stored, i, j),
        i >= live.len(),
        j <= t < stored.len(),
    ensures
        is_stale(live, stored[t].0),
        after_all_files(live, stored[t].0),
{
    assert forall|p: int| 0 <= p < live.len() && live[p].kind == EntryKind::File implies key_lt(
        (#[trigger] live[p]).key(),
        stored[t].0,
    ) by {}
    assert forall|p: int| 0 <= p < live.len() && live[p].kind == EntryKind::File implies (
    #[trigger] live[p]).key() != stored[t].0 by {
        assert(key_lt(live[p].key(), stored[t].0));
        lemma_key_lt_irreflexive(stored[t].0);
    }
}

/// A full scan of files that stand in the order of their keys, against a
/// store in key order, hands out for indexing exactly the files whose
/// current state the store does not hold: the files without a record, and
/// the files whose modification token differs from the stored one. It hands
/// out each of them once, in the order of the snapshot.
pub proof fn lemma_scan_updates_new_and_changed(
    live: Seq<Entry>,
    stored: Seq<(Seq<char>, Option<MTime>)>,
)
    requires
        files_sorted(live),
        rows_sorted(stored),
    ensures
        forall|p: int|
            #![trigger spec_scan(live, stored).updated.contains(p)]
            spec_scan(live, stored).updated.contains(p) <==> 0 <= p < live.len() && live[p].kind
                == EntryKind::File && !is_current(live, stored, p),
        forall|x: int, y: int|
            #![trigger spec_scan(live, stored).updated[x], spec_scan(live, stored).updated[y]]
            0 <= x < y < spec_scan(live, stored).updated.len() ==> spec_scan(live, stored).updated[x]
                < spec_scan(live, stored).updated[y],
{
    lemma_updated_from(live, stored, 0, 0, None);
}

/// A full scan of files that stand in the order of their keys deletes no
/// record of a file of the snapshot: every row of the store that lies in one
/// of its ranges is stale.
pub proof fn lemma_scan_deletes_only_stale(
    live: Seq<Entry>,
    stored: Seq<(Seq<char>, Option<MTime>)>,
)
    requires
        files_sorted(live),
        rows_sorted(stored),
    ensures
        forall|k: int, t: int|
            #![trigger spec_scan(live, stored).ranges[k], stored[t]]
            0 <= k < spec_scan(live, stored).ranges.len() && 0 <= t < stored.len() && spec_scan(
                live,
                stored,
            ).ranges[k].covers(stored[t].0) ==> is_stale(live, stored[t].0),
{
    lemma_ranges_from(live, stored, 0, 0, None);
}

/// Which records a full scan deletes. Of files that stand in the order of
/// their keys and a store in key order, a row lies in a range of the scan
/// exactly when it is stale and either a later row is the record of a file
/// or every file sorts before it. So a stale row escapes one scan exactly
/// when no record of a file follows it and some file sorts after it: the run
/// that is open when the files are exhausted.
pub proof fn lemma_scan_deletes_stale_rows(
    live: Seq<Entry>,
    stored: Seq<(Seq<char>, Option<MTime>)>,
)
    requires
        files_sorted(live),
        rows_sorted(stored),
    ensures
        forall|t: int|
            0 <= t < stored.len() ==> (covered_by(
                spec_scan(live, stored).ranges,
                (#[trigger] stored[t]).0,
            ) <==> is_deleted_row(live, stored, t)),
{
    lemma_covered_from(live, stored, 0, 0, None, 0);
}

/// What a scan reads of a well-formed store is in key order, and it is what
/// the store holds as a map.
pub proof fn lemma_listing<E>(db: Database<E>)
    requires
        db.wf(),
    ensures
        rows_sorted(db.listing()),
        forall|t: int|
            0 <= t < db.listing().len() ==> db@.contains_key((#[trigger] db.listing()[t]).0)
                && db@[db.listing()[t].0].mtime == db.listing()[t].1,
        forall|key: Seq<char>|
            db@.contains_key(key) ==> exists|t: int|
                0 <= t < db.listing().len() && (#[trigger] db.listing()[t]).0 == key,
{
    let rows = db.rows();
    let listing = db.listing();
    assert forall|s: int, t: int| 0 <= s < t < listing.len() implies key_lt(
        #[trigger] listing[s].0,
        #[trigger] listing[t].0,
    ) by {
        assert(key_lt(db.keys()[s], db.keys()[t]));
    }
    assert forall|t: int| 0 <= t < listing.len() implies db@.contains_key(
        (#[trigger] listing[t]).0,
    ) && db@[listing[t].0].mtime == listing[t].1 by {
        lemma_rows_map_row(rows, t);
    }
    assert forall|key: Seq<char>| db@.contains_key(key) implies exists|t: int|
        0 <= t < listing.len() && (#[trigger] listing[t]).0 == key by {
        let t = row_of_key(rows, key);
        assert(listing[t].0 == key);
    }
}

/// The event leaves a record under `key` with the modification token `mtime`
/// as it is, or puts one there.
pub open spec fn keeps_current<E>(event: PersistEvent<E>, key: Seq<char>, mtime: Option<MTime>) -> bool {
    match event {
        PersistEvent::Delete(range) => !range@.covers(key),
        PersistEvent::Save(file, _) => db_key(file.path@) != key || file.mtime == mtime,
    }
}

/// A record that no event deletes or replaces by another state is still
/// there after the events.
pub proof fn lemma_record_kept<E>(
    db: Map<Seq<char>, EmbeddedFile<E>>,
    events: Seq<PersistEvent<E>>,
    key: Seq<char>,
    mtime: Option<MTime>,
)
    requires
        db.contains_key(key),
        db[key].mtime == mtime,
        forall|k: int| 0 <= k < events.len() ==> keeps_current(#[trigger] events[k], key, mtime),
    ensures
        apply_events(db, events).contains_key(key),
        apply_events(db, events)[key].mtime == mtime,
    decreases events.len(),
{
    if events.len() > 0 {
        let before = events.drop_last();
        assert forall|k: int| 0 <= k < before.len() implies keeps_current(
            #[trigger] before[k],
            key,
            mtime,
        ) by {
            assert(before[k] == events[k]);
        }
        lemma_record_kept(db, before, key, mtime);
        assert(keeps_current(events[events.len() - 1], key, mtime));
    }
}

/// Applying events is applying those before any place and then the rest.
pub proof fn lemma_apply_events_split<E>(
    db: Map<Seq<char>, EmbeddedFile<E>>,
    events: Seq<PersistEvent<E>>,
    n: int,
)
    requires
        0 <= n <= events.len(),
    ensures
        apply_events(db, events) == apply_events(apply_events(db, events.take(n)), events.skip(n)),
    decreases events.len(),
{
    if n == events.len() {
        assert(events.take(n) =~= events);
        assert(events.skip(n) =~= Seq::<PersistEvent<E>>::empty());
    } else {
        let before = events.drop_last();
        lemma_apply_events_split(db, before, n);
        assert(before.take(n) =~= events.take(n));
        assert(before.skip(n) =~= events.skip(n).drop_last());
        assert(events.skip(n).last() == events.last());
    }
}

/// The event saves the current state of `entry`: a file with the path and
/// the modification token of the entry.
pub open spec fn saves_entry<E>(event: PersistEvent<E>, entry: Entry) -> bool {
    match event {
        PersistEvent::Save(file, _) => file.path@ == entry.path@ && file.mtime == entry.mtime,
        PersistEvent::Delete(_) => false,
    }
}

/// The events are those of a pass that went through after the scan with the
/// outcome `outcome`: every range that is deleted is one of the scan; every
/// file that is saved is one that the scan handed out, in its current state;
/// every file that the scan handed out is saved; and no range is deleted
/// after a file was saved whose key lies in it.
pub open spec fn completes_pass<E>(
    live: Seq<Entry>,
    outcome: ScanOutcome,
    events: Seq<PersistEvent<E>>,
) -> bool {
    &&& forall|d: int|
        0 <= d < events.len() ==> match #[trigger] events[d] {
            PersistEvent::Delete(range) => exists|k: int|
                0 <= k < outcome.ranges.len() && #[trigger] outcome.ranges[k] == range@,
            PersistEvent::Save(file, _) => exists|k: int|
                0 <= k < outcome.updated.len() && saves_entry(
                    events[d],
                    live[#[trigger] outcome.updated[k]],
                ),
        }
    &&& forall|k: int|
        0 <= k < outcome.updated.len() ==> exists|s: int|
            0 <= s < events.len() && saves_entry(
                #[trigger] events[s],
                live[#[trigger] outcome.updated[k]],
            )
    &&& forall|s: int, d: int|
        0 <= s < d < events.len() ==> match (#[trigger] events[s], #[trigger] events[d]) {
            (PersistEvent::Save(file, _), PersistEvent::Delete(range)) => !range@.covers(
                db_key(file.path@),
            ),
            _ => true,
        }
}

/// Idempotence of the full scan. Let a full scan of a snapshot be followed
/// by a pass that goes through: its ranges are deleted and every file that
/// it handed out is saved, no range being deleted after a file in it was
/// saved. Then a second full scan of the same snapshot finds no file to
/// index.
pub proof fn lemma_full_scan_idempotent<E>(
    live: Seq<Entry>,
    before: Database<E>,
    after: Database<E>,
    events: Seq<PersistEvent<E>>,
)
    requires
        files_sorted(live),
        before.wf(),
        after.wf(),
        completes_pass(live, spec_scan(live, before.listing()), events),
        after@ == apply_events(before@, events),
    ensures
        spec_scan(live, after.listing()).updated == Seq::<int>::empty(),
{
    let stored = before.listing();
    let first = spec_scan(live, stored);
    let second = spec_scan(live, after.listing());
    lemma_listing(before);
    lemma_listing(after);
    lemma_scan_updates_new_and_changed(live, stored);
    lemma_scan_deletes_only_stale(live, stored);
    lemma_scan_updates_new_and_changed(live, after.listing());
    assert forall|p: int| 0 <= p < live.len() && live[p].kind == EntryKind::File implies is_current(
        live,
        after.listing(),
        p,
    ) by {
        let key = live[p].key();
        let mtime = live[p].mtime;
        // a file that is saved is a file of the snapshot in its current state
        assert forall|d: int| 0 <= d < events.len() && (#[trigger] events[d]) is Save implies keeps_current(
            events[d],
            key,
            mtime,
        ) by {
            let k = choose|k: int|
                0 <= k < first.updated.len() && saves_entry(
                    events[d],
                    live[#[trigger] first.updated[k]],
                );
            let q = first.updated[k];
            assert(first.updated.contains(q));
            if live[q].key() == key && q != p {
                lemma_key_lt_irreflexive(key);
                if q < p {
                    assert(key_lt(live[q].key(), live[p].key()));
                } else {
                    assert(key_lt(live[p].key(), live[q].key()));
                }
            }
        }
        if first.updated.contains(p) {
            let k = choose|k: int| 0 <= k < first.updated.len() && first.updated[k] == p;
            let s = choose|s: int|
                0 <= s < events.len() && saves_entry(
                    #[trigger] events[s],
                    live[#[trigger] first.updated[k]],
                );
            let upto = events.take(s + 1);
            let rest = events.skip(s + 1);
            let saved = apply_events(before@, upto);
            assert(upto.last() == events[s]);
            assert(saved.contains_key(key) && saved[key].mtime == mtime);
            assert forall|d: int| 0 <= d < rest.len() implies keeps_current(
                #[trigger] rest[d],
                key,
                mtime,
            ) by {
                assert(rest[d] == events[s + 1 + d]);
            }
            lemma_record_kept(saved, rest, key, mtime);
            lemma_apply_events_split(before@, events, s + 1);
        } else {
            let t = choose|t: int|
                0 <= t < stored.len() && #[trigger] stored[t].0 == key && stored[t].1 == mtime;
            assert forall|d: int| 0 <= d < events.len() implies keeps_current(
                #[trigger] events[d],
                key,
                mtime,
            ) by {
                match events[d] {
                    PersistEvent::Delete(range) => {
                        let k = choose|k: int|
                            0 <= k < first.ranges.len() && #[trigger] first.ranges[k] == range@;
                        if first.ranges[k].covers(stored[t].0) {
                            assert(is_stale(live, stored[t].0));
                            assert(live[p].key() != stored[t].0);
                        }
                    },
                    PersistEvent::Save(_, _) => {},
                }
            }
            lemma_record_kept(before@, events, key, mtime);
        }
        assert(after@.contains_key(key) && after@[key].mtime == mtime);
        let t = choose|t: int|
            0 <= t < after.listing().len() && (#[trigger] after.listing()[t]).0 == key;
        assert(after.listing()[t].1 == mtime);
    }
    if second.updated.len() > 0 {
        assert(second.updated.contains(second.updated[0]));
    }
    assert(second.updated =~= Seq::<int>::empty());
}

/// From any state of the merge on, the entries to index are entries that
/// are still to come, in the order of the snapshot, each once. This holds of
/// every snapshot and every store, in order or not.
proof fn lemma_updated_increasing(
    live: Seq<Entry>,
    stored: Seq<(Seq<char>, Option<MTime>)>,
    i: int,
    j: int,
    open: OpenRange,
)
    requires
        0 <= i,
    ensures
        forall|x: int|
            0 <= x < scan_from(live, stored, i, j, open).updated.len() ==> i <= (#[trigger] scan_from(
                live,
                stored,
                i,
                j,
                open,
            ).updated[x]) < live.len(),
        forall|x: int, y: int|
            #![trigger scan_from(live, stored, i, j, open).updated[x], scan_from(live, stored, i, j, open).updated[y]]
            0 <= x < y < scan_from(live, stored, i, j, open).updated.len() ==> scan_from(
                live,
                stored,
                i,
                j,
                open,
            ).updated[x] < scan_from(live, stored, i, j, open).updated[y],
    decreases live.len() - i, stored.len() - j,
{
    let out = scan_from(live, stored, i, j, open);
    if i >= live.len() {
        assert(out.updated.len() == 0);
    } else if live[i].kind != EntryKind::File {
        lemma_updated_increasing(live, stored, i + 1, j, open);
        assert(out == scan_from(live, stored, i + 1, j, open));
    } else if 0 <= j < stored.len() && key_lt(stored[j].0, live[i].key()) {
        lemma_updated_increasing(live, stored, i, j + 1, extend_open(open, stored[j].0));
        assert(out == scan_from(live, stored, i, j + 1, extend_open(open, stored[j].0)));
    } else {
        let matched = 0 <= j < stored.len() && stored[j].0 == live[i].key();
        let rest = if matched {
            scan_from(live, stored, i + 1, j + 1, None)
        } else {
            scan_from(live, stored, i + 1, j, open)
        };
        if matched {
            lemma_updated_increasing(live, stored, i + 1, j + 1, None);
        } else {
            lemma_updated_increasing(live, stored, i + 1, j, open);
        }
        let here = !matched || live[i].mtime != stored[j].1;
        assert(out.updated == if here {
            seq![i] + rest.updated
        } else {
            rest.updated
        });
        assert forall|x: int| 0 <= x < out.updated.len() implies i <= (#[trigger] out.updated[x])
            < live.len() by {
            if here && x > 0 {
                assert(out.updated[x] == rest.updated[x - 1]);
            }
        }
        assert forall|x: int, y: int| 0 <= x < y < out.updated.len() implies #[trigger] out.updated[x]
            < #[trigger] out.updated[y] by {
            if here {
                assert(out.updated[y] == rest.updated[y - 1]);
                if x > 0 {
                    assert(out.updated[x] == rest.updated[x - 1]);
                }
            }
        }
    }
}

/// No two entries of `live` have the same id.
pub open spec fn ids_distinct(live: Seq<Entry>) -> bool {
    forall|a: int, b: int| 0 <= a < b < live.len() ==> (#[trigger] live[a]).id != (#[trigger] live[b]).id
}

/// A full scan registers no entry twice: where no two entries of the
/// snapshot share an id, the tokens that one scan hands out are for entries
/// with different ids, whatever the store holds, so the entries that it
/// registers are as many as its tokens. A scan that starts on an empty
/// registry therefore never has two tokens for one entry in flight.
pub proof fn lemma_scan_registers_each_entry_once(
    live: Seq<Entry>,
    stored: Seq<(Seq<char>, Option<MTime>)>,
)
    requires
        ids_distinct(live),
    ensures
        forall|x: int, y: int|
            #![trigger spec_scan(live, stored).updated[x], spec_scan(live, stored).updated[y]]
            0 <= x < y < spec_scan(live, stored).updated.len() ==> live[spec_scan(
                live,
                stored,
            ).updated[x]].id != live[spec_scan(live, stored).updated[y]].id,
        updated_ids(live, spec_scan(live, stored).updated).finite(),
        updated_ids(live, spec_scan(live, stored).updated).len() == spec_scan(
            live,
            stored,
        ).updated.len(),
{
    lemma_updated_increasing(live, stored, 0, 0, None);
    let updated = spec_scan(live, stored).updated;
    assert forall|x: int, y: int| 0 <= x < y < updated.len() implies live[#[trigger] updated[x]].id
        != live[#[trigger] updated[y]].id by {
        assert(0 <= updated[x] < updated[y] < live.len());
    }
    let ids = Seq::new(updated.len(), |k: int| live[updated[k]].id);
    assert(ids.no_duplicates());
    ids.unique_seq_to_set();
    assert forall|id: u64| ids.to_set().contains(id) <==> updated_ids(live, updated).contains(
        id,
    ) by {
        if ids.contains(id) {
            let k = choose|k: int| 0 <= k < ids.len() && ids[k] == id;
            assert(live[updated[k]].id == id);
        }
        if updated_ids(live, updated).contains(id) {
            let k = choose|k: int| 0 <= k < updated.len() && #[trigger] live[updated[k]].id == id;
            assert(ids[k] == id);
        }
    }
    assert(ids.to_set() =~= updated_ids(live, updated));
}

/// A removed path, scanned alone, gives one range, which holds the key of
/// the path and nothing else, and no entry to index.
pub proof fn lemma_removed_gives_single_key_range(entries: Seq<Entry>, change: UpdatedEntry)
    requires
        change.change == PathChange::Removed,
    ensures
        spec_scan_updated(entries, seq![change]).updated == Seq::<int>::empty(),
        spec_scan_updated(entries, seq![change]).ranges == seq![
            DeletionRangeView { start: db_key(change.path@), end: Some(db_key(change.path@)) },
        ],
        forall|key: Seq<char>|
            spec_scan_updated(entries, seq![change]).ranges[0].covers(key) <==> key == db_key(
                change.path@,
            ),
{
    let changes = seq![change];
    let out = spec_scan_updated(entries, changes);
    assert(changes.drop_last() =~= Seq::<UpdatedEntry>::empty());
    assert(spec_scan_updated(entries, changes.drop_last()).updated =~= Seq::<int>::empty());
    assert(out.updated =~= Seq::<int>::empty());
    assert(out.ranges =~= seq![
        DeletionRangeView { start: db_key(change.path@), end: Some(db_key(change.path@)) },
    ]);
    assert forall|key: Seq<char>| out.ranges[0].covers(key) <==> key == db_key(change.path@) by {
        lemma_key_order_exclusive(db_key(change.path@), key);
    }
}

/// The deletion of the range without end that starts at `start` removes
/// every record whose key is `start` or sorts after it, and no record whose
/// key sorts before it.
pub proof fn lemma_unbounded_range_deletes_suffix<E>(
    db: Map<Seq<char>, EmbeddedFile<E>>,
    start: Seq<char>,
)
    ensures
        forall|key: Seq<char>|
            #![trigger delete_range_spec(db, DeletionRangeView { start, end: None }).contains_key(key)]
            delete_range_spec(db, DeletionRangeView { start, end: None }).contains_key(key) <==> (
            db.contains_key(key) && key_lt(key, start)),
        forall|key: Seq<char>|
            #![trigger delete_range_spec(db, DeletionRangeView { start, end: None })[key]]
            db.contains_key(key) && key_lt(key, start) ==> delete_range_spec(
                db,
                DeletionRangeView { start, end: None },
            )[key] == db[key],
{
    let range = DeletionRangeView { start, end: None };
    assert forall|key: Seq<char>| delete_range_spec(db, range).contains_key(key) <==> (
    db.contains_key(key) && key_lt(key, start)) by {
        lemma_key_order_exclusive(start, key);
    }
    assert forall|key: Seq<char>| db.contains_key(key) && key_lt(key, start) implies delete_range_spec(
        db,
        range,
    )[key] == db[key] by {
        lemma_key_order_exclusive(start, key);
    }
}

/// Round trip. The record that the embedder made of a chunked file, once
/// saved, is what a query for the file's path returns: the chunks of the
/// file, in their order, each with the embedding that the provider gave for
/// it.
pub proof fn lemma_saved_file_round_trip<E>(
    db: Map<Seq<char>, EmbeddedFile<E>>,
    file: ChunkedFile,
    embedded: EmbeddedFile<E>,
    embeddings: Seq<Option<E>>,
    offset: int,
)
    requires
        is_record_of(embedded, file, embeddings, offset),
    ensures
        spec_chunks_for_path(save_spec(db, embedded), file.path@) == Some(embedded.chunks),
        embedded.chunks@.len() == file.chunks@.len(),
        forall|c: int|
            0 <= c < file.chunks@.len() ==> (#[trigger] embedded.chunks@[c]).chunk == file.chunks@[c]
                && embeddings[offset + c] == Some(embedded.chunks@[c].embedding),
{
}

} // verus!
