//! The ordered store of the index: records under string keys, iterated in
//! key order, with point reads and writes and deletion of key ranges.

use crate::embedding_index::EmbeddedFile;
use crate::keys::{
    compare_keys, key_le, key_lt, lemma_key_lt_transitive, lemma_key_order_exclusive, KeyOrder,
};
use crate::worktree::MTime;
use vstd::prelude::*;

verus! {

/// Where a range of keys ends.
#[derive(Debug, PartialEq, Eq)]
pub enum RangeEnd {
    /// The range ends with this key, which belongs to it.
    Included(String),
    /// The range has no end.
    Unbounded,
}

/// A contiguous span of keys: from `start`, which belongs to it, to `end`.
#[derive(Debug, PartialEq, Eq)]
pub struct DeletionRange {
    pub start: String,
    pub end: RangeEnd,
}

/// A [`DeletionRange`] as a mathematical value. An `end` of `None` stands for
/// a range without end.
pub struct DeletionRangeView {
    pub start: Seq<char>,
    pub end: Option<Seq<char>>,
}

impl DeletionRangeView {
    /// `key` lies in the range.
    pub open spec fn covers(self, key: Seq<char>) -> bool {
        key_le(self.start, key) && match self.end {
            Some(end) => key_le(key, end),
            None => true,
        }
    }
}

impl View for DeletionRange {
    type V = DeletionRangeView;

    open spec fn view(&self) -> DeletionRangeView {
        DeletionRangeView {
            start: self.start@,
            end: match self.end {
                RangeEnd::Included(end) => Some(end@),
                RangeEnd::Unbounded => None,
            },
        }
    }
}

impl DeletionRange {
    /// The range that holds the key `key` and nothing else.
    pub fn single(key: String) -> (range: DeletionRange)
        ensures
            range@ == (DeletionRangeView { start: key@, end: Some(key@) }),
    {
        let end = key.clone();
        DeletionRange { start: key, end: RangeEnd::Included(end) }
    }

    /// The range of all keys from `start` on.
    pub fn from_key(start: String) -> (range: DeletionRange)
        ensures
            range@ == (DeletionRangeView { start: start@, end: None }),
    {
        DeletionRange { start, end: RangeEnd::Unbounded }
    }

    /// `true` exactly when `key` lies in the range.
    pub fn contains(&self, key: &str) -> (inside: bool)
        ensures
            inside == self@.covers(key@),
    {
        proof {
            lemma_key_order_exclusive(self.start@, key@);
        }
        match compare_keys(self.start.as_str(), key) {
            KeyOrder::Greater => false,
            _ => match &self.end {
                RangeEnd::Included(end) => {
                    proof {
                        lemma_key_order_exclusive(key@, end@);
                    }
                    match compare_keys(key, end.as_str()) {
                        KeyOrder::Greater => false,
                        _ => true,
                    }
                },
                RangeEnd::Unbounded => true,
            },
        }
    }
}

/// One row of the store: a record under its key.
#[derive(Debug, PartialEq)]
pub struct Record<E> {
    pub key: String,
    pub file: EmbeddedFile<E>,
}

/// The keys of `rows`, in their order.
pub open spec fn row_keys<E>(rows: Seq<Record<E>>) -> Seq<Seq<char>> {
    Seq::new(rows.len(), |i: int| rows[i].key@)
}

/// Each key sorts before all that follow it.
pub open spec fn strictly_sorted(keys: Seq<Seq<char>>) -> bool {
    forall|i: int, j: int| 0 <= i < j < keys.len() ==> key_lt(#[trigger] keys[i], #[trigger] keys[j])
}

/// Some row of `rows` has the key `key`.
pub open spec fn has_key<E>(rows: Seq<Record<E>>, key: Seq<char>) -> bool {
    exists|i: int| 0 <= i < rows.len() && #[trigger] rows[i].key@ == key
}

/// The position of a row with the key `key`.
pub open spec fn row_of_key<E>(rows: Seq<Record<E>>, key: Seq<char>) -> int {
    choose|i: int| 0 <= i < rows.len() && #[trigger] rows[i].key@ == key
}

/// The rows as a map from key to record.
pub open spec fn rows_map<E>(rows: Seq<Record<E>>) -> Map<Seq<char>, EmbeddedFile<E>> {
    Map::new(|key: Seq<char>| has_key(rows, key), |key: Seq<char>| rows[row_of_key(rows, key)].file)
}

/// In sorted rows, the row at `i` is the one that the map holds under its key.
pub proof fn lemma_rows_map_row<E>(rows: Seq<Record<E>>, i: int)
    requires
        strictly_sorted(row_keys(rows)),
        0 <= i < rows.len(),
    ensures
        rows_map(rows).contains_key(rows[i].key@),
        rows_map(rows)[rows[i].key@] == rows[i].file,
        row_of_key(rows, rows[i].key@) == i,
{
    let key = rows[i].key@;
    assert(has_key(rows, key));
    let j = row_of_key(rows, key);
    if j != i {
        let keys = row_keys(rows);
        assert(keys[i] == key && keys[j] == key);
        if j < i {
            assert(key_lt(keys[j], keys[i]));
        } else {
            assert(key_lt(keys[i], keys[j]));
        }
        crate::keys::lemma_key_lt_irreflexive(key);
    }
}

/// The store: rows in strictly increasing key order.
#[derive(Debug)]
pub struct Database<E> {
    rows: Vec<Record<E>>,
}

impl<E> View for Database<E> {
    type V = Map<Seq<char>, EmbeddedFile<E>>;

    /// The store as a map from key to record.
    open spec fn view(&self) -> Map<Seq<char>, EmbeddedFile<E>> {
        rows_map(self.rows())
    }
}

impl<E> Database<E> {
    /// The rows in the order in which the store iterates them.
    pub closed spec fn rows(&self) -> Seq<Record<E>> {
        self.rows@
    }

    /// The keys in the order in which the store iterates them.
    pub open spec fn keys(&self) -> Seq<Seq<char>> {
        row_keys(self.rows())
    }

    /// The rows stand in strictly increasing key order, so no key occurs
    /// twice.
    pub open spec fn wf(&self) -> bool {
        strictly_sorted(self.keys())
    }

    /// The key and the modification token of each row, in key order: what a
    /// scan reads of the store.
    pub open spec fn listing(&self) -> Seq<(Seq<char>, Option<MTime>)> {
        Seq::new(self.rows().len(), |i: int| (self.rows()[i].key@, self.rows()[i].file.mtime))
    }

    /// The empty store.
    pub fn new() -> (db: Self)
        ensures
            db.wf(),
            db.rows() == Seq::<Record<E>>::empty(),
            db@ == Map::<Seq<char>, EmbeddedFile<E>>::empty(),
    {
        let db = Database { rows: Vec::new() };
        assert(db@ =~= Map::<Seq<char>, EmbeddedFile<E>>::empty());
        db
    }

    /// The number of rows.
    pub fn len(&self) -> (n: usize)
        ensures
            n == self.rows().len(),
    {
        self.rows.len()
    }

    /// The row at position `i` of the key order.
    pub fn row(&self, i: usize) -> (row: &Record<E>)
        requires
            i < self.rows().len(),
        ensures
            *row == self.rows()[i as int],
    {
        &self.rows[i]
    }

    /// The position of the first row whose key does not sort before `key`.
    fn lower_bound(&self, key: &str) -> (p: usize)
        requires
            self.wf(),
        ensures
            p <= self.rows().len(),
            forall|i: int| 0 <= i < p ==> key_lt(#[trigger] self.keys()[i], key@),
            forall|i: int| p <= i < self.rows().len() ==> !key_lt(#[trigger] self.keys()[i], key@),
    {
        let mut lo: usize = 0;
        let mut hi: usize = self.rows.len();
        while lo < hi
            invariant
                self.wf(),
                lo <= hi <= self.rows().len(),
                forall|i: int| 0 <= i < lo ==> key_lt(#[trigger] self.keys()[i], key@),
                forall|i: int|
                    hi <= i < self.rows().len() ==> !key_lt(#[trigger] self.keys()[i], key@),
            decreases hi - lo,
        {
            let mid: usize = lo + (hi - lo) / 2;
            let ghost mid_key = self.keys()[mid as int];
            match compare_keys(self.rows[mid].key.as_str(), key) {
                KeyOrder::Less => {
                    proof {
                        assert forall|i: int| 0 <= i < mid + 1 implies key_lt(
                            #[trigger] self.keys()[i],
                            key@,
                        ) by {
                            if i < mid {
                                assert(key_lt(self.keys()[i], self.keys()[mid as int]));
                                lemma_key_lt_transitive(self.keys()[i], mid_key, key@);
                            }
                        }
                    }
                    lo = mid + 1;
                },
                _ => {
                    proof {
                        assert forall|i: int| mid <= i < self.rows().len() implies !key_lt(
                            #[trigger] self.keys()[i],
                            key@,
                        ) by {
                            if i > mid && key_lt(self.keys()[i], key@) {
                                assert(key_lt(self.keys()[mid as int], self.keys()[i]));
                                lemma_key_lt_transitive(mid_key, self.keys()[i], key@);
                            }
                        }
                    }
                    hi = mid;
                },
            }
        }
        lo
    }

    /// The record stored under `key`, if there is one.
    pub fn get(&self, key: &str) -> (found: Option<&EmbeddedFile<E>>)
        requires
            self.wf(),
        ensures
            match found {
                Some(file) => self@.contains_key(key@) && *file == self@[key@],
                None => !self@.contains_key(key@),
            },
    {
        let p = self.lower_bound(key);
        if p < self.rows.len() {
            match compare_keys(self.rows[p].key.as_str(), key) {
                KeyOrder::Equal => {
                    proof {
                        lemma_rows_map_row(self.rows(), p as int);
                    }
                    return Some(&self.rows[p].file);
                },
                _ => {},
            }
        }
        proof {
            self.lemma_absent(key@, p as int);
        }
        None
    }

    /// Stores `file` under `key`, in place of the record that was there, if
    /// any. All other records stay as they are.
    pub fn put(&mut self, key: String, file: EmbeddedFile<E>)
        requires
            old(self).wf(),
        ensures
            final(self).wf(),
            final(self)@ == old(self)@.insert(key@, file),
            final(self).rows().len() == old(self).rows().len() + (if old(self)@.contains_key(
                key@,
            ) {
                0int
            } else {
                1int
            }),
    {
        let p = self.lower_bound(key.as_str());
        let ghost before = self.rows();
        let ghost k = key@;
        let ghost after: Seq<Record<E>>;
        let mut replace = false;
        if p < self.rows.len() {
            replace = compare_keys(self.rows[p].key.as_str(), key.as_str()) == KeyOrder::Equal;
        }
        let ghost row = Record { key, file };
        if replace {
            self.rows[p] = Record { key, file };
            proof {
                after = self.rows();
                assert(after == before.update(p as int, row));
                assert(row_keys(after) =~= row_keys(before));
                lemma_rows_map_row(before, p as int);
            }
        } else {
            proof {
                self.lemma_absent(k, p as int);
            }
            self.rows.insert(p, Record { key, file });
            proof {
                after = self.rows();
                assert(after == before.insert(p as int, row));
                let keys = row_keys(after);
                let old_keys = row_keys(before);
                assert forall|i: int, j: int| 0 <= i < j < keys.len() implies key_lt(
                    #[trigger] keys[i],
                    #[trigger] keys[j],
                ) by {
                    let oi = if i < p { i } else { i - 1 };
                    let oj = if j < p { j } else { j - 1 };
                    if i != p {
                        assert(keys[i] == old_keys[oi]);
                    }
                    if j != p {
                        assert(keys[j] == old_keys[oj]);
                    }
                    if i == p {
                        lemma_key_order_exclusive(old_keys[oj], k);
                        if old_keys[oj] == k {
                            assert(before[oj].key@ == k);
                        }
                    } else if j == p {
                    } else {
                        assert(key_lt(old_keys[oi], old_keys[oj]));
                    }
                }
            }
        }
        proof {
            let m0 = rows_map(before);
            let m1 = rows_map(after);
            assert(strictly_sorted(row_keys(after)));
            assert forall|x: Seq<char>| m1.contains_key(x) <==> m0.insert(k, file).contains_key(
                x,
            ) by {
                if has_key(after, x) {
                    let i = row_of_key(after, x);
                    if x != k {
                        let oi = if replace || i < p { i } else { i - 1 };
                        assert(before[oi].key@ == x);
                    }
                }
                if has_key(before, x) {
                    let oi = row_of_key(before, x);
                    let i = if replace || oi < p { oi } else { oi + 1 };
                    assert(after[i].key@ == x);
                }
                if x == k {
                    assert(after[p as int].key@ == k);
                }
            }
            assert forall|x: Seq<char>| m1.contains_key(x) implies m1[x] == m0.insert(k, file)[x] by {
                let i = row_of_key(after, x);
                lemma_rows_map_row(after, i);
                if x == k {
                    lemma_rows_map_row(after, p as int);
                } else {
                    let oi = if replace || i < p { i } else { i - 1 };
                    assert(before[oi].key@ == x);
                    lemma_rows_map_row(before, oi);
                }
            }
            assert(m1 =~= m0.insert(k, file));
        }
    }

    /// The position of the first row whose key sorts after every key of
    /// `range`.
    fn range_end(&self, range: &DeletionRange) -> (p: usize)
        requires
            self.wf(),
        ensures
            p <= self.rows().len(),
            forall|i: int|
                0 <= i < self.rows().len() ==> (i < p <==> match range@.end {
                    Some(end) => key_le(#[trigger] self.keys()[i], end),
                    None => true,
                }),
    {
        match &range.end {
            RangeEnd::Unbounded => self.rows.len(),
            RangeEnd::Included(end) => {
                let q = self.lower_bound(end.as_str());
                let mut p = q;
                if q < self.rows.len() {
                    if compare_keys(self.rows[q].key.as_str(), end.as_str()) == KeyOrder::Equal {
                        p = q + 1;
                    }
                }
                proof {
                    assert forall|i: int| 0 <= i < self.rows().len() implies (i < p <==> key_le(
                        #[trigger] self.keys()[i],
                        end@,
                    )) by {
                        lemma_key_order_exclusive(self.keys()[i], end@);
                        if i > q {
                            assert(key_lt(self.keys()[q as int], self.keys()[i]));
                        }
                    }
                }
                p
            },
        }
    }

    /// Deletes every record whose key lies in `range`, and no other. Returns
    /// the number of records deleted.
    pub fn delete_range(&mut self, range: &DeletionRange) -> (deleted: usize)
        requires
            old(self).wf(),
        ensures
            final(self).wf(),
            final(self)@ == old(self)@.remove_keys(Set::new(|key: Seq<char>| range@.covers(key))),
            deleted == old(self).rows().len() - final(self).rows().len(),
    {
        let lo = self.lower_bound(range.start.as_str());
        let hi = self.range_end(range);
        let ghost before = self.rows();
        let ghost covered = Set::new(|key: Seq<char>| range@.covers(key));
        proof {
            assert forall|i: int| 0 <= i < before.len() implies (range@.covers(
                #[trigger] before[i].key@,
            ) <==> lo <= i < hi) by {
                assert(self.keys()[i] == before[i].key@);
                lemma_key_order_exclusive(self.keys()[i], range.start@);
            }
        }
        if lo >= hi {
            proof {
                let m0 = rows_map(before);
                assert forall|x: Seq<char>| m0.contains_key(x) implies !covered.contains(x) by {
                    let i = row_of_key(before, x);
                    assert(before[i].key@ == x);
                }
                assert(m0 =~= m0.remove_keys(covered));
            }
            return 0;
        }
        let mut tail = self.rows.split_off(hi);
        self.rows.truncate(lo);
        self.rows.append(&mut tail);
        proof {
            let after = self.rows();
            let gap = hi - lo;
            assert(after =~= before.subrange(0, lo as int) + before.subrange(
                hi as int,
                before.len() as int,
            ));
            let keys = row_keys(after);
            let old_keys = row_keys(before);
            assert forall|i: int, j: int| 0 <= i < j < keys.len() implies key_lt(
                #[trigger] keys[i],
                #[trigger] keys[j],
            ) by {
                let oi = if i < lo { i } else { i + gap };
                let oj = if j < lo { j } else { j + gap };
                assert(keys[i] == old_keys[oi]);
                assert(keys[j] == old_keys[oj]);
                assert(key_lt(old_keys[oi], old_keys[oj]));
            }
            let m0 = rows_map(before);
            let m1 = rows_map(after);
            assert forall|x: Seq<char>| m1.contains_key(x) <==> m0.remove_keys(
                covered,
            ).contains_key(x) by {
                if has_key(after, x) {
                    let i = row_of_key(after, x);
                    let oi = if i < lo { i } else { i + gap };
                    assert(before[oi].key@ == x);
                }
                if has_key(before, x) && !covered.contains(x) {
                    let oi = row_of_key(before, x);
                    assert(before[oi].key@ == x);
                    let i = if oi < lo { oi } else { oi - gap };
                    assert(after[i].key@ == x);
                }
                if has_key(before, x) && covered.contains(x) {
                    let oi = row_of_key(before, x);
                    assert(before[oi].key@ == x);
                    lemma_rows_map_row(before, oi);
                    if has_key(after, x) {
                        let i = row_of_key(after, x);
                        let oi2 = if i < lo { i } else { i + gap };
                        assert(before[oi2].key@ == x);
                        lemma_rows_map_row(before, oi2);
                    }
                }
            }
            assert forall|x: Seq<char>| m1.contains_key(x) implies m1[x] == m0.remove_keys(
                covered,
            )[x] by {
                let i = row_of_key(after, x);
                lemma_rows_map_row(after, i);
                let oi = if i < lo { i } else { i + gap };
                assert(before[oi].key@ == x);
                lemma_rows_map_row(before, oi);
            }
            assert(m1 =~= m0.remove_keys(covered));
        }
        hi - lo
    }

    /// A key that differs from the row at its place in the order is not in
    /// the store.
    proof fn lemma_absent(&self, key: Seq<char>, p: int)
        requires
            self.wf(),
            0 <= p <= self.rows().len(),
            forall|i: int| 0 <= i < p ==> key_lt(#[trigger] self.keys()[i], key),
            forall|i: int| p <= i < self.rows().len() ==> !key_lt(#[trigger] self.keys()[i], key),
            p < self.rows().len() ==> self.keys()[p] != key,
        ensures
            !has_key(self.rows(), key),
    {
        if has_key(self.rows(), key) {
            let i = row_of_key(self.rows(), key);
            assert(self.keys()[i] == key);
            crate::keys::lemma_key_lt_irreflexive(key);
            if i > p {
                assert(key_lt(self.keys()[p], self.keys()[i]));
            }
        }
    }
}

} // verus!
