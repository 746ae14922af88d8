//! Deleting the rows of a trie table at or below a path.
use vstd::prelude::*;
use vstd::slice::slice_subrange;

use crate::key_order::{key_before, parts_below};
use crate::nibbles::{is_path, starts_with, Nibbles};
use crate::primitives::{same_hash, B256};

verus! {

/// The key of a row: a path, with an owner where the table holds the rows of storage tries.
#[derive(Debug, PartialEq, Eq)]
pub struct RowKey {
    pub owner: Option<B256>,
    pub path: Nibbles,
}

/// What a key is, as mathematical values. Keys without an owner have an empty one.
pub struct RowView {
    pub owner: Seq<u8>,
    pub path: Seq<u8>,
}

/// The bytes of an owner.
pub open spec fn owner_view(owner: Option<B256>) -> Seq<u8> {
    match owner {
        Some(hash) => hash@,
        None => Seq::empty(),
    }
}

impl View for RowKey {
    type V = RowView;

    open spec fn view(&self) -> RowView {
        RowView { owner: owner_view(self.owner), path: self.path@ }
    }
}

/// What each of some keys is.
pub open spec fn rows_view(rows: Seq<RowKey>) -> Seq<RowView> {
    Seq::new(rows.len(), |i: int| rows[i]@)
}

/// `a` and `b` agree on their first `k` nibbles, and there `a` ends while `b` goes on, or `a`
/// takes the smaller nibble.
pub open spec fn goes_before(a: Seq<u8>, b: Seq<u8>, k: int) -> bool {
    &&& 0 <= k <= a.len()
    &&& k < b.len()
    &&& forall|i: int| 0 <= i < k ==> a[i] == b[i]
    &&& k == a.len() || a[k] < b[k]
}

/// `a` comes before `b` in a table: nibble by nibble, a path before everything below it.
pub open spec fn path_before(a: Seq<u8>, b: Seq<u8>) -> bool {
    exists|k: int| #[trigger] goes_before(a, b, k)
}

/// The key `a` comes before the key `b` in a table: by owner, then by path.
pub open spec fn row_before(a: RowView, b: RowView) -> bool {
    key_before(a.owner, b.owner) || (a.owner == b.owner && path_before(a.path, b.path))
}

/// The keys of a table, each once, in order.
pub open spec fn rows_ascend(rows: Seq<RowView>) -> bool {
    forall|i: int, j: int|
        0 <= i < j < rows.len() ==> row_before(#[trigger] rows[i], #[trigger] rows[j])
}

/// The key has this owner, and its path is at or below this one.
pub open spec fn row_covered(row: RowView, owner: Seq<u8>, prefix: Seq<u8>) -> bool {
    row.owner == owner && starts_with(row.path, prefix)
}

/// The keys of the rows above `row`, from the root of its trie down.
pub open spec fn rows_above(row: RowView) -> Seq<RowView> {
    Seq::new(row.path.len(), |i: int| RowView { owner: row.owner, path: row.path.take(i) })
}

/// The keys of the rows above `key`, from the root of its trie down.
pub fn keys_above(key: &RowKey) -> (keys: Vec<RowKey>)
    ensures
        rows_view(keys@) == rows_above(key@),
{
    let path: &[u8] = key.path.as_slice();
    let mut keys: Vec<RowKey> = Vec::new();
    let mut n: usize = 0;
    assert(rows_view(keys@) =~= rows_above(key@).take(0));
    while n < path.len()
        invariant
            n <= path@.len(),
            is_path(path@),
            path@ == key@.path,
            rows_view(keys@) == rows_above(key@).take(n as int),
        decreases path.len() - n,
    {
        let ghost before = rows_view(keys@);
        let part: &[u8] = slice_subrange(path, 0, n);
        assert(part@ =~= key@.path.take(n as int));
        let above: RowKey = RowKey { owner: key.owner, path: Nibbles::from_nibbles(part) };
        keys.push(above);
        assert(rows_view(keys@) =~= before.push(above@));
        assert(rows_view(keys@) =~= rows_above(key@).take(n + 1));
        n = n + 1;
    }
    assert(rows_above(key@).take(n as int) =~= rows_above(key@));
    keys
}

/// The rows above a row are the others that it is at or below.
pub proof fn lemma_rows_above(row: RowView, above: RowView)
    ensures
        rows_above(row).contains(above) <==> above != row && row_covered(
            row,
            above.owner,
            above.path,
        ),
{
    if above != row && row_covered(row, above.owner, above.path) {
        let n = above.path.len() as int;
        assert(row.path.take(n) =~= above.path);
        if n == row.path.len() {
            assert(above.path =~= row.path);
        }
        assert(rows_above(row)[n] == above);
    }
    if rows_above(row).contains(above) {
        let i = choose|i: int| 0 <= i < rows_above(row).len() && rows_above(row)[i] == above;
        assert(above.path == row.path.take(i));
        assert(above.path.len() == i);
    }
}

/// The deletion of the rows of one owner at or below a path. A cursor is put at the first row that
/// does not come before the path, and each row from there on is offered.
#[derive(Debug)]
pub struct RangeDelete {
    pub owner: Option<B256>,
    pub prefix: Nibbles,
    pub deleted: u64,
}

/// Whether two keys have the same owner.
fn same_owner(a: &Option<B256>, b: &Option<B256>) -> (r: bool)
    ensures
        r == (owner_view(*a) == owner_view(*b)),
{
    match (a, b) {
        (None, None) => true,
        (Some(x), Some(y)) => same_hash(x, y),
        (Some(x), None) => {
            assert(x@.len() == 32);
            false
        },
        (None, Some(y)) => {
            assert(y@.len() == 32);
            false
        },
    }
}

impl RangeDelete {
    /// A deletion that has met no row.
    pub fn new(owner: Option<B256>, prefix: Nibbles) -> (range: Self)
        ensures
            owner_view(range.owner) == owner_view(owner),
            range.prefix@ == prefix@,
            range.deleted == 0,
    {
        RangeDelete { owner, prefix, deleted: 0 }
    }

    /// Whether the next row is to be deleted; if not, the deletion is complete.
    pub fn offer(&mut self, row: &RowKey) -> (delete: bool)
        requires
            old(self).deleted < u64::MAX,
        ensures
            delete == row_covered(row@, owner_view(old(self).owner), old(self).prefix@),
            final(self).deleted == old(self).deleted + (if delete {
                1int
            } else {
                0
            }),
            final(self).owner == old(self).owner,
            final(self).prefix@ == old(self).prefix@,
    {
        if !same_owner(&row.owner, &self.owner) || !row.path.starts_with(&self.prefix) {
            return false;
        }
        self.deleted = self.deleted + 1;
        true
    }
}

/// Whether a key comes before another in a table.
pub fn is_row_before(a: &RowKey, b: &RowKey) -> (r: bool)
    requires
        a.owner is Some == b.owner is Some,
    ensures
        r == row_before(a@, b@),
        !r ==> a@ == b@ || row_before(b@, a@),
{
    match (&a.owner, &b.owner) {
        (Some(x), Some(y)) => {
            if crate::key_order::is_key_before(x, y) {
                return true;
            }
            if !same_hash(x, y) {
                proof {
                    lemma_key_before_once(y@, x@);
                }
                return false;
            }
            proof {
                lemma_key_irreflexive(x@);
            }
        },
        _ => {
            proof {
                lemma_key_irreflexive(a@.owner);
                assert(a@.owner == b@.owner);
            }
        },
    }
    is_path_before(&a.path, &b.path)
}

/// No key comes before itself.
proof fn lemma_key_irreflexive(a: Seq<u8>)
    ensures
        !key_before(a, a),
{
}

/// Of two keys at most one comes first.
proof fn lemma_key_before_once(a: Seq<u8>, b: Seq<u8>)
    requires
        key_before(a, b),
    ensures
        !key_before(b, a),
        a != b,
{
    let i = choose|i: int| parts_below(a, b, i);
    if key_before(b, a) {
        let j = choose|j: int| parts_below(b, a, j);
        assert(i < j ==> a[i] == b[i]);
        assert(j < i ==> a[j] == b[j]);
    }
}

/// Whether a path comes before another in a table.
fn is_path_before(a: &Nibbles, b: &Nibbles) -> (r: bool)
    ensures
        r == path_before(a@, b@),
        !r ==> a@ == b@ || path_before(b@, a@),
{
    let x: &[u8] = a.as_slice();
    let y: &[u8] = b.as_slice();
    let mut i: usize = 0;
    while i < x.len() && i < y.len()
        invariant
            i <= x@.len(),
            i <= y@.len(),
            x@ == a@,
            y@ == b@,
            forall|j: int| 0 <= j < i ==> x@[j] == y@[j],
        decreases x.len() - i,
    {
        if x[i] != y[i] {
            proof {
                if x@[i as int] < y@[i as int] {
                    assert(goes_before(a@, b@, i as int));
                } else {
                    assert(goes_before(b@, a@, i as int));
                    lemma_path_before_once(b@, a@);
                }
            }
            return x[i] < y[i];
        }
        i = i + 1;
    }
    if i < y.len() {
        assert(goes_before(a@, b@, i as int));
        true
    } else {
        proof {
            if i < x.len() {
                assert(goes_before(b@, a@, i as int));
                lemma_path_before_once(b@, a@);
            } else {
                assert(a@ =~= b@);
                if path_before(a@, b@) {
                    let k = choose|k: int| goes_before(a@, b@, k);
                    assert(goes_before(a@, b@, k));
                }
            }
        }
        false
    }
}

/// Of two paths at most one comes first.
proof fn lemma_path_before_once(a: Seq<u8>, b: Seq<u8>)
    requires
        path_before(a, b),
    ensures
        !path_before(b, a),
        a != b,
{
    let i = choose|i: int| goes_before(a, b, i);
    if path_before(b, a) {
        let j = choose|j: int| goes_before(b, a, j);
        assert(i < j ==> a[i] == b[i]);
        assert(j < i ==> a[j] == b[j]);
    }
}

/// A row that comes before `(owner, prefix)` is not covered by it.
proof fn lemma_row_before_start(row: RowView, owner: Seq<u8>, prefix: Seq<u8>)
    requires
        row_before(row, (RowView { owner, path: prefix })),
    ensures
        !row_covered(row, owner, prefix),
{
    if row.owner == owner {
        lemma_key_irreflexive(owner);
        let k = choose|k: int| goes_before(row.path, prefix, k);
        assert(goes_before(row.path, prefix, k));
    }
}

/// Once a row at or past the start is not covered, no later row is.
proof fn lemma_row_past_end(row: RowView, later: RowView, owner: Seq<u8>, prefix: Seq<u8>)
    requires
        row == (RowView { owner, path: prefix }) || row_before(
            (RowView { owner, path: prefix }),
            row,
        ),
        !row_covered(row, owner, prefix),
        row_before(row, later),
    ensures
        !row_covered(later, owner, prefix),
{
    if row_covered(later, owner, prefix) {
        if row.owner != owner {
            assert(key_before(owner, row.owner));
            lemma_key_before_once(owner, row.owner);
        } else {
            assert(starts_with(prefix, prefix));
            lemma_key_irreflexive(owner);
            let k = choose|k: int| goes_before(prefix, row.path, k);
            assert(goes_before(prefix, row.path, k));
            assert(k < prefix.len()) by {
                if k == prefix.len() {
                    assert(starts_with(row.path, prefix));
                }
            }
            let m = choose|m: int| goes_before(row.path, later.path, m);
            assert(goes_before(row.path, later.path, m));
            if m < k {
                assert(later.path[m] == prefix[m]);
            } else {
                assert(later.path[k] == prefix[k]);
            }
        }
    }
}

/// The rows of a table that a deletion covers are the run of them that starts at the first row
/// that does not come before its path, and ends at the first row that it does not cover.
pub proof fn lemma_covered_run(
    rows: Seq<RowView>,
    owner: Seq<u8>,
    prefix: Seq<u8>,
    lo: int,
    hi: int,
)
    requires
        rows_ascend(rows),
        0 <= lo <= hi <= rows.len(),
        forall|i: int|
            0 <= i < lo ==> row_before(#[trigger] rows[i], (RowView { owner, path: prefix })),
        lo < rows.len() ==> rows[lo] == (RowView { owner, path: prefix }) || row_before(
            (RowView { owner, path: prefix }),
            rows[lo],
        ),
        forall|i: int| lo <= i < hi ==> row_covered(#[trigger] rows[i], owner, prefix),
        hi < rows.len() ==> !row_covered(rows[hi], owner, prefix),
    ensures
        forall|i: int|
            0 <= i < rows.len() ==> row_covered(#[trigger] rows[i], owner, prefix) == (lo <= i
                < hi),
{
    let start = RowView { owner, path: prefix };
    assert forall|i: int| 0 <= i < rows.len() implies row_covered(#[trigger] rows[i], owner, prefix)
        == (lo <= i < hi) by {
        if i < lo {
            lemma_row_before_start(rows[i], owner, prefix);
        } else if i >= hi {
            if hi > lo {
                lemma_row_transitive(start, rows[lo], rows[hi]);
            }
            if i > hi {
                lemma_row_past_end(rows[hi], rows[i], owner, prefix);
            }
        }
    }
}

/// What comes after a key that comes after the start comes after the start.
proof fn lemma_row_transitive(a: RowView, b: RowView, c: RowView)
    requires
        a == b || row_before(a, b),
        row_before(b, c),
    ensures
        row_before(a, c),
{
    if a != b {
        if key_before(a.owner, b.owner) && key_before(b.owner, c.owner) {
            let i = choose|i: int| parts_below(a.owner, b.owner, i);
            let j = choose|j: int| parts_below(b.owner, c.owner, j);
            assert(parts_below(
                a.owner,
                c.owner,
                if i < j {
                    i
                } else {
                    j
                },
            ));
        } else if a.owner == b.owner && b.owner == c.owner && path_before(a.path, b.path)
            && path_before(b.path, c.path) {
            let i = choose|i: int| goes_before(a.path, b.path, i);
            let j = choose|j: int| goes_before(b.path, c.path, j);
            assert(goes_before(a.path, b.path, i) && goes_before(b.path, c.path, j));
            assert(goes_before(
                a.path,
                c.path,
                if i < j {
                    i
                } else {
                    j
                },
            ));
        }
    }
}

/// How many of the first `n` rows are covered.
pub open spec fn covered_count(rows: Seq<RowView>, owner: Seq<u8>, prefix: Seq<u8>, n: int) -> nat
    decreases n,
{
    if n <= 0 {
        0
    } else {
        covered_count(rows, owner, prefix, n - 1) + if row_covered(rows[n - 1], owner, prefix) {
            1nat
        } else {
            0
        }
    }
}

/// A run of covered rows is counted.
proof fn lemma_covered_count(
    rows: Seq<RowView>,
    owner: Seq<u8>,
    prefix: Seq<u8>,
    lo: int,
    hi: int,
    n: int,
)
    requires
        0 <= lo <= hi <= rows.len(),
        0 <= n <= rows.len(),
        forall|i: int|
            0 <= i < rows.len() ==> row_covered(#[trigger] rows[i], owner, prefix) == (lo <= i
                < hi),
    ensures
        covered_count(rows, owner, prefix, n) == (if n <= lo {
            0
        } else if n <= hi {
            n - lo
        } else {
            hi - lo
        }),
    decreases n,
{
    if n > 0 {
        lemma_covered_count(rows, owner, prefix, lo, hi, n - 1);
        assert(row_covered(rows[n - 1], owner, prefix) == (lo <= n - 1 < hi));
    }
}

/// What a filter keeps that drops exactly a run.
proof fn lemma_filter_without_run(
    rows: Seq<RowView>,
    keep: spec_fn(RowView) -> bool,
    lo: int,
    hi: int,
)
    requires
        0 <= lo <= hi <= rows.len(),
        forall|i: int| 0 <= i < rows.len() ==> keep(#[trigger] rows[i]) == !(lo <= i < hi),
    ensures
        rows.filter(keep) == rows.take(lo) + rows.skip(hi),
    decreases rows.len(),
{
    reveal(Seq::filter);
    if rows.len() == 0 {
        assert(rows.filter(keep) =~= rows.take(lo) + rows.skip(hi));
    } else {
        let init = rows.drop_last();
        assert(keep(rows.last()) == !(hi == rows.len() && lo < hi));
        if hi < rows.len() {
            lemma_filter_without_run(init, keep, lo, hi);
            assert(rows.take(lo) + rows.skip(hi) =~= (init.take(lo) + init.skip(hi)).push(
                rows.last(),
            ));
        } else if lo < hi {
            lemma_filter_without_run(init, keep, lo, hi - 1);
            assert(rows.take(lo) + rows.skip(hi) =~= init.take(lo) + init.skip(hi - 1));
        } else {
            lemma_filter_without_run(init, keep, lo - 1, hi - 1);
            assert(rows.take(lo) + rows.skip(hi) =~= (init.take(lo - 1) + init.skip(
                hi - 1,
            )).push(rows.last()));
        }
    }
}

/// Deletes the rows of a table, in order, of one owner at or below a path, and returns how many
/// there were.
pub fn delete_range(rows: &mut Vec<RowKey>, owner: Option<B256>, prefix: &Nibbles) -> (deleted: u64)
    requires
        rows_ascend(rows_view(old(rows)@)),
        forall|i: int|
            0 <= i < old(rows)@.len() ==> (#[trigger] old(rows)@[i]).owner is Some == owner is Some,
    ensures
        rows_view(final(rows)@) == rows_view(old(rows)@).filter(
            |row: RowView| !row_covered(row, owner_view(owner), prefix@),
        ),
        deleted == covered_count(
            rows_view(old(rows)@),
            owner_view(owner),
            prefix@,
            old(rows)@.len() as int,
        ),
{
    let ghost before = rows@;
    let ghost all = rows_view(before);
    let (lo, deleted): (usize, u64) = find_range(rows.as_slice(), owner, prefix);
    assert(lo + deleted <= rows.len());
    let mut tail: Vec<RowKey> = rows.split_off(lo);
    let mut rest: Vec<RowKey> = tail.split_off(deleted as usize);
    rows.append(&mut rest);
    proof {
        let keep = |row: RowView| !row_covered(row, owner_view(owner), prefix@);
        assert forall|i: int| 0 <= i < all.len() implies keep(#[trigger] all[i]) == !(lo <= i < lo
            + deleted) by {
            assert(all[i] == before[i]@);
        }
        lemma_filter_without_run(all, keep, lo as int, lo + deleted);
        assert(rows_view(rows@) =~= all.take(lo as int) + all.skip(lo + deleted));
    }
    deleted
}

/// The rows of a table, in order, that a deletion removes: where they start, and how many.
fn find_range(rows: &[RowKey], owner: Option<B256>, prefix: &Nibbles) -> (r: (usize, u64))
    requires
        rows_ascend(rows_view(rows@)),
        forall|i: int| 0 <= i < rows@.len() ==> (#[trigger] rows@[i]).owner is Some == owner is Some,
    ensures
        r.0 + r.1 <= rows@.len(),
        forall|i: int|
            0 <= i < rows@.len() ==> row_covered((#[trigger] rows@[i])@, owner_view(owner), prefix@)
                == (r.0 <= i < r.0 + r.1),
        r.1 == covered_count(
            rows_view(rows@),
            owner_view(owner),
            prefix@,
            rows@.len() as int,
        ),
{
    let start: RowKey = RowKey { owner, path: prefix.clone() };
    let ghost all = rows_view(rows@);
    let mut lo: usize = 0;
    while lo < rows.len() && is_row_before(&rows[lo], &start)
        invariant
            lo <= rows@.len(),
            all == rows_view(rows@),
            start.owner is Some == owner is Some,
            forall|i: int|
                0 <= i < rows@.len() ==> (#[trigger] rows@[i]).owner is Some == owner is Some,
            forall|i: int| 0 <= i < lo ==> row_before(#[trigger] all[i], start@),
        decreases rows.len() - lo,
    {
        assert(all[lo as int] == rows@[lo as int]@);
        lo = lo + 1;
    }
    proof {
        if lo < rows@.len() {
            assert(all[lo as int] == rows@[lo as int]@);
        }
    }
    let mut range: RangeDelete = RangeDelete::new(owner, prefix.clone());
    let mut hi: usize = lo;
    let mut more: bool = true;
    while more && hi < rows.len()
        invariant
            lo <= hi <= rows@.len(),
            rows@.len() == rows.len(),
            all == rows_view(rows@),
            owner_view(range.owner) == owner_view(owner),
            range.prefix@ == prefix@,
            range.deleted == hi - lo,
            forall|i: int|
                lo <= i < hi ==> row_covered(#[trigger] all[i], owner_view(owner), prefix@),
            !more ==> hi < rows@.len() && !row_covered(all[hi as int], owner_view(owner), prefix@),
        decreases rows.len() - hi + (if more { 1nat } else { 0 }),
    {
        assert(all[hi as int] == rows@[hi as int]@);
        more = range.offer(&rows[hi]);
        if more {
            hi = hi + 1;
        }
    }
    proof {
        lemma_covered_run(all, owner_view(owner), prefix@, lo as int, hi as int);
        lemma_covered_count(
            all,
            owner_view(owner),
            prefix@,
            lo as int,
            hi as int,
            rows@.len() as int,
        );
        assert forall|i: int| 0 <= i < rows@.len() implies row_covered(
            (#[trigger] rows@[i])@,
            owner_view(owner),
            prefix@,
        ) == (lo <= i < hi) by {
            assert(all[i] == rows@[i]@);
        }
    }
    (lo, range.deleted)
}

/// A row is covered exactly where it has the owner and its path is the prefix and maybe more.
pub proof fn lemma_covered_rows(row: RowView, owner: Seq<u8>, prefix: Seq<u8>)
    ensures
        row_covered(row, owner, prefix) <==> row.owner == owner && prefix.len() <= row.path.len()
            && row.path.take(prefix.len() as int) == prefix,
{
    let n = prefix.len() as int;
    if row_covered(row, owner, prefix) {
        assert(row.path.take(n) =~= prefix);
    }
    if prefix.len() <= row.path.len() && row.path.take(n) == prefix {
        assert forall|i: int| 0 <= i < n implies row.path[i] == prefix[i] by {
            assert(row.path.take(n)[i] == row.path[i]);
        }
    }
}

/// A deletion counts the rows that it removes: with those that stay they are all.
pub proof fn lemma_deleted_and_kept(rows: Seq<RowView>, owner: Seq<u8>, prefix: Seq<u8>, n: int)
    requires
        0 <= n <= rows.len(),
    ensures
        covered_count(rows, owner, prefix, n) + rows.take(n).filter(
            |row: RowView| !row_covered(row, owner, prefix),
        ).len() == n,
    decreases n,
{
    reveal(Seq::filter);
    let keep = |row: RowView| !row_covered(row, owner, prefix);
    if n == 0 {
        assert(rows.take(0).filter(keep).len() == 0);
    } else {
        lemma_deleted_and_kept(rows, owner, prefix, n - 1);
        assert(rows.take(n).drop_last() =~= rows.take(n - 1));
        assert(rows.take(n).last() == rows[n - 1]);
    }
}

/// The rows above a row are one for each shorter beginning of its path, with its owner.
pub proof fn lemma_shorter_beginnings(row: RowView)
    ensures
        rows_above(row).len() == row.path.len(),
        forall|i: int|
            0 <= i < row.path.len() ==> (#[trigger] rows_above(row)[i]).owner == row.owner
                && rows_above(row)[i].path == row.path.take(i),
{
}

/// A table holds a path before everything below it, and otherwise goes by the first nibble in
/// which two paths differ; rows of another owner come by the order of the owners.
pub proof fn lemma_table_order(common: Seq<u8>, a: Seq<u8>, b: Seq<u8>, x: Seq<u8>, y: Seq<u8>)
    ensures
        a.len() > 0 ==> path_before(common, common + a),
        a.len() > 0 && b.len() > 0 && a[0] < b[0] ==> path_before(common + a, common + b),
        key_before(x, y) ==> row_before(
            (RowView { owner: x, path: a }),
            (RowView { owner: y, path: b }),
        ),
        path_before(a, b) ==> row_before(
            (RowView { owner: x, path: a }),
            (RowView { owner: x, path: b }),
        ),
{
    let k = common.len() as int;
    if a.len() > 0 {
        assert(goes_before(common, common + a, k));
        if b.len() > 0 && a[0] < b[0] {
            assert(goes_before(common + a, common + b, k));
        }
    }
}

} // verus!
