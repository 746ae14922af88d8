//! What a pass over the diffs does to the tables, whatever the size of its batches.
use vstd::prelude::*;

use crate::inject::{
    batch, batch_done, batch_end, batch_rows, missing_keys, needs_write, to_write, Diff,
    InjectView, Lookup,
};
use crate::period_index::found_in;

verus! {

/// The tables that a pass reads and writes: the keys of the plain state, and the recorded blocks.
pub struct Tables {
    pub plain: Set<Seq<u8>>,
    pub recorded: Map<Seq<u8>, u64>,
}

/// What the tables hold for each of some diffs.
pub open spec fn looked_up_in<D: Diff>(chunk: Seq<D>, tables: Tables) -> Seq<Lookup> {
    Seq::new(
        chunk.len(),
        |i: int|
            Lookup {
                present: tables.plain.contains(chunk[i].key()),
                current: found_in(tables.recorded, chunk[i].key()),
            },
    )
}

/// The records once the first `n` rows are put.
pub open spec fn put_rows<D: Diff>(
    recorded: Map<Seq<u8>, u64>,
    rows: Seq<D>,
    n: int,
) -> Map<Seq<u8>, u64>
    decreases n,
{
    if n <= 0 {
        recorded
    } else {
        put_rows(recorded, rows, n - 1).insert(rows[n - 1].key(), rows[n - 1].written_at())
    }
}

/// The end of a pass, and the tables then.
pub open spec fn pass_end<D: Diff>(pass: InjectView<D>, tables: Tables) -> (InjectView<D>, Tables)
    decreases pass.diffs.len() - pass.at,
{
    if pass.at >= pass.diffs.len() || pass.batch_size == 0 {
        (pass, tables)
    } else {
        let lookups = looked_up_in(batch(pass), tables);
        let rows = batch_rows(pass, lookups);
        pass_end(
            batch_done(pass, lookups),
            Tables { recorded: put_rows(tables.recorded, rows, rows.len() as int), ..tables },
        )
    }
}

/// No key has two diffs.
pub open spec fn distinct_keys<D: Diff>(diffs: Seq<D>) -> bool {
    forall|i: int, j: int|
        0 <= i < j < diffs.len() ==> (#[trigger] diffs[i]).key() != (#[trigger] diffs[j]).key()
}

/// The records that the first `n` diffs ask for: the block of each key of the plain state.
pub open spec fn brought_up<D: Diff>(tables: Tables, diffs: Seq<D>, n: int) -> Map<Seq<u8>, u64>
    decreases n,
{
    if n <= 0 {
        tables.recorded
    } else {
        let before = brought_up(tables, diffs, n - 1);
        if tables.plain.contains(diffs[n - 1].key()) {
            before.insert(diffs[n - 1].key(), diffs[n - 1].written_at())
        } else {
            before
        }
    }
}

/// How many of the first `n` diffs have a key in the plain state and another block recorded.
pub open spec fn outdated<D: Diff>(tables: Tables, diffs: Seq<D>, n: int) -> nat
    decreases n,
{
    if n <= 0 {
        0
    } else {
        outdated(tables, diffs, n - 1) + if tables.plain.contains(diffs[n - 1].key()) && found_in(
            tables.recorded,
            diffs[n - 1].key(),
        ) != Some(diffs[n - 1].written_at()) {
            1nat
        } else {
            0
        }
    }
}

/// How many of the first `n` diffs have a key that is not in the plain state.
pub open spec fn unknown<D: Diff>(tables: Tables, diffs: Seq<D>, n: int) -> nat
    decreases n,
{
    if n <= 0 {
        0
    } else {
        unknown(tables, diffs, n - 1) + if tables.plain.contains(diffs[n - 1].key()) {
            0nat
        } else {
            1
        }
    }
}

/// Keys that no diff asks for keep their records.
proof fn lemma_brought_up_elsewhere<D: Diff>(
    tables: Tables,
    diffs: Seq<D>,
    n: int,
    key: Seq<u8>,
)
    requires
        0 <= n <= diffs.len(),
        forall|i: int| 0 <= i < n ==> (#[trigger] diffs[i]).key() != key,
    ensures
        found_in(brought_up(tables, diffs, n), key) == found_in(tables.recorded, key),
    decreases n,
{
    if n > 0 {
        lemma_brought_up_elsewhere(tables, diffs, n - 1, key);
    }
}

/// The records once a pass has done some of its diffs, and what it has counted.
spec fn part_done<D: Diff>(pass: InjectView<D>, now: Tables, tables: Tables) -> bool {
    &&& pass.at <= pass.diffs.len()
    &&& pass.batch_size > 0
    &&& distinct_keys(pass.diffs)
    &&& now.plain == tables.plain
    &&& now.recorded == (if pass.dry_run {
        tables.recorded
    } else {
        brought_up(tables, pass.diffs, pass.at as int)
    })
    &&& pass.written == outdated(tables, pass.diffs, pass.at as int)
    &&& pass.missing == unknown(tables, pass.diffs, pass.at as int)
}

/// What one batch adds, diff by diff.
proof fn lemma_batch<D: Diff>(pass: InjectView<D>, now: Tables, tables: Tables, n: int)
    requires
        part_done(pass, now, tables),
        0 <= n <= batch(pass).len(),
        pass.at < pass.diffs.len(),
    ensures
        ({
            let chunk = batch(pass);
            let lookups = looked_up_in(chunk, now);
            let rows = to_write(chunk, lookups, n);
            &&& rows.len() + outdated(tables, pass.diffs, pass.at as int) == outdated(
                tables,
                pass.diffs,
                pass.at + n,
            )
            &&& missing_keys(lookups, n) + unknown(tables, pass.diffs, pass.at as int) == unknown(
                tables,
                pass.diffs,
                pass.at + n,
            )
            &&& !pass.dry_run ==> put_rows(now.recorded, rows, rows.len() as int) == brought_up(
                tables,
                pass.diffs,
                pass.at + n,
            )
        }),
    decreases n,
{
    if n > 0 {
        lemma_batch(pass, now, tables, n - 1);
        let chunk = batch(pass);
        let lookups = looked_up_in(chunk, now);
        let i = pass.at + n - 1;
        let diff = pass.diffs[i];
        assert(chunk[n - 1] == diff);
        let key = diff.key();
        assert forall|j: int| 0 <= j < i implies (#[trigger] pass.diffs[j]).key() != key by {}
        lemma_brought_up_elsewhere(tables, pass.diffs, pass.at as int, key);
        lemma_brought_up_elsewhere(tables, pass.diffs, i, key);
        assert(lookups[n - 1].current == found_in(tables.recorded, key));
        assert(lookups[n - 1].present == tables.plain.contains(key));
        let before = to_write(chunk, lookups, n - 1);
        let rows = to_write(chunk, lookups, n);
        if needs_write(diff, lookups[n - 1]) {
            assert(rows == before.push(diff));
            assert(rows.drop_last() =~= before);
            lemma_put_prefix(now.recorded, rows, before, before.len() as int);
        } else if tables.plain.contains(key) && !pass.dry_run {
            let held = brought_up(tables, pass.diffs, i);
            assert(found_in(held, key) == Some(diff.written_at()));
            assert(held.insert(key, diff.written_at()) =~= held);
        }
    }
}

/// Rows that come later do not count.
proof fn lemma_put_prefix<D: Diff>(
    recorded: Map<Seq<u8>, u64>,
    rows: Seq<D>,
    before: Seq<D>,
    n: int,
)
    requires
        0 <= n <= before.len() <= rows.len(),
        forall|i: int| 0 <= i < before.len() ==> rows[i] == before[i],
    ensures
        put_rows(recorded, rows, n) == put_rows(recorded, before, n),
    decreases n,
{
    if n > 0 {
        lemma_put_prefix(recorded, rows, before, n - 1);
    }
}

/// What a pass comes to from any point.
proof fn lemma_pass_from<D: Diff>(pass: InjectView<D>, now: Tables, tables: Tables)
    requires
        part_done(pass, now, tables),
    ensures
        ({
            let (end, after) = pass_end(pass, now);
            let n = pass.diffs.len() as int;
            &&& end.diffs == pass.diffs
            &&& end.dry_run == pass.dry_run
            &&& end.at == n
            &&& part_done(end, after, tables)
        }),
    decreases pass.diffs.len() - pass.at,
{
    if pass.at < pass.diffs.len() {
        let chunk = batch(pass);
        let lookups = looked_up_in(chunk, now);
        let rows = batch_rows(pass, lookups);
        lemma_batch(pass, now, tables, chunk.len() as int);
        let next = batch_done(pass, lookups);
        let after = Tables {
            recorded: put_rows(now.recorded, rows, rows.len() as int),
            ..now
        };
        assert(batch_end(pass) == pass.at + chunk.len());
        assert(part_done(next, after, tables));
        lemma_pass_from(next, after, tables);
    }
}

/// A pass that has done nothing yet.
pub open spec fn fresh<D>(diffs: Seq<D>, batch_size: nat, dry_run: bool) -> InjectView<D> {
    InjectView { diffs, at: 0, batch_size, dry_run, written: 0, missing: 0 }
}

/// A pass brings the record of every key of the plain state up to date and leaves all others
/// alone, whatever the size of its batches: it counts the rows that were outdated as written, and
/// the keys that are not in the plain state as missing. A dry run counts the same and leaves all
/// records as they are.
pub proof fn lemma_pass_brings_up_to_date<D: Diff>(
    diffs: Seq<D>,
    batch_size: nat,
    dry_run: bool,
    tables: Tables,
)
    requires
        batch_size > 0,
        distinct_keys(diffs),
    ensures
        ({
            let (end, after) = pass_end(fresh(diffs, batch_size, dry_run), tables);
            &&& end.at == diffs.len()
            &&& after.plain == tables.plain
            &&& after.recorded == (if dry_run {
                tables.recorded
            } else {
                brought_up(tables, diffs, diffs.len() as int)
            })
            &&& end.written == outdated(tables, diffs, diffs.len() as int)
            &&& end.missing == unknown(tables, diffs, diffs.len() as int)
        }),
{
    lemma_pass_from(fresh(diffs, batch_size, dry_run), tables, tables);
}

/// A second pass over the same diffs writes nothing: no row is counted as written, and the records
/// stay as the first pass left them.
pub proof fn lemma_second_pass_writes_nothing<D: Diff>(
    diffs: Seq<D>,
    batch_size: nat,
    again: nat,
    tables: Tables,
)
    requires
        batch_size > 0,
        again > 0,
        distinct_keys(diffs),
    ensures
        ({
            let (_, first) = pass_end(fresh(diffs, batch_size, false), tables);
            let (end, second) = pass_end(fresh(diffs, again, false), first);
            &&& end.written == 0
            &&& second.recorded == first.recorded
            &&& end.missing == unknown(tables, diffs, diffs.len() as int)
        }),
{
    let n = diffs.len() as int;
    let (_, first) = pass_end(fresh(diffs, batch_size, false), tables);
    lemma_pass_brings_up_to_date(diffs, batch_size, false, tables);
    lemma_pass_brings_up_to_date(diffs, again, false, first);
    lemma_nothing_outdated(diffs, tables, first, n);
}

/// Against records that were brought up to date no diff is outdated.
proof fn lemma_nothing_outdated<D: Diff>(diffs: Seq<D>, tables: Tables, first: Tables, n: int)
    requires
        0 <= n <= diffs.len(),
        distinct_keys(diffs),
        first.plain == tables.plain,
        first.recorded == brought_up(tables, diffs, diffs.len() as int),
    ensures
        outdated(first, diffs, n) == 0,
        brought_up(first, diffs, n) == first.recorded,
        unknown(first, diffs, n) == unknown(tables, diffs, n),
    decreases n,
{
    if n > 0 {
        lemma_nothing_outdated(diffs, tables, first, n - 1);
        let key = diffs[n - 1].key();
        if tables.plain.contains(key) {
            lemma_brought_up_at(tables, diffs, n - 1, diffs.len() as int);
            assert(first.recorded.insert(key, diffs[n - 1].written_at()) =~= first.recorded);
        }
    }
}

/// The record of a key of the plain state is the block of its diff.
proof fn lemma_brought_up_at<D: Diff>(tables: Tables, diffs: Seq<D>, i: int, n: int)
    requires
        0 <= i < n <= diffs.len(),
        distinct_keys(diffs),
        tables.plain.contains(diffs[i].key()),
    ensures
        found_in(brought_up(tables, diffs, n), diffs[i].key()) == Some(diffs[i].written_at()),
    decreases n,
{
    if i < n - 1 {
        lemma_brought_up_at(tables, diffs, i, n - 1);
        assert(diffs[i].key() != diffs[n - 1].key());
    }
}

} // verus!
