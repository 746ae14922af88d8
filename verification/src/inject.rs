//! Bringing the records of last writes up to date from a stream of diffs, batch by batch.
use vstd::prelude::*;
use vstd::slice::slice_subrange;

use crate::periods::{AccountDiff, StorageDiff};
use crate::primitives::{same_hash, B256};

verus! {

/// The number of rows written per transaction where none is given.
pub const DEFAULT_BATCH_SIZE: usize = 10_000;

/// A record of the last write of something.
pub trait Diff: Sized + Copy {
    /// The key of the row that holds the record.
    spec fn key(&self) -> Seq<u8>;

    /// The block of the last write.
    spec fn written_at(&self) -> u64;

    /// The block of the last write.
    fn block(&self) -> (block: u64)
        ensures
            block == self.written_at(),
    ;
}

impl Diff for AccountDiff {
    open spec fn key(&self) -> Seq<u8> {
        self.address@
    }

    open spec fn written_at(&self) -> u64 {
        self.block
    }

    fn block(&self) -> (block: u64) {
        self.block
    }
}

impl Diff for StorageDiff {
    open spec fn key(&self) -> Seq<u8> {
        self.address@ + self.slot@
    }

    open spec fn written_at(&self) -> u64 {
        self.block
    }

    fn block(&self) -> (block: u64) {
        self.block
    }
}

/// What the tables hold for a diff: whether the account or slot is in the plain state, and the
/// recorded block of its last write.
#[derive(Debug, Clone, Copy, PartialEq, Eq)]
pub struct Lookup {
    pub present: bool,
    pub current: Option<u64>,
}

/// What the tables hold for a storage diff. The search of the plain state finds the first slot of
/// the account at or after the one that is looked for; only that very slot counts.
pub fn slot_lookup(diff: &StorageDiff, found: &Option<B256>, current: Option<u64>) -> (r: Lookup)
    ensures
        r.present <==> (found matches Some(slot) && slot@ == diff.slot@),
        r.current == current,
{
    let present: bool = match found {
        Some(slot) => same_hash(slot, &diff.slot),
        None => false,
    };
    Lookup { present, current }
}

/// The row of a diff is to be written: the key is in the plain state, and the record differs.
pub open spec fn needs_write<D: Diff>(diff: D, lookup: Lookup) -> bool {
    lookup.present && lookup.current != Some(diff.written_at())
}

/// The diffs among the first `n` whose rows are to be written.
pub open spec fn to_write<D: Diff>(chunk: Seq<D>, lookups: Seq<Lookup>, n: int) -> Seq<D>
    decreases n,
{
    if n <= 0 {
        Seq::empty()
    } else if needs_write(chunk[n - 1], lookups[n - 1]) {
        to_write(chunk, lookups, n - 1).push(chunk[n - 1])
    } else {
        to_write(chunk, lookups, n - 1)
    }
}

/// How many of the first `n` keys are not in the plain state.
pub open spec fn missing_keys(lookups: Seq<Lookup>, n: int) -> nat
    decreases n,
{
    if n <= 0 {
        0
    } else {
        missing_keys(lookups, n - 1) + if lookups[n - 1].present {
            0nat
        } else {
            1
        }
    }
}

/// The diffs whose rows are to be written, and how many keys are not in the plain state.
pub fn needing_write<D: Diff>(chunk: &[D], lookups: &[Lookup]) -> (r: (Vec<D>, u64))
    requires
        chunk@.len() == lookups@.len(),
    ensures
        r.0@ == to_write(chunk@, lookups@, chunk@.len() as int),
        r.1 == missing_keys(lookups@, chunk@.len() as int),
        r.0@.len() + r.1 <= chunk@.len(),
{
    let mut rows: Vec<D> = Vec::new();
    let mut missing: u64 = 0;
    let mut i: usize = 0;
    assert(chunk@.len() == chunk.len());
    while i < chunk.len()
        invariant
            i <= chunk@.len() == lookups@.len(),
            chunk@.len() <= usize::MAX,
            rows@ == to_write(chunk@, lookups@, i as int),
            missing == missing_keys(lookups@, i as int),
            rows@.len() + missing <= i,
        decreases chunk.len() - i,
    {
        let diff: D = chunk[i];
        if !lookups[i].present {
            missing = missing + 1;
        } else {
            let same: bool = match lookups[i].current {
                Some(block) => block == diff.block(),
                None => false,
            };
            if !same {
                rows.push(diff);
            }
        }
        i = i + 1;
    }
    (rows, missing)
}

/// The accounts of a batch whose rows are to be written, and how many are not in the plain state.
pub fn accounts_needing_write(chunk: &[AccountDiff], lookups: &[Lookup]) -> (r: (
    Vec<AccountDiff>,
    u64,
))
    requires
        chunk@.len() == lookups@.len(),
    ensures
        r.0@ == to_write(chunk@, lookups@, chunk@.len() as int),
        r.1 == missing_keys(lookups@, chunk@.len() as int),
{
    needing_write(chunk, lookups)
}

/// The slots of a batch whose rows are to be written, and how many are not in the plain state.
pub fn storage_needing_write(chunk: &[StorageDiff], lookups: &[Lookup]) -> (r: (
    Vec<StorageDiff>,
    u64,
))
    requires
        chunk@.len() == lookups@.len(),
    ensures
        r.0@ == to_write(chunk@, lookups@, chunk@.len() as int),
        r.1 == missing_keys(lookups@, chunk@.len() as int),
{
    needing_write(chunk, lookups)
}

/// A pass over some diffs, batch by batch.
pub struct Injector<D: Diff> {
    diffs: Vec<D>,
    at: usize,
    batch_size: usize,
    dry_run: bool,
    written: u64,
    missing: u64,
}

/// What a pass is, as mathematical values.
pub struct InjectView<D> {
    pub diffs: Seq<D>,
    /// How many diffs are done.
    pub at: nat,
    pub batch_size: nat,
    pub dry_run: bool,
    /// How many rows were written, or would have been in a dry run.
    pub written: nat,
    /// How many keys were not in the plain state.
    pub missing: nat,
}

impl<D: Diff> View for Injector<D> {
    type V = InjectView<D>;

    closed spec fn view(&self) -> InjectView<D> {
        InjectView {
            diffs: self.diffs@,
            at: self.at as nat,
            batch_size: self.batch_size as nat,
            dry_run: self.dry_run,
            written: self.written as nat,
            missing: self.missing as nat,
        }
    }
}

/// Where the batch at hand ends.
pub open spec fn batch_end<D>(pass: InjectView<D>) -> int {
    if pass.diffs.len() - pass.at <= pass.batch_size {
        pass.diffs.len() as int
    } else {
        (pass.at + pass.batch_size) as int
    }
}

/// The batch at hand.
pub open spec fn batch<D>(pass: InjectView<D>) -> Seq<D> {
    pass.diffs.subrange(pass.at as int, batch_end(pass))
}

/// The pass once the tables were looked up for the batch at hand.
pub open spec fn batch_done<D: Diff>(pass: InjectView<D>, lookups: Seq<Lookup>) -> InjectView<D> {
    let chunk = batch(pass);
    InjectView {
        at: batch_end(pass) as nat,
        written: pass.written + to_write(chunk, lookups, chunk.len() as int).len(),
        missing: pass.missing + missing_keys(lookups, chunk.len() as int),
        ..pass
    }
}

/// The rows to put for the batch at hand; none in a dry run.
pub open spec fn batch_rows<D: Diff>(pass: InjectView<D>, lookups: Seq<Lookup>) -> Seq<D> {
    let chunk = batch(pass);
    if pass.dry_run {
        Seq::empty()
    } else {
        to_write(chunk, lookups, chunk.len() as int)
    }
}

impl<D: Diff> Injector<D> {
    /// The state of a pass is consistent.
    #[verifier::type_invariant]
    pub open spec fn well_formed(self) -> bool {
        &&& self@.at <= self@.diffs.len() <= usize::MAX
        &&& self@.batch_size > 0
        &&& self@.written + self@.missing <= self@.at
    }

    /// A pass over these diffs that has done nothing yet.
    pub fn new(diffs: Vec<D>, batch_size: usize, dry_run: bool) -> (pass: Self)
        requires
            batch_size > 0,
        ensures
            pass@ == (InjectView {
                diffs: diffs@,
                at: 0,
                batch_size: batch_size as nat,
                dry_run,
                written: 0,
                missing: 0,
            }),
    {
        assert(diffs@.len() == diffs.len());
        Injector { diffs, at: 0, batch_size, dry_run, written: 0, missing: 0 }
    }

    /// The batch at hand, for which the tables are to be looked up; empty when all diffs are done.
    pub fn batch(&self) -> (chunk: &[D])
        ensures
            chunk@ == batch(self@),
            chunk@.len() == 0 <==> self@.at == self@.diffs.len(),
    {
        proof {
            use_type_invariant(self);
        }
        let end: usize = self.end();
        slice_subrange(self.diffs.as_slice(), self.at, end)
    }

    /// Where the batch at hand ends.
    fn end(&self) -> (end: usize)
        ensures
            end == batch_end(self@),
            self@.at <= end <= self@.diffs.len(),
            end == self@.at <==> self@.at == self@.diffs.len(),
    {
        proof {
            use_type_invariant(self);
        }
        if self.diffs.len() - self.at <= self.batch_size {
            self.diffs.len()
        } else {
            self.at + self.batch_size
        }
    }

    /// Takes in what the tables hold for the batch at hand, counts, and returns the rows to put:
    /// those whose key is in the plain state and whose record differs, or none in a dry run.
    pub fn looked_up(&mut self, lookups: &[Lookup]) -> (rows: Vec<D>)
        requires
            lookups@.len() == batch(old(self)@).len(),
        ensures
            final(self)@ == batch_done(old(self)@, lookups@),
            rows@ == batch_rows(old(self)@, lookups@),
    {
        proof {
            use_type_invariant(&*self);
        }
        let end: usize = self.end();
        let chunk: &[D] = slice_subrange(self.diffs.as_slice(), self.at, end);
        let (rows, missing): (Vec<D>, u64) = needing_write(chunk, lookups);
        let dry_run: bool = self.dry_run;
        let count: u64 = rows.len() as u64;
        let written: u64 = self.written + count;
        let missing: u64 = self.missing + missing;
        self.at = end;
        self.written = written;
        self.missing = missing;
        if dry_run {
            let none: Vec<D> = Vec::new();
            assert(none@ =~= Seq::<D>::empty());
            none
        } else {
            rows
        }
    }

    /// How many diffs there are.
    pub fn seen(&self) -> (n: u64)
        ensures
            n == self@.diffs.len(),
    {
        assert(self.diffs@.len() == self.diffs.len());
        self.diffs.len() as u64
    }

    /// How many rows were written, or would have been in a dry run.
    pub fn written(&self) -> (n: u64)
        ensures
            n == self@.written,
    {
        self.written
    }

    /// How many keys were not in the plain state.
    pub fn missing(&self) -> (n: u64)
        ensures
            n == self@.missing,
    {
        self.missing
    }
}

/// Counters of one run.
#[derive(Debug, Clone, Copy, PartialEq, Eq, Structural)]
pub struct Stats {
    pub account_diffs_seen: u64,
    pub account_rows_written: u64,
    pub account_rows_missing_plain_state: u64,
    pub storage_diffs_seen: u64,
    pub storage_rows_written: u64,
    pub storage_rows_missing_plain_state: u64,
}

impl Stats {
    /// The counters of a run that made these two passes.
    pub fn of_passes(accounts: &Injector<AccountDiff>, storage: &Injector<StorageDiff>) -> (r: Self)
        ensures
            r.account_diffs_seen == accounts@.diffs.len(),
            r.account_rows_written == accounts@.written,
            r.account_rows_missing_plain_state == accounts@.missing,
            r.storage_diffs_seen == storage@.diffs.len(),
            r.storage_rows_written == storage@.written,
            r.storage_rows_missing_plain_state == storage@.missing,
    {
        Stats {
            account_diffs_seen: accounts.seen(),
            account_rows_written: accounts.written(),
            account_rows_missing_plain_state: accounts.missing(),
            storage_diffs_seen: storage.seen(),
            storage_rows_written: storage.written(),
            storage_rows_missing_plain_state: storage.missing(),
        }
    }
}

/// A batch is the next diffs in order, as many as a batch has or as are left.
pub proof fn lemma_batches_in_order<D: Diff>(pass: InjectView<D>)
    requires
        pass.at <= pass.diffs.len(),
    ensures
        batch(pass).len() == if pass.diffs.len() - pass.at < pass.batch_size {
            pass.diffs.len() - pass.at
        } else {
            pass.batch_size as int
        },
        forall|i: int|
            0 <= i < batch(pass).len() ==> #[trigger] batch(pass)[i] == pass.diffs[pass.at + i],
{
}

/// A row is to be written exactly where its key is in the plain state and another block, or none,
/// is recorded: an earlier block takes the place of a later one as well.
pub proof fn lemma_rows_to_write<D: Diff>(diff: D, lookup: Lookup)
    ensures
        !lookup.present ==> !needs_write(diff, lookup),
        lookup.present && lookup.current is None ==> needs_write(diff, lookup),
        lookup.present && lookup.current is Some ==> (needs_write(diff, lookup)
            <==> lookup.current->0 != diff.written_at()),
{
}

/// Each diff is looked at for itself: what is to be written of some and then of others is what is
/// to be written of all, and the missing keys add up.
pub proof fn lemma_diffs_are_looked_at_apart<D: Diff>(
    a: Seq<D>,
    b: Seq<D>,
    x: Seq<Lookup>,
    y: Seq<Lookup>,
    n: int,
)
    requires
        a.len() == x.len(),
        b.len() == y.len(),
        0 <= n <= b.len(),
    ensures
        to_write(a + b, x + y, a.len() + n) == to_write(a, x, a.len() as int) + to_write(b, y, n),
        missing_keys(x + y, a.len() + n) == missing_keys(x, a.len() as int) + missing_keys(y, n),
    decreases n,
{
    let first = to_write(a, x, a.len() as int);
    if n == 0 {
        lemma_diffs_prefix(a, b, x, y, a.len() as int);
        assert(first + Seq::<D>::empty() =~= first);
    } else {
        lemma_diffs_are_looked_at_apart(a, b, x, y, n - 1);
        assert((a + b)[a.len() + n - 1] == b[n - 1]);
        assert((x + y)[a.len() + n - 1] == y[n - 1]);
        assert(to_write(a + b, x + y, a.len() + n) =~= first + to_write(b, y, n));
    }
}

/// Diffs that come later do not count.
proof fn lemma_diffs_prefix<D: Diff>(
    a: Seq<D>,
    b: Seq<D>,
    x: Seq<Lookup>,
    y: Seq<Lookup>,
    n: int,
)
    requires
        a.len() == x.len(),
        0 <= n <= a.len(),
    ensures
        to_write(a + b, x + y, n) == to_write(a, x, n),
        missing_keys(x + y, n) == missing_keys(x, n),
    decreases n,
{
    if n > 0 {
        lemma_diffs_prefix(a, b, x, y, n - 1);
        assert((a + b)[n - 1] == a[n - 1]);
        assert((x + y)[n - 1] == x[n - 1]);
    }
}

/// A diff alone is written where its key is in the plain state under another block or under none,
/// and counts as missing exactly where its key is not in the plain state.
pub proof fn lemma_one_diff<D: Diff>(diff: D, lookup: Lookup)
    ensures
        lookup.present && lookup.current != Some(diff.written_at()) ==> to_write(
            seq![diff],
            seq![lookup],
            1,
        ) == seq![diff],
        !(lookup.present && lookup.current != Some(diff.written_at())) ==> to_write(
            seq![diff],
            seq![lookup],
            1,
        ) == Seq::<D>::empty(),
        missing_keys(seq![lookup], 1) == if lookup.present {
            0nat
        } else {
            1
        },
{
    reveal_with_fuel(to_write, 2);
    reveal_with_fuel(missing_keys, 2);
    assert(Seq::<D>::empty().push(diff) =~= seq![diff]);
}

/// Looking up a batch moves a pass behind it and adds to its counters, in a dry run as well; what
/// it puts is what it counts as written, or nothing in a dry run.
pub proof fn lemma_batch_is_counted<D: Diff>(pass: InjectView<D>, lookups: Seq<Lookup>)
    requires
        pass.at <= pass.diffs.len(),
        lookups.len() == batch(pass).len(),
    ensures
        ({
            let n = lookups.len() as int;
            let done = batch_done(pass, lookups);
            &&& done.at == pass.at + n
            &&& done.diffs == pass.diffs
            &&& done.batch_size == pass.batch_size
            &&& done.dry_run == pass.dry_run
            &&& done.written == pass.written + to_write(batch(pass), lookups, n).len()
            &&& done.missing == pass.missing + missing_keys(lookups, n)
            &&& pass.dry_run ==> batch_rows(pass, lookups) == Seq::<D>::empty()
            &&& !pass.dry_run ==> batch_rows(pass, lookups) == to_write(batch(pass), lookups, n)
        }),
{
}

} // verus!
