use vstd::prelude::*;

use crate::metrics::{Metrics, inc_i64, peak_after};
use crate::models::{FileRecord, record_view, records_view, batches_view};
use crate::platform::{DirEntry, EntryType, entries_view};
use crate::symlink::SymlinkGuard;

verus! {

broadcast use vstd::seq_lib::group_seq_properties;

/// Records per batch that a worker hands to the writer.
pub const FILE_BATCH_SIZE: usize = 256;

/// Records that the writer gathers before it commits one transaction.
pub const SUPER_BATCH_SIZE: usize = 8192;

/// Capacity of the channel that carries record batches to the writer.
pub const FILE_CHANNEL_CAP: usize = 8192;

/// What a scan does with one entry of a directory listing.
#[derive(Debug, PartialEq, Eq, Structural, Clone, Copy)]
pub enum EntryOutcome {
    /// The name starts with `.`: skipped.
    Hidden,
    /// A symbolic link: counted, never followed.
    SymlinkSkipped,
    /// A directory whose inode was seen before: counted, not entered again.
    CycleDetected,
    /// A directory seen for the first time: recorded and queued.
    Descend,
    /// A file: counted and recorded.
    FileFound,
    /// Anything else: ignored.
    Ignored,
}

/// A subdirectory to queue for reading: its name within the directory just
/// read and its inode (the parent inode of its own entries).
#[derive(Debug)]
pub struct Subdir {
    pub name: String,
    pub inode: u64,
}

/// What handling one directory listing asks the worker to do: queue these
/// subdirectories, and send these full record batches to the writer.
#[derive(Debug)]
pub struct ListingPlan {
    pub subdirs: Vec<Subdir>,
    pub batches: Vec<Vec<FileRecord>>,
}

/// An entry name that starts with `.`.
pub open spec fn is_hidden(name: Seq<char>) -> bool {
    name.len() > 0 && name[0] == '.'
}

/// Whether the entry is a visible directory, whose inode the guard checks.
pub open spec fn is_dir_candidate(e: (Seq<char>, EntryType, u64)) -> bool {
    !is_hidden(e.0) && e.1 == EntryType::Dir
}

/// The inodes that the guard holds before entry `i` is handled: those it
/// held before the listing, and those of the visible directories before `i`.
pub open spec fn marked_before(
    entries: Seq<(Seq<char>, EntryType, u64)>,
    i: int,
    visited: Set<u64>,
) -> Set<u64>
    decreases i,
{
    if i <= 0 {
        visited
    } else {
        let prev = marked_before(entries, i - 1, visited);
        if is_dir_candidate(entries[i - 1]) {
            prev.insert(entries[i - 1].2)
        } else {
            prev
        }
    }
}

/// What happens to entry `i` of a listing, given the inodes seen before.
pub open spec fn outcome(
    entries: Seq<(Seq<char>, EntryType, u64)>,
    i: int,
    visited: Set<u64>,
) -> EntryOutcome {
    let e = entries[i];
    if is_hidden(e.0) {
        EntryOutcome::Hidden
    } else {
        match e.1 {
            EntryType::Symlink => EntryOutcome::SymlinkSkipped,
            EntryType::Dir => if marked_before(entries, i, visited).contains(e.2) {
                EntryOutcome::CycleDetected
            } else {
                EntryOutcome::Descend
            },
            EntryType::File => EntryOutcome::FileFound,
            EntryType::Other => EntryOutcome::Ignored,
        }
    }
}

/// The records that the first `n` entries produce: one for each directory
/// entered and each file, in listing order, all under `parent`.
pub open spec fn records_upto(
    entries: Seq<(Seq<char>, EntryType, u64)>,
    n: int,
    visited: Set<u64>,
    parent: u64,
) -> Seq<(u64, u64, Seq<char>, bool)>
    decreases n,
{
    if n <= 0 {
        seq![]
    } else {
        let prev = records_upto(entries, n - 1, visited, parent);
        let e = entries[n - 1];
        match outcome(entries, n - 1, visited) {
            EntryOutcome::Descend => prev.push((e.2, parent, e.0, true)),
            EntryOutcome::FileFound => prev.push((e.2, parent, e.0, false)),
            _ => prev,
        }
    }
}

/// The subdirectories (name, inode) that the first `n` entries queue.
pub open spec fn subdirs_upto(
    entries: Seq<(Seq<char>, EntryType, u64)>,
    n: int,
    visited: Set<u64>,
) -> Seq<(Seq<char>, u64)>
    decreases n,
{
    if n <= 0 {
        seq![]
    } else {
        let prev = subdirs_upto(entries, n - 1, visited);
        let e = entries[n - 1];
        if outcome(entries, n - 1, visited) == EntryOutcome::Descend {
            prev.push((e.0, e.2))
        } else {
            prev
        }
    }
}

/// How many of the first `n` entries have outcome `o`.
pub open spec fn count_upto(
    entries: Seq<(Seq<char>, EntryType, u64)>,
    n: int,
    visited: Set<u64>,
    o: EntryOutcome,
) -> nat
    decreases n,
{
    if n <= 0 {
        0
    } else {
        count_upto(entries, n - 1, visited, o) + if outcome(entries, n - 1, visited) == o {
            1nat
        } else {
            0nat
        }
    }
}

/// A subdirectory as plain values.
pub open spec fn subdirs_view(s: Seq<Subdir>) -> Seq<(Seq<char>, u64)> {
    s.map_values(|d: Subdir| (d.name@, d.inode))
}

/// The in-flight count and peak after `k` directories are queued one by
/// one, the peak following each increment.
pub open spec fn enqueue_n(in_flight: i64, peak: usize, k: nat) -> (i64, usize)
    decreases k,
{
    if k == 0 {
        (in_flight, peak)
    } else {
        let (f, p) = enqueue_n(in_flight, peak, (k - 1) as nat);
        (inc_i64(f), peak_after(p, inc_i64(f)))
    }
}

/// `x + k` on a wrapping `usize` counter.
pub open spec fn add_wrapping(x: usize, k: nat) -> usize {
    ((x + k) % (usize::MAX as int + 1)) as usize
}

/// The size of the batches that a batcher hands out: its batch size, or 1
/// for a batch size of 0 (every record is then sent at once).
pub open spec fn effective_batch_size(batch_size: usize) -> nat {
    if batch_size == 0 {
        1
    } else {
        batch_size as nat
    }
}

/// Gathers a worker's records into batches of `batch_size`, as the worker
/// sends them to the writer. Fewer records than make a full batch are ever
/// pending.
pub struct RecordBatcher {
    records: Vec<FileRecord>,
    batch_size: usize,
}

impl RecordBatcher {
    #[verifier::type_invariant]
    closed spec fn inv(self) -> bool {
        self.records@.len() < effective_batch_size(self.batch_size)
    }

    /// The records gathered and not yet handed out.
    pub closed spec fn pending(&self) -> Seq<(u64, u64, Seq<char>, bool)> {
        records_view(self.records@)
    }

    /// The size of a full batch.
    pub closed spec fn batch_size(&self) -> usize {
        self.batch_size
    }

    /// An empty batcher that hands out batches of `batch_size` records.
    pub fn new(batch_size: usize) -> (b: Self)
        ensures
            b.pending() == Seq::<(u64, u64, Seq<char>, bool)>::empty(),
            b.batch_size() == batch_size,
    {
        let b = RecordBatcher { records: Vec::new(), batch_size };
        assert(b.pending() =~= Seq::<(u64, u64, Seq<char>, bool)>::empty());
        b
    }

    /// Adds a record; returns the batch it completes, if any.
    pub fn push(&mut self, record: FileRecord) -> (full: Option<Vec<FileRecord>>)
        ensures
            final(self).batch_size() == old(self).batch_size(),
            final(self).pending().len() < effective_batch_size(final(self).batch_size()),
            match full {
                Some(batch) => {
                    &&& records_view(batch@) == old(self).pending().push(record_view(record))
                    &&& batch@.len() == effective_batch_size(old(self).batch_size())
                    &&& final(self).pending() == Seq::<(u64, u64, Seq<char>, bool)>::empty()
                },
                None => final(self).pending() == old(self).pending().push(record_view(record)),
            },
    {
        proof {
            use_type_invariant(&*self);
        }
        let ghost before = self.pending();
        let mut recs = Vec::new();
        std::mem::swap(&mut recs, &mut self.records);
        recs.push(record);
        assert(records_view(recs@) =~= before.push(record_view(record)));
        if recs.len() >= self.batch_size {
            assert(self.pending() =~= Seq::<(u64, u64, Seq<char>, bool)>::empty());
            Some(recs)
        } else {
            self.records = recs;
            None
        }
    }

    /// Hands out the records still pending (the last, partial batch).
    pub fn take_remaining(&mut self) -> (rest: Vec<FileRecord>)
        ensures
            final(self).batch_size() == old(self).batch_size(),
            records_view(rest@) == old(self).pending(),
            rest@.len() < effective_batch_size(old(self).batch_size()),
            final(self).pending() == Seq::<(u64, u64, Seq<char>, bool)>::empty(),
    {
        proof {
            use_type_invariant(&*self);
        }
        let mut rest = Vec::new();
        std::mem::swap(&mut rest, &mut self.records);
        assert(self.pending() =~= Seq::<(u64, u64, Seq<char>, bool)>::empty());
        rest
    }
}

/// The writer's side of a scan: counts the records that arrive and gathers
/// them into transactions of at least `SUPER_BATCH_SIZE` records.
pub struct RecordCollector {
    pending: Vec<FileRecord>,
    total: usize,
}

impl RecordCollector {
    /// The records gathered and not yet handed out for writing.
    pub closed spec fn pending(&self) -> Seq<(u64, u64, Seq<char>, bool)> {
        records_view(self.pending@)
    }

    /// How many records have arrived so far.
    pub closed spec fn total(&self) -> nat {
        self.total as nat
    }

    /// A collector that has received nothing.
    pub fn new() -> (c: Self)
        ensures
            c.pending() == Seq::<(u64, u64, Seq<char>, bool)>::empty(),
            c.total() == 0,
    {
        let c = RecordCollector { pending: Vec::new(), total: 0 };
        assert(c.pending() =~= Seq::<(u64, u64, Seq<char>, bool)>::empty());
        c
    }

    /// Takes a batch from a worker; returns the records to write in one
    /// transaction once `SUPER_BATCH_SIZE` of them have gathered.
    pub fn accept(&mut self, batch: Vec<FileRecord>) -> (commit: Option<Vec<FileRecord>>)
        requires
            old(self).total() + batch@.len() <= usize::MAX,
        ensures
            final(self).total() == old(self).total() + batch@.len(),
            match commit {
                Some(c) => {
                    &&& records_view(c@) == old(self).pending() + records_view(batch@)
                    &&& c@.len() >= SUPER_BATCH_SIZE
                    &&& final(self).pending() == Seq::<(u64, u64, Seq<char>, bool)>::empty()
                },
                None => {
                    &&& final(self).pending() == old(self).pending() + records_view(batch@)
                    &&& final(self).pending().len() < SUPER_BATCH_SIZE
                },
            },
    {
        let ghost before = self.pending();
        let mut batch = batch;
        let ghost added = records_view(batch@);
        self.total = self.total + batch.len();
        self.pending.append(&mut batch);
        assert(self.pending() =~= before + added);
        if self.pending.len() >= SUPER_BATCH_SIZE {
            let mut commit = Vec::new();
            std::mem::swap(&mut commit, &mut self.pending);
            assert(self.pending() =~= Seq::<(u64, u64, Seq<char>, bool)>::empty());
            Some(commit)
        } else {
            None
        }
    }

    /// Hands out the records still gathered (the last transaction).
    pub fn take_remaining(&mut self) -> (rest: Vec<FileRecord>)
        ensures
            records_view(rest@) == old(self).pending(),
            final(self).pending() == Seq::<(u64, u64, Seq<char>, bool)>::empty(),
            final(self).total() == old(self).total(),
    {
        let mut rest = Vec::new();
        std::mem::swap(&mut rest, &mut self.pending);
        assert(self.pending() =~= Seq::<(u64, u64, Seq<char>, bool)>::empty());
        rest
    }

    /// How many records have arrived so far.
    pub fn total_files(&self) -> (n: usize)
        ensures
            n == self.total(),
    {
        self.total
    }
}


proof fn lemma_batches_push(bs: Seq<Vec<FileRecord>>, b: Vec<FileRecord>)
    ensures
        batches_view(bs.push(b)) == batches_view(bs) + records_view(b@),
{
    let f = |x: Vec<FileRecord>| records_view(x@);
    assert(bs.push(b).map_values(f) =~= bs.map_values(f).push(records_view(b@)));
    bs.map_values(f).lemma_flatten_push(records_view(b@));
}

proof fn lemma_marked_before_step(
    entries: Seq<(Seq<char>, EntryType, u64)>,
    i: int,
    visited: Set<u64>,
)
    requires
        0 <= i,
    ensures
        marked_before(entries, i + 1, visited) == (if is_dir_candidate(entries[i]) {
            marked_before(entries, i, visited).insert(entries[i].2)
        } else {
            marked_before(entries, i, visited)
        }),
{
}

/// Handles one directory listing: skips hidden entries, counts symbolic
/// links, checks each visible directory against the guard (a directory seen
/// before is counted as a cycle), counts files, records every directory
/// entered and every file under `parent_inode`, and gathers the records in
/// the worker's batcher. Each directory to enter counts as in flight from
/// here on (with the peak kept up to date), as it is about to be queued.
/// Returns the subdirectories to queue and the full batches to send; a
/// failed send, and the end of this directory, are the worker's to count.
pub fn plan_listing(
    guard: &mut SymlinkGuard,
    metrics: &mut Metrics,
    batcher: &mut RecordBatcher,
    parent_inode: u64,
    entries: &Vec<DirEntry>,
) -> (plan: ListingPlan)
    ensures
        final(batcher).batch_size() == old(batcher).batch_size(),
        final(guard)@ == marked_before(entries_view(entries@), entries@.len() as int, old(guard)@),
        subdirs_view(plan.subdirs@) == subdirs_upto(
            entries_view(entries@),
            entries@.len() as int,
            old(guard)@,
        ),
        batches_view(plan.batches@) + final(batcher).pending() == old(batcher).pending()
            + records_upto(entries_view(entries@), entries@.len() as int, old(guard)@, parent_inode),
        forall|k: int|
            0 <= k < plan.batches@.len() ==> #[trigger] plan.batches@[k]@.len()
                == effective_batch_size(old(batcher).batch_size()),
        final(metrics).files_found == add_wrapping(
            old(metrics).files_found,
            count_upto(
                entries_view(entries@),
                entries@.len() as int,
                old(guard)@,
                EntryOutcome::FileFound,
            ),
        ),
        final(metrics).symlinks_skipped == add_wrapping(
            old(metrics).symlinks_skipped,
            count_upto(
                entries_view(entries@),
                entries@.len() as int,
                old(guard)@,
                EntryOutcome::SymlinkSkipped,
            ),
        ),
        final(metrics).cycles_detected == add_wrapping(
            old(metrics).cycles_detected,
            count_upto(
                entries_view(entries@),
                entries@.len() as int,
                old(guard)@,
                EntryOutcome::CycleDetected,
            ),
        ),
        (final(metrics).in_flight, final(metrics).peak_in_flight) == enqueue_n(
            old(metrics).in_flight,
            old(metrics).peak_in_flight,
            plan.subdirs@.len(),
        ),
        final(metrics).dirs_scanned == old(metrics).dirs_scanned,
        final(metrics).dirs_failed == old(metrics).dirs_failed,
{
    let ghost ev = entries_view(entries@);
    let ghost visited0 = guard@;
    let ghost pending0 = batcher.pending();
    let mut subdirs: Vec<Subdir> = Vec::new();
    let mut batches: Vec<Vec<FileRecord>> = Vec::new();
    let mut files: usize = 0;
    let mut symlinks: usize = 0;
    let mut cycles: usize = 0;
    let n = entries.len();
    let mut i: usize = 0;
    while i < n
        invariant
            n == entries@.len(),
            ev == entries_view(entries@),
            i <= n,
            batcher.batch_size() == old(batcher).batch_size(),
            pending0 == old(batcher).pending(),
            visited0 == old(guard)@,
            guard@ == marked_before(ev, i as int, visited0),
            subdirs_view(subdirs@) == subdirs_upto(ev, i as int, visited0),
            batches_view(batches@) + batcher.pending() == pending0 + records_upto(
                ev,
                i as int,
                visited0,
                parent_inode,
            ),
            forall|k: int|
                0 <= k < batches@.len() ==> #[trigger] batches@[k]@.len() == effective_batch_size(
                    old(batcher).batch_size(),
                ),
            files == count_upto(ev, i as int, visited0, EntryOutcome::FileFound),
            (metrics.in_flight, metrics.peak_in_flight) == enqueue_n(
                old(metrics).in_flight,
                old(metrics).peak_in_flight,
                subdirs@.len(),
            ),
            metrics.files_found == old(metrics).files_found,
            metrics.symlinks_skipped == old(metrics).symlinks_skipped,
            metrics.cycles_detected == old(metrics).cycles_detected,
            metrics.dirs_scanned == old(metrics).dirs_scanned,
            metrics.dirs_failed == old(metrics).dirs_failed,
            symlinks == count_upto(ev, i as int, visited0, EntryOutcome::SymlinkSkipped),
            cycles == count_upto(ev, i as int, visited0, EntryOutcome::CycleDetected),
            files <= i,
            symlinks <= i,
            cycles <= i,
        decreases n - i,
    {
        let entry = &entries[i];
        let ghost e = ev[i as int];
        assert(e == entry_view_of(entry));
        proof {
            lemma_marked_before_step(ev, i as int, visited0);
        }
        let ghost recs_before = records_upto(ev, i as int, visited0, parent_inode);
        let ghost subs_before = subdirs_view(subdirs@);
        let hidden = name_is_hidden(&entry.name);
        if hidden {
        } else {
            match entry.entry_type {
                EntryType::Symlink => {
                    symlinks = symlinks + 1;
                },
                EntryType::Dir => {
                    if !guard.check_and_mark(entry.inode) {
                        cycles = cycles + 1;
                    } else {
                        metrics.dir_enqueued();
                        subdirs.push(Subdir { name: entry.name.clone(), inode: entry.inode });
                        assert(subdirs_view(subdirs@) =~= subs_before.push((e.0, e.2)));
                        let record = FileRecord {
                            inode: entry.inode,
                            parent_inode,
                            name: entry.name.clone(),
                            is_dir: true,
                        };
                        let ghost bv = batches_view(batches@);
                        let ghost pb = batcher.pending();
                        let ghost rv = record_view(record);
                        if let Some(batch) = batcher.push(record) {
                            proof {
                                lemma_batches_push(batches@, batch);
                            }
                            batches.push(batch);
                        }
                        assert(bv + pb == pending0 + recs_before);
                        assert(rv == (e.2, parent_inode, e.0, true));
                        assert((bv + pb).push(rv) =~= bv + pb.push(rv));
                        assert(batches_view(batches@) + batcher.pending() =~= pending0
                            + recs_before.push((e.2, parent_inode, e.0, true)));
                    }
                },
                EntryType::File => {
                    files = files + 1;
                    let record = FileRecord {
                        inode: entry.inode,
                        parent_inode,
                        name: entry.name.clone(),
                        is_dir: false,
                    };
                    let ghost bv = batches_view(batches@);
                    let ghost pb = batcher.pending();
                    let ghost rv = record_view(record);
                    if let Some(batch) = batcher.push(record) {
                        proof {
                            lemma_batches_push(batches@, batch);
                        }
                        batches.push(batch);
                    }
                    assert(bv + pb == pending0 + recs_before);
                    assert(rv == (e.2, parent_inode, e.0, false));
                    assert((bv + pb).push(rv) =~= bv + pb.push(rv));
                    assert(batches_view(batches@) + batcher.pending() =~= pending0
                        + recs_before.push((e.2, parent_inode, e.0, false)));
                },
                EntryType::Other => {},
            }
        }
        i = i + 1;
    }
    metrics.files_found = add_counter(metrics.files_found, files);
    metrics.symlinks_skipped = add_counter(metrics.symlinks_skipped, symlinks);
    metrics.cycles_detected = add_counter(metrics.cycles_detected, cycles);
    ListingPlan { subdirs, batches }
}

spec fn entry_view_of(e: &DirEntry) -> (Seq<char>, EntryType, u64) {
    (e.name@, e.entry_type, e.inode)
}

fn add_counter(x: usize, k: usize) -> (r: usize)
    ensures
        r == add_wrapping(x, k as nat),
{
    let r = x.wrapping_add(k);
    proof {
        let m = usize::MAX as int + 1;
        let s = x + k;
        if s < m {
            vstd::arithmetic::div_mod::lemma_small_mod(s as nat, m as nat);
        } else {
            vstd::arithmetic::div_mod::lemma_small_mod((s - m) as nat, m as nat);
            vstd::arithmetic::div_mod::lemma_mod_multiples_vanish(1, s - m, m);
            assert(m * 1 + (s - m) == s);
        }
    }
    r
}

/// Whether a name starts with `.` (a hidden entry).
pub fn name_is_hidden(name: &String) -> (hidden: bool)
    ensures
        hidden == is_hidden(name@),
{
    let s = name.as_str();
    if s.is_empty() {
        false
    } else {
        s.get_char(0) == '.'
    }
}

proof fn lemma_marked_before_grows(
    entries: Seq<(Seq<char>, EntryType, u64)>,
    visited: Set<u64>,
    i: int,
    j: int,
)
    requires
        0 <= i <= j,
    ensures
        visited.subset_of(marked_before(entries, i, visited)),
        marked_before(entries, i, visited).subset_of(marked_before(entries, j, visited)),
    decreases j,
{
    if j > i {
        lemma_marked_before_grows(entries, visited, i, j - 1);
    } else if i > 0 {
        lemma_marked_before_grows(entries, visited, 0, i - 1);
        lemma_marked_before_grows(entries, visited, i - 1, i - 1);
    }
}

/// No directory is entered twice, and none that the guard had seen before:
/// the entries that a listing descends into have pairwise different inodes,
/// none of them seen before, and afterwards the guard holds them all.
pub proof fn lemma_entered_dirs_are_new(entries: Seq<(Seq<char>, EntryType, u64)>, visited: Set<u64>)
    ensures
        forall|i: int, j: int|
            0 <= i < j < entries.len() && outcome(entries, i, visited) == EntryOutcome::Descend
                && outcome(entries, j, visited) == EntryOutcome::Descend ==> entries[i].2
                != entries[j].2,
        forall|i: int|
            0 <= i < entries.len() && outcome(entries, i, visited) == EntryOutcome::Descend
                ==> !visited.contains(entries[i].2),
        forall|i: int|
            0 <= i < entries.len() && outcome(entries, i, visited) == EntryOutcome::Descend
                ==> marked_before(entries, entries.len() as int, visited).contains(entries[i].2),
{
    assert forall|i: int, j: int|
        0 <= i < j < entries.len() && outcome(entries, i, visited) == EntryOutcome::Descend
            && outcome(entries, j, visited) == EntryOutcome::Descend implies entries[i].2
        != entries[j].2 by {
        lemma_marked_before_step(entries, i, visited);
        lemma_marked_before_grows(entries, visited, i + 1, j);
    }
    assert forall|i: int|
        0 <= i < entries.len() && outcome(entries, i, visited) == EntryOutcome::Descend
            implies !visited.contains(entries[i].2) by {
        lemma_marked_before_grows(entries, visited, 0, i);
    }
    assert forall|i: int|
        0 <= i < entries.len() && outcome(entries, i, visited) == EntryOutcome::Descend
            implies marked_before(entries, entries.len() as int, visited).contains(entries[i].2) by {
        lemma_marked_before_step(entries, i, visited);
        lemma_marked_before_grows(entries, visited, i + 1, entries.len() as int);
    }
}

/// Every record a listing produces is a visible entry (its name does not
/// start with `.`) filed under the directory being read.
pub proof fn lemma_records_are_visible_children(
    entries: Seq<(Seq<char>, EntryType, u64)>,
    visited: Set<u64>,
    parent: u64,
    n: int,
)
    requires
        0 <= n <= entries.len(),
    ensures
        forall|k: int|
            0 <= k < records_upto(entries, n, visited, parent).len() ==> {
                let r = #[trigger] records_upto(entries, n, visited, parent)[k];
                !is_hidden(r.2) && r.1 == parent
            },
    decreases n,
{
    if n > 0 {
        lemma_records_are_visible_children(entries, visited, parent, n - 1);
        let prev = records_upto(entries, n - 1, visited, parent);
        let cur = records_upto(entries, n, visited, parent);
        assert forall|k: int| 0 <= k < cur.len() implies !is_hidden((#[trigger] cur[k]).2) && cur[k].1
            == parent by {
            if k < prev.len() {
                assert(cur[k] == prev[k]);
            }
        }
    }
}

/// Without wrap-around, queuing `k` directories raises the in-flight count
/// by `k`, and (when at least one is queued) the peak becomes the larger of
/// the old peak and the new count.
pub proof fn lemma_enqueue_n_counts(in_flight: i64, peak: usize, k: nat)
    requires
        0 <= in_flight,
        in_flight + k <= i64::MAX,
        in_flight + k <= usize::MAX,
    ensures
        enqueue_n(in_flight, peak, k).0 == in_flight + k,
        enqueue_n(in_flight, peak, k).1 == (if k > 0 && (in_flight + k) as usize > peak {
            (in_flight + k) as usize
        } else {
            peak
        }),
    decreases k,
{
    if k > 0 {
        lemma_enqueue_n_counts(in_flight, peak, (k - 1) as nat);
    }
}

/// No record is lost or duplicated on its way to the index: if each step
/// hands out `out` and keeps `pending` such that what was handed out and
/// kept equals what was kept before plus what arrived (the relation that
/// `RecordBatcher::push`, `RecordCollector::accept` and `plan_listing`
/// guarantee), then over two steps everything handed out, plus what is
/// kept, is what was kept at the start plus everything that arrived, in
/// order.
pub proof fn lemma_records_flow_in_order(
    pending0: Seq<(u64, u64, Seq<char>, bool)>,
    arrived1: Seq<(u64, u64, Seq<char>, bool)>,
    out1: Seq<(u64, u64, Seq<char>, bool)>,
    pending1: Seq<(u64, u64, Seq<char>, bool)>,
    arrived2: Seq<(u64, u64, Seq<char>, bool)>,
    out2: Seq<(u64, u64, Seq<char>, bool)>,
    pending2: Seq<(u64, u64, Seq<char>, bool)>,
)
    requires
        out1 + pending1 == pending0 + arrived1,
        out2 + pending2 == pending1 + arrived2,
    ensures
        out1 + out2 + pending2 == pending0 + arrived1 + arrived2,
{
    assert(out1 + out2 + pending2 =~= out1 + (out2 + pending2));
    assert(pending0 + arrived1 + arrived2 =~= (pending0 + arrived1) + arrived2);
    assert(out1 + (pending1 + arrived2) =~= (out1 + pending1) + arrived2);
}

} // verus!
