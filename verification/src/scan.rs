//! What a scan decides: which files to hash, and when to write.

use crate::check::DiskView;
use crate::db::{
    current_size_mtime_in, observation_of, observations_of, DbHandle, SeenSet, StoreError,
};
use crate::dupes::{hash_hex, hex_text};
use crate::file_meta::{encoded, fixed_failure, stored_mtime, stored_size, FileMeta};
use crate::invariants::lemma_nothing_lost_nothing_marked;
use crate::kv::{lists_by_id, Snapshot, StoreState};
use crate::model::{current_blob, observed_all, row_unseen, swept, Observation};
use vstd::hash_set::HashSetWithView;
use vstd::prelude::*;
use vstd::std_specs::hash::axiom_u128_obeys_hash_table_key_model;

verus! {

/// Number of results that the writer gathers before it writes them in one transaction.
pub const BATCH_SIZE: usize = 10000;

/// Places in the job queue for each hashing thread.
pub const JOBS_PER_THREAD: usize = 256;

/// Places in the result queue for each hashing thread.
pub const RESULTS_PER_THREAD: usize = 8192;

/// A file to hash.
#[derive(Debug)]
pub struct HashJob {
    pub path: String,
    pub mtime: u64,
    pub size: u64,
}

/// A hashed file.
#[derive(Debug)]
pub struct HashResult {
    pub path: String,
    pub meta: FileMeta,
    pub sha256_hex: String,
}

/// The number of hashing threads: the number asked for, or one less than
/// the machine offers, and one at least.
pub open spec fn threads_for(requested: Option<usize>, available: Option<usize>) -> usize {
    match requested {
        Some(n) => if n >= 1 {
            n
        } else {
            1
        },
        None => match available {
            Some(a) => if a >= 2 {
                (a - 1) as usize
            } else {
                1
            },
            None => 1,
        },
    }
}

/// The number of hashing threads.
pub fn worker_threads(requested: Option<usize>, available: Option<usize>) -> (r: usize)
    ensures
        r == threads_for(requested, available),
        r >= 1,
{
    match requested {
        Some(n) => if n >= 1 {
            n
        } else {
            1
        },
        None => match available {
            Some(a) => if a >= 2 {
                a - 1
            } else {
                1
            },
            None => 1,
        },
    }
}

/// The places in a queue with `per_thread` places for each thread, at most the largest `usize`.
pub open spec fn queue_places(threads: usize, per_thread: usize) -> usize {
    if threads * per_thread > usize::MAX {
        usize::MAX
    } else {
        (threads * per_thread) as usize
    }
}

/// The capacity of the job queue.
pub fn job_queue_capacity(threads: usize) -> (r: usize)
    ensures
        r == queue_places(threads, JOBS_PER_THREAD),
{
    match threads.checked_mul(JOBS_PER_THREAD) {
        Some(n) => n,
        None => usize::MAX,
    }
}

/// The capacity of the result queue.
pub fn result_queue_capacity(threads: usize) -> (r: usize)
    ensures
        r == queue_places(threads, RESULTS_PER_THREAD),
{
    match threads.checked_mul(RESULTS_PER_THREAD) {
        Some(n) => n,
        None => usize::MAX,
    }
}

/// Whether what was found at a path is to be hashed: a regular file that
/// is not empty, unless the latest observation on record has its size and
/// its modification time.
pub open spec fn needs_hash(disk: DiskView, current: Option<(u64, u64)>) -> bool {
    match disk {
        DiskView::File { size, mtime_secs } => size > 0 && current != Some((size, mtime_secs)),
        _ => false,
    }
}

/// Whether what was found at a path could be hashed at all: a regular file that is not empty.
pub open spec fn is_hashable(disk: DiskView) -> bool {
    disk matches DiskView::File { size, .. } && size > 0
}

/// Whether what was found at a path is to be hashed.
pub fn wants_hash(disk: DiskView, current: Option<(u64, u64)>) -> (r: bool)
    ensures
        r == needs_hash(disk, current),
{
    match disk {
        DiskView::File { size, mtime_secs } => {
            if size == 0 {
                return false;
            }
            match current {
                Some(c) => !(c.0 == size && c.1 == mtime_secs),
                None => true,
            }
        },
        _ => false,
    }
}

/// Size and modification time of a stored encoding.
pub open spec fn stored_size_mtime(found: Option<(u64, Seq<u8>)>) -> Option<(u64, u64)> {
    match found {
        Some(f) => Some((stored_size(f.1), stored_mtime(f.1))),
        None => None,
    }
}

/// The job, if any, for what was found at a normalized path, against a
/// snapshot. The snapshot is only asked for a regular file that is not empty.
pub fn candidate_in(snap: &Snapshot, norm_path: &str, disk: DiskView) -> (r: Result<
    Option<HashJob>,
    StoreError,
>)
    ensures
        !is_hashable(disk) ==> r matches Ok(None),
        match r {
            Ok(Some(job)) => {
                &&& needs_hash(disk, stored_size_mtime(current_blob(snap@, norm_path@)))
                &&& job.path@ == norm_path@
                &&& disk == (DiskView::File { size: job.size, mtime_secs: job.mtime })
            },
            Ok(None) => !needs_hash(disk, stored_size_mtime(current_blob(snap@, norm_path@))),
            Err(StoreError::Corrupt { file_id, cause }) => {
                &&& is_hashable(disk)
                &&& current_blob(snap@, norm_path@) is Some
                &&& current_blob(snap@, norm_path@)->Some_0.0 == file_id
                &&& fixed_failure(current_blob(snap@, norm_path@)->Some_0.1) == Some(cause)
            },
            Err(StoreError::Backend(_)) => true,
            Err(StoreError::IdsExhausted) => false,
        },
{
    match disk {
        DiskView::File { size, mtime_secs } => {
            if size == 0 {
                return Ok(None);
            }
            let current = match current_size_mtime_in(snap, norm_path) {
                Ok(c) => c,
                Err(e) => {
                    return Err(e);
                },
            };
            if wants_hash(disk, current) {
                Ok(Some(HashJob { path: norm_path.to_owned(), mtime: mtime_secs, size }))
            } else {
                Ok(None)
            }
        },
        _ => Ok(None),
    }
}

/// Notes a normalized path as seen, and gives the job, if any, for what
/// was found there. The path is noted whatever else happens.
pub fn enqueue_if_candidate(db: &DbHandle, seen: &mut SeenSet, norm_path: &str, disk: DiskView) -> (r:
    Result<Option<HashJob>, StoreError>)
    ensures
        final(seen)@ == old(seen)@.insert(norm_path@),
        r matches Ok(Some(job)) ==> {
            &&& job.path@ == norm_path@
            &&& job.size > 0
            &&& disk == (DiskView::File { size: job.size, mtime_secs: job.mtime })
        },
        !is_hashable(disk) ==> r matches Ok(None),
        r matches Err(e) ==> !(e is IdsExhausted),
{
    seen.insert(norm_path.to_owned());
    match disk {
        DiskView::File { size, mtime_secs } => {
            if size == 0 {
                return Ok(None);
            }
        },
        _ => {
            return Ok(None);
        },
    }
    let snap = match db.snapshot() {
        Ok(s) => s,
        Err(e) => {
            return Err(e);
        },
    };
    candidate_in(&snap, norm_path, disk)
}

/// Scanning again when nothing on disk has changed changes nothing: no
/// file that is found as it was recorded is hashed, a batch without items
/// leaves the tables as they are, and where every path on record under the
/// roots was seen, no observation is marked missing.
pub proof fn lemma_rescan_is_idle(
    s: StoreState,
    found: Seq<(Seq<char>, DiskView)>,
    rows: Seq<(u64, u64)>,
    roots: Seq<Seq<char>>,
    seen: Set<Seq<char>>,
)
    requires
        forall|i: int|
            0 <= i < found.len() ==> match (#[trigger] found[i]).1 {
                DiskView::File { size, mtime_secs } => stored_size_mtime(
                    current_blob(s, found[i].0),
                ) == Some((size, mtime_secs)),
                _ => true,
            },
        lists_by_id(rows, s.path_current),
        forall|p: u64| #[trigger] s.path_current.contains_key(p) ==> !row_unseen(s, roots, seen, p),
    ensures
        forall|i: int|
            0 <= i < found.len() ==> !needs_hash(
                (#[trigger] found[i]).1,
                stored_size_mtime(current_blob(s, found[i].0)),
            ),
        observed_all(s, Seq::<Observation>::empty()) == s,
        swept(s, rows, roots, seen) == (s.file_state, 0nat),
{
    assert forall|k: int| 0 <= k < rows.len() implies !row_unseen(
        s,
        roots,
        seen,
        (#[trigger] rows[k]).0,
    ) by {
        assert(s.path_current.contains_key(rows[k].0));
    }
    lemma_nothing_lost_nothing_marked(s, rows, roots, seen);
}

/// The result for a hashed file.
pub fn hash_result(path: String, meta: FileMeta) -> (r: HashResult)
    ensures
        r.path == path,
        r.meta == meta,
        r.sha256_hex@ == hex_text(meta.hash256@),
{
    let sha256_hex = hash_hex(&meta.hash256);
    HashResult { path, meta, sha256_hex }
}

/// What is written for a result.
pub open spec fn written_for(result: HashResult) -> Observation {
    Observation { path: result.path@, blob: encoded(result.meta), hash: result.meta.hash256@ }
}

/// The batch item for a result: its path, its encoded observation, its content hash.
pub fn batch_item(result: HashResult) -> (r: (String, Vec<u8>, [u8; 32]))
    ensures
        observation_of(r) == written_for(result),
{
    let blob = result.meta.encode();
    (result.path, blob, result.meta.hash256)
}

/// Gathers results and writes them batch by batch.
pub struct Writer {
    batch: Vec<(String, Vec<u8>, [u8; 32])>,
    indexed: u64,
}

impl Writer {
    /// What was gathered and not written yet.
    pub closed spec fn pending(&self) -> Seq<Observation> {
        observations_of(self.batch@)
    }

    /// How many results were written, at most the largest `u64`.
    pub closed spec fn indexed(&self) -> u64 {
        self.indexed
    }

    pub fn new() -> (r: Writer)
        ensures
            r.pending() == Seq::<Observation>::empty(),
            r.indexed() == 0,
    {
        let r = Writer { batch: Vec::new(), indexed: 0 };
        assert(r.pending() =~= Seq::<Observation>::empty());
        r
    }

    /// How many results are gathered and not written yet.
    pub fn pending_len(&self) -> (r: usize)
        ensures
            r == self.pending().len(),
    {
        self.batch.len()
    }

    /// How many results were written.
    pub fn indexed_count(&self) -> (r: u64)
        ensures
            r == self.indexed(),
    {
        self.indexed
    }

    /// Writes what is pending in one transaction. On an error what is pending stays so.
    pub fn flush(&mut self, db: &DbHandle) -> (r: Result<(), StoreError>)
        ensures
            match r {
                Ok(()) => {
                    &&& final(self).pending() == Seq::<Observation>::empty()
                    &&& final(self).indexed() == if old(self).indexed() + old(self).pending().len()
                        > u64::MAX {
                        u64::MAX
                    } else {
                        (old(self).indexed() + old(self).pending().len()) as u64
                    }
                },
                Err(e) => {
                    &&& !(e is Corrupt)
                    &&& old(self).pending().len() > 0
                    &&& final(self).pending() == old(self).pending()
                    &&& final(self).indexed() == old(self).indexed()
                },
            },
    {
        if self.batch.len() == 0 {
            assert(self.pending() =~= Seq::<Observation>::empty());
            return Ok(());
        }
        match db.write_batch_versions(self.batch.as_slice()) {
            Ok(()) => {},
            Err(e) => {
                return Err(e);
            },
        }
        let n: usize = self.batch.len();
        self.indexed = self.indexed.saturating_add(n as u64);
        self.batch.clear();
        assert(self.pending() =~= Seq::<Observation>::empty());
        Ok(())
    }

    /// Takes a result in, and writes the batch once it is full.
    pub fn accept(&mut self, db: &DbHandle, result: HashResult) -> (r: Result<(), StoreError>)
        ensures
            match r {
                Ok(()) => if old(self).pending().len() + 1 >= BATCH_SIZE {
                    &&& final(self).pending() == Seq::<Observation>::empty()
                    &&& final(self).indexed() == if old(self).indexed() + old(self).pending().len()
                        + 1 > u64::MAX {
                        u64::MAX
                    } else {
                        (old(self).indexed() + old(self).pending().len() + 1) as u64
                    }
                } else {
                    &&& final(self).pending() == old(self).pending().push(written_for(result))
                    &&& final(self).indexed() == old(self).indexed()
                },
                Err(e) => {
                    &&& !(e is Corrupt)
                    &&& old(self).pending().len() + 1 >= BATCH_SIZE
                    &&& final(self).pending() == old(self).pending().push(written_for(result))
                    &&& final(self).indexed() == old(self).indexed()
                },
            },
    {
        let ghost before = self.batch@;
        let item = batch_item(result);
        self.batch.push(item);
        assert(self.pending() =~= observations_of(before).push(written_for(result)));
        if self.batch.len() >= BATCH_SIZE {
            self.flush(db)
        } else {
            Ok(())
        }
    }

    /// Writes what is left once no more results come, and says how many
    /// were written in all. With nothing left it succeeds without asking
    /// the database. On an error what is pending stays so.
    pub fn finish(&mut self, db: &DbHandle) -> (r: Result<u64, StoreError>)
        ensures
            old(self).pending().len() == 0 ==> r is Ok,
            match r {
                Ok(n) => {
                    &&& final(self).pending() == Seq::<Observation>::empty()
                    &&& n == final(self).indexed()
                    &&& n == if old(self).indexed() + old(self).pending().len() > u64::MAX {
                        u64::MAX
                    } else {
                        (old(self).indexed() + old(self).pending().len()) as u64
                    }
                },
                Err(e) => {
                    &&& !(e is Corrupt)
                    &&& old(self).pending().len() > 0
                    &&& final(self).pending() == old(self).pending()
                    &&& final(self).indexed() == old(self).indexed()
                },
            },
    {
        match self.flush(db) {
            Ok(()) => Ok(self.indexed),
            Err(e) => Err(e),
        }
    }
}

/// The key under which a directory is remembered.
pub open spec fn dir_key(dev: u64, ino: u64) -> u128 {
    (dev * 0x1_0000_0000_0000_0000 + ino) as u128
}

/// Remembers the directories that a walk has entered, by device and inode,
/// so that it enters none twice.
pub struct DirGuard {
    visited: HashSetWithView<u128>,
}

impl DirGuard {
    /// Whether the directory with this device and inode was entered.
    pub closed spec fn entered(&self, dev: u64, ino: u64) -> bool {
        self.visited@.contains(dir_key(dev, ino))
    }

    pub fn new() -> (r: DirGuard)
        ensures
            forall|dev: u64, ino: u64| !r.entered(dev, ino),
    {
        broadcast use axiom_u128_obeys_hash_table_key_model;

        DirGuard { visited: HashSetWithView::new() }
    }

    /// Decides whether a walk goes on at an entry: not into a directory
    /// that it has entered before. A directory whose device and inode are
    /// known is remembered; anything else is let through.
    pub fn lets_in(&mut self, is_dir: bool, id: Option<(u64, u64)>) -> (r: bool)
        ensures
            r == !(is_dir && id is Some && old(self).entered(id->Some_0.0, id->Some_0.1)),
            forall|dev: u64, ino: u64|
                final(self).entered(dev, ino) == (old(self).entered(dev, ino) || (is_dir
                    && id == Some((dev, ino)))),
    {
        if !is_dir {
            return true;
        }
        match id {
            Some(found) => {
                let dev: u64 = found.0;
                let ino: u64 = found.1;
                let key: u128 = (dev as u128) * 0x1_0000_0000_0000_0000u128 + (ino as u128);
                assert(key == dir_key(dev, ino));
                assert forall|d: u64, i: u64| dir_key(d, i) == key implies d == dev && i == ino by {
                    assert(dir_key(d, i) == d * 0x1_0000_0000_0000_0000 + i);
                }
                if self.visited.contains(&key) {
                    return false;
                }
                self.visited.insert(key);
                true
            },
            None => true,
        }
    }
}

} // verus!
