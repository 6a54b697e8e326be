//! The store: versioned writes, lookups and state changes over the tables.

use crate::codec::{u64_list_pack, u64_list_unpack};
use crate::file_meta::{
    decode_failure, decodes_to, fixed_failure, stored_mtime, stored_size, DecodeError, FileMeta,
    FileState,
};
use crate::kv::{
    begin_read, begin_write, commit, held_counter, held_current_id, held_current_rows,
    held_index_entry, held_path, held_path_id, held_state, open_snapshot, open_write_tables,
    put_counter, put_current, put_file_path, put_index_entry, put_meta, put_path, put_path_id,
    put_state, seen_current_id, seen_file_path, seen_index_entry, seen_meta_blob, seen_path,
    seen_path_id, seen_state, Snapshot, StoreState, WriteTables, held_under, seen_under,
};
use crate::listing::{lemma_rows_by_id, listed_by_id, rows_by_id};
use crate::lex::{same_bytes, starts_with_bytes, str_bytes};
use crate::model::{
    batch_runs_out, counter, current_blob, first_corrupt, first_not_below, holds_id, ids_under,
    index_with, is_corrupt, marked_missing, observed, observed_all, out_of_path_ids, path_id,
    path_of, runs_out, sha_row, sha_rows, state_of, swept, under_any_root, under_root,
    with_current_replaced, with_id, with_path, with_version, Observation, ShaRow, LIVE, MISSING,
    REPLACED, SLASH,
};
use crate::schema::{
    lemma_counter_keys_differ, lemma_table_names, FILE_META, FILE_STATE, FILE_TO_PATH, FIRST_ID,
    HASH256_TO_FILES, ID_TO_PATH, KEY_NEXT_FILE_ID, KEY_NEXT_PATH_ID, KV_U64, PATH_CURRENT,
    PATH_TO_ID, UNKNOWN_PATH, read_tables, write_tables,
};
use vstd::hash_set::StringHashSet;
use vstd::prelude::*;

verus! {

/// Why a store operation failed.
#[derive(Debug)]
pub enum StoreError {
    /// The key-value engine reported an error; nothing of the operation is durable.
    Backend(redb::Error),
    /// The stored observation of this file identifier does not decode.
    Corrupt { file_id: u64, cause: DecodeError },
    /// A counter has reached the last identifier; no further one can be handed out.
    IdsExhausted,
}

/// An open database.
pub struct DbHandle {
    pub db_dir: String,
    pub db: redb::Database,
}

/// The set of normalized paths that a scan came across.
pub struct SeenSet {
    paths: StringHashSet,
}

impl View for SeenSet {
    type V = Set<Seq<char>>;

    closed spec fn view(&self) -> Set<Seq<char>> {
        self.paths@
    }
}

impl SeenSet {
    pub fn new() -> (r: SeenSet)
        ensures
            r@ == Set::<Seq<char>>::empty(),
    {
        SeenSet { paths: StringHashSet::new() }
    }

    /// Adds a path; says whether it was new.
    pub fn insert(&mut self, path: String) -> (r: bool)
        ensures
            final(self)@ == old(self)@.insert(path@),
            r == !old(self)@.contains(path@),
    {
        self.paths.insert(path)
    }

    pub fn contains(&self, path: &str) -> (r: bool)
        ensures
            r == self@.contains(path@),
    {
        self.paths.contains(path)
    }

    pub fn len(&self) -> (r: usize)
        ensures
            r == self@.len(),
    {
        self.paths.len()
    }
}

/// One item of a write batch as the plain values that the model speaks of.
pub open spec fn observation_of(item: (String, Vec<u8>, [u8; 32])) -> Observation {
    Observation { path: item.0@, blob: item.1@, hash: item.2@ }
}

/// A write batch as plain values.
pub open spec fn observations_of(batch: Seq<(String, Vec<u8>, [u8; 32])>) -> Seq<Observation> {
    batch.map_values(|item: (String, Vec<u8>, [u8; 32])| observation_of(item))
}

/// The characters of each string.
pub open spec fn strings_of(v: Seq<String>) -> Seq<Seq<char>> {
    v.map_values(|s: String| s@)
}

/// Puts `fid` into an ascending identifier list, unless it is there; says
/// whether the list changed.
pub fn fid_list_insert(ids: &mut Vec<u64>, fid: u64) -> (changed: bool)
    ensures
        final(ids)@ == with_id(old(ids)@, fid),
        changed == !holds_id(old(ids)@, fid),
{
    let n: usize = ids.len();
    let mut i: usize = 0;
    assert(ids@.skip(0) =~= ids@);
    while i < n && ids[i] < fid
        invariant
            n == ids@.len(),
            i <= n,
            ids@ == old(ids)@,
            first_not_below(ids@, fid) == i + first_not_below(ids@.skip(i as int), fid),
        decreases n - i,
    {
        assert(ids@.skip(i as int).drop_first() =~= ids@.skip(i + 1));
        i = i + 1;
    }
    assert(first_not_below(ids@, fid) == i) by {
        if i < n {
            assert(ids@.skip(i as int).first() == ids@[i as int]);
        }
    }
    if i < n && ids[i] == fid {
        false
    } else {
        ids.insert(i, fid);
        true
    }
}

/// Whether the path is the root itself or lies below it.
pub fn is_under_root(path: &[u8], root: &[u8]) -> (r: bool)
    ensures
        r == under_root(path@, root@),
{
    if same_bytes(path, root) {
        return true;
    }
    starts_with_bytes(path, root) && path.len() > root.len() && path[root.len()] == SLASH
}

/// Whether the path is under one of the roots.
pub fn is_under_any_root(path: &str, roots: &[String]) -> (r: bool)
    ensures
        r == under_any_root(path@, strings_of(roots@)),
{
    let n: usize = roots.len();
    let mut i: usize = 0;
    while i < n
        invariant
            n == roots@.len(),
            i <= n,
            forall|k: int|
                0 <= k < i ==> !under_root(
                    str_bytes(path@),
                    str_bytes(#[trigger] strings_of(roots@)[k]),
                ),
        decreases n - i,
    {
        if is_under_root(path.as_bytes(), roots[i].as_str().as_bytes()) {
            assert(strings_of(roots@)[i as int] == roots@[i as int]@);
            return true;
        }
        assert(strings_of(roots@)[i as int] == roots@[i as int]@);
        i = i + 1;
    }
    false
}

/// Whether `r` is what asking for the identifier of a path gives where
/// the tables hold `s`: the identifier that the path has, or the next free
/// one; an error where none is free, or where the engine fails.
pub open spec fn pid_outcome(s: StoreState, path: Seq<char>, r: Result<u64, StoreError>) -> bool {
    match r {
        Ok(pid) => !out_of_path_ids(s, path) && pid == path_id(s, path),
        Err(StoreError::IdsExhausted) => out_of_path_ids(s, path),
        Err(StoreError::Corrupt { .. }) => false,
        Err(StoreError::Backend(_)) => true,
    }
}

/// Finds the identifier of a path, giving it the next free one where it has none.
pub fn get_or_create_pid_in(t: &mut WriteTables<'_>, path: &str) -> (r: Result<u64, StoreError>)
    ensures
        pid_outcome(old(t)@, path@, r),
        r is Ok ==> final(t)@ == with_path(old(t)@, path@),
{
    let found = match held_path_id(t, path) {
        Ok(v) => v,
        Err(e) => {
            return Err(StoreError::Backend(e));
        },
    };
    match found {
        Some(pid) => Ok(pid),
        None => {
            let next = match held_counter(t, KEY_NEXT_PATH_ID) {
                Ok(v) => v,
                Err(e) => {
                    return Err(StoreError::Backend(e));
                },
            };
            let pid: u64 = match next {
                Some(v) => v,
                None => FIRST_ID,
            };
            if pid == u64::MAX {
                return Err(StoreError::IdsExhausted);
            }
            match put_counter(t, KEY_NEXT_PATH_ID, pid + 1) {
                Ok(()) => {},
                Err(e) => {
                    return Err(StoreError::Backend(e));
                },
            }
            match put_path_id(t, path, pid) {
                Ok(()) => {},
                Err(e) => {
                    return Err(StoreError::Backend(e));
                },
            }
            match put_path(t, pid, path) {
                Ok(()) => {},
                Err(e) => {
                    return Err(StoreError::Backend(e));
                },
            }
            Ok(pid)
        },
    }
}

/// Lists a file identifier under a content hash.
pub fn index_insert_in(t: &mut WriteTables<'_>, hash: &[u8; 32], fid: u64) -> (r: Result<
    (),
    StoreError,
>)
    ensures
        match r {
            Ok(()) => final(t)@ == (StoreState {
                hash_index: index_with(old(t)@, hash@, fid),
                ..old(t)@
            }),
            Err(StoreError::Backend(_)) => true,
            Err(_) => false,
        },
{
    let listed = match held_index_entry(t, hash) {
        Ok(v) => v,
        Err(e) => {
            return Err(StoreError::Backend(e));
        },
    };
    let mut ids: Vec<u64> = match listed {
        Some(list) => u64_list_unpack(list.as_slice()),
        None => Vec::new(),
    };
    assert(ids@ == ids_under(old(t)@, hash@));
    if fid_list_insert(&mut ids, fid) {
        let list = u64_list_pack(ids.as_slice());
        match put_index_entry(t, hash, list.as_slice()) {
            Ok(()) => {},
            Err(e) => {
                return Err(StoreError::Backend(e));
            },
        }
    }
    Ok(())
}

/// Writes one observation: the path gets its identifier, its latest
/// observation so far is marked replaced, and the new one is stored under
/// the next file identifier, live, as the path's latest, and listed under
/// its hash.
pub fn observe_in(t: &mut WriteTables<'_>, path: &str, blob: &[u8], hash: &[u8; 32]) -> (r:
    Result<(), StoreError>)
    ensures
        match r {
            Ok(()) => {
                &&& !runs_out(
                    old(t)@,
                    (Observation { path: path@, blob: blob@, hash: hash@ }),
                )
                &&& final(t)@ == observed(
                    old(t)@,
                    (Observation { path: path@, blob: blob@, hash: hash@ }),
                )
            },
            Err(StoreError::IdsExhausted) => runs_out(
                old(t)@,
                (Observation { path: path@, blob: blob@, hash: hash@ }),
            ),
            Err(StoreError::Corrupt { .. }) => false,
            Err(StoreError::Backend(_)) => true,
        },
{
    proof {
        lemma_counter_keys_differ();
    }
    let pid: u64 = match get_or_create_pid_in(t, path) {
        Ok(pid) => pid,
        Err(e) => {
            return Err(e);
        },
    };
    let prev = match held_current_id(t, pid) {
        Ok(v) => v,
        Err(e) => {
            return Err(StoreError::Backend(e));
        },
    };
    match prev {
        Some(prev_fid) => {
            match put_state(t, prev_fid, REPLACED) {
                Ok(()) => {},
                Err(e) => {
                    return Err(StoreError::Backend(e));
                },
            }
        },
        None => {},
    }
    assert(t@ == with_current_replaced(with_path(old(t)@, path@), pid));
    let ghost mid = t@;
    let next = match held_counter(t, KEY_NEXT_FILE_ID) {
        Ok(v) => v,
        Err(e) => {
            return Err(StoreError::Backend(e));
        },
    };
    let fid: u64 = match next {
        Some(v) => v,
        None => FIRST_ID,
    };
    assert(fid == counter(old(t)@, KEY_NEXT_FILE_ID@));
    if fid == u64::MAX {
        return Err(StoreError::IdsExhausted);
    }
    match put_counter(t, KEY_NEXT_FILE_ID, fid + 1) {
        Ok(()) => {},
        Err(e) => {
            return Err(StoreError::Backend(e));
        },
    }
    match put_meta(t, fid, blob) {
        Ok(()) => {},
        Err(e) => {
            return Err(StoreError::Backend(e));
        },
    }
    match put_file_path(t, fid, pid) {
        Ok(()) => {},
        Err(e) => {
            return Err(StoreError::Backend(e));
        },
    }
    match put_state(t, fid, LIVE) {
        Ok(()) => {},
        Err(e) => {
            return Err(StoreError::Backend(e));
        },
    }
    match put_current(t, pid, fid) {
        Ok(()) => {},
        Err(e) => {
            return Err(StoreError::Backend(e));
        },
    }
    assert(ids_under(t@, hash@) == ids_under(mid, hash@));
    match index_insert_in(t, hash, fid) {
        Ok(()) => {},
        Err(e) => {
            return Err(e);
        },
    }
    assert(t@ == with_version(mid, pid, blob@, hash@));
    Ok(())
}

/// Whether `r` is what writing a batch gives where the tables hold `s`:
/// success where every item gets its identifiers, an error where one does
/// not, or where the engine fails.
pub open spec fn batch_outcome(s: StoreState, batch: Seq<Observation>, r: Result<(), StoreError>) -> bool {
    match r {
        Ok(()) => !batch_runs_out(s, batch),
        Err(StoreError::IdsExhausted) => batch_runs_out(s, batch),
        Err(StoreError::Corrupt { .. }) => false,
        Err(StoreError::Backend(_)) => true,
    }
}

/// Writes a batch of observations in order. It stops at the first item that
/// cannot be written.
pub fn write_batch_in(t: &mut WriteTables<'_>, batch: &[(String, Vec<u8>, [u8; 32])]) -> (r:
    Result<(), StoreError>)
    ensures
        batch@.len() == 0 ==> r is Ok,
        batch_outcome(old(t)@, observations_of(batch@), r),
        r is Ok ==> final(t)@ == observed_all(old(t)@, observations_of(batch@)),
{
    let ghost obs = observations_of(batch@);
    let n: usize = batch.len();
    let mut i: usize = 0;
    assert(obs.take(0) =~= Seq::<Observation>::empty());
    while i < n
        invariant
            n == batch@.len(),
            i <= n,
            obs == observations_of(batch@),
            t@ == observed_all(old(t)@, obs.take(i as int)),
            forall|j: int|
                0 <= j < i ==> !runs_out(#[trigger] observed_all(old(t)@, obs.take(j)), obs[j]),
        decreases n - i,
    {
        let item = &batch[i];
        assert(obs[i as int] == observation_of(batch@[i as int]));
        assert(obs.take(i + 1).drop_last() =~= obs.take(i as int));
        match observe_in(t, item.0.as_str(), item.1.as_slice(), &item.2) {
            Ok(()) => {},
            Err(e) => {
                return Err(e);
            },
        }
        i = i + 1;
    }
    assert(obs.take(n as int) =~= obs);
    Ok(())
}

/// Marks each listed file identifier missing if it is live; the others stay
/// as they are.
pub fn mark_files_missing_in(t: &mut WriteTables<'_>, fids: &[u64]) -> (r: Result<(), StoreError>)
    ensures
        fids@.len() == 0 ==> r is Ok,
        match r {
            Ok(()) => final(t)@ == (StoreState {
                file_state: marked_missing(old(t)@.file_state, fids@),
                ..old(t)@
            }),
            Err(StoreError::Backend(_)) => true,
            Err(_) => false,
        },
{
    let n: usize = fids.len();
    let mut i: usize = 0;
    assert(fids@.take(0) =~= Seq::<u64>::empty());
    while i < n
        invariant
            n == fids@.len(),
            i <= n,
            t@ == (StoreState {
                file_state: marked_missing(old(t)@.file_state, fids@.take(i as int)),
                ..old(t)@
            }),
        decreases n - i,
    {
        let fid: u64 = fids[i];
        assert(fids@.take(i + 1).drop_last() =~= fids@.take(i as int));
        let state = match held_state(t, fid) {
            Ok(v) => v,
            Err(e) => {
                return Err(StoreError::Backend(e));
            },
        };
        match state {
            Some(code) => {
                if code == LIVE {
                    match put_state(t, fid, MISSING) {
                        Ok(()) => {},
                        Err(e) => {
                            return Err(StoreError::Backend(e));
                        },
                    }
                }
            },
            None => {},
        }
        i = i + 1;
    }
    assert(fids@.take(n as int) =~= fids@);
    Ok(())
}

/// Goes through the given rows of `path_current` and marks missing each
/// live observation whose path is under a root and was not seen. Returns
/// how many it marked.
pub fn sweep_rows_in(
    t: &mut WriteTables<'_>,
    rows: &Vec<(u64, u64)>,
    roots: &[String],
    seen: &SeenSet,
) -> (r: Result<u64, StoreError>)
    ensures
        rows@.len() == 0 ==> r is Ok,
        match r {
            Ok(n) => {
                &&& final(t)@ == (StoreState {
                    file_state: swept(old(t)@, rows@, strings_of(roots@), seen@).0,
                    ..old(t)@
                })
                &&& n == swept(old(t)@, rows@, strings_of(roots@), seen@).1
            },
            Err(StoreError::Backend(_)) => true,
            Err(_) => false,
        },
{
    let ghost s0 = t@;
    let ghost rs = strings_of(roots@);
    let n: usize = rows.len();
    let mut marked: u64 = 0;
    let mut i: usize = 0;
    assert(rows@.take(0) =~= Seq::<(u64, u64)>::empty());
    while i < n
        invariant
            n == rows@.len(),
            i <= n,
            s0 == old(t)@,
            rs == strings_of(roots@),
            t@ == (StoreState { file_state: swept(s0, rows@.take(i as int), rs, seen@).0, ..s0 }),
            marked == swept(s0, rows@.take(i as int), rs, seen@).1,
            marked <= i,
        decreases n - i,
    {
        let pid: u64 = rows[i].0;
        let fid: u64 = rows[i].1;
        assert(rows@.take(i + 1).drop_last() =~= rows@.take(i as int));
        assert(rows@.take(i + 1).last() == rows@[i as int]);
        let path = match held_path(t, pid) {
            Ok(v) => v,
            Err(e) => {
                return Err(StoreError::Backend(e));
            },
        };
        i = i + 1;
        let path: String = match path {
            Some(p) => p,
            None => {
                continue ;
            },
        };
        if !is_under_any_root(path.as_str(), roots) {
            continue ;
        }
        if seen.contains(path.as_str()) {
            continue ;
        }
        let state = match held_state(t, fid) {
            Ok(v) => v,
            Err(e) => {
                return Err(StoreError::Backend(e));
            },
        };
        match state {
            Some(code) => {
                if code == LIVE {
                    match put_state(t, fid, MISSING) {
                        Ok(()) => {},
                        Err(e) => {
                            return Err(StoreError::Backend(e));
                        },
                    }
                    marked = marked + 1;
                }
            },
            None => {},
        }
    }
    assert(rows@.take(n as int) =~= rows@);
    Ok(marked)
}

/// Whether `r` is what detecting missing files gives where the tables
/// hold `s`: the number of live observations whose file was lost, counted
/// over the listing of `path_current`, or an error of the engine.
pub open spec fn sweep_outcome(
    s: StoreState,
    roots: Seq<Seq<char>>,
    seen: Set<Seq<char>>,
    r: Result<u64, StoreError>,
) -> bool {
    match r {
        Ok(n) => {
            &&& listed_by_id(s.path_current)
            &&& n == swept(s, rows_by_id(s.path_current), roots, seen).1
        },
        Err(StoreError::Backend(_)) => true,
        Err(_) => false,
    }
}

/// Goes through `path_current` and marks missing each live observation
/// whose path is under a root and was not seen. Returns how many it marked.
pub fn mark_missing_not_seen_in(t: &mut WriteTables<'_>, roots: &[String], seen: &SeenSet) -> (r:
    Result<u64, StoreError>)
    ensures
        sweep_outcome(old(t)@, strings_of(roots@), seen@, r),
        r is Ok ==> final(t)@ == (StoreState {
            file_state: swept(
                old(t)@,
                rows_by_id(old(t)@.path_current),
                strings_of(roots@),
                seen@,
            ).0,
            ..old(t)@
        }),
{
    let rows = match held_current_rows(t) {
        Ok(v) => v,
        Err(e) => {
            return Err(StoreError::Backend(e));
        },
    };
    proof {
        lemma_rows_by_id(rows@, t@.path_current);
    }
    sweep_rows_in(t, &rows, roots, seen)
}

/// The latest observation of a path.
#[derive(Debug, Clone, Copy)]
pub struct CurrentByPath {
    pub file_id: u64,
    pub state: FileState,
    pub meta: FileMeta,
    pub sha256: [u8; 32],
}

/// A live observation found for some content.
pub struct LiveMatch {
    pub file_id: u64,
    pub path: String,
    pub meta: FileMeta,
}

/// One observation listed under a content hash.
#[derive(Debug, Clone)]
pub struct ShaEntry {
    pub file_id: u64,
    pub state: FileState,
    pub path: String,
    pub meta: FileMeta,
}

/// Whether an entry reports what the row says.
pub open spec fn entry_shows(e: ShaEntry, row: ShaRow) -> bool {
    &&& e.file_id == row.file_id
    &&& e.state == row.state
    &&& e.path@ == row.path
    &&& decodes_to(row.blob, e.meta)
}

/// The state stored for an observation; missing where none, or none that is known, is stored.
pub fn state_in(snap: &Snapshot, fid: u64) -> (r: Result<FileState, StoreError>)
    ensures
        match r {
            Ok(state) => state == state_of(snap@, fid),
            Err(StoreError::Backend(_)) => true,
            Err(_) => false,
        },
{
    let code = match seen_state(snap, fid) {
        Ok(v) => v,
        Err(e) => {
            return Err(StoreError::Backend(e));
        },
    };
    match code {
        Some(c) => match FileState::from_u8(c) {
            Some(state) => Ok(state),
            None => Ok(FileState::Missing),
        },
        None => Ok(FileState::Missing),
    }
}

/// The path at which an observation was made, where it is on record.
pub fn path_in(snap: &Snapshot, fid: u64) -> (r: Result<Option<String>, StoreError>)
    ensures
        match r {
            Ok(Some(p)) => path_of(snap@, fid) == Some(p@),
            Ok(None) => path_of(snap@, fid) is None,
            Err(StoreError::Backend(_)) => true,
            Err(_) => false,
        },
{
    let pid = match seen_file_path(snap, fid) {
        Ok(v) => v,
        Err(e) => {
            return Err(StoreError::Backend(e));
        },
    };
    match pid {
        Some(pid) => match seen_path(snap, pid) {
            Ok(p) => Ok(p),
            Err(e) => Err(StoreError::Backend(e)),
        },
        None => Ok(None),
    }
}

/// The stored encoding of the latest observation of a path, with its file identifier.
pub fn current_blob_in(snap: &Snapshot, path: &str) -> (r: Result<
    Option<(u64, Vec<u8>)>,
    StoreError,
>)
    ensures
        match r {
            Ok(Some(found)) => current_blob(snap@, path@) == Some((found.0, found.1@)),
            Ok(None) => current_blob(snap@, path@) is None,
            Err(StoreError::Backend(_)) => true,
            Err(_) => false,
        },
{
    let pid = match seen_path_id(snap, path) {
        Ok(Some(v)) => v,
        Ok(None) => {
            return Ok(None);
        },
        Err(e) => {
            return Err(StoreError::Backend(e));
        },
    };
    let fid = match seen_current_id(snap, pid) {
        Ok(Some(v)) => v,
        Ok(None) => {
            return Ok(None);
        },
        Err(e) => {
            return Err(StoreError::Backend(e));
        },
    };
    match seen_meta_blob(snap, fid) {
        Ok(Some(blob)) => Ok(Some((fid, blob))),
        Ok(None) => Ok(None),
        Err(e) => Err(StoreError::Backend(e)),
    }
}

/// Whether `r` is what asking for size and modification time of the
/// latest observation of a path gives where the tables hold `s`: the two
/// fields of its encoding, nothing where the path has no observation with
/// an encoding, and an error where the encoding is too short or of an
/// unknown version, or where the engine fails.
pub open spec fn size_mtime_outcome(
    s: StoreState,
    path: Seq<char>,
    r: Result<Option<(u64, u64)>, StoreError>,
) -> bool {
    match r {
        Ok(Some(found)) => {
            &&& current_blob(s, path) is Some
            &&& fixed_failure(current_blob(s, path)->Some_0.1) is None
            &&& found.0 == stored_size(current_blob(s, path)->Some_0.1)
            &&& found.1 == stored_mtime(current_blob(s, path)->Some_0.1)
        },
        Ok(None) => current_blob(s, path) is None,
        Err(StoreError::Corrupt { file_id, cause }) => {
            &&& current_blob(s, path) is Some
            &&& current_blob(s, path)->Some_0.0 == file_id
            &&& fixed_failure(current_blob(s, path)->Some_0.1) == Some(cause)
        },
        Err(StoreError::Backend(_)) => true,
        Err(StoreError::IdsExhausted) => false,
    }
}

/// Size and modification time of the latest observation of a path, read
/// from the fields that every encoding has.
pub fn current_size_mtime_in(snap: &Snapshot, path: &str) -> (r: Result<
    Option<(u64, u64)>,
    StoreError,
>)
    ensures
        size_mtime_outcome(snap@, path@, r),
{
    let found = match current_blob_in(snap, path) {
        Ok(Some(v)) => v,
        Ok(None) => {
            return Ok(None);
        },
        Err(e) => {
            return Err(e);
        },
    };
    match FileMeta::peek_size_mtime(found.1.as_slice()) {
        Ok(size_mtime) => Ok(Some(size_mtime)),
        Err(cause) => Err(StoreError::Corrupt { file_id: found.0, cause }),
    }
}

/// Whether `r` is what asking for the latest observation of a path gives
/// where the tables hold `s`: its file identifier, its state and what its
/// encoding decodes to; nothing where the path has no observation with an
/// encoding; an error where the encoding does not decode, or where the
/// engine fails.
pub open spec fn current_outcome(
    s: StoreState,
    path: Seq<char>,
    r: Result<Option<CurrentByPath>, StoreError>,
) -> bool {
    match r {
        Ok(Some(c)) => {
            &&& current_blob(s, path) is Some
            &&& c.file_id == current_blob(s, path)->Some_0.0
            &&& c.state == state_of(s, c.file_id)
            &&& decode_failure(current_blob(s, path)->Some_0.1) is None
            &&& decodes_to(current_blob(s, path)->Some_0.1, c.meta)
            &&& c.sha256 == c.meta.hash256
        },
        Ok(None) => current_blob(s, path) is None,
        Err(StoreError::Corrupt { file_id, cause }) => {
            &&& current_blob(s, path) is Some
            &&& current_blob(s, path)->Some_0.0 == file_id
            &&& decode_failure(current_blob(s, path)->Some_0.1) == Some(cause)
        },
        Err(StoreError::Backend(_)) => true,
        Err(StoreError::IdsExhausted) => false,
    }
}

/// The latest observation of a path: file identifier, state and decoded metadata.
pub fn current_by_path_in(snap: &Snapshot, path: &str) -> (r: Result<
    Option<CurrentByPath>,
    StoreError,
>)
    ensures
        current_outcome(snap@, path@, r),
{
    let found = match current_blob_in(snap, path) {
        Ok(Some(v)) => v,
        Ok(None) => {
            return Ok(None);
        },
        Err(e) => {
            return Err(e);
        },
    };
    let file_id: u64 = found.0;
    let state = match state_in(snap, file_id) {
        Ok(v) => v,
        Err(e) => {
            return Err(e);
        },
    };
    match FileMeta::decode(found.1.as_slice()) {
        Ok(meta) => Ok(Some(CurrentByPath { file_id, state, meta, sha256: meta.hash256 })),
        Err(cause) => Err(StoreError::Corrupt { file_id, cause }),
    }
}

/// Whether `r` is what looking up a content hash gives where the tables
/// hold `s`: one entry for each observation listed under the hash that has
/// an encoding, in list order; an error that names the first such
/// observation whose encoding does not decode; or an error of the engine.
pub open spec fn lookup_outcome(s: StoreState, hash: Seq<u8>, r: Result<Vec<ShaEntry>, StoreError>) -> bool {
    match r {
        Ok(out) => {
            &&& forall|j: int|
                0 <= j < ids_under(s, hash).len() ==> !is_corrupt(
                    s,
                    #[trigger] ids_under(s, hash)[j],
                )
            &&& out@.len() == sha_rows(s, hash).len()
            &&& forall|k: int|
                0 <= k < out@.len() ==> entry_shows(#[trigger] out@[k], sha_rows(s, hash)[k])
        },
        Err(StoreError::Corrupt { file_id, cause }) => {
            &&& first_corrupt(s, ids_under(s, hash), file_id)
            &&& decode_failure(s.file_meta[file_id]) == Some(cause)
        },
        Err(StoreError::Backend(_)) => true,
        Err(StoreError::IdsExhausted) => false,
    }
}

/// Every observation listed under a content hash, live or not, in list
/// order; those without a stored encoding are left out.
pub fn lookup_by_hash_in(snap: &Snapshot, hash: &[u8; 32]) -> (r: Result<Vec<ShaEntry>, StoreError>)
    ensures
        lookup_outcome(snap@, hash@, r),
{
    let listed = match seen_index_entry(snap, hash) {
        Ok(v) => v,
        Err(e) => {
            return Err(StoreError::Backend(e));
        },
    };
    let ids: Vec<u64> = match listed {
        Some(list) => u64_list_unpack(list.as_slice()),
        None => Vec::new(),
    };
    assert(ids@ == ids_under(snap@, hash@));
    let mut out: Vec<ShaEntry> = Vec::new();
    let n: usize = ids.len();
    let mut i: usize = 0;
    let ghost row = sha_row(snap@);
    assert(ids@.take(0).filter_map(row) =~= Seq::<ShaRow>::empty());
    while i < n
        invariant
            n == ids@.len(),
            i <= n,
            row == sha_row(snap@),
            ids@ == ids_under(snap@, hash@),
            forall|j: int| 0 <= j < i ==> !is_corrupt(snap@, #[trigger] ids@[j]),
            out@.len() == ids@.take(i as int).filter_map(row).len(),
            forall|k: int|
                0 <= k < out@.len() ==> entry_shows(
                    #[trigger] out@[k],
                    ids@.take(i as int).filter_map(row)[k],
                ),
        decreases n - i,
    {
        let fid: u64 = ids[i];
        proof {
            ids@.lemma_filter_map_take_succ(row, i as int);
        }
        let state = match state_in(snap, fid) {
            Ok(v) => v,
            Err(e) => {
                return Err(e);
            },
        };
        let blob = match seen_meta_blob(snap, fid) {
            Ok(v) => v,
            Err(e) => {
                return Err(StoreError::Backend(e));
            },
        };
        i = i + 1;
        let blob: Vec<u8> = match blob {
            Some(b) => b,
            None => {
                continue ;
            },
        };
        let meta = match FileMeta::decode(blob.as_slice()) {
            Ok(m) => m,
            Err(cause) => {
                proof {
                    let j = i - 1;
                    assert(ids@[j] == fid && is_corrupt(snap@, fid));
                    assert(first_corrupt(snap@, ids@, fid));
                }
                return Err(StoreError::Corrupt { file_id: fid, cause });
            },
        };
        let path: String = match path_in(snap, fid) {
            Ok(Some(p)) => p,
            Ok(None) => UNKNOWN_PATH.to_owned(),
            Err(e) => {
                return Err(e);
            },
        };
        out.push(ShaEntry { file_id: fid, state, path, meta });
    }
    assert(ids@.take(n as int) =~= ids@);
    Ok(out)
}

/// Opens the eight tables of the schema in a write transaction: the
/// tables that come back are those that the schema names.
fn open_tables<'txn>(tx: &'txn redb::WriteTransaction) -> (r: Result<
    WriteTables<'txn>,
    redb::Error,
>)
    ensures
        r matches Ok(t) ==> held_under(t) == write_tables(),
{
    proof {
        lemma_table_names();
    }
    open_write_tables(
        tx,
        PATH_TO_ID,
        ID_TO_PATH,
        KV_U64,
        PATH_CURRENT,
        FILE_META,
        FILE_TO_PATH,
        FILE_STATE,
        HASH256_TO_FILES,
    )
}

/// Opens the tables of the schema that queries read in a read
/// transaction: the tables that come back are those that the schema names.
fn open_read_tables(tx: &redb::ReadTransaction) -> (r: Result<Snapshot, redb::Error>)
    ensures
        r matches Ok(t) ==> seen_under(t) == read_tables(),
{
    proof {
        lemma_table_names();
    }
    open_snapshot(
        tx,
        PATH_TO_ID,
        ID_TO_PATH,
        PATH_CURRENT,
        FILE_META,
        FILE_TO_PATH,
        FILE_STATE,
        HASH256_TO_FILES,
    )
}

impl DbHandle {
    /// Wraps an open database of the key-value engine.
    pub fn new(db_dir: String, db: redb::Database) -> (r: DbHandle)
        ensures
            r.db_dir == db_dir,
            r.db == db,
    {
        DbHandle { db_dir, db }
    }

    /// The tables as committed so far, for any number of queries: those
    /// that the schema names.
    pub fn snapshot(&self) -> (r: Result<Snapshot, StoreError>)
        ensures
            r matches Ok(snap) ==> seen_under(snap) == read_tables(),
            r matches Err(e) ==> e is Backend,
    {
        let tx = match begin_read(&self.db) {
            Ok(tx) => tx,
            Err(e) => {
                return Err(StoreError::Backend(e));
            },
        };
        match open_read_tables(&tx) {
            Ok(snap) => Ok(snap),
            Err(e) => Err(StoreError::Backend(e)),
        }
    }

    /// Makes sure that every table exists.
    pub fn ensure_schema(&self) -> (r: Result<(), StoreError>)
        ensures
            r matches Err(e) ==> e is Backend,
    {
        let tx = match begin_write(&self.db) {
            Ok(tx) => tx,
            Err(e) => {
                return Err(StoreError::Backend(e));
            },
        };
        {
            match open_tables(&tx) {
                Ok(_) => {},
                Err(e) => {
                    return Err(StoreError::Backend(e));
                },
            }
        }
        match commit(tx) {
            Ok(()) => Ok(()),
            Err(e) => Err(StoreError::Backend(e)),
        }
    }

    /// Finds the identifier of a path, giving it the next free one where it
    /// has none, in a transaction of its own. Unless the engine fails, the
    /// result is what `pid_outcome` says of the tables that the transaction found.
    pub fn get_or_create_pid(&self, path: &str) -> (r: Result<u64, StoreError>)
        ensures
            r matches Err(StoreError::Backend(_)) || exists|s: StoreState|
                #[trigger] pid_outcome(s, path@, r),
            r matches Err(e) ==> !(e is Corrupt),
    {
        let tx = match begin_write(&self.db) {
            Ok(tx) => tx,
            Err(e) => {
                return Err(StoreError::Backend(e));
            },
        };
        let (found, Ghost(before)): (Result<u64, StoreError>, Ghost<StoreState>) = {
            let mut t = match open_tables(&tx) {
                Ok(t) => t,
                Err(e) => {
                    return Err(StoreError::Backend(e));
                },
            };
            let ghost before = t@;
            let found = get_or_create_pid_in(&mut t, path);
            (found, Ghost(before))
        };
        match found {
            Ok(pid) => match commit(tx) {
                Ok(()) => {
                    assert(pid_outcome(before, path@, Ok(pid)));
                    Ok(pid)
                },
                Err(e) => Err(StoreError::Backend(e)),
            },
            Err(e) => {
                assert(pid_outcome(before, path@, Err(e)));
                Err(e)
            },
        }
    }

    /// Writes a batch of observations in one transaction: all of it is
    /// committed, or on any error none of it. Unless the engine fails, the
    /// result is what `batch_outcome` says of the tables that the
    /// transaction found: success where every item got its identifiers, and
    /// the error of having none left where an item did not.
    pub fn write_batch_versions(&self, batch: &[(String, Vec<u8>, [u8; 32])]) -> (r: Result<
        (),
        StoreError,
    >)
        ensures
            r matches Err(StoreError::Backend(_)) || exists|s: StoreState|
                #[trigger] batch_outcome(s, observations_of(batch@), r),
            r matches Err(e) ==> !(e is Corrupt),
    {
        let tx = match begin_write(&self.db) {
            Ok(tx) => tx,
            Err(e) => {
                return Err(StoreError::Backend(e));
            },
        };
        let (written, Ghost(before)): (Result<(), StoreError>, Ghost<StoreState>) = {
            let mut t = match open_tables(&tx) {
                Ok(t) => t,
                Err(e) => {
                    return Err(StoreError::Backend(e));
                },
            };
            let ghost before = t@;
            let written = write_batch_in(&mut t, batch);
            (written, Ghost(before))
        };
        match written {
            Ok(()) => match commit(tx) {
                Ok(()) => {
                    assert(batch_outcome(before, observations_of(batch@), Ok(())));
                    Ok(())
                },
                Err(e) => Err(StoreError::Backend(e)),
            },
            Err(e) => {
                assert(batch_outcome(before, observations_of(batch@), Err(e)));
                Err(e)
            },
        }
    }

    /// Size and modification time of the latest observation of a path, as
    /// committed so far. Unless the engine fails, the result is what
    /// `size_mtime_outcome` says of the tables of a snapshot.
    pub fn get_current_size_mtime_by_path(&self, path: &str) -> (r: Result<
        Option<(u64, u64)>,
        StoreError,
    >)
        ensures
            r matches Err(StoreError::Backend(_)) || exists|s: StoreState|
                #[trigger] size_mtime_outcome(s, path@, r),
            r matches Err(e) ==> !(e is IdsExhausted),
    {
        let snap = match self.snapshot() {
            Ok(s) => s,
            Err(e) => {
                return Err(e);
            },
        };
        let r = current_size_mtime_in(&snap, path);
        assert(size_mtime_outcome(snap@, path@, r));
        r
    }

    /// Marks missing, in one transaction, each live latest observation whose
    /// path is under a root and was not seen. Returns how many it marked:
    /// the number that `sweep_outcome` gives for the tables that the
    /// transaction found.
    pub fn mark_missing_not_seen(&self, roots: &[String], seen: &SeenSet) -> (r: Result<
        u64,
        StoreError,
    >)
        ensures
            r matches Err(StoreError::Backend(_)) || exists|s: StoreState|
                #[trigger] sweep_outcome(s, strings_of(roots@), seen@, r),
            r matches Err(e) ==> e is Backend,
    {
        let tx = match begin_write(&self.db) {
            Ok(tx) => tx,
            Err(e) => {
                return Err(StoreError::Backend(e));
            },
        };
        let (marked, Ghost(before)): (Result<u64, StoreError>, Ghost<StoreState>) = {
            let mut t = match open_tables(&tx) {
                Ok(t) => t,
                Err(e) => {
                    return Err(StoreError::Backend(e));
                },
            };
            let ghost before = t@;
            let marked = mark_missing_not_seen_in(&mut t, roots, seen);
            (marked, Ghost(before))
        };
        match marked {
            Ok(n) => match commit(tx) {
                Ok(()) => {
                    assert(sweep_outcome(before, strings_of(roots@), seen@, Ok(n)));
                    Ok(n)
                },
                Err(e) => Err(StoreError::Backend(e)),
            },
            Err(e) => {
                assert(sweep_outcome(before, strings_of(roots@), seen@, Err(e)));
                Err(e)
            },
        }
    }

    /// Marks each listed file identifier missing if it is live, in one transaction.
    pub fn mark_files_missing(&self, file_ids: &[u64]) -> (r: Result<(), StoreError>)
        ensures
            r matches Err(e) ==> e is Backend,
    {
        let tx = match begin_write(&self.db) {
            Ok(tx) => tx,
            Err(e) => {
                return Err(StoreError::Backend(e));
            },
        };
        {
            let mut t = match open_tables(&tx) {
                Ok(t) => t,
                Err(e) => {
                    return Err(StoreError::Backend(e));
                },
            };
            match mark_files_missing_in(&mut t, file_ids) {
                Ok(()) => {},
                Err(e) => {
                    return Err(e);
                },
            }
        }
        match commit(tx) {
            Ok(()) => Ok(()),
            Err(e) => Err(StoreError::Backend(e)),
        }
    }

    /// The latest observation of a path, as committed so far. Unless the
    /// engine fails, the result is what `current_outcome` says of the tables
    /// of a snapshot.
    pub fn get_current_by_path(&self, norm_path: &str) -> (r: Result<
        Option<CurrentByPath>,
        StoreError,
    >)
        ensures
            r matches Err(StoreError::Backend(_)) || exists|s: StoreState|
                #[trigger] current_outcome(s, norm_path@, r),
            r matches Ok(Some(c)) ==> c.sha256 == c.meta.hash256,
            r matches Err(e) ==> !(e is IdsExhausted),
    {
        let snap = match self.snapshot() {
            Ok(s) => s,
            Err(e) => {
                return Err(e);
            },
        };
        let r = current_by_path_in(&snap, norm_path);
        assert(current_outcome(snap@, norm_path@, r));
        r
    }

    /// Every observation listed under a content hash, live or not, as
    /// committed so far. Unless the engine fails, the result is what
    /// `lookup_outcome` says of the tables of a snapshot.
    pub fn lookup_files_by_sha256(&self, sha256: &[u8; 32]) -> (r: Result<
        Vec<ShaEntry>,
        StoreError,
    >)
        ensures
            r matches Err(StoreError::Backend(_)) || exists|s: StoreState|
                #[trigger] lookup_outcome(s, sha256@, r),
            r matches Err(e) ==> !(e is IdsExhausted),
    {
        let snap = match self.snapshot() {
            Ok(s) => s,
            Err(e) => {
                return Err(e);
            },
        };
        let r = lookup_by_hash_in(&snap, sha256);
        assert(lookup_outcome(snap@, sha256@, r));
        r
    }
}

} // verus!
