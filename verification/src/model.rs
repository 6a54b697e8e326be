//! The tables as plain maps, and what the operations of the store make of them.

use crate::codec::{packed, unpacked};
use crate::file_meta::{decode_failure, FileState};
use crate::kv::{lookup, StoreState};
use crate::lex::{begins_with, str_bytes};
use crate::schema::{FIRST_ID, KEY_NEXT_FILE_ID, KEY_NEXT_PATH_ID, UNKNOWN_PATH};
use vstd::prelude::*;

verus! {

/// State code of a live observation.
pub const LIVE: u8 = 0;

/// State code of an observation that a later one at the same path replaced.
pub const REPLACED: u8 = 1;

/// State code of an observation whose file is gone.
pub const MISSING: u8 = 2;

/// The byte that separates the components of a path.
pub const SLASH: u8 = 0x2f;

/// The other byte that a path filter accepts as a separator.
pub const BACKSLASH: u8 = 0x5c;

/// The three state codes are the codes of the three states.
pub proof fn lemma_codes_name_states()
    ensures
        FileState::Live.code() == LIVE,
        FileState::Replaced.code() == REPLACED,
        FileState::Missing.code() == MISSING,
        FileState::of_code(LIVE) == Some(FileState::Live),
        FileState::of_code(REPLACED) == Some(FileState::Replaced),
        FileState::of_code(MISSING) == Some(FileState::Missing),
{
}

/// One item of a write batch as plain values: path, encoded observation, content hash.
pub struct Observation {
    pub path: Seq<char>,
    pub blob: Seq<u8>,
    pub hash: Seq<u8>,
}

/// The value of a counter: what the table holds, or the first identifier
/// where the counter was never set.
pub open spec fn counter(s: StoreState, name: Seq<char>) -> u64 {
    match lookup(s.counters, name) {
        Some(v) => v,
        None => FIRST_ID,
    }
}

/// Whether the path has an identifier.
pub open spec fn knows_path(s: StoreState, path: Seq<char>) -> bool {
    s.path_to_id.contains_key(path)
}

/// Whether giving the path an identifier would need one more than exist.
pub open spec fn out_of_path_ids(s: StoreState, path: Seq<char>) -> bool {
    !knows_path(s, path) && counter(s, KEY_NEXT_PATH_ID@) == u64::MAX
}

/// The state after the path was given an identifier, if it had none: the
/// next free one, recorded in both directions, and the counter moved on.
pub open spec fn with_path(s: StoreState, path: Seq<char>) -> StoreState {
    if knows_path(s, path) {
        s
    } else {
        let pid = counter(s, KEY_NEXT_PATH_ID@);
        StoreState {
            counters: s.counters.insert(KEY_NEXT_PATH_ID@, (pid + 1) as u64),
            path_to_id: s.path_to_id.insert(path, pid),
            id_to_path: s.id_to_path.insert(pid, path),
            ..s
        }
    }
}

/// The identifier of the path once it has one.
pub open spec fn path_id(s: StoreState, path: Seq<char>) -> u64 {
    with_path(s, path).path_to_id[path]
}

/// The state after the latest observation of the path, if any, was marked replaced.
pub open spec fn with_current_replaced(s: StoreState, pid: u64) -> StoreState {
    match lookup(s.path_current, pid) {
        Some(prev) => StoreState { file_state: s.file_state.insert(prev, REPLACED), ..s },
        None => s,
    }
}

/// The first position whose identifier is not below `fid`.
pub open spec fn first_not_below(ids: Seq<u64>, fid: u64) -> int
    decreases ids.len(),
{
    if ids.len() == 0 || ids.first() >= fid {
        0
    } else {
        1 + first_not_below(ids.drop_first(), fid)
    }
}

/// Whether the list holds `fid` where an ascending list would.
pub open spec fn holds_id(ids: Seq<u64>, fid: u64) -> bool {
    let at = first_not_below(ids, fid);
    at < ids.len() && ids[at] == fid
}

/// The list with `fid` put where an ascending list holds it, unless it is there already.
pub open spec fn with_id(ids: Seq<u64>, fid: u64) -> Seq<u64> {
    if holds_id(ids, fid) {
        ids
    } else {
        ids.insert(first_not_below(ids, fid), fid)
    }
}

/// The identifiers listed under a hash; none where the hash is unknown.
pub open spec fn ids_under(s: StoreState, hash: Seq<u8>) -> Seq<u64> {
    match lookup(s.hash_index, hash) {
        Some(list) => unpacked(list),
        None => Seq::empty(),
    }
}

/// The hash index after `fid` was listed under `hash`.
pub open spec fn index_with(s: StoreState, hash: Seq<u8>, fid: u64) -> Map<Seq<u8>, Seq<u8>> {
    if holds_id(ids_under(s, hash), fid) {
        s.hash_index
    } else {
        s.hash_index.insert(hash, packed(with_id(ids_under(s, hash), fid)))
    }
}

/// The state after a new observation was recorded for the path with
/// identifier `pid`: it takes the next free file identifier, is live, is the
/// path's latest, and is listed under its hash.
pub open spec fn with_version(s: StoreState, pid: u64, blob: Seq<u8>, hash: Seq<u8>) -> StoreState {
    let fid = counter(s, KEY_NEXT_FILE_ID@);
    StoreState {
        counters: s.counters.insert(KEY_NEXT_FILE_ID@, (fid + 1) as u64),
        file_meta: s.file_meta.insert(fid, blob),
        file_to_path: s.file_to_path.insert(fid, pid),
        file_state: s.file_state.insert(fid, LIVE),
        path_current: s.path_current.insert(pid, fid),
        hash_index: index_with(s, hash, fid),
        ..s
    }
}

/// Whether recording the observation would need an identifier beyond the last one.
pub open spec fn runs_out(s: StoreState, o: Observation) -> bool {
    out_of_path_ids(s, o.path) || counter(s, KEY_NEXT_FILE_ID@) == u64::MAX
}

/// The state after one observation was written.
pub open spec fn observed(s: StoreState, o: Observation) -> StoreState {
    let pid = path_id(s, o.path);
    with_version(with_current_replaced(with_path(s, o.path), pid), pid, o.blob, o.hash)
}

/// The state after a batch was written, in batch order.
pub open spec fn observed_all(s: StoreState, batch: Seq<Observation>) -> StoreState
    decreases batch.len(),
{
    if batch.len() == 0 {
        s
    } else {
        observed(observed_all(s, batch.drop_last()), batch.last())
    }
}

/// Whether some item of the batch cannot be written for want of identifiers.
pub open spec fn batch_runs_out(s: StoreState, batch: Seq<Observation>) -> bool {
    exists|i: int|
        0 <= i < batch.len() && runs_out(#[trigger] observed_all(s, batch.take(i)), batch[i])
}

/// The state table after each listed identifier that was live was marked missing.
pub open spec fn marked_missing(states: Map<u64, u8>, fids: Seq<u64>) -> Map<u64, u8>
    decreases fids.len(),
{
    if fids.len() == 0 {
        states
    } else {
        let m = marked_missing(states, fids.drop_last());
        if lookup(m, fids.last()) == Some(LIVE) {
            m.insert(fids.last(), MISSING)
        } else {
            m
        }
    }
}

/// Whether the path is the root itself or lies below it: the root, then a
/// slash, then anything.
pub open spec fn under_root(path: Seq<u8>, root: Seq<u8>) -> bool {
    path == root || (begins_with(path, root) && path.len() > root.len()
        && path[root.len() as int] == SLASH)
}

/// Whether the path is under one of the roots.
pub open spec fn under_any_root(path: Seq<char>, roots: Seq<Seq<char>>) -> bool {
    exists|i: int| 0 <= i < roots.len() && under_root(str_bytes(path), str_bytes(#[trigger] roots[i]))
}

/// Whether a pass over `roots` that saw the paths in `seen` has lost the
/// file of this `path_current` row: its path is known, is under a root and
/// was not seen.
pub open spec fn row_unseen(
    s: StoreState,
    roots: Seq<Seq<char>>,
    seen: Set<Seq<char>>,
    pid: u64,
) -> bool {
    &&& s.id_to_path.contains_key(pid)
    &&& under_any_root(s.id_to_path[pid], roots)
    &&& !seen.contains(s.id_to_path[pid])
}

/// The state table, and the number of states changed, after the rows of
/// `path_current` were gone through in order and each live observation
/// whose row is unseen was marked missing.
pub open spec fn swept(
    s: StoreState,
    rows: Seq<(u64, u64)>,
    roots: Seq<Seq<char>>,
    seen: Set<Seq<char>>,
) -> (Map<u64, u8>, nat)
    decreases rows.len(),
{
    if rows.len() == 0 {
        (s.file_state, 0)
    } else {
        let (m, n) = swept(s, rows.drop_last(), roots, seen);
        let (pid, fid) = rows.last();
        if row_unseen(s, roots, seen, pid) && lookup(m, fid) == Some(LIVE) {
            (m.insert(fid, MISSING), n + 1)
        } else {
            (m, n)
        }
    }
}

/// The file identifier of the latest observation of a path.
pub open spec fn current_fid(s: StoreState, path: Seq<char>) -> Option<u64> {
    match lookup(s.path_to_id, path) {
        Some(pid) => lookup(s.path_current, pid),
        None => None,
    }
}

/// The latest observation of a path: its file identifier and its stored encoding.
pub open spec fn current_blob(s: StoreState, path: Seq<char>) -> Option<(u64, Seq<u8>)> {
    match current_fid(s, path) {
        Some(fid) => match lookup(s.file_meta, fid) {
            Some(blob) => Some((fid, blob)),
            None => None,
        },
        None => None,
    }
}

/// The state of an observation as lookups report it: missing where no
/// state, or no known state, is stored.
pub open spec fn state_of(s: StoreState, fid: u64) -> FileState {
    match lookup(s.file_state, fid) {
        Some(code) => match FileState::of_code(code) {
            Some(state) => state,
            None => FileState::Missing,
        },
        None => FileState::Missing,
    }
}

/// Whether the observation is live.
pub open spec fn is_live(s: StoreState, fid: u64) -> bool {
    lookup(s.file_state, fid) == Some(LIVE)
}

/// The path at which an observation was made, where both tables know it.
pub open spec fn path_of(s: StoreState, fid: u64) -> Option<Seq<char>> {
    match lookup(s.file_to_path, fid) {
        Some(pid) => lookup(s.id_to_path, pid),
        None => None,
    }
}

/// The path shown for an observation: a placeholder where the path is not known.
pub open spec fn shown_path(s: StoreState, fid: u64) -> Seq<char> {
    match path_of(s, fid) {
        Some(p) => p,
        None => UNKNOWN_PATH@,
    }
}

/// Whether an encoding is stored for the observation and does not decode.
pub open spec fn is_corrupt(s: StoreState, fid: u64) -> bool {
    s.file_meta.contains_key(fid) && decode_failure(s.file_meta[fid]) is Some
}

/// Whether `fid` is the first of `ids` whose stored encoding does not decode.
pub open spec fn first_corrupt(s: StoreState, ids: Seq<u64>, fid: u64) -> bool {
    exists|j: int|
        0 <= j < ids.len() && #[trigger] ids[j] == fid && is_corrupt(s, fid) && forall|k: int|
            0 <= k < j ==> !is_corrupt(s, #[trigger] ids[k])
}

/// Keeping some elements of a sequence gives no more than it has.
pub proof fn lemma_filter_map_len<A, B>(s: Seq<A>, f: spec_fn(A) -> Option<B>)
    ensures
        s.filter_map(f).len() <= s.len(),
    decreases s.len(),
{
    if s.len() > 0 {
        lemma_filter_map_len(s.drop_last(), f);
    }
}

/// Whether `fid` is the first of `ids` that `bad` holds of.
pub open spec fn first_such(ids: Seq<u64>, bad: spec_fn(u64) -> bool, fid: u64) -> bool {
    exists|j: int|
        0 <= j < ids.len() && #[trigger] ids[j] == fid && bad(fid) && forall|k: int|
            0 <= k < j ==> !bad(#[trigger] ids[k])
}

/// Whether `bad` holds of none of `ids`.
pub open spec fn none_such(ids: Seq<u64>, bad: spec_fn(u64) -> bool) -> bool {
    forall|j: int| 0 <= j < ids.len() ==> !bad(#[trigger] ids[j])
}

/// What a lookup by hash reports of one observation.
pub struct ShaRow {
    pub file_id: u64,
    pub state: FileState,
    pub path: Seq<char>,
    pub blob: Seq<u8>,
}

/// What a lookup by hash reports of `fid`: nothing where no encoding is stored.
pub open spec fn sha_row(s: StoreState) -> spec_fn(u64) -> Option<ShaRow> {
    |fid: u64|
        if s.file_meta.contains_key(fid) {
            Some(
                ShaRow {
                    file_id: fid,
                    state: state_of(s, fid),
                    path: shown_path(s, fid),
                    blob: s.file_meta[fid],
                },
            )
        } else {
            None
        }
}

/// What a lookup by hash reports: one row for each identifier listed under
/// the hash that has a stored encoding, in list order.
pub open spec fn sha_rows(s: StoreState, hash: Seq<u8>) -> Seq<ShaRow> {
    ids_under(s, hash).filter_map(sha_row(s))
}

} // verus!
