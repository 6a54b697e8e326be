//! What holds of the tables after every transaction.

use crate::codec::{lemma_unpack_pack, packed, unpacked};
use crate::file_meta::stored_hash;
use crate::kv::{lookup, StoreState};
use crate::listing::{listed_by_id, rows_by_id};
use crate::model::{
    counter, current_fid, first_not_below, holds_id, ids_under, is_live, path_of,
    marked_missing, observed, observed_all, out_of_path_ids, path_id, row_unseen, runs_out,
    sha_row, sha_rows, swept, with_current_replaced, with_id, with_path, with_version, Observation, LIVE, MISSING,
    REPLACED,
};
use crate::schema::{lemma_counter_keys_differ, KEY_NEXT_FILE_ID, KEY_NEXT_PATH_ID};
use vstd::prelude::*;

verus! {

/// Whether the identifiers ascend strictly, so that none occurs twice.
pub open spec fn ascending(ids: Seq<u64>) -> bool {
    forall|i: int, j: int| 0 <= i < j < ids.len() ==> #[trigger] ids[i] < #[trigger] ids[j]
}

/// Whether every file identifier in use is below the next one to hand out.
pub open spec fn fids_are_issued(s: StoreState) -> bool {
    let next = counter(s, KEY_NEXT_FILE_ID@);
    &&& forall|f: u64| #[trigger] s.file_meta.contains_key(f) ==> f < next
    &&& forall|f: u64| #[trigger] s.file_state.contains_key(f) ==> f < next
    &&& forall|f: u64| #[trigger] s.file_to_path.contains_key(f) ==> f < next
    &&& forall|p: u64| #[trigger] s.path_current.contains_key(p) ==> s.path_current[p] < next
    &&& forall|h: Seq<u8>, k: int|
        s.hash_index.contains_key(h) && 0 <= k < unpacked(s.hash_index[h]).len()
            ==> #[trigger] unpacked(s.hash_index[h])[k] < next
}

/// Whether every path identifier that has a latest observation belongs to a path.
pub open spec fn current_paths_are_known(s: StoreState) -> bool {
    forall|p: u64| #[trigger] s.path_current.contains_key(p) ==> s.id_to_path.contains_key(p)
}

/// Whether every path identifier in use is below the next one to hand
/// out, and belongs to a path.
pub open spec fn pids_are_issued(s: StoreState) -> bool {
    &&& forall|p: u64| #[trigger] s.id_to_path.contains_key(p) ==> p < counter(s, KEY_NEXT_PATH_ID@)
    &&& current_paths_are_known(s)
}

/// Whether paths and path identifiers stand one to one.
pub open spec fn paths_one_to_one(s: StoreState) -> bool {
    &&& forall|p: Seq<char>| #[trigger]
        s.path_to_id.contains_key(p) ==> s.id_to_path.contains_key(s.path_to_id[p])
            && s.id_to_path[s.path_to_id[p]] == p
    &&& forall|i: u64| #[trigger]
        s.id_to_path.contains_key(i) ==> s.path_to_id.contains_key(s.id_to_path[i])
            && s.path_to_id[s.id_to_path[i]] == i
}

/// Whether the latest observation of every path has an encoding, a state
/// and a path on record, and that path is the one it is the latest of.
pub open spec fn current_is_recorded(s: StoreState) -> bool {
    forall|p: u64| #[trigger]
        s.path_current.contains_key(p) ==> {
            &&& s.file_meta.contains_key(s.path_current[p])
            &&& s.file_state.contains_key(s.path_current[p])
            &&& lookup(s.file_to_path, s.path_current[p]) == Some(p)
        }
}

/// Whether the path of every observation has a latest observation.
pub open spec fn paths_have_current(s: StoreState) -> bool {
    forall|f: u64| #[trigger]
        s.file_to_path.contains_key(f) ==> s.path_current.contains_key(s.file_to_path[f])
}

/// Whether every live observation is the latest of its path, so that no
/// path has two live observations.
pub open spec fn live_is_current(s: StoreState) -> bool {
    forall|f: u64| #[trigger]
        is_live(s, f) ==> s.file_to_path.contains_key(f) && lookup(
            s.path_current,
            s.file_to_path[f],
        ) == Some(f)
}

/// Whether every observation listed under a hash has an encoding, and
/// that encoding carries the hash.
pub open spec fn index_agrees(s: StoreState) -> bool {
    forall|h: Seq<u8>, k: int|
        s.hash_index.contains_key(h) && 0 <= k < unpacked(s.hash_index[h]).len() ==> {
            &&& s.file_meta.contains_key(#[trigger] unpacked(s.hash_index[h])[k])
            &&& stored_hash(s.file_meta[unpacked(s.hash_index[h])[k]]) == h
        }
}

/// Whether every observation with an encoding is listed under the hash that the encoding carries.
pub open spec fn index_complete(s: StoreState) -> bool {
    forall|f: u64| #[trigger]
        s.file_meta.contains_key(f) ==> {
            &&& s.hash_index.contains_key(stored_hash(s.file_meta[f]))
            &&& unpacked(s.hash_index[stored_hash(s.file_meta[f])]).contains(f)
        }
}

/// Whether every list of the hash index ascends strictly, so that no
/// observation is listed twice under a hash.
pub open spec fn index_ascends(s: StoreState) -> bool {
    forall|h: Seq<u8>| #[trigger] s.hash_index.contains_key(h) ==> ascending(unpacked(s.hash_index[h]))
}

/// Whether every list of the hash index holds an observation, so that a
/// hash is on record exactly where something is listed under it.
pub open spec fn index_lists_filled(s: StoreState) -> bool {
    forall|h: Seq<u8>| #[trigger]
        s.hash_index.contains_key(h) ==> unpacked(s.hash_index[h]).len() > 0
}

/// What holds of the tables after every committed transaction.
pub open spec fn consistent(s: StoreState) -> bool {
    &&& fids_are_issued(s)
    &&& pids_are_issued(s)
    &&& paths_one_to_one(s)
    &&& current_is_recorded(s)
    &&& paths_have_current(s)
    &&& live_is_current(s)
    &&& index_agrees(s)
    &&& index_complete(s)
    &&& index_ascends(s)
    &&& index_lists_filled(s)
}

/// What holds of the seven tables that queries read after every
/// committed transaction: all that `consistent` says without the
/// counters, which a snapshot does not show.
pub open spec fn consistent_for_reads(s: StoreState) -> bool {
    &&& current_paths_are_known(s)
    &&& paths_one_to_one(s)
    &&& current_is_recorded(s)
    &&& paths_have_current(s)
    &&& live_is_current(s)
    &&& index_agrees(s)
    &&& index_complete(s)
    &&& index_ascends(s)
    &&& index_lists_filled(s)
}

/// Whether two states hold the same in the seven tables that queries read.
pub open spec fn same_for_reads(s: StoreState, t: StoreState) -> bool {
    &&& s.path_to_id == t.path_to_id
    &&& s.id_to_path == t.id_to_path
    &&& s.path_current == t.path_current
    &&& s.file_meta == t.file_meta
    &&& s.file_to_path == t.file_to_path
    &&& s.file_state == t.file_state
    &&& s.hash_index == t.hash_index
}

/// A store without any row.
pub open spec fn empty_store() -> StoreState {
    StoreState {
        path_to_id: Map::empty(),
        id_to_path: Map::empty(),
        counters: Map::empty(),
        path_current: Map::empty(),
        file_meta: Map::empty(),
        file_to_path: Map::empty(),
        file_state: Map::empty(),
        hash_index: Map::empty(),
    }
}

/// Whether the content hash written beside an encoding is the one that the encoding carries.
pub open spec fn coherent(o: Observation) -> bool {
    stored_hash(o.blob) == o.hash
}

/// Whether the content hash of every item of a batch is the one that its encoding carries.
pub open spec fn all_coherent(batch: Seq<Observation>) -> bool {
    forall|i: int| 0 <= i < batch.len() ==> coherent(#[trigger] batch[i])
}

/// An empty store is consistent.
pub proof fn lemma_empty_is_consistent()
    ensures
        consistent(empty_store()),
{
}

/// An identifier above all of a list goes to its end.
pub proof fn lemma_new_id_goes_last(ids: Seq<u64>, fid: u64)
    requires
        forall|k: int| 0 <= k < ids.len() ==> #[trigger] ids[k] < fid,
    ensures
        first_not_below(ids, fid) == ids.len(),
        !holds_id(ids, fid),
        with_id(ids, fid) == ids.push(fid),
    decreases ids.len(),
{
    if ids.len() > 0 {
        assert(ids[0] < fid);
        let rest = ids.drop_first();
        assert forall|k: int| 0 <= k < rest.len() implies #[trigger] rest[k] < fid by {
            assert(rest[k] == ids[k + 1]);
        }
        lemma_new_id_goes_last(rest, fid);
    }
    assert(ids.insert(ids.len() as int, fid) =~= ids.push(fid));
}

/// Giving a path its identifier keeps the tables consistent.
pub proof fn lemma_with_path_consistent(s: StoreState, path: Seq<char>)
    requires
        consistent(s),
        !out_of_path_ids(s, path),
    ensures
        consistent(with_path(s, path)),
        with_path(s, path).path_to_id.contains_key(path),
        with_path(s, path).id_to_path.contains_key(path_id(s, path)),
        with_path(s, path).path_current == s.path_current,
        with_path(s, path).file_state == s.file_state,
        counter(with_path(s, path), KEY_NEXT_FILE_ID@) == counter(s, KEY_NEXT_FILE_ID@),
{
    lemma_counter_keys_differ();
    let t = with_path(s, path);
    if !s.path_to_id.contains_key(path) {
        let pid = counter(s, KEY_NEXT_PATH_ID@);
        assert(!s.id_to_path.contains_key(pid));
        assert(paths_one_to_one(t)) by {
            assert forall|p: Seq<char>| #[trigger]
                t.path_to_id.contains_key(p) implies t.id_to_path.contains_key(
                t.path_to_id[p],
            ) && t.id_to_path[t.path_to_id[p]] == p by {
                if p != path {
                    assert(s.path_to_id.contains_key(p));
                    assert(s.id_to_path.contains_key(s.path_to_id[p]));
                }
            }
            assert forall|i: u64| #[trigger]
                t.id_to_path.contains_key(i) implies t.path_to_id.contains_key(
                t.id_to_path[i],
            ) && t.path_to_id[t.id_to_path[i]] == i by {
                if i != pid {
                    assert(s.id_to_path.contains_key(i));
                    assert(s.path_to_id.contains_key(s.id_to_path[i]));
                }
            }
        }
        assert(pids_are_issued(t)) by {
            assert forall|p: u64| #[trigger] t.id_to_path.contains_key(p) implies p < counter(
                t,
                KEY_NEXT_PATH_ID@,
            ) by {
                if p != pid {
                    assert(s.id_to_path.contains_key(p));
                }
            }
            assert forall|p: u64| #[trigger]
                t.path_current.contains_key(p) implies t.id_to_path.contains_key(
            p) by {
                assert(s.path_current.contains_key(p));
            }
        }
        assert(fids_are_issued(t));
        assert(current_is_recorded(t));
        assert(live_is_current(t)) by {
            assert forall|f: u64| #[trigger] is_live(t, f) implies t.file_to_path.contains_key(f)
                && lookup(t.path_current, t.file_to_path[f]) == Some(f) by {
                assert(is_live(s, f));
            }
        }
        assert(index_agrees(t));
        assert(index_complete(t));
        assert(index_ascends(t));
        assert(index_lists_filled(t));
    } else {
        assert(s.id_to_path.contains_key(s.path_to_id[path]));
    }
}

/// Writing an observation whose hash is that of its encoding keeps the tables consistent.
pub proof fn lemma_observed_consistent(s: StoreState, o: Observation)
    requires
        consistent(s),
        !runs_out(s, o),
        coherent(o),
    ensures
        consistent(observed(s, o)),
{
    lemma_counter_keys_differ();
    lemma_with_path_consistent(s, o.path);
    let pid = path_id(s, o.path);
    let named = with_path(s, o.path);
    let retired = with_current_replaced(named, pid);
    let fid = counter(s, KEY_NEXT_FILE_ID@);
    let t = with_version(retired, pid, o.blob, o.hash);
    assert(t == observed(s, o));
    assert(counter(retired, KEY_NEXT_FILE_ID@) == fid);
    // The table of states changes at the replaced observation only.
    assert forall|f: u64| retired.file_state.contains_key(f) == named.file_state.contains_key(f) by {
        if named.path_current.contains_key(pid) {
            assert(named.file_state.contains_key(named.path_current[pid]));
        }
    }
    let ids = ids_under(retired, o.hash);
    assert forall|k: int| 0 <= k < ids.len() implies #[trigger] ids[k] < fid by {
        assert(s.hash_index.contains_key(o.hash));
        assert(unpacked(s.hash_index[o.hash])[k] < fid);
    }
    lemma_new_id_goes_last(ids, fid);
    lemma_unpack_pack(ids.push(fid));
    assert(t.hash_index == s.hash_index.insert(o.hash, packed(ids.push(fid))));
    assert(unpacked(t.hash_index[o.hash]) == ids.push(fid));

    assert(fids_are_issued(t)) by {
        let next = counter(t, KEY_NEXT_FILE_ID@);
        assert(next == fid + 1);
        assert forall|f: u64| #[trigger] t.file_meta.contains_key(f) implies f < next by {
            if f != fid {
                assert(s.file_meta.contains_key(f));
            }
        }
        assert forall|f: u64| #[trigger] t.file_state.contains_key(f) implies f < next by {
            if f != fid {
                assert(retired.file_state.contains_key(f));
                assert(s.file_state.contains_key(f));
            }
        }
        assert forall|f: u64| #[trigger] t.file_to_path.contains_key(f) implies f < next by {
            if f != fid {
                assert(s.file_to_path.contains_key(f));
            }
        }
        assert forall|p: u64| #[trigger] t.path_current.contains_key(p) implies t.path_current[p]
            < next by {
            if p != pid {
                assert(s.path_current.contains_key(p));
            }
        }
        assert forall|h: Seq<u8>, k: int|
            t.hash_index.contains_key(h) && 0 <= k < unpacked(
                t.hash_index[h],
            ).len() implies #[trigger] unpacked(t.hash_index[h])[k] < next by {
            if h == o.hash {
                if k < ids.len() {
                    assert(ids.push(fid)[k] == ids[k]);
                }
            } else {
                assert(s.hash_index.contains_key(h));
                assert(unpacked(s.hash_index[h])[k] < fid);
            }
        }
    }
    assert(pids_are_issued(t)) by {
        assert forall|p: u64| #[trigger]
                t.path_current.contains_key(p) implies t.id_to_path.contains_key(
        p) by {
            if p != pid {
                assert(named.path_current.contains_key(p));
            }
        }
        assert forall|p: u64| #[trigger] t.id_to_path.contains_key(p) implies p < counter(
            t,
            KEY_NEXT_PATH_ID@,
        ) by {
            assert(named.id_to_path.contains_key(p));
        }
    }
    assert(paths_one_to_one(t)) by {
        assert forall|p: Seq<char>| #[trigger]
                t.path_to_id.contains_key(p) implies t.id_to_path.contains_key(
            t.path_to_id[p],
        ) && t.id_to_path[t.path_to_id[p]] == p by {
            assert(named.path_to_id.contains_key(p));
        }
        assert forall|i: u64| #[trigger]
                t.id_to_path.contains_key(i) implies t.path_to_id.contains_key(
            t.id_to_path[i],
        ) && t.path_to_id[t.id_to_path[i]] == i by {
            assert(named.id_to_path.contains_key(i));
        }
    }
    assert(current_is_recorded(t)) by {
        assert forall|p: u64| #[trigger] t.path_current.contains_key(p) implies {
            &&& t.file_meta.contains_key(t.path_current[p])
            &&& t.file_state.contains_key(t.path_current[p])
            &&& lookup(t.file_to_path, t.path_current[p]) == Some(p)
        } by {
            if p != pid {
                assert(named.path_current.contains_key(p));
                let f = named.path_current[p];
                assert(named.file_state.contains_key(f));
                assert(retired.file_state.contains_key(f));
                assert(f < fid);
            }
        }
    }
    assert(live_is_current(t)) by {
        assert forall|f: u64| #[trigger] is_live(t, f) implies t.file_to_path.contains_key(f)
            && lookup(t.path_current, t.file_to_path[f]) == Some(f) by {
            if f != fid {
                assert(is_live(retired, f));
                assert(is_live(named, f));
                assert(named.file_to_path.contains_key(f));
                let p = named.file_to_path[f];
                assert(lookup(named.path_current, p) == Some(f));
                if p == pid {
                    assert(retired.file_state[f] == REPLACED);
                }
            }
        }
    }
    assert(index_agrees(t)) by {
        assert forall|h: Seq<u8>, k: int|
            t.hash_index.contains_key(h) && 0 <= k < unpacked(t.hash_index[h]).len() implies {
            &&& t.file_meta.contains_key(#[trigger] unpacked(t.hash_index[h])[k])
            &&& stored_hash(t.file_meta[unpacked(t.hash_index[h])[k]]) == h
        } by {
            if h == o.hash {
                if k < ids.len() {
                    assert(ids.push(fid)[k] == ids[k]);
                    assert(s.hash_index.contains_key(h));
                    assert(s.file_meta.contains_key(unpacked(s.hash_index[h])[k]));
                    assert(ids[k] < fid);
                }
            } else {
                assert(s.hash_index.contains_key(h));
                let f = unpacked(s.hash_index[h])[k];
                assert(s.file_meta.contains_key(f));
                assert(f < fid);
            }
        }
    }
    assert(index_complete(t)) by {
        assert forall|f: u64| #[trigger] t.file_meta.contains_key(f) implies {
            &&& t.hash_index.contains_key(stored_hash(t.file_meta[f]))
            &&& unpacked(t.hash_index[stored_hash(t.file_meta[f])]).contains(f)
        } by {
            if f == fid {
                assert(ids.push(fid)[ids.len() as int] == fid);
            } else {
                assert(s.file_meta.contains_key(f));
                let h = stored_hash(s.file_meta[f]);
                assert(s.hash_index.contains_key(h));
                let old_ids = unpacked(s.hash_index[h]);
                assert(old_ids.contains(f));
                if h == o.hash {
                    let k = choose|k: int| 0 <= k < old_ids.len() && old_ids[k] == f;
                    assert(ids.push(fid)[k] == f);
                }
            }
        }
    }
    assert(index_lists_filled(t)) by {
        assert forall|h: Seq<u8>| #[trigger] t.hash_index.contains_key(h) implies unpacked(
            t.hash_index[h],
        ).len() > 0 by {
            if h != o.hash {
                assert(s.hash_index.contains_key(h));
            }
        }
    }
    assert(index_ascends(t)) by {
        assert forall|h: Seq<u8>| #[trigger] t.hash_index.contains_key(h) implies ascending(
            unpacked(t.hash_index[h]),
        ) by {
            if h == o.hash {
                let now = ids.push(fid);
                if s.hash_index.contains_key(h) {
                    assert(ascending(ids));
                }
                assert forall|i: int, j: int| 0 <= i < j < now.len() implies #[trigger] now[i]
                    < #[trigger] now[j] by {
                    if j < ids.len() {
                        assert(ids[i] < ids[j]);
                    } else {
                        assert(ids[i] < fid);
                    }
                }
            } else {
                assert(s.hash_index.contains_key(h));
            }
        }
    }
}

/// Writing a batch whose hashes are those of its encodings keeps the tables consistent.
pub proof fn lemma_batch_consistent(s: StoreState, batch: Seq<Observation>)
    requires
        consistent(s),
        all_coherent(batch),
        forall|i: int|
            0 <= i < batch.len() ==> !runs_out(#[trigger] observed_all(s, batch.take(i)), batch[i]),
    ensures
        consistent(observed_all(s, batch)),
    decreases batch.len(),
{
    if batch.len() > 0 {
        let rest = batch.drop_last();
        assert forall|i: int| 0 <= i < rest.len() implies !runs_out(
            #[trigger] observed_all(s, rest.take(i)),
            rest[i],
        ) by {
            assert(rest.take(i) =~= batch.take(i));
            assert(rest[i] == batch[i]);
        }
        assert(all_coherent(rest)) by {
            assert forall|i: int| 0 <= i < rest.len() implies coherent(#[trigger] rest[i]) by {
                assert(rest[i] == batch[i]);
            }
        }
        lemma_batch_consistent(s, rest);
        assert(batch.take(batch.len() - 1) =~= rest);
        lemma_observed_consistent(observed_all(s, rest), batch.last());
    }
}

/// Writing an observation moves no counter back, and hands out no
/// identifier that is in use: the path identifier it gives to a new path
/// and the file identifier of the new observation were below no counter
/// before.
pub proof fn lemma_identifiers_are_fresh(s: StoreState, o: Observation)
    requires
        consistent(s),
        !runs_out(s, o),
    ensures
        counter(observed(s, o), KEY_NEXT_PATH_ID@) >= counter(s, KEY_NEXT_PATH_ID@),
        counter(observed(s, o), KEY_NEXT_FILE_ID@) == counter(s, KEY_NEXT_FILE_ID@) + 1,
        !s.path_to_id.contains_key(o.path) ==> {
            &&& path_id(s, o.path) == counter(s, KEY_NEXT_PATH_ID@)
            &&& !s.id_to_path.contains_key(path_id(s, o.path))
            &&& counter(observed(s, o), KEY_NEXT_PATH_ID@) == counter(s, KEY_NEXT_PATH_ID@) + 1
        },
        s.path_to_id.contains_key(o.path) ==> path_id(s, o.path) == s.path_to_id[o.path],
        !s.file_meta.contains_key(counter(s, KEY_NEXT_FILE_ID@)),
        !s.file_state.contains_key(counter(s, KEY_NEXT_FILE_ID@)),
        !s.file_to_path.contains_key(counter(s, KEY_NEXT_FILE_ID@)),
        observed(s, o).file_to_path[counter(s, KEY_NEXT_FILE_ID@)] == path_id(s, o.path),
{
    lemma_counter_keys_differ();
}

/// A changed file gets exactly one new observation: it is live, it is the
/// latest of its path, the one that was the latest is replaced, and no
/// other observation changes its state.
pub proof fn lemma_change_makes_one_version(s: StoreState, o: Observation, prev: u64)
    requires
        consistent(s),
        !runs_out(s, o),
        current_fid(s, o.path) == Some(prev),
        is_live(s, prev),
    ensures
        ({
            let t = observed(s, o);
            let fid = counter(s, KEY_NEXT_FILE_ID@);
            &&& !s.file_state.contains_key(fid)
            &&& !s.file_meta.contains_key(fid)
            &&& is_live(t, fid)
            &&& current_fid(t, o.path) == Some(fid)
            &&& t.file_meta[fid] == o.blob
            &&& t.file_state[prev] == REPLACED
            &&& t.file_state.dom() == s.file_state.dom().insert(fid)
            &&& t.file_meta.dom() == s.file_meta.dom().insert(fid)
            &&& forall|f: u64| f != fid && f != prev ==> lookup(t.file_state, f) == lookup(
                s.file_state,
                f,
            )
        }),
{
    lemma_counter_keys_differ();
    let t = observed(s, o);
    let fid = counter(s, KEY_NEXT_FILE_ID@);
    assert(s.path_current.contains_key(s.path_to_id[o.path]));
    assert(s.file_state.contains_key(prev));
    assert(prev < fid);
    assert(t.file_state.dom() =~= s.file_state.dom().insert(fid));
    assert(t.file_meta.dom() =~= s.file_meta.dom().insert(fid));
}

/// Marking listed observations missing changes the state of those that
/// were listed and live, to missing, and of no other.
pub proof fn lemma_marked_missing(states: Map<u64, u8>, fids: Seq<u64>, f: u64)
    ensures
        marked_missing(states, fids).dom() == states.dom(),
        lookup(marked_missing(states, fids), f) == if fids.contains(f) && lookup(states, f)
            == Some(LIVE) {
            Some(MISSING)
        } else {
            lookup(states, f)
        },
    decreases fids.len(),
{
    if fids.len() > 0 {
        let rest = fids.drop_last();
        lemma_marked_missing(states, rest, f);
        lemma_marked_missing(states, rest, fids.last());
        let m = marked_missing(states, rest);
        if lookup(m, fids.last()) == Some(LIVE) {
            assert(m.insert(fids.last(), MISSING).dom() =~= m.dom());
        }
        if fids.contains(f) {
            let k = choose|k: int| 0 <= k < fids.len() && fids[k] == f;
            if k < rest.len() {
                assert(rest[k] == f);
            }
        }
        if rest.contains(f) {
            let k = choose|k: int| 0 <= k < rest.len() && rest[k] == f;
            assert(fids[k] == f);
        }
        if fids.last() == f {
            assert(fids[fids.len() - 1] == f);
        }
    }
}

/// Whether a pass over `roots` that saw `seen` has lost the file of an
/// observation: the observation is the latest of a path that is known, is
/// under a root and was not seen.
pub open spec fn lost(
    s: StoreState,
    rows: Seq<(u64, u64)>,
    roots: Seq<Seq<char>>,
    seen: Set<Seq<char>>,
    f: u64,
) -> bool {
    exists|k: int|
        0 <= k < rows.len() && (#[trigger] rows[k]).1 == f && row_unseen(
            s,
            roots,
            seen,
            rows[k].0,
        )
}

/// Detecting missing files changes the state of the live observations
/// whose file was lost, to missing, and of no other.
pub proof fn lemma_swept(
    s: StoreState,
    rows: Seq<(u64, u64)>,
    roots: Seq<Seq<char>>,
    seen: Set<Seq<char>>,
    f: u64,
)
    ensures
        swept(s, rows, roots, seen).0.dom() == s.file_state.dom(),
        lookup(swept(s, rows, roots, seen).0, f) == if lost(s, rows, roots, seen, f) && is_live(s, f) {
            Some(MISSING)
        } else {
            lookup(s.file_state, f)
        },
    decreases rows.len(),
{
    if rows.len() > 0 {
        let rest = rows.drop_last();
        let last = rows.last();
        lemma_swept(s, rest, roots, seen, f);
        lemma_swept(s, rest, roots, seen, last.1);
        let m = swept(s, rest, roots, seen).0;
        if row_unseen(s, roots, seen, last.0) && lookup(m, last.1) == Some(LIVE) {
            assert(m.insert(last.1, MISSING).dom() =~= m.dom());
        }
        lemma_lost_by_the_last(s, rows, roots, seen, f);
    }
}

/// An observation is lost over some rows exactly if it is lost over all
/// but the last, or by the last.
pub proof fn lemma_lost_by_the_last(
    s: StoreState,
    rows: Seq<(u64, u64)>,
    roots: Seq<Seq<char>>,
    seen: Set<Seq<char>>,
    f: u64,
)
    requires
        rows.len() > 0,
    ensures
        lost(s, rows, roots, seen, f) <==> lost(s, rows.drop_last(), roots, seen, f) || (
        rows.last().1 == f && row_unseen(s, roots, seen, rows.last().0)),
{
    let rest = rows.drop_last();
    let last = rows.last();
    if lost(s, rows, roots, seen, f) {
        let k = choose|k: int|
            0 <= k < rows.len() && (#[trigger] rows[k]).1 == f && row_unseen(
                s,
                roots,
                seen,
                rows[k].0,
            );
        if k < rest.len() {
            assert(rest[k] == rows[k]);
        }
    }
    if lost(s, rest, roots, seen, f) {
        let k = choose|k: int|
            0 <= k < rest.len() && (#[trigger] rest[k]).1 == f && row_unseen(
                s,
                roots,
                seen,
                rest[k].0,
            );
        assert(rows[k] == rest[k]);
    }
    if last.1 == f && row_unseen(s, roots, seen, last.0) {
        assert(rows[rows.len() - 1] == last);
    }
}

/// The observations that a pass marks missing: the live ones whose file was lost.
pub open spec fn newly_missing(
    s: StoreState,
    rows: Seq<(u64, u64)>,
    roots: Seq<Seq<char>>,
    seen: Set<Seq<char>>,
) -> Set<u64> {
    Set::new(|f: u64| is_live(s, f) && lost(s, rows, roots, seen, f))
}

/// The number that detecting missing files returns is the number of
/// observations that it marks missing: those that were live and are
/// missing afterwards.
pub proof fn lemma_swept_counts_the_marked(
    s: StoreState,
    rows: Seq<(u64, u64)>,
    roots: Seq<Seq<char>>,
    seen: Set<Seq<char>>,
)
    ensures
        newly_missing(s, rows, roots, seen).finite(),
        swept(s, rows, roots, seen).1 == newly_missing(s, rows, roots, seen).len(),
        forall|f: u64| #[trigger]
            newly_missing(s, rows, roots, seen).contains(f) <==> is_live(s, f) && lookup(
                swept(s, rows, roots, seen).0,
                f,
            ) == Some(MISSING),
    decreases rows.len(),
{
    let now = newly_missing(s, rows, roots, seen);
    assert forall|f: u64| #[trigger] now.contains(f) <==> is_live(s, f) && lookup(
        swept(s, rows, roots, seen).0,
        f,
    ) == Some(MISSING) by {
        lemma_swept(s, rows, roots, seen, f);
    }
    if rows.len() == 0 {
        assert(now =~= Set::<u64>::empty());
    } else {
        let rest = rows.drop_last();
        let last = rows.last();
        let before = newly_missing(s, rest, roots, seen);
        lemma_swept_counts_the_marked(s, rest, roots, seen);
        lemma_swept(s, rest, roots, seen, last.1);
        assert forall|f: u64|
            lost(s, rows, roots, seen, f) <==> lost(s, rest, roots, seen, f) || (last.1 == f
                && row_unseen(s, roots, seen, last.0)) by {
            lemma_lost_by_the_last(s, rows, roots, seen, f);
        }
        let m = swept(s, rest, roots, seen).0;
        if row_unseen(s, roots, seen, last.0) && lookup(m, last.1) == Some(LIVE) {
            assert(!before.contains(last.1));
            assert(now =~= before.insert(last.1));
        } else {
            assert(now =~= before);
        }
    }
}

/// Over the listing of the latest observations, an observation is lost
/// exactly if it is the latest of a path that is known, is under a root
/// and was not seen.
pub proof fn lemma_lost_over_the_listing(
    s: StoreState,
    roots: Seq<Seq<char>>,
    seen: Set<Seq<char>>,
    f: u64,
)
    requires
        listed_by_id(s.path_current),
    ensures
        lost(s, rows_by_id(s.path_current), roots, seen, f) <==> exists|p: u64|
            #![trigger s.path_current.contains_key(p)]
            s.path_current.contains_key(p) && s.path_current[p] == f && row_unseen(
                s,
                roots,
                seen,
                p,
            ),
{
    let rows = rows_by_id(s.path_current);
    if lost(s, rows, roots, seen, f) {
        let k = choose|k: int|
            0 <= k < rows.len() && (#[trigger] rows[k]).1 == f && row_unseen(
                s,
                roots,
                seen,
                rows[k].0,
            );
        assert(s.path_current.contains_key(rows[k].0));
    }
    if exists|p: u64|
        #![trigger s.path_current.contains_key(p)]
        s.path_current.contains_key(p) && s.path_current[p] == f && row_unseen(s, roots, seen, p) {
        let p = choose|p: u64|
            #![trigger s.path_current.contains_key(p)]
            s.path_current.contains_key(p) && s.path_current[p] == f && row_unseen(
                s,
                roots,
                seen,
                p,
            );
        let k = choose|k: int| 0 <= k < rows.len() && #[trigger] rows[k].0 == p;
        assert(rows[k].1 == f);
    }
}

/// A pass that saw every path under its roots marks nothing missing.
pub proof fn lemma_nothing_lost_nothing_marked(
    s: StoreState,
    rows: Seq<(u64, u64)>,
    roots: Seq<Seq<char>>,
    seen: Set<Seq<char>>,
)
    requires
        forall|k: int| 0 <= k < rows.len() ==> !row_unseen(s, roots, seen, (#[trigger] rows[k]).0),
    ensures
        swept(s, rows, roots, seen) == (s.file_state, 0nat),
    decreases rows.len(),
{
    if rows.len() > 0 {
        let rest = rows.drop_last();
        assert forall|k: int| 0 <= k < rest.len() implies !row_unseen(
            s,
            roots,
            seen,
            (#[trigger] rest[k]).0,
        ) by {
            assert(rest[k] == rows[k]);
        }
        lemma_nothing_lost_nothing_marked(s, rest, roots, seen);
        assert(rows[rows.len() - 1] == rows.last());
    }
}

/// Consistent tables are consistent for reads.
pub proof fn lemma_consistent_reads(s: StoreState)
    requires
        consistent(s),
    ensures
        consistent_for_reads(s),
{
}

/// Whether tables are consistent for reads depends on the seven tables
/// that queries read only: a snapshot of consistent tables, whatever it
/// shows as counters, is consistent for reads.
pub proof fn lemma_snapshot_consistent_for_reads(s: StoreState, snap: StoreState)
    requires
        consistent_for_reads(s),
        same_for_reads(s, snap),
    ensures
        consistent_for_reads(snap),
{
    assert(live_is_current(snap)) by {
        assert forall|f: u64| #[trigger] is_live(snap, f) implies snap.file_to_path.contains_key(f)
            && lookup(snap.path_current, snap.file_to_path[f]) == Some(f) by {
            assert(is_live(s, f));
        }
    }
}

/// Where the tables are consistent for reads, a path has one live
/// observation at most: two live observations of one path are the same.
pub proof fn lemma_one_live_per_path(s: StoreState, f: u64, g: u64)
    requires
        consistent_for_reads(s),
        is_live(s, f),
        is_live(s, g),
        s.file_to_path[f] == s.file_to_path[g],
    ensures
        f == g,
{
}

/// Where the tables are consistent for reads, live observations of
/// different files are at different paths, and each of those paths is on record.
pub proof fn lemma_live_paths_differ(s: StoreState, f: u64, g: u64)
    requires
        consistent_for_reads(s),
        is_live(s, f),
        is_live(s, g),
        f != g,
    ensures
        path_of(s, f) is Some,
        path_of(s, g) is Some,
        path_of(s, f) != path_of(s, g),
{
    let p = s.file_to_path[f];
    let q = s.file_to_path[g];
    assert(s.path_current.contains_key(p) && s.path_current.contains_key(q));
    assert(s.id_to_path.contains_key(p) && s.id_to_path.contains_key(q));
    assert(p != q);
    if s.id_to_path[p] == s.id_to_path[q] {
        assert(s.path_to_id[s.id_to_path[p]] == p);
        assert(s.path_to_id[s.id_to_path[q]] == q);
    }
}

/// Where the tables are consistent for reads, an observation is listed
/// under one hash only: that of its encoding.
pub proof fn lemma_listed_under_one_hash(s: StoreState, h: Seq<u8>, k: Seq<u8>, f: u64)
    requires
        consistent_for_reads(s),
        s.hash_index.contains_key(h),
        s.hash_index.contains_key(k),
        unpacked(s.hash_index[h]).contains(f),
        unpacked(s.hash_index[k]).contains(f),
    ensures
        h == k,
        s.file_meta.contains_key(f),
        stored_hash(s.file_meta[f]) == h,
{
    let a = choose|a: int| 0 <= a < unpacked(s.hash_index[h]).len() && unpacked(s.hash_index[h])[a] == f;
    let b = choose|b: int| 0 <= b < unpacked(s.hash_index[k]).len() && unpacked(s.hash_index[k])[b] == f;
    assert(stored_hash(s.file_meta[unpacked(s.hash_index[h])[a]]) == h);
    assert(stored_hash(s.file_meta[unpacked(s.hash_index[k])[b]]) == k);
}

/// Where the tables are consistent for reads, a lookup by hash comes back
/// empty exactly for a hash that is not on record.
pub proof fn lemma_lookup_empty_for_unknown_hash(s: StoreState, h: Seq<u8>)
    requires
        consistent_for_reads(s),
    ensures
        sha_rows(s, h).len() == 0 <==> !s.hash_index.contains_key(h),
        sha_rows(s, h).len() == ids_under(s, h).len(),
{
    let ids = ids_under(s, h);
    assert forall|k: int| 0 <= k < ids.len() implies (#[trigger] sha_row(s)(ids[k])) is Some by {
        assert(s.file_meta.contains_key(unpacked(s.hash_index[h])[k]));
    }
    lemma_filter_map_keeps_all(ids, sha_row(s));
}

/// Where the function gives something for every element, nothing is left
/// out: each element is replaced by what the function gives for it.
pub proof fn lemma_filter_map_keeps_all<A, B>(s: Seq<A>, f: spec_fn(A) -> Option<B>)
    requires
        forall|k: int| 0 <= k < s.len() ==> (#[trigger] f(s[k])) is Some,
    ensures
        s.filter_map(f).len() == s.len(),
        forall|k: int| 0 <= k < s.len() ==> #[trigger] s.filter_map(f)[k] == f(s[k])->Some_0,
    decreases s.len(),
{
    reveal(Seq::filter_map);
    if s.len() > 0 {
        let rest = s.drop_last();
        assert forall|k: int| 0 <= k < rest.len() implies (#[trigger] f(rest[k])) is Some by {
            assert(rest[k] == s[k]);
        }
        lemma_filter_map_keeps_all(rest, f);
        assert(f(s[s.len() - 1]) is Some);
        assert forall|k: int| 0 <= k < s.len() implies #[trigger] s.filter_map(f)[k] == f(
            s[k],
        )->Some_0 by {
            if k < rest.len() {
                assert(rest[k] == s[k]);
                assert(s.filter_map(f)[k] == rest.filter_map(f)[k]);
            }
        }
    }
}

/// Marking observations missing keeps the tables consistent for reads.
pub proof fn lemma_marking_consistent_for_reads(s: StoreState, states: Map<u64, u8>)
    requires
        consistent_for_reads(s),
        states.dom() == s.file_state.dom(),
        forall|f: u64| #[trigger]
            states.contains_key(f) ==> states[f] == s.file_state[f] || (s.file_state[f] == LIVE
                && states[f] == MISSING),
    ensures
        consistent_for_reads(StoreState { file_state: states, ..s }),
{
    let t = StoreState { file_state: states, ..s };
    assert(current_is_recorded(t)) by {
        assert forall|p: u64| #[trigger] t.path_current.contains_key(p) implies {
            &&& t.file_meta.contains_key(t.path_current[p])
            &&& t.file_state.contains_key(t.path_current[p])
            &&& lookup(t.file_to_path, t.path_current[p]) == Some(p)
        } by {
            assert(s.path_current.contains_key(p));
            assert(s.file_state.contains_key(s.path_current[p]));
        }
    }
    assert(live_is_current(t)) by {
        assert forall|f: u64| #[trigger] is_live(t, f) implies t.file_to_path.contains_key(f)
            && lookup(t.path_current, t.file_to_path[f]) == Some(f) by {
            assert(states.contains_key(f));
            assert(is_live(s, f));
        }
    }
}

/// Marking observations missing keeps the tables consistent.
pub proof fn lemma_marking_consistent(s: StoreState, states: Map<u64, u8>)
    requires
        consistent(s),
        states.dom() == s.file_state.dom(),
        forall|f: u64| #[trigger]
            states.contains_key(f) ==> states[f] == s.file_state[f] || (s.file_state[f] == LIVE
                && states[f] == MISSING),
    ensures
        consistent(StoreState { file_state: states, ..s }),
{
    let t = StoreState { file_state: states, ..s };
    assert(fids_are_issued(t)) by {
        assert forall|f: u64| #[trigger] t.file_state.contains_key(f) implies f < counter(
            t,
            KEY_NEXT_FILE_ID@,
        ) by {
            assert(s.file_state.contains_key(f));
        }
    }
    assert(current_is_recorded(t)) by {
        assert forall|p: u64| #[trigger] t.path_current.contains_key(p) implies {
            &&& t.file_meta.contains_key(t.path_current[p])
            &&& t.file_state.contains_key(t.path_current[p])
            &&& lookup(t.file_to_path, t.path_current[p]) == Some(p)
        } by {
            assert(s.path_current.contains_key(p));
            assert(s.file_state.contains_key(s.path_current[p]));
        }
    }
    assert(live_is_current(t)) by {
        assert forall|f: u64| #[trigger] is_live(t, f) implies t.file_to_path.contains_key(f)
            && lookup(t.path_current, t.file_to_path[f]) == Some(f) by {
            assert(states.contains_key(f));
            assert(is_live(s, f));
        }
    }
}

} // verus!
