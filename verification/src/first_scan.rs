//! What writing copies of one content to an empty store leaves there.

use crate::codec::{lemma_unpack_pack, packed};
use crate::dupe_groups::{
    any_let_through, dupe_groups, dupe_row, group_row, header_of, DupeRow, GroupRow,
};
use crate::file_meta::{stored_mtime, stored_size};
use crate::invariants::{
    coherent, consistent, empty_store, lemma_empty_is_consistent, lemma_filter_map_keeps_all,
    lemma_new_id_goes_last, lemma_observed_consistent,
};
use crate::kv::{lists_by_bytes, lookup, StoreState};
use crate::listing::{lemma_rows_by_bytes, rows_by_bytes};
use crate::model::{
    batch_runs_out, counter, ids_under, is_live, observed, observed_all, path_id, path_of,
    runs_out, with_current_replaced, with_path, Observation, LIVE,
};
use crate::schema::{lemma_counter_keys_differ, FIRST_ID, KEY_NEXT_FILE_ID, KEY_NEXT_PATH_ID};
use crate::sort::{is_sorted, lemma_sorted_stays, sorted};
use vstd::prelude::*;

verus! {

/// The identifiers that the first `n` observations of a store get, in order.
pub open spec fn first_ids(n: nat) -> Seq<u64> {
    Seq::new(n, |i: int| (FIRST_ID + i) as u64)
}

/// The copies that a batch written to an empty store makes: one for each
/// item, with the item's path, size and modification time, in batch order.
pub open spec fn copies_of(batch: Seq<Observation>) -> Seq<DupeRow> {
    Seq::new(
        batch.len(),
        |i: int|
            DupeRow {
                file_id: (FIRST_ID + i) as u64,
                path: batch[i].path,
                size: stored_size(batch[i].blob),
                mtime: stored_mtime(batch[i].blob),
            },
    )
}

/// Whether the batch is of files of one content at different paths: every
/// item has the hash, which is that of its encoding, and no two items have
/// the same path.
pub open spec fn one_content(batch: Seq<Observation>, hash: Seq<u8>) -> bool {
    &&& forall|i: int| 0 <= i < batch.len() ==> (#[trigger] batch[i]).hash == hash && coherent(batch[i])
    &&& forall|i: int, j: int|
        0 <= i < j < batch.len() ==> (#[trigger] batch[i]).path != (#[trigger] batch[j]).path
}

/// Whether the store holds item `i` of the batch as the live observation
/// number `i`, at the item's path and with the item's encoding.
pub open spec fn holds_copy(s: StoreState, batch: Seq<Observation>, i: int) -> bool {
    &&& is_live(s, (FIRST_ID + i) as u64)
    &&& path_of(s, (FIRST_ID + i) as u64) == Some(batch[i].path)
    &&& lookup(s.file_meta, (FIRST_ID + i) as u64) == Some(batch[i].blob)
}

/// Whether the store holds the batch as written to an empty store: each
/// item is a live observation at its path, under the identifiers from the
/// first on, and all of them are listed under the one hash.
pub open spec fn holds_copies(s: StoreState, batch: Seq<Observation>, hash: Seq<u8>) -> bool {
    &&& consistent(s)
    &&& counter(s, KEY_NEXT_PATH_ID@) == FIRST_ID + batch.len()
    &&& counter(s, KEY_NEXT_FILE_ID@) == FIRST_ID + batch.len()
    &&& forall|p: Seq<char>| #[trigger]
        s.path_to_id.contains_key(p) ==> exists|i: int|
            0 <= i < batch.len() && (#[trigger] batch[i]).path == p
    &&& forall|i: int| 0 <= i < batch.len() ==> #[trigger] holds_copy(s, batch, i)
    &&& s.hash_index == if batch.len() == 0 {
        Map::<Seq<u8>, Seq<u8>>::empty()
    } else {
        Map::<Seq<u8>, Seq<u8>>::empty().insert(hash, packed(first_ids(batch.len())))
    }
}

/// Writing files of one content at different paths to an empty store
/// leaves each as a live observation at its path, all listed under the hash.
pub proof fn lemma_holds_copies(batch: Seq<Observation>, hash: Seq<u8>)
    requires
        one_content(batch, hash),
        batch.len() < u64::MAX - FIRST_ID,
    ensures
        holds_copies(observed_all(empty_store(), batch), batch, hash),
    decreases batch.len(),
{
    lemma_counter_keys_differ();
    if batch.len() == 0 {
        lemma_empty_is_consistent();
    } else {
        let rest = batch.drop_last();
        let o = batch.last();
        let n = rest.len();
        assert(one_content(rest, hash)) by {
            assert forall|i: int| 0 <= i < rest.len() implies (#[trigger] rest[i]).hash == hash
                && coherent(rest[i]) by {
                assert(rest[i] == batch[i]);
            }
            assert forall|i: int, j: int| 0 <= i < j < rest.len() implies (#[trigger] rest[i]).path
                != (#[trigger] rest[j]).path by {
                assert(rest[i] == batch[i] && rest[j] == batch[j]);
            }
        }
        lemma_holds_copies(rest, hash);
        let s = observed_all(empty_store(), rest);
        let t = observed(s, o);
        assert(observed_all(empty_store(), batch) == t);
        assert(o == batch[n as int]);
        assert(!s.path_to_id.contains_key(o.path)) by {
            if s.path_to_id.contains_key(o.path) {
                let i = choose|i: int| 0 <= i < n && (#[trigger] rest[i]).path == o.path;
                assert(rest[i] == batch[i]);
            }
        }
        assert(!runs_out(s, o));
        lemma_observed_consistent(s, o);
        let fid = (FIRST_ID + n) as u64;
        let pid = fid;
        assert(path_id(s, o.path) == pid);
        let named = with_path(s, o.path);
        assert(!s.id_to_path.contains_key(pid));
        assert(!s.path_current.contains_key(pid));
        assert(with_current_replaced(named, pid) == named);
        let ids = ids_under(named, hash);
        assert(ids == first_ids(n)) by {
            if n > 0 {
                lemma_unpack_pack(first_ids(n));
            } else {
                assert(ids =~= first_ids(n));
            }
        }
        lemma_new_id_goes_last(ids, fid);
        assert(first_ids(n).push(fid) =~= first_ids(n + 1));
        assert(t.hash_index =~= Map::<Seq<u8>, Seq<u8>>::empty().insert(
            hash,
            packed(first_ids(n + 1)),
        ));
        assert forall|i: int| 0 <= i < batch.len() implies #[trigger] holds_copy(t, batch, i) by {
            if i < n {
                let f = (FIRST_ID + i) as u64;
                assert(rest[i] == batch[i]);
                assert(holds_copy(s, rest, i));
                assert(is_live(s, f));
                assert(path_of(s, f) == Some(rest[i].path));
                assert(s.id_to_path.contains_key(s.file_to_path[f]));
                assert(t.file_state == s.file_state.insert(fid, LIVE));
            } else {
                assert(t.file_state[fid] == LIVE);
            }
        }
        assert forall|p: Seq<char>| #[trigger] t.path_to_id.contains_key(p) implies exists|i: int|
            0 <= i < batch.len() && (#[trigger] batch[i]).path == p by {
            if p == o.path {
                assert(batch[n as int].path == p);
            } else {
                assert(s.path_to_id.contains_key(p));
                let i = choose|i: int| 0 <= i < n && (#[trigger] rest[i]).path == p;
                assert(batch[i] == rest[i]);
            }
        }
    }
}

/// Files of one content written to an empty store, two or more at
/// different paths, make one group of duplicates: all of them are
/// written, and the group holds one copy for each in path order, under the
/// path that heads them. Where the files were written in path order, the
/// copies stand in the group as they were written.
pub proof fn lemma_new_copies_make_one_group(
    batch: Seq<Observation>,
    hash: Seq<u8>,
    prefixes: Seq<Seq<u8>>,
)
    requires
        one_content(batch, hash),
        2 <= batch.len() < u64::MAX - FIRST_ID,
        any_let_through(prefixes, copies_of(batch)),
    ensures
        !batch_runs_out(empty_store(), batch),
        consistent(observed_all(empty_store(), batch)),
        dupe_groups(observed_all(empty_store(), batch), prefixes) == seq![
            GroupRow {
                hash: hash,
                entries: sorted(copies_of(batch)),
                header: header_of(sorted(copies_of(batch))),
            },
        ],
        is_sorted(copies_of(batch)) ==> sorted(copies_of(batch)) == copies_of(batch),
{
    if is_sorted(copies_of(batch)) {
        lemma_sorted_stays(copies_of(batch));
    }
    assert forall|i: int| 0 <= i < batch.len() implies !runs_out(
        #[trigger] observed_all(empty_store(), batch.take(i)),
        batch[i],
    ) by {
        let first = batch.take(i);
        assert(one_content(first, hash)) by {
            assert forall|k: int| 0 <= k < first.len() implies (#[trigger] first[k]).hash == hash
                && coherent(first[k]) by {
                assert(first[k] == batch[k]);
            }
            assert forall|k: int, j: int|
                0 <= k < j < first.len() implies (#[trigger] first[k]).path != (
            #[trigger] first[j]).path by {
                assert(first[k] == batch[k] && first[j] == batch[j]);
            }
        }
        lemma_holds_copies(first, hash);
    }
    lemma_holds_copies(batch, hash);
    let s = observed_all(empty_store(), batch);
    let ids = first_ids(batch.len());
    let e = (hash, packed(ids));
    let index = seq![e];
    assert(s.hash_index.contains_key(hash) && s.hash_index[hash] == e.1);
    assert(lists_by_bytes(index, s.hash_index)) by {
        assert forall|k: Seq<u8>| #[trigger] s.hash_index.contains_key(k) implies exists|i: int|
            0 <= i < index.len() && #[trigger] index[i].0 == k by {
            assert(k == hash);
            assert(index[0].0 == k);
        }
    }
    lemma_rows_by_bytes(index, s.hash_index);
    lemma_unpack_pack(ids);
    assert forall|k: int| 0 <= k < ids.len() implies (#[trigger] dupe_row(s)(ids[k])) is Some by {
        assert(holds_copy(s, batch, k));
    }
    lemma_filter_map_keeps_all(ids, dupe_row(s));
    let rows = ids.filter_map(dupe_row(s));
    assert(rows =~= copies_of(batch)) by {
        assert forall|k: int| 0 <= k < rows.len() implies rows[k] == copies_of(batch)[k] by {
            assert(holds_copy(s, batch, k));
            assert(rows[k] == dupe_row(s)(ids[k])->Some_0);
        }
    }
    let g = GroupRow {
        hash: hash,
        entries: sorted(copies_of(batch)),
        header: header_of(sorted(copies_of(batch))),
    };
    assert(group_row(s, prefixes)(e) == Some(g));
    reveal(Seq::filter_map);
    assert(index.drop_last() =~= Seq::<(Seq<u8>, Seq<u8>)>::empty());
    assert(index.last() == e);
    assert(index.drop_last().filter_map(group_row(s, prefixes)) =~= Seq::<GroupRow>::empty());
    assert(index.filter_map(group_row(s, prefixes)) =~= seq![g]);
    assert(rows_by_bytes(s.hash_index) == index);
}

} // verus!
