//! Figures on what a database holds.

use crate::codec::{u64_list_unpack, unpacked};
use crate::db::{DbHandle, StoreError};
use crate::file_meta::{decode_failure, stored_size, FileMeta};
use crate::kv::{
    index_rows, lists_by_id, seen_index_rows, seen_meta_blob, seen_state, seen_state_rows, Snapshot,
    StoreState,
};
use crate::listing::{
    lemma_rows_by_bytes, lemma_rows_by_id, listed_by_bytes, listed_by_id, rows_by_bytes, rows_by_id,
};
use crate::model::{is_live, LIVE, MISSING, REPLACED};
use vstd::prelude::*;

verus! {

/// Figures on what a database holds.
#[derive(Debug, Clone, Copy, PartialEq, Eq)]
pub struct Stats {
    /// Live observations that have a stored encoding.
    pub live_files: u64,
    /// Sum of their sizes.
    pub live_bytes: u64,
    /// Observations with a state, whatever it is.
    pub total_versions: u64,
    pub replaced_versions: u64,
    pub missing_versions: u64,
    /// Contents that at least two live observations share.
    pub dupe_groups: u64,
    /// Live observations beyond the first of each such content.
    pub dupe_extra_files: u64,
    /// The bytes that those take up.
    pub dupe_bytes: u64,
}

impl Default for Stats {
    fn default() -> (r: Stats)
        ensures
            r == (Stats {
                live_files: 0,
                live_bytes: 0,
                total_versions: 0,
                replaced_versions: 0,
                missing_versions: 0,
                dupe_groups: 0,
                dupe_extra_files: 0,
                dupe_bytes: 0,
            }),
    {
        Stats {
            live_files: 0,
            live_bytes: 0,
            total_versions: 0,
            replaced_versions: 0,
            missing_versions: 0,
            dupe_groups: 0,
            dupe_extra_files: 0,
            dupe_bytes: 0,
        }
    }
}

/// A count as a `u64`: itself where it fits, else the largest `u64`.
pub open spec fn capped(n: nat) -> u64 {
    if n >= u64::MAX {
        u64::MAX
    } else {
        n as u64
    }
}

/// Whether a row of the state table counts as a live file: its state is
/// live and an encoding is stored for it.
pub open spec fn counts_live(s: StoreState, e: (u64, u8)) -> bool {
    e.1 == LIVE && s.file_meta.contains_key(e.0)
}

/// The number of rows that count as live files.
pub open spec fn live_files_in(s: StoreState, rows: Seq<(u64, u8)>) -> nat
    decreases rows.len(),
{
    if rows.len() == 0 {
        0
    } else {
        live_files_in(s, rows.drop_last()) + if counts_live(s, rows.last()) {
            1nat
        } else {
            0nat
        }
    }
}

/// The sum of the stored sizes of the rows that count as live files.
pub open spec fn live_bytes_in(s: StoreState, rows: Seq<(u64, u8)>) -> nat
    decreases rows.len(),
{
    if rows.len() == 0 {
        0
    } else {
        live_bytes_in(s, rows.drop_last()) + if counts_live(s, rows.last()) {
            stored_size(s.file_meta[rows.last().0]) as nat
        } else {
            0nat
        }
    }
}

/// The number of rows with the given state code.
pub open spec fn with_code(rows: Seq<(u64, u8)>, code: u8) -> nat
    decreases rows.len(),
{
    if rows.len() == 0 {
        0
    } else {
        with_code(rows.drop_last(), code) + if rows.last().1 == code {
            1nat
        } else {
            0nat
        }
    }
}

/// Whether every row that counts as a live file has an encoding that decodes.
pub open spec fn states_sound(s: StoreState, rows: Seq<(u64, u8)>) -> bool {
    forall|j: int|
        0 <= j < rows.len() && counts_live(s, #[trigger] rows[j]) ==> decode_failure(
            s.file_meta[rows[j].0],
        ) is None
}

/// The number of live observations among `ids`.
pub open spec fn live_count(s: StoreState, ids: Seq<u64>) -> nat
    decreases ids.len(),
{
    if ids.len() == 0 {
        0
    } else {
        live_count(s, ids.drop_last()) + if is_live(s, ids.last()) {
            1nat
        } else {
            0nat
        }
    }
}

/// The first of `ids` that is live and has a stored encoding.
pub open spec fn sized_by(s: StoreState, ids: Seq<u64>) -> Option<u64>
    decreases ids.len(),
{
    if ids.len() == 0 {
        None
    } else {
        match sized_by(s, ids.drop_last()) {
            Some(f) => Some(f),
            None => if is_live(s, ids.last()) && s.file_meta.contains_key(ids.last()) {
                Some(ids.last())
            } else {
                None
            },
        }
    }
}

/// The size taken for each copy of a content: that of the first live
/// observation with a stored encoding; zero where there is none.
pub open spec fn copy_size(s: StoreState, ids: Seq<u64>) -> u64 {
    match sized_by(s, ids) {
        Some(f) => stored_size(s.file_meta[f]),
        None => 0,
    }
}

/// The live observations beyond the first of a row of the hash index that
/// lists two identifiers or more; zero for other rows.
pub open spec fn extra_copies(s: StoreState, e: (Seq<u8>, Seq<u8>)) -> nat {
    if unpacked(e.1).len() >= 2 && live_count(s, unpacked(e.1)) >= 2 {
        (live_count(s, unpacked(e.1)) - 1) as nat
    } else {
        0
    }
}

/// The bytes of the live observations beyond the first of a row of the
/// hash index: their number times the size taken for each copy.
pub open spec fn extra_bytes(s: StoreState, e: (Seq<u8>, Seq<u8>)) -> nat {
    extra_copies(s, e) * (copy_size(s, unpacked(e.1)) as nat)
}

/// The number of rows with live observations beyond the first.
pub open spec fn dupe_groups_in(s: StoreState, rows: Seq<(Seq<u8>, Seq<u8>)>) -> nat
    decreases rows.len(),
{
    if rows.len() == 0 {
        0
    } else {
        dupe_groups_in(s, rows.drop_last()) + if extra_copies(s, rows.last()) > 0 {
            1nat
        } else {
            0nat
        }
    }
}

/// The live observations beyond the first, over all rows.
pub open spec fn dupe_extra_in(s: StoreState, rows: Seq<(Seq<u8>, Seq<u8>)>) -> nat
    decreases rows.len(),
{
    if rows.len() == 0 {
        0
    } else {
        dupe_extra_in(s, rows.drop_last()) + extra_copies(s, rows.last())
    }
}

/// The bytes of the live observations beyond the first, over all rows.
pub open spec fn dupe_bytes_in(s: StoreState, rows: Seq<(Seq<u8>, Seq<u8>)>) -> nat
    decreases rows.len(),
{
    if rows.len() == 0 {
        0
    } else {
        dupe_bytes_in(s, rows.drop_last()) + extra_bytes(s, rows.last())
    }
}

/// Whether the size of each row that lists two identifiers or more can be read.
pub open spec fn sizes_sound(s: StoreState, rows: Seq<(Seq<u8>, Seq<u8>)>) -> bool {
    forall|j: int|
        0 <= j < rows.len() && unpacked((#[trigger] rows[j]).1).len() >= 2 ==> match sized_by(
            s,
            unpacked(rows[j].1),
        ) {
            Some(f) => decode_failure(s.file_meta[f]) is None,
            None => true,
        }
}

/// Whether the figures of a store can be computed.
pub open spec fn stats_sound(s: StoreState) -> bool {
    states_sound(s, rows_by_id(s.file_state)) && sizes_sound(s, rows_by_bytes(s.hash_index))
}

/// The figures of a store. Sums that do not fit a `u64` are given as the largest `u64`.
pub open spec fn stats_of(s: StoreState) -> Stats {
    let states = rows_by_id(s.file_state);
    let index = rows_by_bytes(s.hash_index);
    Stats {
        live_files: capped(live_files_in(s, states)),
        live_bytes: capped(live_bytes_in(s, states)),
        total_versions: capped(states.len()),
        replaced_versions: capped(with_code(states, REPLACED)),
        missing_versions: capped(with_code(states, MISSING)),
        dupe_groups: capped(dupe_groups_in(s, index)),
        dupe_extra_files: capped(dupe_extra_in(s, index)),
        dupe_bytes: capped(dupe_bytes_in(s, index)),
    }
}

/// What decides the size of a list stays what decides it when the list goes on.
pub proof fn lemma_sized_by_stays(s: StoreState, ids: Seq<u64>, k: int)
    requires
        0 <= k <= ids.len(),
        sized_by(s, ids.take(k)) is Some,
    ensures
        sized_by(s, ids) == sized_by(s, ids.take(k)),
    decreases ids.len() - k,
{
    if k < ids.len() {
        assert(ids.take(k + 1).drop_last() =~= ids.take(k));
        lemma_sized_by_stays(s, ids, k + 1);
    } else {
        assert(ids.take(k) =~= ids);
    }
}

/// Capping a sum is capping the sum of the capped terms.
pub proof fn lemma_capped_sum(x: nat, y: nat)
    ensures
        capped(x + y) == capped((capped(x) + capped(y)) as nat),
{
}

/// The product of two numbers, capped.
fn mul_capped(a: u64, b: u64) -> (r: u64)
    ensures
        r == capped((a * b) as nat),
{
    match a.checked_mul(b) {
        Some(v) => v,
        None => u64::MAX,
    }
}

/// The number of live observations among `ids`, and the size taken for each copy.
pub fn tally_copies(snap: &Snapshot, ids: &Vec<u64>) -> (r: Result<(usize, u64), StoreError>)
    ensures
        match r {
            Ok(t) => {
                &&& t.0 == live_count(snap@, ids@)
                &&& t.1 == copy_size(snap@, ids@)
                &&& sized_by(snap@, ids@) matches Some(f) ==> decode_failure(
                    snap@.file_meta[f],
                ) is None
            },
            Err(StoreError::Corrupt { file_id, cause }) => {
                &&& sized_by(snap@, ids@) == Some(file_id)
                &&& decode_failure(snap@.file_meta[file_id]) == Some(cause)
            },
            Err(StoreError::Backend(_)) => true,
            Err(StoreError::IdsExhausted) => false,
        },
{
    let n: usize = ids.len();
    let mut live: usize = 0;
    let mut size: Option<u64> = None;
    let mut i: usize = 0;
    assert(ids@.take(0) =~= Seq::<u64>::empty());
    while i < n
        invariant
            n == ids@.len(),
            i <= n,
            live == live_count(snap@, ids@.take(i as int)),
            live <= i,
            match size {
                Some(v) => {
                    &&& sized_by(snap@, ids@.take(i as int)) is Some
                    &&& v == copy_size(snap@, ids@.take(i as int))
                    &&& decode_failure(
                        snap@.file_meta[sized_by(snap@, ids@.take(i as int))->Some_0],
                    ) is None
                },
                None => sized_by(snap@, ids@.take(i as int)) is None,
            },
        decreases n - i,
    {
        let fid: u64 = ids[i];
        assert(ids@.take(i + 1).drop_last() =~= ids@.take(i as int));
        i = i + 1;
        let code = match seen_state(snap, fid) {
            Ok(v) => v,
            Err(e) => {
                return Err(StoreError::Backend(e));
            },
        };
        match code {
            Some(c) => {
                if c != LIVE {
                    continue ;
                }
            },
            None => {
                continue ;
            },
        }
        if size.is_none() {
            let blob = match seen_meta_blob(snap, fid) {
                Ok(v) => v,
                Err(e) => {
                    return Err(StoreError::Backend(e));
                },
            };
            match blob {
                Some(b) => match FileMeta::decode(b.as_slice()) {
                    Ok(meta) => {
                        size = Some(meta.size);
                    },
                    Err(cause) => {
                        proof {
                            lemma_sized_by_stays(snap@, ids@, i as int);
                        }
                        return Err(StoreError::Corrupt { file_id: fid, cause });
                    },
                },
                None => {},
            }
        }
        live = live + 1;
    }
    assert(ids@.take(n as int) =~= ids@);
    Ok(
        (
            live,
            match size {
                Some(v) => v,
                None => 0,
            },
        ),
    )
}

/// Whether `r` is what computing the figures gives where the tables hold
/// `s`: the figures, where they can be computed; an error that names a
/// live observation whose encoding does not decode, where they cannot; or
/// an error of the engine.
pub open spec fn stats_outcome(s: StoreState, r: Result<Stats, StoreError>) -> bool {
    match r {
        Ok(st) => {
            &&& listed_by_id(s.file_state)
            &&& listed_by_bytes(s.hash_index)
            &&& stats_sound(s)
            &&& st == stats_of(s)
        },
        Err(StoreError::Corrupt { file_id, cause }) => {
            &&& listed_by_id(s.file_state)
            &&& !stats_sound(s)
            &&& is_live(s, file_id)
            &&& s.file_meta.contains_key(file_id)
            &&& decode_failure(s.file_meta[file_id]) == Some(cause)
        },
        Err(StoreError::Backend(_)) => true,
        Err(StoreError::IdsExhausted) => false,
    }
}

/// The figures of a snapshot.
pub fn compute_in(snap: &Snapshot) -> (r: Result<Stats, StoreError>)
    ensures
        stats_outcome(snap@, r),
{
    let mut out = Stats::default();
    let states = match seen_state_rows(snap) {
        Ok(v) => v,
        Err(e) => {
            return Err(StoreError::Backend(e));
        },
    };
    proof {
        lemma_rows_by_id(states@, snap@.file_state);
    }
    let n: usize = states.len();
    let mut i: usize = 0;
    assert(states@.take(0) =~= Seq::<(u64, u8)>::empty());
    while i < n
        invariant
            n == states@.len(),
            i <= n,
            states@ == rows_by_id(snap@.file_state),
            lists_by_id(states@, snap@.file_state),
            states_sound(snap@, states@.take(i as int)),
            out.live_files == live_files_in(snap@, states@.take(i as int)),
            out.live_files <= i,
            out.live_bytes == capped(live_bytes_in(snap@, states@.take(i as int))),
            out.total_versions == i,
            out.replaced_versions == with_code(states@.take(i as int), REPLACED),
            out.replaced_versions <= i,
            out.missing_versions == with_code(states@.take(i as int), MISSING),
            out.missing_versions <= i,
            out.dupe_groups == 0,
            out.dupe_extra_files == 0,
            out.dupe_bytes == 0,
        decreases n - i,
    {
        let fid: u64 = states[i].0;
        let code: u8 = states[i].1;
        let ghost next = states@.take(i + 1);
        assert(next.drop_last() =~= states@.take(i as int));
        assert(next.last() == states@[i as int]);
        assert(snap@.file_state.contains_key(fid) && snap@.file_state[fid] == code);
        out.total_versions = out.total_versions + 1;
        if code == LIVE {
            let blob = match seen_meta_blob(snap, fid) {
                Ok(v) => v,
                Err(e) => {
                    return Err(StoreError::Backend(e));
                },
            };
            match blob {
                Some(b) => match FileMeta::decode(b.as_slice()) {
                    Ok(meta) => {
                        out.live_files = out.live_files + 1;
                        proof {
                            lemma_capped_sum(
                                live_bytes_in(snap@, states@.take(i as int)),
                                meta.size as nat,
                            );
                        }
                        out.live_bytes = out.live_bytes.saturating_add(meta.size);
                    },
                    Err(cause) => {
                        proof {
                            assert(counts_live(snap@, states@[i as int]));
                            assert(!states_sound(snap@, states@));
                        }
                        return Err(StoreError::Corrupt { file_id: fid, cause });
                    },
                },
                None => {},
            }
        } else if code == REPLACED {
            out.replaced_versions = out.replaced_versions + 1;
        } else if code == MISSING {
            out.missing_versions = out.missing_versions + 1;
        }
        assert(states_sound(snap@, next)) by {
            assert forall|j: int|
                0 <= j < next.len() && counts_live(snap@, #[trigger] next[j]) implies decode_failure(
                snap@.file_meta[next[j].0],
            ) is None by {
                if j < i {
                    assert(next[j] == states@.take(i as int)[j]);
                }
            }
        }
        i = i + 1;
    }
    assert(states@.take(n as int) =~= states@);
    let index = match seen_index_rows(snap) {
        Ok(v) => v,
        Err(e) => {
            return Err(StoreError::Backend(e));
        },
    };
    let ghost rows = index_rows(index@);
    proof {
        lemma_rows_by_bytes(rows, snap@.hash_index);
    }
    let ghost first = out;
    let m: usize = index.len();
    let mut k: usize = 0;
    assert(rows.take(0) =~= Seq::<(Seq<u8>, Seq<u8>)>::empty());
    while k < m
        invariant
            m == index@.len(),
            k <= m,
            rows == index_rows(index@),
            rows == rows_by_bytes(snap@.hash_index),
            listed_by_id(snap@.file_state),
            listed_by_bytes(snap@.hash_index),
            states_sound(snap@, rows_by_id(snap@.file_state)),
            sizes_sound(snap@, rows.take(k as int)),
            out == (Stats {
                dupe_groups: out.dupe_groups,
                dupe_extra_files: out.dupe_extra_files,
                dupe_bytes: out.dupe_bytes,
                ..first
            }),
            out.dupe_groups == dupe_groups_in(snap@, rows.take(k as int)),
            out.dupe_groups <= k,
            out.dupe_extra_files == capped(dupe_extra_in(snap@, rows.take(k as int))),
            out.dupe_bytes == capped(dupe_bytes_in(snap@, rows.take(k as int))),
        decreases m - k,
    {
        let ids = u64_list_unpack(index[k].1.as_slice());
        let ghost next = rows.take(k + 1);
        let ghost row = rows[k as int];
        assert(next.drop_last() =~= rows.take(k as int));
        assert(next.last() == row);
        assert(row.1 == index@[k as int].1@);
        assert(extra_copies(snap@, row) == 0 ==> extra_bytes(snap@, row) == 0) by (nonlinear_arith)
            requires
                extra_bytes(snap@, row) == extra_copies(snap@, row) * (copy_size(
                    snap@,
                    unpacked(row.1),
                ) as nat),
        ;
        if ids.len() >= 2 {
            let (live, size) = match tally_copies(snap, &ids) {
                Ok(t) => t,
                Err(e) => {
                    proof {
                        if let StoreError::Corrupt { file_id, cause } = e {
                            assert(!sizes_sound(snap@, rows));
                            lemma_sized_is_live(snap@, ids@);
                        }
                    }
                    return Err(e);
                },
            };
            if live >= 2 {
                let extra: u64 = (live - 1) as u64;
                out.dupe_groups = out.dupe_groups + 1;
                proof {
                    assert((extra * size) as nat == extra_bytes(snap@, row)) by (nonlinear_arith)
                        requires
                            extra as nat == extra_copies(snap@, row),
                            size as nat == copy_size(snap@, unpacked(row.1)) as nat,
                            extra_bytes(snap@, row) == extra_copies(snap@, row) * (copy_size(
                                snap@,
                                unpacked(row.1),
                            ) as nat),
                    ;
                    lemma_capped_sum(dupe_extra_in(snap@, rows.take(k as int)), extra as nat);
                    lemma_capped_sum(
                        dupe_bytes_in(snap@, rows.take(k as int)),
                        extra_bytes(snap@, row),
                    );
                }
                out.dupe_extra_files = out.dupe_extra_files.saturating_add(extra);
                out.dupe_bytes = out.dupe_bytes.saturating_add(mul_capped(extra, size));
            }
        }
        assert(sizes_sound(snap@, next)) by {
            assert forall|j: int|
                0 <= j < next.len() && unpacked((#[trigger] next[j]).1).len() >= 2 implies match sized_by(
                snap@,
                unpacked(next[j].1),
            ) {
                Some(f) => decode_failure(snap@.file_meta[f]) is None,
                None => true,
            } by {
                if j < k {
                    assert(next[j] == rows.take(k as int)[j]);
                }
            }
        }
        k = k + 1;
    }
    assert(rows.take(m as int) =~= rows);
    Ok(out)
}

/// What decides the size of a list is live and has a stored encoding.
pub proof fn lemma_sized_is_live(s: StoreState, ids: Seq<u64>)
    ensures
        sized_by(s, ids) matches Some(f) ==> is_live(s, f) && s.file_meta.contains_key(f),
    decreases ids.len(),
{
    if ids.len() > 0 {
        lemma_sized_is_live(s, ids.drop_last());
    }
}

/// The figures of a database, as committed so far: what `stats_outcome`
/// says of the tables of a snapshot, unless the engine fails.
pub fn compute(db: &DbHandle) -> (r: Result<Stats, StoreError>)
    ensures
        r matches Err(StoreError::Backend(_)) || exists|s: StoreState|
            #[trigger] stats_outcome(s, r),
        r matches Ok(st) ==> st.live_files <= st.total_versions,
        r matches Err(e) ==> !(e is IdsExhausted),
{
    let snap = match db.snapshot() {
        Ok(s) => s,
        Err(e) => {
            return Err(e);
        },
    };
    let r = compute_in(&snap);
    proof {
        lemma_live_files_bound(snap@, rows_by_id(snap@.file_state));
        assert(stats_outcome(snap@, r));
    }
    r
}

/// No more rows count as live files than there are rows.
pub proof fn lemma_live_files_bound(s: StoreState, rows: Seq<(u64, u8)>)
    ensures
        live_files_in(s, rows) <= rows.len(),
    decreases rows.len(),
{
    if rows.len() > 0 {
        lemma_live_files_bound(s, rows.drop_last());
    }
}

/// The bytes that deleting every copy but one of each content would free, at most the live bytes.
pub open spec fn unique_bytes_of(st: Stats) -> u64 {
    if st.live_bytes >= st.dupe_bytes {
        (st.live_bytes - st.dupe_bytes) as u64
    } else {
        0
    }
}

/// The live bytes that are not taken up by copies beyond the first.
pub fn unique_bytes(st: &Stats) -> (r: u64)
    ensures
        r == unique_bytes_of(*st),
{
    st.live_bytes.saturating_sub(st.dupe_bytes)
}

} // verus!
