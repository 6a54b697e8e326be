//! Groups of live exact duplicates.

use crate::codec::{u64_list_unpack, unpacked};
use crate::db::{path_in, DbHandle, StoreError};
use crate::file_meta::{decode_failure, stored_mtime, stored_size, FileMeta};
use crate::kv::{index_rows, seen_index_rows, seen_meta_blob, seen_state, Snapshot, StoreState};
use crate::listing::{lemma_rows_by_bytes, listed_by_bytes, rows_by_bytes};
use crate::lex::{
    lemma_lex_le_total, lemma_lex_le_transitive, lemma_lex_lt_transitive,
    lemma_lex_lt_trichotomy, lex_le, lex_lt, rank_bytes, rank_strs,
    str_bytes, Rank,
};
use crate::invariants::{ascending, consistent_for_reads, lemma_live_paths_differ};
use crate::model::{first_such, is_live, lemma_filter_map_len, none_such, path_of, LIVE};
use crate::potential::lemma_filter_map_keeps_order;
use crate::path_filter::{lets_through, PathFilter};
use crate::sort::{
    is_sorted, lemma_sorted, lemma_sorted_keeps_keys_apart, lemma_sorted_same_elements, sort,
    sorted, views_of, Order, Ordered,
};
use vstd::prelude::*;

verus! {

/// One live copy in a duplicate group, as plain values.
pub struct DupeRow {
    pub file_id: u64,
    pub path: Seq<char>,
    pub size: u64,
    pub mtime: u64,
}

/// One live copy in a duplicate group.
#[derive(Debug, Clone)]
pub struct DupeEntry {
    pub file_id: u64,
    pub path: String,
    pub size: u64,
    pub mtime: u64,
}

impl View for DupeEntry {
    type V = DupeRow;

    open spec fn view(&self) -> DupeRow {
        DupeRow { file_id: self.file_id, path: self.path@, size: self.size, mtime: self.mtime }
    }
}

/// Copies of one content are ordered by path.
impl Order for DupeRow {
    open spec fn le(&self, other: &Self) -> bool {
        lex_le(str_bytes(self.path), str_bytes(other.path))
    }

    proof fn lemma_le_total(a: &Self, b: &Self) {
        lemma_lex_le_total(str_bytes(a.path), str_bytes(b.path));
    }

    proof fn lemma_le_transitive(a: &Self, b: &Self, c: &Self) {
        lemma_lex_le_transitive(str_bytes(a.path), str_bytes(b.path), str_bytes(c.path));
    }
}

impl Ordered for DupeEntry {
    fn at_most(&self, other: &Self) -> (r: bool) {
        proof {
            lemma_lex_lt_trichotomy(str_bytes(self.path@), str_bytes(other.path@));
        }
        match rank_strs(self.path.as_str(), other.path.as_str()) {
            Rank::After => false,
            _ => true,
        }
    }
}

impl DupeEntry {
    /// A copy of the entry.
    pub fn duplicate(&self) -> (r: DupeEntry)
        ensures
            r == *self,
    {
        DupeEntry {
            file_id: self.file_id,
            path: self.path.clone(),
            size: self.size,
            mtime: self.mtime,
        }
    }
}

/// A duplicate group as plain values.
pub struct GroupRow {
    pub hash: Seq<u8>,
    pub entries: Seq<DupeRow>,
    pub header: Seq<char>,
}

/// The live copies of one content: at least two, ordered by path, under
/// the path that heads them.
#[derive(Debug, Clone)]
pub struct DupeGroup {
    pub hash256: [u8; 32],
    pub entries: Vec<DupeEntry>,
    pub header_path: String,
}

impl View for DupeGroup {
    type V = GroupRow;

    open spec fn view(&self) -> GroupRow {
        GroupRow {
            hash: self.hash256@,
            entries: views_of(self.entries@),
            header: self.header_path@,
        }
    }
}

/// Groups are ordered by header path, and under one header path by hash.
impl Order for GroupRow {
    open spec fn le(&self, other: &Self) -> bool {
        lex_lt(str_bytes(self.header), str_bytes(other.header)) || (str_bytes(self.header)
            == str_bytes(other.header) && lex_le(self.hash, other.hash))
    }

    proof fn lemma_le_total(a: &Self, b: &Self) {
        lemma_lex_lt_trichotomy(str_bytes(a.header), str_bytes(b.header));
        lemma_lex_le_total(a.hash, b.hash);
    }

    proof fn lemma_le_transitive(a: &Self, b: &Self, c: &Self) {
        let (x, y, z) = (str_bytes(a.header), str_bytes(b.header), str_bytes(c.header));
        lemma_lex_lt_trichotomy(x, y);
        lemma_lex_lt_trichotomy(y, z);
        if lex_lt(x, y) && lex_lt(y, z) {
            lemma_lex_lt_transitive(x, y, z);
        }
        if x == y && y == z {
            lemma_lex_le_transitive(a.hash, b.hash, c.hash);
        }
    }
}

impl Ordered for DupeGroup {
    fn at_most(&self, other: &Self) -> (r: bool) {
        proof {
            lemma_lex_lt_trichotomy(str_bytes(self.header_path@), str_bytes(other.header_path@));
            lemma_lex_lt_trichotomy(self.hash256@, other.hash256@);
        }
        match rank_strs(self.header_path.as_str(), other.header_path.as_str()) {
            Rank::Before => true,
            Rank::After => false,
            Rank::Same => match rank_bytes(self.hash256.as_slice(), other.hash256.as_slice()) {
                Rank::After => false,
                _ => true,
            },
        }
    }
}

/// Whether path `a` heads a group rather than path `b`: the shorter path
/// does, and of two equally long ones the one that sorts first.
pub open spec fn heads(a: Seq<char>, b: Seq<char>) -> bool {
    str_bytes(a).len() < str_bytes(b).len() || (str_bytes(a).len() == str_bytes(b).len()
        && lex_le(str_bytes(a), str_bytes(b)))
}

/// The header path of a group: the path that heads all others.
pub open spec fn header_of(rows: Seq<DupeRow>) -> Seq<char>
    decreases rows.len(),
{
    if rows.len() == 0 {
        Seq::empty()
    } else if rows.len() == 1 {
        rows[0].path
    } else {
        let h = header_of(rows.drop_last());
        if heads(h, rows.last().path) {
            h
        } else {
            rows.last().path
        }
    }
}

/// The header path is the path of a copy in the group and heads every path in it.
pub proof fn lemma_header_heads_all(rows: Seq<DupeRow>)
    requires
        rows.len() > 0,
    ensures
        exists|i: int| 0 <= i < rows.len() && (#[trigger] rows[i]).path == header_of(rows),
        forall|j: int| 0 <= j < rows.len() ==> heads(header_of(rows), (#[trigger] rows[j]).path),
    decreases rows.len(),
{
    if rows.len() == 1 {
        assert(rows[0].path == header_of(rows));
        lemma_lex_le_total(str_bytes(rows[0].path), str_bytes(rows[0].path));
    } else {
        let rest = rows.drop_last();
        lemma_header_heads_all(rest);
        let h = header_of(rest);
        let last = rows.last().path;
        let i = choose|i: int| 0 <= i < rest.len() && (#[trigger] rest[i]).path == h;
        assert(rows[i] == rest[i]);
        lemma_lex_le_total(str_bytes(h), str_bytes(last));
        lemma_lex_le_total(str_bytes(last), str_bytes(last));
        if heads(h, last) {
            assert(rows[i].path == header_of(rows));
        } else {
            assert(rows[rows.len() - 1].path == header_of(rows));
        }
        assert forall|j: int| 0 <= j < rows.len() implies heads(
            header_of(rows),
            (#[trigger] rows[j]).path,
        ) by {
            if j < rest.len() {
                assert(rows[j] == rest[j]);
                assert(heads(h, rest[j].path));
                if !heads(h, last) {
                    if str_bytes(last).len() == str_bytes(h).len() && str_bytes(h).len()
                        == str_bytes(rest[j].path).len() {
                        lemma_lex_le_transitive(
                            str_bytes(last),
                            str_bytes(h),
                            str_bytes(rest[j].path),
                        );
                    }
                }
            }
        }
    }
}

/// The header path is the path that no other path of the group heads.
pub proof fn lemma_header_is_the_first(rows: Seq<DupeRow>, k: int)
    requires
        0 <= k < rows.len(),
        forall|j: int|
            0 <= j < rows.len() && (#[trigger] rows[j]).path != rows[k].path ==> !heads(
                rows[j].path,
                rows[k].path,
            ),
    ensures
        header_of(rows) == rows[k].path,
{
    lemma_header_heads_all(rows);
    let i = choose|i: int| 0 <= i < rows.len() && (#[trigger] rows[i]).path == header_of(rows);
    assert(heads(header_of(rows), rows[k].path));
}

/// Whether an observation can stand in a duplicate group: it is live, its
/// path is on record and an encoding is stored for it.
pub open spec fn is_candidate(s: StoreState, fid: u64) -> bool {
    is_live(s, fid) && path_of(s, fid) is Some && s.file_meta.contains_key(fid)
}

/// The group entry of an observation, if it can stand in a group.
pub open spec fn dupe_row(s: StoreState) -> spec_fn(u64) -> Option<DupeRow> {
    |fid: u64|
        if is_candidate(s, fid) {
            Some(
                DupeRow {
                    file_id: fid,
                    path: path_of(s, fid)->Some_0,
                    size: stored_size(s.file_meta[fid]),
                    mtime: stored_mtime(s.file_meta[fid]),
                },
            )
        } else {
            None
        }
}

/// Whether an observation can stand in a group but its encoding does not decode.
pub open spec fn undecodable(s: StoreState) -> spec_fn(u64) -> bool {
    |fid: u64| is_candidate(s, fid) && decode_failure(s.file_meta[fid]) is Some
}

/// Whether the filter lets the path of some entry through.
pub open spec fn any_let_through(prefixes: Seq<Seq<u8>>, rows: Seq<DupeRow>) -> bool {
    exists|i: int| 0 <= i < rows.len() && lets_through(prefixes, str_bytes((#[trigger] rows[i]).path))
}

/// The group of live copies for one row of the hash index, if there is
/// one: at least two live copies, of which the filter lets one through.
pub open spec fn group_row(s: StoreState, prefixes: Seq<Seq<u8>>) -> spec_fn(
    (Seq<u8>, Seq<u8>),
) -> Option<GroupRow> {
    |e: (Seq<u8>, Seq<u8>)|
        {
            let rows = unpacked(e.1).filter_map(dupe_row(s));
            if rows.len() >= 2 && any_let_through(prefixes, rows) {
                Some(
                    GroupRow { hash: e.0, entries: sorted(rows), header: header_of(sorted(rows)) },
                )
            } else {
                None
            }
        }
}

/// Whether building the group for a row of the hash index fails at `fid`:
/// the row lists two identifiers or more, and `fid` is the first of them
/// that can stand in a group and does not decode.
pub open spec fn row_fails_at(s: StoreState, e: (Seq<u8>, Seq<u8>), fid: u64) -> bool {
    unpacked(e.1).len() >= 2 && first_such(unpacked(e.1), undecodable(s), fid)
}

/// Whether the group for a row of the hash index can be built.
pub open spec fn row_sound(s: StoreState, e: (Seq<u8>, Seq<u8>)) -> bool {
    unpacked(e.1).len() >= 2 ==> none_such(unpacked(e.1), undecodable(s))
}

/// Whether every row of the hash index can be made a group.
pub open spec fn index_sound(s: StoreState) -> bool {
    forall|j: int|
        0 <= j < rows_by_bytes(s.hash_index).len() ==> row_sound(
            s,
            #[trigger] rows_by_bytes(s.hash_index)[j],
        )
}

/// Whether going through the hash index fails at `fid`: the rows before
/// the one that fails at `fid` can all be made groups.
pub open spec fn index_fails_at(s: StoreState, fid: u64) -> bool {
    exists|j: int|
        0 <= j < rows_by_bytes(s.hash_index).len() && row_fails_at(
            s,
            #[trigger] rows_by_bytes(s.hash_index)[j],
            fid,
        ) && forall|k: int| 0 <= k < j ==> row_sound(s, #[trigger] rows_by_bytes(s.hash_index)[k])
}

/// The groups of live exact duplicates that the filter lets through:
/// ordered by header path, then by hash.
pub open spec fn dupe_groups(s: StoreState, prefixes: Seq<Seq<u8>>) -> Seq<GroupRow> {
    sorted(rows_by_bytes(s.hash_index).filter_map(group_row(s, prefixes)))
}

/// Whether a group is as every group is: at least two copies, in path
/// order, under the path of one of them that heads all of them.
pub open spec fn is_group(g: GroupRow) -> bool {
    &&& g.entries.len() >= 2
    &&& is_sorted(g.entries)
    &&& exists|i: int| 0 <= i < g.entries.len() && (#[trigger] g.entries[i]).path == g.header
    &&& forall|j: int| 0 <= j < g.entries.len() ==> heads(g.header, (#[trigger] g.entries[j]).path)
}

/// Every copy of the group for a row of the hash index is a live
/// observation listed in that row, at the path on record for it.
pub proof fn lemma_copies_are_listed(
    s: StoreState,
    prefixes: Seq<Seq<u8>>,
    e: (Seq<u8>, Seq<u8>),
    i: int,
)
    requires
        group_row(s, prefixes)(e) is Some,
        0 <= i < group_row(s, prefixes)(e)->Some_0.entries.len(),
    ensures
        ({
            let r = group_row(s, prefixes)(e)->Some_0.entries[i];
            &&& unpacked(e.1).contains(r.file_id)
            &&& is_candidate(s, r.file_id)
            &&& path_of(s, r.file_id) == Some(r.path)
        }),
{
    let ids = unpacked(e.1);
    let rows = ids.filter_map(dupe_row(s));
    let r = sorted(rows)[i];
    assert(sorted(rows).contains(r));
    lemma_sorted_same_elements(rows, r);
    ids.lemma_filter_map_contains(dupe_row(s), r);
    let fid = choose|fid: u64| #[trigger] ids.contains(fid) && dupe_row(s)(fid) == Some(r);
    assert(r.file_id == fid);
}

/// Where the tables are consistent for reads, the copies of the group for
/// a row of the hash index are observations of different files, at
/// different paths.
pub proof fn lemma_copies_differ(
    s: StoreState,
    prefixes: Seq<Seq<u8>>,
    e: (Seq<u8>, Seq<u8>),
    i: int,
    j: int,
)
    requires
        consistent_for_reads(s),
        s.hash_index.contains_key(e.0),
        s.hash_index[e.0] == e.1,
        group_row(s, prefixes)(e) is Some,
        0 <= i < j < group_row(s, prefixes)(e)->Some_0.entries.len(),
    ensures
        ({
            let copies = group_row(s, prefixes)(e)->Some_0.entries;
            copies[i].file_id != copies[j].file_id && copies[i].path != copies[j].path
        }),
{
    let ids = unpacked(e.1);
    let rows = ids.filter_map(dupe_row(s));
    let copies = sorted(rows);
    assert(ascending(ids));
    // In list order the file identifiers of the rows ascend strictly.
    assert forall|a: int, b: int| 0 <= a < b < rows.len() implies (#[trigger] rows[a]).file_id < (
    #[trigger] rows[b]).file_id by {
        lemma_filter_map_keeps_order(ids, dupe_row(s), a, b);
        let (x, y) = choose|x: int, y: int|
            0 <= x < y < ids.len() && dupe_row(s)(#[trigger] ids[x]) == Some(rows[a]) && dupe_row(
                s,
            )(#[trigger] ids[y]) == Some(rows[b]);
        assert(ids[x] < ids[y]);
    }
    assert(rows.no_duplicates());
    lemma_sorted(rows);
    rows.lemma_multiset_has_no_duplicates();
    copies.lemma_multiset_has_no_duplicates_conv();
    assert(copies[i] != copies[j]);
    assert(copies.contains(copies[i]) && copies.contains(copies[j]));
    lemma_sorted_same_elements(rows, copies[i]);
    lemma_sorted_same_elements(rows, copies[j]);
    let a = choose|a: int| 0 <= a < rows.len() && rows[a] == copies[i];
    let b = choose|b: int| 0 <= b < rows.len() && rows[b] == copies[j];
    if a < b {
        assert(rows[a].file_id < rows[b].file_id);
    } else if b < a {
        assert(rows[b].file_id < rows[a].file_id);
    }
    lemma_copies_are_listed(s, prefixes, e, i);
    lemma_copies_are_listed(s, prefixes, e, j);
    lemma_live_paths_differ(s, copies[i].file_id, copies[j].file_id);
}

/// Every group for a row of the hash index is as every group is.
pub proof fn lemma_group_row_is_group(s: StoreState, prefixes: Seq<Seq<u8>>, e: (Seq<u8>, Seq<u8>))
    requires
        group_row(s, prefixes)(e) is Some,
    ensures
        is_group(group_row(s, prefixes)(e)->Some_0),
        group_row(s, prefixes)(e)->Some_0.hash == e.0,
{
    let rows = unpacked(e.1).filter_map(dupe_row(s));
    let g = group_row(s, prefixes)(e)->Some_0;
    assert(rows.len() >= 2);
    assert(g.entries == sorted(rows));
    assert(g.header == header_of(sorted(rows)));
    lemma_sorted(rows);
    lemma_header_heads_all(sorted(rows));
    let i = choose|i: int|
        0 <= i < sorted(rows).len() && (#[trigger] sorted(rows)[i]).path == header_of(
            sorted(rows),
        );
    assert(g.entries[i].path == g.header);
}

/// The groups of live exact duplicates are in order, and each is as every
/// group is: at least two live copies of one content, in path order, under
/// the shortest of their paths.
pub proof fn lemma_dupe_groups_are_groups(s: StoreState, prefixes: Seq<Seq<u8>>, k: int)
    requires
        0 <= k < dupe_groups(s, prefixes).len(),
    ensures
        is_sorted(dupe_groups(s, prefixes)),
        is_group(dupe_groups(s, prefixes)[k]),
{
    let index = rows_by_bytes(s.hash_index);
    let made = index.filter_map(group_row(s, prefixes));
    lemma_sorted(made);
    let g = dupe_groups(s, prefixes)[k];
    assert(sorted(made).contains(g));
    lemma_sorted_same_elements(made, g);
    index.lemma_filter_map_contains(group_row(s, prefixes), g);
    let e = choose|e: (Seq<u8>, Seq<u8>)|
        #[trigger] index.contains(e) && group_row(s, prefixes)(e) == Some(g);
    lemma_group_row_is_group(s, prefixes, e);
}

/// No content has two groups: the groups of live exact duplicates are of
/// different hashes.
pub proof fn lemma_one_group_per_hash(s: StoreState, prefixes: Seq<Seq<u8>>, i: int, j: int)
    requires
        listed_by_bytes(s.hash_index),
        0 <= i < j < dupe_groups(s, prefixes).len(),
    ensures
        dupe_groups(s, prefixes)[i].hash != dupe_groups(s, prefixes)[j].hash,
{
    let index = rows_by_bytes(s.hash_index);
    let made = index.filter_map(group_row(s, prefixes));
    let hash_of = |g: GroupRow| g.hash;
    assert forall|a: int, b: int| 0 <= a < b < made.len() implies hash_of(#[trigger] made[a])
        != hash_of(#[trigger] made[b]) by {
        lemma_filter_map_keeps_order(index, group_row(s, prefixes), a, b);
        let (x, y) = choose|x: int, y: int|
            0 <= x < y < index.len() && group_row(s, prefixes)(#[trigger] index[x]) == Some(
                made[a],
            ) && group_row(s, prefixes)(#[trigger] index[y]) == Some(made[b]);
        assert(lex_lt(index[x].0, index[y].0));
        lemma_lex_lt_trichotomy(index[x].0, index[y].0);
    }
    lemma_sorted_keeps_keys_apart(made, hash_of, i, j);
}

/// The groups are a function of what five tables hold: the hash index, the
/// states, the encodings and the two tables that lead from an observation
/// to its path. Two stores that agree on those give the same groups.
pub proof fn lemma_dupe_groups_determined(s: StoreState, t: StoreState, prefixes: Seq<Seq<u8>>)
    requires
        s.hash_index == t.hash_index,
        s.file_state == t.file_state,
        s.file_meta == t.file_meta,
        s.file_to_path == t.file_to_path,
        s.id_to_path == t.id_to_path,
    ensures
        dupe_groups(s, prefixes) == dupe_groups(t, prefixes),
{
    assert(dupe_row(s) =~= dupe_row(t));
    assert(group_row(s, prefixes) =~= group_row(t, prefixes));
}

/// The entries of the observations among `ids` that can stand in a group, in list order.
pub fn live_entries_in(snap: &Snapshot, ids: &Vec<u64>) -> (r: Result<Vec<DupeEntry>, StoreError>)
    ensures
        match r {
            Ok(out) => {
                &&& views_of(out@) == ids@.filter_map(dupe_row(snap@))
                &&& none_such(ids@, undecodable(snap@))
            },
            Err(StoreError::Corrupt { file_id, cause }) => {
                &&& first_such(ids@, undecodable(snap@), file_id)
                &&& decode_failure(snap@.file_meta[file_id]) == Some(cause)
            },
            Err(StoreError::Backend(_)) => true,
            Err(StoreError::IdsExhausted) => false,
        },
{
    let mut out: Vec<DupeEntry> = Vec::new();
    let n: usize = ids.len();
    let mut i: usize = 0;
    let ghost row = dupe_row(snap@);
    let ghost bad = undecodable(snap@);
    assert(views_of(out@) =~= ids@.take(0).filter_map(row));
    while i < n
        invariant
            n == ids@.len(),
            i <= n,
            row == dupe_row(snap@),
            bad == undecodable(snap@),
            views_of(out@) == ids@.take(i as int).filter_map(row),
            forall|j: int| 0 <= j < i ==> !bad(#[trigger] ids@[j]),
        decreases n - i,
    {
        let fid: u64 = ids[i];
        proof {
            ids@.lemma_filter_map_take_succ(row, i as int);
        }
        i = i + 1;
        let code = match seen_state(snap, fid) {
            Ok(v) => v,
            Err(e) => {
                return Err(StoreError::Backend(e));
            },
        };
        match code {
            Some(c) => {
                if c != LIVE {
                    continue ;
                }
            },
            None => {
                continue ;
            },
        }
        let path: String = match path_in(snap, fid) {
            Ok(Some(p)) => p,
            Ok(None) => {
                continue ;
            },
            Err(e) => {
                return Err(e);
            },
        };
        let blob: Vec<u8> = match seen_meta_blob(snap, fid) {
            Ok(Some(b)) => b,
            Ok(None) => {
                continue ;
            },
            Err(e) => {
                return Err(StoreError::Backend(e));
            },
        };
        let meta = match FileMeta::decode(blob.as_slice()) {
            Ok(m) => m,
            Err(cause) => {
                proof {
                    let j = i - 1;
                    assert(ids@[j] == fid && bad(fid));
                    assert(first_such(ids@, bad, fid));
                }
                return Err(StoreError::Corrupt { file_id: fid, cause });
            },
        };
        let ghost before = out@;
        out.push(DupeEntry { file_id: fid, path, size: meta.size, mtime: meta.mtime_secs });
        assert(views_of(out@) =~= views_of(before).push(out@.last()@));
    }
    assert(ids@.take(n as int) =~= ids@);
    Ok(out)
}

/// Whether the filter lets the path of some entry through.
pub fn any_entry_matches(filter: &PathFilter, entries: &Vec<DupeEntry>) -> (r: bool)
    ensures
        r == any_let_through(filter@, views_of(entries@)),
{
    let n: usize = entries.len();
    let mut i: usize = 0;
    while i < n
        invariant
            n == entries@.len(),
            i <= n,
            forall|k: int|
                0 <= k < i ==> !lets_through(
                    filter@,
                    str_bytes((#[trigger] views_of(entries@)[k]).path),
                ),
        decreases n - i,
    {
        if filter.matches(entries[i].path.as_str()) {
            assert(views_of(entries@)[i as int].path == entries@[i as int].path@);
            return true;
        }
        assert(views_of(entries@)[i as int].path == entries@[i as int].path@);
        i = i + 1;
    }
    false
}

/// The header path of a group with at least one entry.
pub fn header_path_of(entries: &Vec<DupeEntry>) -> (r: String)
    requires
        entries@.len() > 0,
    ensures
        r@ == header_of(views_of(entries@)),
{
    let n: usize = entries.len();
    let mut best: usize = 0;
    let mut i: usize = 1;
    let ghost rows = views_of(entries@);
    assert(rows.take(1).len() == 1);
    assert(rows.take(1)[0] == rows[0]);
    while i < n
        invariant
            n == entries@.len(),
            1 <= i <= n,
            best < i,
            rows == views_of(entries@),
            entries@[best as int].path@ == header_of(rows.take(i as int)),
        decreases n - i,
    {
        let h = entries[best].path.as_str();
        let p = entries[i].path.as_str();
        let ghost next = rows.take(i + 1);
        assert(next.drop_last() =~= rows.take(i as int));
        assert(next.last().path == p@);
        proof {
            lemma_lex_lt_trichotomy(str_bytes(h@), str_bytes(p@));
        }
        let hn: usize = h.as_bytes().len();
        let pn: usize = p.as_bytes().len();
        let keeps: bool = hn < pn || (hn == pn && match rank_strs(h, p) {
            Rank::After => false,
            _ => true,
        });
        if !keeps {
            best = i;
        }
        i = i + 1;
    }
    assert(rows.take(n as int) =~= rows);
    entries[best].path.clone()
}

/// The group of live copies for one row of the hash index, if there is one.
pub fn group_in(snap: &Snapshot, filter: &PathFilter, hash: [u8; 32], list: &[u8]) -> (r: Result<
    Option<DupeGroup>,
    StoreError,
>)
    ensures
        match r {
            Ok(Some(g)) => {
                &&& group_row(snap@, filter@)((hash@, list@)) == Some(g@)
                &&& row_sound(snap@, (hash@, list@))
            },
            Ok(None) => {
                &&& group_row(snap@, filter@)((hash@, list@)) is None
                &&& row_sound(snap@, (hash@, list@))
            },
            Err(StoreError::Corrupt { file_id, cause }) => {
                &&& row_fails_at(snap@, (hash@, list@), file_id)
                &&& decode_failure(snap@.file_meta[file_id]) == Some(cause)
            },
            Err(StoreError::Backend(_)) => true,
            Err(StoreError::IdsExhausted) => false,
        },
{
    let ids = u64_list_unpack(list);
    proof {
        lemma_filter_map_len(ids@, dupe_row(snap@));
    }
    if ids.len() < 2 {
        return Ok(None);
    }
    let entries = match live_entries_in(snap, &ids) {
        Ok(v) => v,
        Err(e) => {
            return Err(e);
        },
    };
    if entries.len() < 2 {
        return Ok(None);
    }
    if !any_entry_matches(filter, &entries) {
        return Ok(None);
    }
    let entries = sort(entries);
    let header_path = header_path_of(&entries);
    Ok(Some(DupeGroup { hash256: hash, entries, header_path }))
}

/// Whether `r` is what loading the groups of live exact duplicates gives
/// where the tables hold `s`: the groups that the filter lets through,
/// where every row of the hash index can be made a group; an error that
/// names the first observation whose encoding stands in the way; or an
/// error of the engine.
pub open spec fn groups_outcome(
    s: StoreState,
    prefixes: Seq<Seq<u8>>,
    r: Result<Vec<DupeGroup>, StoreError>,
) -> bool {
    match r {
        Ok(groups) => {
            &&& listed_by_bytes(s.hash_index)
            &&& views_of(groups@) == dupe_groups(s, prefixes)
            &&& index_sound(s)
        },
        Err(StoreError::Corrupt { file_id, cause }) => {
            &&& listed_by_bytes(s.hash_index)
            &&& index_fails_at(s, file_id)
            &&& decode_failure(s.file_meta[file_id]) == Some(cause)
        },
        Err(StoreError::Backend(_)) => true,
        Err(StoreError::IdsExhausted) => false,
    }
}

/// The groups of live exact duplicates in a snapshot that the filter lets through.
pub fn load_live_dupe_groups_in(snap: &Snapshot, filter: &PathFilter) -> (r: Result<
    Vec<DupeGroup>,
    StoreError,
>)
    ensures
        groups_outcome(snap@, filter@, r),
{
    let index = match seen_index_rows(snap) {
        Ok(v) => v,
        Err(e) => {
            return Err(StoreError::Backend(e));
        },
    };
    let ghost rows = index_rows(index@);
    proof {
        lemma_rows_by_bytes(rows, snap@.hash_index);
    }
    let ghost make = group_row(snap@, filter@);
    let mut groups: Vec<DupeGroup> = Vec::new();
    let n: usize = index.len();
    let mut i: usize = 0;
    assert(views_of(groups@) =~= rows.take(0).filter_map(make));
    while i < n
        invariant
            n == index@.len(),
            i <= n,
            rows == index_rows(index@),
            rows == rows_by_bytes(snap@.hash_index),
            listed_by_bytes(snap@.hash_index),
            make == group_row(snap@, filter@),
            views_of(groups@) == rows.take(i as int).filter_map(make),
            forall|k: int| 0 <= k < i ==> row_sound(snap@, #[trigger] rows[k]),
        decreases n - i,
    {
        proof {
            rows.lemma_filter_map_take_succ(make, i as int);
        }
        assert(rows[i as int] == (index@[i as int].0@, index@[i as int].1@));
        let made = match group_in(snap, filter, index[i].0, index[i].1.as_slice()) {
            Ok(v) => v,
            Err(e) => {
                proof {
                    if let StoreError::Corrupt { file_id, cause } = e {
                        assert(row_fails_at(snap@, rows[i as int], file_id));
                        assert(index_fails_at(snap@, file_id));
                    }
                }
                return Err(e);
            },
        };
        match made {
            Some(g) => {
                let ghost before = groups@;
                groups.push(g);
                assert(views_of(groups@) =~= views_of(before).push(g@));
            },
            None => {},
        }
        i = i + 1;
    }
    assert(rows.take(n as int) =~= rows);
    Ok(sort(groups))
}

/// The groups of live exact duplicates, as committed so far, that the
/// filter lets through. Unless the engine fails, the result is what
/// `groups_outcome` says of the tables of a snapshot; so the groups are in
/// order, and each is as every group is.
pub fn load_live_dupe_groups(db: &DbHandle, filter: &PathFilter) -> (r: Result<
    Vec<DupeGroup>,
    StoreError,
>)
    ensures
        r matches Err(StoreError::Backend(_)) || exists|s: StoreState|
            #[trigger] groups_outcome(s, filter@, r),
        r matches Ok(groups) ==> {
            &&& is_sorted(views_of(groups@))
            &&& forall|k: int| 0 <= k < groups@.len() ==> is_group((#[trigger] groups@[k])@)
        },
        r matches Err(e) ==> !(e is IdsExhausted),
{
    let snap = match db.snapshot() {
        Ok(s) => s,
        Err(e) => {
            return Err(e);
        },
    };
    match load_live_dupe_groups_in(&snap, filter) {
        Ok(groups) => {
            proof {
                lemma_sorted(
                    rows_by_bytes(snap@.hash_index).filter_map(group_row(snap@, filter@)),
                );
                assert forall|k: int| 0 <= k < groups@.len() implies is_group(
                    (#[trigger] groups@[k])@,
                ) by {
                    assert(views_of(groups@)[k] == groups@[k]@);
                    lemma_dupe_groups_are_groups(snap@, filter@, k);
                }
                assert(groups_outcome(snap@, filter@, Ok(groups)));
            }
            Ok(groups)
        },
        Err(e) => {
            assert(groups_outcome(snap@, filter@, Err(e)));
            Err(e)
        },
    }
}

} // verus!
