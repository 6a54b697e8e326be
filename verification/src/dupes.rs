//! Groups of duplicate paths, as they are listed.

use crate::codec::{u64_list_unpack, unpacked};
use crate::db::{path_in, DbHandle, StoreError};
use crate::dupe_groups::{header_of, header_path_of, DupeEntry, DupeRow};
use crate::kv::{index_rows, seen_index_rows, seen_state, Snapshot, StoreState};
use crate::listing::{lemma_rows_by_bytes, listed_by_bytes, rows_by_bytes};
use crate::lex::{
    lemma_lex_le_total, lemma_lex_le_transitive, lemma_lex_lt_transitive,
    lemma_lex_lt_trichotomy, lex_le, lex_lt, rank_strs, str_bytes, Rank,
};
use crate::model::{is_live, lemma_filter_map_len, path_of, LIVE};
use crate::path_filter::{lets_through, PathFilter};
use crate::sort::{is_sorted, reversed, sort, sorted, views_of, Order, Ordered};
use vstd::prelude::*;
use vstd::string::StringExecFns;

verus! {

/// The lower-case hexadecimal digit for a number below 16.
pub open spec fn hex_digit(n: u8) -> char {
    if n < 10 {
        (0x30 + n) as u8 as char
    } else {
        (0x61 + (n - 10)) as u8 as char
    }
}

/// The bytes written as lower-case hexadecimal digits, two for each byte, the high half first.
pub open spec fn hex_text(bytes: Seq<u8>) -> Seq<char> {
    Seq::new(
        (2 * bytes.len()) as nat,
        |i: int|
            hex_digit(
                if i % 2 == 0 {
                    bytes[i / 2] / 16
                } else {
                    bytes[i / 2] % 16
                },
            ),
    )
}

/// Calls `hex::encode`: the bytes as lower-case hexadecimal digits.
#[verifier::external_body]
pub(crate) fn to_hex(bytes: &[u8]) -> (r: String)
    ensures
        r@ == hex_text(bytes@),
{
    hex::encode(bytes)
}

/// A content hash as text.
pub fn hash_hex(hash256: &[u8; 32]) -> (r: String)
    ensures
        r@ == hex_text(hash256@),
        r@.len() == 64,
{
    to_hex(hash256.as_slice())
}

/// A group of paths with the same content, as plain values.
pub struct PathsRow {
    pub sha256_hex: Seq<char>,
    pub paths: Seq<Seq<char>>,
    pub header: Seq<char>,
}

/// The paths of the live copies of one content: at least two, in path
/// order, under the path that heads them.
#[derive(Debug, Clone)]
pub struct DupeGroup {
    pub sha256_hex: String,
    pub paths: Vec<String>,
    pub header_path: String,
}

impl View for DupeGroup {
    type V = PathsRow;

    open spec fn view(&self) -> PathsRow {
        PathsRow {
            sha256_hex: self.sha256_hex@,
            paths: views_of(self.paths@),
            header: self.header_path@,
        }
    }
}

/// Groups are ordered by header path, and under one header path by the hash as text.
impl Order for PathsRow {
    open spec fn le(&self, other: &Self) -> bool {
        lex_lt(str_bytes(self.header), str_bytes(other.header)) || (str_bytes(self.header)
            == str_bytes(other.header) && lex_le(
            str_bytes(self.sha256_hex),
            str_bytes(other.sha256_hex),
        ))
    }

    proof fn lemma_le_total(a: &Self, b: &Self) {
        lemma_lex_lt_trichotomy(str_bytes(a.header), str_bytes(b.header));
        lemma_lex_le_total(str_bytes(a.sha256_hex), str_bytes(b.sha256_hex));
    }

    proof fn lemma_le_transitive(a: &Self, b: &Self, c: &Self) {
        let (x, y, z) = (str_bytes(a.header), str_bytes(b.header), str_bytes(c.header));
        lemma_lex_lt_trichotomy(x, y);
        lemma_lex_lt_trichotomy(y, z);
        if lex_lt(x, y) && lex_lt(y, z) {
            lemma_lex_lt_transitive(x, y, z);
        }
        if x == y && y == z {
            lemma_lex_le_transitive(
                str_bytes(a.sha256_hex),
                str_bytes(b.sha256_hex),
                str_bytes(c.sha256_hex),
            );
        }
    }
}

impl Ordered for DupeGroup {
    fn at_most(&self, other: &Self) -> (r: bool) {
        proof {
            lemma_lex_lt_trichotomy(str_bytes(self.header_path@), str_bytes(other.header_path@));
            lemma_lex_lt_trichotomy(str_bytes(self.sha256_hex@), str_bytes(other.sha256_hex@));
        }
        match rank_strs(self.header_path.as_str(), other.header_path.as_str()) {
            Rank::Before => true,
            Rank::After => false,
            Rank::Same => match rank_strs(self.sha256_hex.as_str(), other.sha256_hex.as_str()) {
                Rank::After => false,
                _ => true,
            },
        }
    }
}

/// The paths of the rows, in order.
pub open spec fn paths_of(rows: Seq<DupeRow>) -> Seq<Seq<char>> {
    rows.map_values(|r: DupeRow| r.path)
}

/// The row of a live observation whose path is on record; size and
/// modification time are not looked up.
pub open spec fn path_row(s: StoreState) -> spec_fn(u64) -> Option<DupeRow> {
    |fid: u64|
        if is_live(s, fid) && path_of(s, fid) is Some {
            Some(DupeRow { file_id: fid, path: path_of(s, fid)->Some_0, size: 0, mtime: 0 })
        } else {
            None
        }
}

/// The group of paths for one row of the hash index, if at least two live
/// observations with a path on record are listed there.
pub open spec fn paths_group(s: StoreState) -> spec_fn((Seq<u8>, Seq<u8>)) -> Option<PathsRow> {
    |e: (Seq<u8>, Seq<u8>)|
        {
            let rows = unpacked(e.1).filter_map(path_row(s));
            if rows.len() >= 2 {
                Some(
                    PathsRow {
                        sha256_hex: hex_text(e.0),
                        paths: paths_of(sorted(rows)),
                        header: header_of(sorted(rows)),
                    },
                )
            } else {
                None
            }
        }
}

/// The groups of paths with the same content: ordered by header path, then by hash.
pub open spec fn path_groups(s: StoreState) -> Seq<PathsRow> {
    sorted(rows_by_bytes(s.hash_index).filter_map(paths_group(s)))
}

/// The rows of the live observations among `ids` whose path is on record, in list order.
pub fn live_paths_in(snap: &Snapshot, ids: &Vec<u64>) -> (r: Result<Vec<DupeEntry>, StoreError>)
    ensures
        match r {
            Ok(out) => views_of(out@) == ids@.filter_map(path_row(snap@)),
            Err(StoreError::Backend(_)) => true,
            Err(_) => false,
        },
{
    let mut out: Vec<DupeEntry> = Vec::new();
    let n: usize = ids.len();
    let mut i: usize = 0;
    let ghost row = path_row(snap@);
    assert(views_of(out@) =~= ids@.take(0).filter_map(row));
    while i < n
        invariant
            n == ids@.len(),
            i <= n,
            row == path_row(snap@),
            views_of(out@) == ids@.take(i as int).filter_map(row),
        decreases n - i,
    {
        let fid: u64 = ids[i];
        proof {
            ids@.lemma_filter_map_take_succ(row, i as int);
        }
        i = i + 1;
        let code = match seen_state(snap, fid) {
            Ok(v) => v,
            Err(e) => {
                return Err(StoreError::Backend(e));
            },
        };
        match code {
            Some(c) => {
                if c != LIVE {
                    continue ;
                }
            },
            None => {
                continue ;
            },
        }
        let path: String = match path_in(snap, fid) {
            Ok(Some(p)) => p,
            Ok(None) => {
                continue ;
            },
            Err(e) => {
                return Err(e);
            },
        };
        let ghost before = out@;
        out.push(DupeEntry { file_id: fid, path, size: 0, mtime: 0 });
        assert(views_of(out@) =~= views_of(before).push(out@.last()@));
    }
    assert(ids@.take(n as int) =~= ids@);
    Ok(out)
}

/// The paths of the entries, in order.
pub fn into_paths(entries: Vec<DupeEntry>) -> (r: Vec<String>)
    ensures
        views_of(r@) == paths_of(views_of(entries@)),
{
    let ghost all = views_of(entries@);
    let mut left = reversed(entries);
    let mut out: Vec<String> = Vec::new();
    while left.len() > 0
        invariant
            all.len() == left@.len() + out@.len(),
            forall|k: int|
                0 <= k < left@.len() ==> (#[trigger] left@[k])@ == all[all.len() - 1 - k],
            forall|k: int| 0 <= k < out@.len() ==> (#[trigger] out@[k])@ == all[k].path,
        decreases left@.len(),
    {
        let e = left.pop().unwrap();
        out.push(e.path);
    }
    assert(views_of(out@) =~= paths_of(all));
    out
}

/// Whether `r` is what loading the groups of paths gives where the tables
/// hold `s`: the groups, in order, or an error of the engine.
pub open spec fn paths_outcome(s: StoreState, r: Result<Vec<DupeGroup>, StoreError>) -> bool {
    match r {
        Ok(groups) => {
            &&& listed_by_bytes(s.hash_index)
            &&& views_of(groups@) == path_groups(s)
            &&& is_sorted(views_of(groups@))
        },
        Err(StoreError::Backend(_)) => true,
        Err(_) => false,
    }
}

/// The groups of paths with the same content in a snapshot.
pub fn load_groups_in(snap: &Snapshot) -> (r: Result<Vec<DupeGroup>, StoreError>)
    ensures
        paths_outcome(snap@, r),
{
    let index = match seen_index_rows(snap) {
        Ok(v) => v,
        Err(e) => {
            return Err(StoreError::Backend(e));
        },
    };
    let ghost rows = index_rows(index@);
    proof {
        lemma_rows_by_bytes(rows, snap@.hash_index);
    }
    let ghost make = paths_group(snap@);
    let mut groups: Vec<DupeGroup> = Vec::new();
    let n: usize = index.len();
    let mut i: usize = 0;
    assert(views_of(groups@) =~= rows.take(0).filter_map(make));
    while i < n
        invariant
            n == index@.len(),
            i <= n,
            rows == index_rows(index@),
            make == paths_group(snap@),
            views_of(groups@) == rows.take(i as int).filter_map(make),
        decreases n - i,
    {
        proof {
            rows.lemma_filter_map_take_succ(make, i as int);
        }
        assert(rows[i as int] == (index@[i as int].0@, index@[i as int].1@));
        let ids = u64_list_unpack(index[i].1.as_slice());
        proof {
            lemma_filter_map_len(ids@, path_row(snap@));
        }
        let key = index[i].0;
        i = i + 1;
        if ids.len() < 2 {
            continue ;
        }
        let entries = match live_paths_in(snap, &ids) {
            Ok(v) => v,
            Err(e) => {
                return Err(e);
            },
        };
        if entries.len() < 2 {
            continue ;
        }
        let entries = sort(entries);
        let header_path = header_path_of(&entries);
        let sha256_hex = hash_hex(&key);
        let paths = into_paths(entries);
        let ghost before = groups@;
        groups.push(DupeGroup { sha256_hex, paths, header_path });
        assert(views_of(groups@) =~= views_of(before).push(groups@.last()@));
    }
    assert(rows.take(n as int) =~= rows);
    Ok(sort(groups))
}

/// The groups of paths with the same content, as committed so far: what
/// `paths_outcome` says of the tables of a snapshot, unless the engine fails.
pub fn load_groups(db: &DbHandle) -> (r: Result<Vec<DupeGroup>, StoreError>)
    ensures
        r matches Err(StoreError::Backend(_)) || exists|s: StoreState|
            #[trigger] paths_outcome(s, r),
        r matches Ok(groups) ==> is_sorted(views_of(groups@)),
        r matches Err(e) ==> e is Backend,
{
    let snap = match db.snapshot() {
        Ok(s) => s,
        Err(e) => {
            return Err(e);
        },
    };
    let r = load_groups_in(&snap);
    assert(paths_outcome(snap@, r));
    r
}

/// Whether the filter lets one of the paths through.
pub open spec fn lets_any_through(prefixes: Seq<Seq<u8>>) -> spec_fn(PathsRow) -> bool {
    |g: PathsRow|
        exists|i: int|
            0 <= i < g.paths.len() && lets_through(prefixes, str_bytes(#[trigger] g.paths[i]))
}

/// The groups that a filter keeps: all of them where the filter has no
/// prefixes, else those with a path that the filter lets through.
pub open spec fn kept_groups(groups: Seq<PathsRow>, prefixes: Seq<Seq<u8>>) -> Seq<PathsRow> {
    if prefixes.len() == 0 {
        groups
    } else {
        groups.filter(lets_any_through(prefixes))
    }
}

/// Whether the filter lets one of the paths through.
pub fn any_path_matches(filter: &PathFilter, paths: &Vec<String>) -> (r: bool)
    ensures
        r == exists|i: int|
            0 <= i < paths@.len() && lets_through(filter@, str_bytes((#[trigger] paths@[i])@)),
{
    let n: usize = paths.len();
    let mut i: usize = 0;
    while i < n
        invariant
            n == paths@.len(),
            i <= n,
            forall|k: int|
                0 <= k < i ==> !lets_through(filter@, str_bytes((#[trigger] paths@[k])@)),
        decreases n - i,
    {
        if filter.matches(paths[i].as_str()) {
            return true;
        }
        i = i + 1;
    }
    false
}

/// Keeps the groups that have a path under the filter, in their order.
pub fn filter_groups(groups: Vec<DupeGroup>, filter: &PathFilter) -> (r: Vec<DupeGroup>)
    ensures
        views_of(r@) == kept_groups(views_of(groups@), filter@),
{
    if filter.is_empty() {
        return groups;
    }
    let ghost all = views_of(groups@);
    let ghost keep = lets_any_through(filter@);
    let mut left = reversed(groups);
    let mut out: Vec<DupeGroup> = Vec::new();
    let ghost mut done: int = 0;
    proof {
        reveal(Seq::filter);
    }
    assert(views_of(out@) =~= all.take(0).filter(keep));
    while left.len() > 0
        invariant
            keep == lets_any_through(filter@),
            0 <= done <= all.len(),
            left@.len() == all.len() - done,
            forall|k: int|
                0 <= k < left@.len() ==> (#[trigger] left@[k])@ == all[all.len() - 1 - k],
            views_of(out@) == all.take(done).filter(keep),
        decreases left@.len(),
    {
        let g = left.pop().unwrap();
        proof {
            assert(g@ == all[done]);
            assert(all.take(done + 1) =~= all.take(done).push(all[done]));
            all.take(done).lemma_filter_push(all[done], keep);
        }
        let hit: bool = any_path_matches(filter, &g.paths);
        proof {
            if hit {
                let i = choose|i: int|
                    0 <= i < g.paths@.len() && lets_through(
                        filter@,
                        str_bytes((#[trigger] g.paths@[i])@),
                    );
                assert(g@.paths[i] == g.paths@[i]@);
            } else {
                assert forall|i: int| 0 <= i < g@.paths.len() implies !lets_through(
                    filter@,
                    str_bytes(#[trigger] g@.paths[i]),
                ) by {
                    assert(g@.paths[i] == g.paths@[i]@);
                }
            }
        }
        if hit {
            let ghost before = out@;
            out.push(g);
            assert(views_of(out@) =~= views_of(before).push(g@));
        }
        proof {
            done = done + 1;
        }
    }
    assert(all.take(done) =~= all);
    out
}

/// The lines that show a group: the header path, then each other path
/// set in by two spaces, then an empty line.
pub open spec fn lines_of(g: PathsRow) -> Seq<Seq<char>> {
    seq![g.header] + g.paths.filter(|p: Seq<char>| p != g.header).map_values(
        |p: Seq<char>| "  "@ + p,
    ) + seq![Seq::<char>::empty()]
}

/// The lines that show a group.
pub fn group_lines(g: &DupeGroup) -> (r: Vec<String>)
    ensures
        views_of(r@) == lines_of(g@),
{
    let ghost others = |p: Seq<char>| p != g@.header;
    let ghost set_in = |p: Seq<char>| "  "@ + p;
    let ghost paths = g@.paths;
    let mut out: Vec<String> = Vec::new();
    out.push(g.header_path.clone());
    let n: usize = g.paths.len();
    let mut i: usize = 0;
    proof {
        reveal(Seq::filter);
    }
    assert(views_of(out@) =~= seq![g@.header] + paths.take(0).filter(others).map_values(set_in));
    while i < n
        invariant
            n == g.paths@.len(),
            i <= n,
            paths == g@.paths,
            others == (|p: Seq<char>| p != g@.header),
            set_in == (|p: Seq<char>| "  "@ + p),
            views_of(out@) == seq![g@.header] + paths.take(i as int).filter(others).map_values(
                set_in,
            ),
        decreases n - i,
    {
        proof {
            assert(paths[i as int] == g.paths@[i as int]@);
            assert(paths.take(i + 1) =~= paths.take(i as int).push(paths[i as int]));
            paths.take(i as int).lemma_filter_push(paths[i as int], others);
        }
        if g.paths[i] != g.header_path {
            let mut line: String = "  ".to_owned();
            line.append(g.paths[i].as_str());
            let ghost before = out@;
            out.push(line);
            assert(views_of(out@) =~= views_of(before).push(line@));
            assert(views_of(out@) =~= seq![g@.header] + paths.take(i + 1).filter(
                others,
            ).map_values(set_in));
        }
        i = i + 1;
    }
    assert(paths.take(n as int) =~= paths);
    let ghost before = out@;
    out.push(String::new());
    assert(views_of(out@) =~= views_of(before).push(Seq::<char>::empty()));
    assert(views_of(out@) =~= lines_of(g@));
    out
}

} // verus!
