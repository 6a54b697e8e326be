//! Potential duplicates: files that share a prefix fingerprint but not their content.

use crate::db::{path_in, DbHandle, StoreError};
use crate::file_meta::{
    decode_failure, stored_hash, stored_prefix, stored_size, FileMeta,
};
use crate::kv::{lists_by_id, meta_rows, seen_meta_rows, seen_state, Snapshot, StoreState};
use crate::listing::{lemma_rows_by_id, listed_by_id, rows_by_id};
use crate::lex::{
    lemma_lex_le_total, lemma_lex_le_transitive, lemma_lex_lt_transitive,
    lemma_lex_lt_trichotomy, lex_le, lex_lt, rank_bytes, rank_strs, same_bytes, str_bytes, Rank,
};
use crate::model::{is_live, path_of, LIVE};
use crate::path_filter::{lets_through, PathFilter};
use crate::sort::{
    is_sorted, lemma_sorted, lemma_sorted_keeps_keys_apart, lemma_sorted_same_elements, reversed,
    sort, sorted, views_of, Order, Ordered,
};
use crate::util::{in_range, size_in_range};
use vstd::prelude::*;

verus! {

/// One file of a potential-duplicate group, as plain values.
pub struct EntryRow {
    pub path: Seq<char>,
    pub size: u64,
    pub hash: Seq<u8>,
}

/// One file of a potential-duplicate group.
#[derive(Debug, Clone)]
pub struct Entry {
    pub path: String,
    pub size: u64,
    pub hash256: [u8; 32],
}

impl View for Entry {
    type V = EntryRow;

    open spec fn view(&self) -> EntryRow {
        EntryRow { path: self.path@, size: self.size, hash: self.hash256@ }
    }
}

/// Files of a group are ordered largest first, and by path among equally large ones.
impl Order for EntryRow {
    open spec fn le(&self, other: &Self) -> bool {
        self.size > other.size || (self.size == other.size && lex_le(
            str_bytes(self.path),
            str_bytes(other.path),
        ))
    }

    proof fn lemma_le_total(a: &Self, b: &Self) {
        lemma_lex_le_total(str_bytes(a.path), str_bytes(b.path));
    }

    proof fn lemma_le_transitive(a: &Self, b: &Self, c: &Self) {
        if a.size == b.size && b.size == c.size {
            lemma_lex_le_transitive(str_bytes(a.path), str_bytes(b.path), str_bytes(c.path));
        }
    }
}

impl Ordered for Entry {
    fn at_most(&self, other: &Self) -> (r: bool) {
        proof {
            lemma_lex_lt_trichotomy(str_bytes(self.path@), str_bytes(other.path@));
        }
        if self.size != other.size {
            return self.size > other.size;
        }
        match rank_strs(self.path.as_str(), other.path.as_str()) {
            Rank::After => false,
            _ => true,
        }
    }
}

/// A potential-duplicate group as plain values.
pub struct PotentialRow {
    pub key: Seq<u8>,
    pub entries: Seq<EntryRow>,
}

/// Files that share a prefix fingerprint but no two of which share their
/// content: at least two, largest first.
#[derive(Debug, Clone)]
pub struct PotentialGroup {
    pub key: [u8; 20],
    pub entries: Vec<Entry>,
}

impl View for PotentialGroup {
    type V = PotentialRow;

    open spec fn view(&self) -> PotentialRow {
        PotentialRow { key: self.key@, entries: views_of(self.entries@) }
    }
}

/// The bytes of the path of a group's first file; none for a group without files.
pub open spec fn first_path(g: PotentialRow) -> Seq<u8> {
    if g.entries.len() > 0 {
        str_bytes(g.entries[0].path)
    } else {
        Seq::empty()
    }
}

/// Groups are ordered by the path of their first file, then by prefix fingerprint.
impl Order for PotentialRow {
    open spec fn le(&self, other: &Self) -> bool {
        lex_lt(first_path(*self), first_path(*other)) || (first_path(*self) == first_path(*other)
            && lex_le(self.key, other.key))
    }

    proof fn lemma_le_total(a: &Self, b: &Self) {
        lemma_lex_lt_trichotomy(first_path(*a), first_path(*b));
        lemma_lex_le_total(a.key, b.key);
    }

    proof fn lemma_le_transitive(a: &Self, b: &Self, c: &Self) {
        let (x, y, z) = (first_path(*a), first_path(*b), first_path(*c));
        lemma_lex_lt_trichotomy(x, y);
        lemma_lex_lt_trichotomy(y, z);
        if lex_lt(x, y) && lex_lt(y, z) {
            lemma_lex_lt_transitive(x, y, z);
        }
        if x == y && y == z {
            lemma_lex_le_transitive(a.key, b.key, c.key);
        }
    }
}

impl Ordered for PotentialGroup {
    fn at_most(&self, other: &Self) -> (r: bool) {
        proof {
            lemma_lex_lt_trichotomy(first_path(self@), first_path(other@));
            lemma_lex_lt_trichotomy(self.key@, other.key@);
        }
        let empty: Vec<u8> = Vec::new();
        let a: &[u8] = if self.entries.len() > 0 {
            assert(self@.entries[0] == self.entries@[0]@);
            self.entries[0].path.as_str().as_bytes()
        } else {
            empty.as_slice()
        };
        let b: &[u8] = if other.entries.len() > 0 {
            assert(other@.entries[0] == other.entries@[0]@);
            other.entries[0].path.as_str().as_bytes()
        } else {
            empty.as_slice()
        };
        assert(a@ == first_path(self@));
        assert(b@ == first_path(other@));
        match rank_bytes(a, b) {
            Rank::Before => true,
            Rank::After => false,
            Rank::Same => match rank_bytes(self.key.as_slice(), other.key.as_slice()) {
                Rank::After => false,
                _ => true,
            },
        }
    }
}

/// A live file with a prefix fingerprint, as plain values.
pub struct CandRow {
    pub prefix: Seq<u8>,
    pub entry: EntryRow,
}

/// A live file with a prefix fingerprint.
pub struct Candidate {
    pub prefix: [u8; 20],
    pub entry: Entry,
}

impl View for Candidate {
    type V = CandRow;

    open spec fn view(&self) -> CandRow {
        CandRow { prefix: self.prefix@, entry: self.entry@ }
    }
}

/// Candidates are bucketed by sorting them by prefix fingerprint, then by content hash.
impl Order for CandRow {
    open spec fn le(&self, other: &Self) -> bool {
        lex_lt(self.prefix, other.prefix) || (self.prefix == other.prefix && lex_le(
            self.entry.hash,
            other.entry.hash,
        ))
    }

    proof fn lemma_le_total(a: &Self, b: &Self) {
        lemma_lex_lt_trichotomy(a.prefix, b.prefix);
        lemma_lex_le_total(a.entry.hash, b.entry.hash);
    }

    proof fn lemma_le_transitive(a: &Self, b: &Self, c: &Self) {
        lemma_lex_lt_trichotomy(a.prefix, b.prefix);
        lemma_lex_lt_trichotomy(b.prefix, c.prefix);
        if lex_lt(a.prefix, b.prefix) && lex_lt(b.prefix, c.prefix) {
            lemma_lex_lt_transitive(a.prefix, b.prefix, c.prefix);
        }
        if a.prefix == b.prefix && b.prefix == c.prefix {
            lemma_lex_le_transitive(a.entry.hash, b.entry.hash, c.entry.hash);
        }
    }
}

impl Ordered for Candidate {
    fn at_most(&self, other: &Self) -> (r: bool) {
        proof {
            lemma_lex_lt_trichotomy(self.prefix@, other.prefix@);
            lemma_lex_lt_trichotomy(self.entry.hash256@, other.entry.hash256@);
        }
        match rank_bytes(self.prefix.as_slice(), other.prefix.as_slice()) {
            Rank::Before => true,
            Rank::After => false,
            Rank::Same => match rank_bytes(
                self.entry.hash256.as_slice(),
                other.entry.hash256.as_slice(),
            ) {
                Rank::After => false,
                _ => true,
            },
        }
    }
}

/// Whether two candidates share their prefix fingerprint, or, where
/// `by_hash` is set, their content hash.
pub open spec fn alike(by_hash: bool) -> spec_fn(CandRow, CandRow) -> bool {
    |a: CandRow, b: CandRow|
        if by_hash {
            a.entry.hash == b.entry.hash
        } else {
            a.prefix == b.prefix
        }
}

/// The sequence cut into its longest runs of neighbours that are alike.
pub open spec fn runs<A>(s: Seq<A>, same: spec_fn(A, A) -> bool) -> Seq<Seq<A>>
    decreases s.len(),
{
    if s.len() == 0 {
        Seq::empty()
    } else {
        let r = runs(s.drop_last(), same);
        if r.len() > 0 && r.last().len() > 0 && same(r.last().last(), s.last()) {
            r.drop_last().push(r.last().push(s.last()))
        } else {
            r.push(seq![s.last()])
        }
    }
}

/// The candidate for one row of the metadata table: a live file whose
/// encoding carries a prefix fingerprint and whose path is on record.
pub open spec fn cand_row(s: StoreState) -> spec_fn((u64, Seq<u8>)) -> Option<CandRow> {
    |e: (u64, Seq<u8>)|
        if is_live(s, e.0) && stored_prefix(e.1) is Some && path_of(s, e.0) is Some {
            Some(
                CandRow {
                    prefix: stored_prefix(e.1)->Some_0,
                    entry: EntryRow {
                        path: path_of(s, e.0)->Some_0,
                        size: stored_size(e.1),
                        hash: stored_hash(e.1),
                    },
                },
            )
        } else {
            None
        }
}

/// Whether a row of the metadata table is of a live file and does not decode.
pub open spec fn row_undecodable(s: StoreState, e: (u64, Seq<u8>)) -> bool {
    is_live(s, e.0) && decode_failure(e.1) is Some
}

/// Whether `fid` is the first row of the metadata table that is of a live file and does not decode.
pub open spec fn meta_fails_at(s: StoreState, fid: u64) -> bool {
    exists|j: int|
        0 <= j < rows_by_id(s.file_meta).len() && (#[trigger] rows_by_id(s.file_meta)[j]).0 == fid
            && row_undecodable(s, rows_by_id(s.file_meta)[j]) && forall|k: int|
            0 <= k < j ==> !row_undecodable(s, #[trigger] rows_by_id(s.file_meta)[k])
}

/// Whether every row of the metadata table that is of a live file decodes.
pub open spec fn meta_sound(s: StoreState) -> bool {
    forall|j: int|
        0 <= j < rows_by_id(s.file_meta).len() ==> !row_undecodable(
            s,
            #[trigger] rows_by_id(s.file_meta)[j],
        )
}

/// The candidates of a store, in order of file identifier.
pub open spec fn candidates(s: StoreState) -> Seq<CandRow> {
    rows_by_id(s.file_meta).filter_map(cand_row(s))
}

/// The file of a run of one candidate; nothing for a longer run.
pub open spec fn lone_entry() -> spec_fn(Seq<CandRow>) -> Option<EntryRow> {
    |run: Seq<CandRow>|
        if run.len() == 1 {
            Some(run[0].entry)
        } else {
            None
        }
}

/// The files of a bucket of candidates, sorted by hash, that share their
/// content hash with no other file of the bucket.
pub open spec fn singles(bucket: Seq<CandRow>) -> Seq<EntryRow> {
    runs(bucket, alike(true)).filter_map(lone_entry())
}

/// The group of a bucket of candidates with one prefix fingerprint, if at
/// least two of its files share their content with no other.
pub open spec fn potential_row() -> spec_fn(Seq<CandRow>) -> Option<PotentialRow> {
    |bucket: Seq<CandRow>|
        if bucket.len() > 0 && singles(bucket).len() >= 2 {
            Some(PotentialRow { key: bucket[0].prefix, entries: sorted(singles(bucket)) })
        } else {
            None
        }
}

/// The potential-duplicate groups of a list of candidates: the candidates
/// are bucketed by prefix fingerprint, and within a bucket by content hash.
pub open spec fn groups_among(cands: Seq<CandRow>) -> Seq<PotentialRow> {
    sorted(runs(sorted(cands), alike(false)).filter_map(potential_row()))
}

/// The potential-duplicate groups of a store.
pub open spec fn potential_groups(s: StoreState) -> Seq<PotentialRow> {
    groups_among(candidates(s))
}

/// What the runs of a list of candidates are cut by: the content hash
/// where `by_hash` is set, else the prefix fingerprint.
pub open spec fn run_key(c: CandRow, by_hash: bool) -> Seq<u8> {
    if by_hash {
        c.entry.hash
    } else {
        c.prefix
    }
}

/// Whether all candidates have one prefix fingerprint.
pub open spec fn one_prefix(s: Seq<CandRow>) -> bool {
    forall|i: int, j: int|
        0 <= i < s.len() && 0 <= j < s.len() ==> (#[trigger] s[i]).prefix == (#[trigger] s[j]).prefix
}

/// Whether a candidate has the given key.
pub open spec fn has_key(key: Seq<u8>, by_hash: bool) -> spec_fn(CandRow) -> bool {
    |c: CandRow| run_key(c, by_hash) == key
}

/// Whether a candidate has the prefix fingerprint and the content hash of `c`.
pub open spec fn twin_of(c: CandRow) -> spec_fn(CandRow) -> bool {
    |d: CandRow| d.prefix == c.prefix && d.entry.hash == c.entry.hash
}

/// Whether a candidate shares its prefix fingerprint and its content hash
/// with no other candidate of the list: it is the only one of its kind.
pub open spec fn is_lone(cands: Seq<CandRow>, c: CandRow) -> bool {
    cands.filter(twin_of(c)).len() == 1
}

/// Whether one of the runs holds the candidate.
pub open spec fn in_a_run(cut: Seq<Seq<CandRow>>, c: CandRow) -> bool {
    exists|i: int| 0 <= i < cut.len() && (#[trigger] cut[i]).contains(c)
}

/// The runs of a sorted list of candidates: each run is not empty, is
/// sorted, is made of candidates of the list with one key, and the keys
/// of the runs ascend strictly, so that no two runs have the same key.
pub proof fn lemma_runs_of_sorted(s: Seq<CandRow>, by_hash: bool)
    requires
        is_sorted(s),
        by_hash ==> one_prefix(s),
    ensures
        s.len() > 0 ==> runs(s, alike(by_hash)).len() > 0 && runs(s, alike(by_hash)).last().len() > 0
            && runs(s, alike(by_hash)).last().last() == s.last(),
        forall|i: int|
            0 <= i < runs(s, alike(by_hash)).len() ==> (#[trigger] runs(s, alike(by_hash))[i]).len()
                > 0 && is_sorted(runs(s, alike(by_hash))[i]),
        forall|i: int, k: int|
            0 <= i < runs(s, alike(by_hash)).len() && 0 <= k < runs(s, alike(by_hash))[i].len()
                ==> run_key(#[trigger] runs(s, alike(by_hash))[i][k], by_hash) == run_key(
                runs(s, alike(by_hash))[i][0],
                by_hash,
            ) && s.contains(runs(s, alike(by_hash))[i][k]),
        forall|i: int, j: int|
            0 <= i < j < runs(s, alike(by_hash)).len() ==> lex_lt(
                run_key((#[trigger] runs(s, alike(by_hash))[i])[0], by_hash),
                run_key((#[trigger] runs(s, alike(by_hash))[j])[0], by_hash),
            ),
    decreases s.len(),
{
    let same = alike(by_hash);
    let r = runs(s, same);
    if s.len() > 0 {
        let rest = s.drop_last();
        let x = s.last();
        assert(is_sorted(rest)) by {
            assert forall|i: int, j: int|
                #![trigger rest[i], rest[j]]
                0 <= i < j < rest.len() implies rest[i].le(&rest[j]) by {
                assert(rest[i] == s[i] && rest[j] == s[j]);
            }
        }
        if by_hash {
            assert(one_prefix(rest)) by {
                assert forall|i: int, j: int|
                    0 <= i < rest.len() && 0 <= j < rest.len() implies (#[trigger] rest[i]).prefix
                    == (#[trigger] rest[j]).prefix by {
                    assert(rest[i] == s[i] && rest[j] == s[j]);
                }
            }
        }
        lemma_runs_of_sorted(rest, by_hash);
        let r0 = runs(rest, same);
        // Every candidate before the last one may stand before it.
        assert forall|c: CandRow| rest.contains(c) implies c.le(&x) by {
            let k = choose|k: int| 0 <= k < rest.len() && rest[k] == c;
            assert(s[k] == c && s[s.len() - 1] == x);
        }
        assert forall|c: CandRow| rest.contains(c) implies s.contains(c) by {
            let k = choose|k: int| 0 <= k < rest.len() && rest[k] == c;
            assert(s[k] == c);
        }
        assert(s.contains(x)) by {
            assert(s[s.len() - 1] == x);
        }
        if r0.len() > 0 && r0.last().len() > 0 && same(r0.last().last(), x) {
            let grown = r0.last().push(x);
            assert(r == r0.drop_last().push(grown));
            assert forall|i: int| 0 <= i < r.len() implies (#[trigger] r[i]).len() > 0 && is_sorted(
                r[i],
            ) by {
                if i < r.len() - 1 {
                    assert(r[i] == r0[i]);
                } else {
                    assert(r[i] == grown);
                    assert forall|a: int, b: int|
                        #![trigger grown[a], grown[b]]
                        0 <= a < b < grown.len() implies grown[a].le(&grown[b]) by {
                        if b < grown.len() - 1 {
                            assert(r0[r0.len() - 1][a].le(&r0[r0.len() - 1][b]));
                        } else {
                            assert(rest.contains(r0[r0.len() - 1][a]));
                        }
                    }
                }
            }
            assert forall|i: int, k: int| 0 <= i < r.len() && 0 <= k < r[i].len() implies run_key(
                #[trigger] r[i][k],
                by_hash,
            ) == run_key(r[i][0], by_hash) && s.contains(r[i][k]) by {
                if i < r.len() - 1 {
                    assert(r[i] == r0[i]);
                    assert(rest.contains(r0[i][k]));
                } else {
                    assert(r[i] == grown);
                    let last = r0[r0.len() - 1];
                    if k < last.len() {
                        assert(grown[k] == last[k]);
                        assert(rest.contains(last[k]));
                    } else {
                        assert(run_key(last[last.len() - 1], by_hash) == run_key(last[0], by_hash));
                    }
                }
            }
            assert forall|i: int, j: int| 0 <= i < j < r.len() implies lex_lt(
                run_key((#[trigger] r[i])[0], by_hash),
                run_key((#[trigger] r[j])[0], by_hash),
            ) by {
                assert(r[i] == r0[i]);
                if j < r.len() - 1 {
                    assert(r[j] == r0[j]);
                } else {
                    assert(r[j][0] == r0[j][0]);
                }
            }
        } else {
            assert(r == r0.push(seq![x]));
            assert forall|i: int| 0 <= i < r.len() implies (#[trigger] r[i]).len() > 0 && is_sorted(
                r[i],
            ) by {
                if i < r.len() - 1 {
                    assert(r[i] == r0[i]);
                }
            }
            assert forall|i: int, k: int| 0 <= i < r.len() && 0 <= k < r[i].len() implies run_key(
                #[trigger] r[i][k],
                by_hash,
            ) == run_key(r[i][0], by_hash) && s.contains(r[i][k]) by {
                if i < r.len() - 1 {
                    assert(r[i] == r0[i]);
                    assert(rest.contains(r0[i][k]));
                }
            }
            assert forall|i: int, j: int| 0 <= i < j < r.len() implies lex_lt(
                run_key((#[trigger] r[i])[0], by_hash),
                run_key((#[trigger] r[j])[0], by_hash),
            ) by {
                assert(r[i] == r0[i]);
                if j < r.len() - 1 {
                    assert(r[j] == r0[j]);
                } else {
                    // The run before the new one ends in the candidate before the last.
                    let before = r0[r0.len() - 1];
                    let y = before[before.len() - 1];
                    assert(y == rest.last());
                    assert(rest.contains(y)) by {
                        assert(rest[rest.len() - 1] == y);
                    }
                    assert(y.le(&x));
                    assert(run_key(y, by_hash) == run_key(before[0], by_hash));
                    assert(!same(y, x));
                    if by_hash {
                        assert(s[s.len() - 2] == y && s[s.len() - 1] == x);
                        assert(y.prefix == x.prefix);
                    }
                    lemma_lex_lt_trichotomy(y.prefix, x.prefix);
                    lemma_lex_lt_trichotomy(y.entry.hash, x.entry.hash);
                    assert(lex_lt(run_key(y, by_hash), run_key(x, by_hash)));
                    if i < r0.len() - 1 {
                        lemma_lex_lt_transitive(
                            run_key(r0[i][0], by_hash),
                            run_key(before[0], by_hash),
                            run_key(x, by_hash),
                        );
                    }
                }
            }
        }
    }
}

/// Where no element passes a test, none is kept.
pub proof fn lemma_none_pass<A>(s: Seq<A>, p: spec_fn(A) -> bool)
    requires
        forall|k: int| 0 <= k < s.len() ==> !p(#[trigger] s[k]),
    ensures
        s.filter(p) == Seq::<A>::empty(),
    decreases s.len(),
{
    reveal(Seq::filter);
    if s.len() > 0 {
        let rest = s.drop_last();
        assert forall|k: int| 0 <= k < rest.len() implies !p(#[trigger] rest[k]) by {
            assert(rest[k] == s[k]);
        }
        lemma_none_pass(rest, p);
        assert(!p(s[s.len() - 1]));
    }
}

/// Keeping the candidates with a prefix fingerprint, and of those the ones
/// with a content hash, keeps the candidates with both.
pub proof fn lemma_twins_by_two_keys(s: Seq<CandRow>, c: CandRow)
    ensures
        s.filter(has_key(c.prefix, false)).filter(has_key(c.entry.hash, true)) == s.filter(
            twin_of(c),
        ),
    decreases s.len(),
{
    reveal(Seq::filter);
    let by_prefix = has_key(c.prefix, false);
    let by_hash = has_key(c.entry.hash, true);
    if s.len() > 0 {
        let rest = s.drop_last();
        let x = s.last();
        lemma_twins_by_two_keys(rest, c);
        assert(s == rest.push(x));
        rest.lemma_filter_push(x, by_prefix);
        rest.lemma_filter_push(x, twin_of(c));
        if by_prefix(x) {
            rest.filter(by_prefix).lemma_filter_push(x, by_hash);
        }
    }
}

/// The number of elements that pass a test, counted one by one.
pub open spec fn counting<A>(p: spec_fn(A) -> bool) -> spec_fn(nat, A) -> nat {
    |n: nat, x: A|
        if p(x) {
            n + 1
        } else {
            n
        }
}

/// As many elements are kept as pass the test.
pub proof fn lemma_filter_len_counts<A>(s: Seq<A>, p: spec_fn(A) -> bool)
    ensures
        s.filter(p).len() == s.fold_left(0nat, counting(p)),
    decreases s.len(),
{
    reveal(Seq::filter);
    if s.len() > 0 {
        lemma_filter_len_counts(s.drop_last(), p);
    }
}

/// Two lists with the same elements, each as often, keep as many of them.
pub proof fn lemma_filter_len_of_same_elements<A>(s: Seq<A>, t: Seq<A>, p: spec_fn(A) -> bool)
    requires
        s.to_multiset() == t.to_multiset(),
    ensures
        s.filter(p).len() == t.filter(p).len(),
{
    lemma_filter_len_counts(s, p);
    lemma_filter_len_counts(t, p);
    assert(vstd::seq_lib::commutative_foldl(counting(p)));
    vstd::seq_lib::lemma_fold_left_permutation(s, t, counting(p), 0nat);
}

/// The runs of a sorted list of candidates hold the candidates by key:
/// each run is exactly the candidates of the list with its key, in their
/// order, and every candidate of the list is in a run.
pub proof fn lemma_runs_hold_their_keys(s: Seq<CandRow>, by_hash: bool)
    requires
        is_sorted(s),
        by_hash ==> one_prefix(s),
    ensures
        forall|i: int|
            0 <= i < runs(s, alike(by_hash)).len() ==> #[trigger] runs(s, alike(by_hash))[i]
                == s.filter(has_key(run_key(runs(s, alike(by_hash))[i][0], by_hash), by_hash)),
        forall|c: CandRow| #[trigger] s.contains(c) ==> in_a_run(runs(s, alike(by_hash)), c),
    decreases s.len(),
{
    let same = alike(by_hash);
    let r = runs(s, same);
    if s.len() > 0 {
        let rest = s.drop_last();
        let x = s.last();
        assert(s == rest.push(x));
        assert(is_sorted(rest)) by {
            assert forall|i: int, j: int|
                #![trigger rest[i], rest[j]]
                0 <= i < j < rest.len() implies rest[i].le(&rest[j]) by {
                assert(rest[i] == s[i] && rest[j] == s[j]);
            }
        }
        if by_hash {
            assert(one_prefix(rest)) by {
                assert forall|i: int, j: int|
                    0 <= i < rest.len() && 0 <= j < rest.len() implies (#[trigger] rest[i]).prefix
                    == (#[trigger] rest[j]).prefix by {
                    assert(rest[i] == s[i] && rest[j] == s[j]);
                }
            }
        }
        lemma_runs_hold_their_keys(rest, by_hash);
        lemma_runs_of_sorted(rest, by_hash);
        lemma_runs_of_sorted(s, by_hash);
        let r0 = runs(rest, same);
        let joins = r0.len() > 0 && r0.last().len() > 0 && same(r0.last().last(), x);
        if joins {
            assert(r == r0.drop_last().push(r0.last().push(x)));
        } else {
            assert(r == r0.push(seq![x]));
        }
        let n = r.len() - 1;
        // Every run but the last is a run of the list without its last candidate.
        assert forall|i: int| 0 <= i < n implies #[trigger] r[i] == r0[i] by {}
        // The key of the last run is that of the last candidate, and of no other run.
        assert(run_key(r[n][0], by_hash) == run_key(x, by_hash)) by {
            if joins {
                let last = r0[r0.len() - 1];
                assert(r[n][0] == last[0]);
                assert(run_key(last[last.len() - 1], by_hash) == run_key(last[0], by_hash));
            }
        }
        assert forall|i: int| 0 <= i < n implies run_key(#[trigger] r[i][0], by_hash) != run_key(
            x,
            by_hash,
        ) by {
            assert(lex_lt(run_key(r[i][0], by_hash), run_key(r[n][0], by_hash)));
            lemma_lex_lt_trichotomy(run_key(r[i][0], by_hash), run_key(x, by_hash));
        }
        assert forall|i: int| 0 <= i < r.len() implies #[trigger] r[i] == s.filter(
            has_key(run_key(r[i][0], by_hash), by_hash),
        ) by {
            let wanted = has_key(run_key(r[i][0], by_hash), by_hash);
            rest.lemma_filter_push(x, wanted);
            if i < n {
                assert(r[i] == r0[i]);
            } else if joins {
                assert(r[n][0] == r0[r0.len() - 1][0]);
            } else {
                // No candidate before the last one has the key of the new run.
                assert forall|k: int| 0 <= k < rest.len() implies !wanted(#[trigger] rest[k]) by {
                    assert(rest.contains(rest[k]));
                    assert(in_a_run(r0, rest[k]));
                    let j = choose|j: int|
                        0 <= j < r0.len() && (#[trigger] r0[j]).contains(rest[k]);
                    let at = choose|at: int| 0 <= at < r0[j].len() && r0[j][at] == rest[k];
                    assert(run_key(r0[j][at], by_hash) == run_key(r0[j][0], by_hash));
                    assert(r[j] == r0[j]);
                }
                lemma_none_pass(rest, wanted);
                assert(r[n] =~= Seq::<CandRow>::empty().push(x));
            }
        }
        assert forall|c: CandRow| #[trigger] s.contains(c) implies in_a_run(r, c) by {
            let k = choose|k: int| 0 <= k < s.len() && s[k] == c;
            if k < rest.len() {
                assert(rest[k] == c);
                assert(rest.contains(c));
                assert(in_a_run(r0, c));
                let i = choose|i: int| 0 <= i < r0.len() && (#[trigger] r0[i]).contains(c);
                if i < n {
                    assert(r[i] == r0[i]);
                } else {
                    let at = choose|at: int| 0 <= at < r0[i].len() && r0[i][at] == c;
                    assert(r[n][at] == c);
                }
                assert(r[i].contains(c));
            } else {
                assert(r[n][r[n].len() - 1] == c);
                assert(r[n].contains(c));
            }
        }
    }
}

/// Whether the file is that of a candidate of the list.
pub open spec fn is_file_of(cands: Seq<CandRow>, e: EntryRow) -> bool {
    exists|c: CandRow| #[trigger] cands.contains(c) && c.entry == e
}

/// Whether the file is that of a candidate of the list with this prefix fingerprint.
pub open spec fn is_file_under(cands: Seq<CandRow>, key: Seq<u8>, e: EntryRow) -> bool {
    exists|c: CandRow| #[trigger] cands.contains(c) && c.prefix == key && c.entry == e
}

/// What is kept of a sequence comes in the order of what it was kept from.
pub proof fn lemma_filter_map_keeps_order<A, B>(s: Seq<A>, f: spec_fn(A) -> Option<B>, i: int, j: int)
    requires
        0 <= i < j < s.filter_map(f).len(),
    ensures
        exists|a: int, b: int|
            0 <= a < b < s.len() && f(#[trigger] s[a]) == Some(s.filter_map(f)[i]) && f(
                #[trigger] s[b],
            ) == Some(s.filter_map(f)[j]),
    decreases s.len(),
{
    let rest = s.drop_last();
    let kept = rest.filter_map(f);
    if j < kept.len() {
        lemma_filter_map_keeps_order(rest, f, i, j);
        let (a, b) = choose|a: int, b: int|
            0 <= a < b < rest.len() && f(#[trigger] rest[a]) == Some(kept[i]) && f(
                #[trigger] rest[b],
            ) == Some(kept[j]);
        assert(s[a] == rest[a] && s[b] == rest[b]);
    } else {
        assert(f(s.last()) is Some);
        assert(s.filter_map(f) == kept + seq![f(s.last())->Some_0]);
        assert(kept.contains(kept[i]));
        rest.lemma_filter_map_contains(f, kept[i]);
        let t = choose|t: A| #[trigger] rest.contains(t) && f(t) == Some(kept[i]);
        let a = choose|a: int| 0 <= a < rest.len() && rest[a] == t;
        assert(s[a] == rest[a]);
        assert(s[s.len() - 1] == s.last());
    }
}

/// The files of a sorted bucket with one prefix fingerprint that share
/// their content with no other file of the bucket: their hashes ascend
/// strictly, and each is the file of a candidate of the bucket.
pub proof fn lemma_singles(bucket: Seq<CandRow>)
    requires
        is_sorted(bucket),
        one_prefix(bucket),
    ensures
        forall|i: int, j: int|
            0 <= i < j < singles(bucket).len() ==> lex_lt(
                (#[trigger] singles(bucket)[i]).hash,
                (#[trigger] singles(bucket)[j]).hash,
            ),
        forall|i: int|
            0 <= i < singles(bucket).len() ==> is_file_of(bucket, #[trigger] singles(bucket)[i]),
{
    let cut = runs(bucket, alike(true));
    let pick = lone_entry();
    lemma_runs_of_sorted(bucket, true);
    assert forall|i: int, j: int| 0 <= i < j < singles(bucket).len() implies lex_lt(
        (#[trigger] singles(bucket)[i]).hash,
        (#[trigger] singles(bucket)[j]).hash,
    ) by {
        lemma_filter_map_keeps_order(cut, pick, i, j);
        let (a, b) = choose|a: int, b: int|
            0 <= a < b < cut.len() && pick(#[trigger] cut[a]) == Some(singles(bucket)[i]) && pick(
                #[trigger] cut[b],
            ) == Some(singles(bucket)[j]);
        assert(lex_lt(run_key(cut[a][0], true), run_key(cut[b][0], true)));
    }
    assert forall|i: int| 0 <= i < singles(bucket).len() implies is_file_of(
        bucket,
        #[trigger] singles(bucket)[i],
    ) by {
        let e = singles(bucket)[i];
        assert(singles(bucket).contains(e));
        cut.lemma_filter_map_contains(pick, e);
        let run = choose|run: Seq<CandRow>| #[trigger] cut.contains(run) && pick(run) == Some(e);
        let k = choose|k: int| 0 <= k < cut.len() && cut[k] == run;
        assert(bucket.contains(cut[k][0]));
    }
}

/// What is made of an element of a sequence is among what is made of the sequence.
pub proof fn lemma_filter_map_has<A, B>(s: Seq<A>, f: spec_fn(A) -> Option<B>, j: int)
    requires
        0 <= j < s.len(),
        f(s[j]) is Some,
    ensures
        s.filter_map(f).contains(f(s[j])->Some_0),
    decreases s.len(),
{
    let rest = s.drop_last();
    let y = f(s[j])->Some_0;
    if j < s.len() - 1 {
        assert(rest[j] == s[j]);
        lemma_filter_map_has(rest, f, j);
        let at = choose|at: int| 0 <= at < rest.filter_map(f).len() && rest.filter_map(f)[at] == y;
        assert(s.filter_map(f)[at] == y);
    } else {
        let made = s.filter_map(f);
        assert(made == rest.filter_map(f) + seq![y]);
        assert(made[made.len() - 1] == y);
    }
}

/// A bucket of the sorted candidates, as a list of its own: sorted, of
/// one prefix fingerprint, and exactly the candidates with that prefix
/// fingerprint.
pub proof fn lemma_bucket(ordered: Seq<CandRow>, at: int)
    requires
        is_sorted(ordered),
        0 <= at < runs(ordered, alike(false)).len(),
    ensures
        ({
            let bucket = runs(ordered, alike(false))[at];
            &&& bucket.len() > 0
            &&& is_sorted(bucket)
            &&& one_prefix(bucket)
            &&& bucket == ordered.filter(has_key(bucket[0].prefix, false))
            &&& forall|c: CandRow| #[trigger]
                bucket.contains(c) ==> ordered.contains(c) && c.prefix == bucket[0].prefix
        }),
{
    let buckets = runs(ordered, alike(false));
    let bucket = buckets[at];
    lemma_runs_of_sorted(ordered, false);
    lemma_runs_hold_their_keys(ordered, false);
    assert forall|c: CandRow| #[trigger] bucket.contains(c) implies ordered.contains(c) && c.prefix
        == bucket[0].prefix by {
        let k = choose|k: int| 0 <= k < bucket.len() && bucket[k] == c;
        assert(run_key(buckets[at][k], false) == run_key(buckets[at][0], false));
    }
    assert(one_prefix(bucket)) by {
        assert forall|i: int, j: int|
            0 <= i < bucket.len() && 0 <= j < bucket.len() implies (#[trigger] bucket[i]).prefix == (
            #[trigger] bucket[j]).prefix by {
            assert(bucket.contains(bucket[i]) && bucket.contains(bucket[j]));
        }
    }
}

/// The run of a bucket that holds a candidate is made of the candidates
/// of the whole list that have its prefix fingerprint and its content hash.
pub proof fn lemma_run_is_the_twins(ordered: Seq<CandRow>, at: int, c: CandRow) -> (j: int)
    requires
        is_sorted(ordered),
        0 <= at < runs(ordered, alike(false)).len(),
        runs(ordered, alike(false))[at].contains(c),
    ensures
        0 <= j < runs(runs(ordered, alike(false))[at], alike(true)).len(),
        runs(runs(ordered, alike(false))[at], alike(true))[j].contains(c),
        runs(runs(ordered, alike(false))[at], alike(true))[j] == ordered.filter(twin_of(c)),
{
    let bucket = runs(ordered, alike(false))[at];
    lemma_bucket(ordered, at);
    let cut = runs(bucket, alike(true));
    lemma_runs_of_sorted(bucket, true);
    lemma_runs_hold_their_keys(bucket, true);
    assert(in_a_run(cut, c));
    let j = choose|j: int| 0 <= j < cut.len() && (#[trigger] cut[j]).contains(c);
    let k = choose|k: int| 0 <= k < cut[j].len() && cut[j][k] == c;
    assert(run_key(cut[j][k], true) == run_key(cut[j][0], true));
    assert(cut[j] == bucket.filter(has_key(c.entry.hash, true)));
    assert(bucket == ordered.filter(has_key(c.prefix, false)));
    lemma_twins_by_two_keys(ordered, c);
    j
}

/// A candidate of a bucket that is the only one of its kind gives one of the bucket's files.
pub proof fn lemma_lone_is_single(ordered: Seq<CandRow>, at: int, c: CandRow)
    requires
        is_sorted(ordered),
        0 <= at < runs(ordered, alike(false)).len(),
        runs(ordered, alike(false))[at].contains(c),
        is_lone(ordered, c),
    ensures
        singles(runs(ordered, alike(false))[at]).contains(c.entry),
{
    let bucket = runs(ordered, alike(false))[at];
    let cut = runs(bucket, alike(true));
    let j = lemma_run_is_the_twins(ordered, at, c);
    let k = choose|k: int| 0 <= k < cut[j].len() && cut[j][k] == c;
    assert(cut[j][0] == c);
    lemma_filter_map_has(cut, lone_entry(), j);
}

/// Each of a bucket's files is that of a candidate of the bucket that is
/// the only one of its kind.
pub proof fn lemma_single_is_lone(ordered: Seq<CandRow>, at: int, e: EntryRow) -> (c: CandRow)
    requires
        is_sorted(ordered),
        0 <= at < runs(ordered, alike(false)).len(),
        singles(runs(ordered, alike(false))[at]).contains(e),
    ensures
        runs(ordered, alike(false))[at].contains(c),
        c.entry == e,
        is_lone(ordered, c),
{
    let bucket = runs(ordered, alike(false))[at];
    lemma_bucket(ordered, at);
    let cut = runs(bucket, alike(true));
    lemma_runs_of_sorted(bucket, true);
    cut.lemma_filter_map_contains(lone_entry(), e);
    let run = choose|run: Seq<CandRow>| #[trigger] cut.contains(run) && lone_entry()(run) == Some(e);
    let j = choose|j: int| 0 <= j < cut.len() && cut[j] == run;
    let c = run[0];
    assert(bucket.contains(cut[j][0]));
    let same = lemma_run_is_the_twins(ordered, at, c);
    // The run that holds the candidate is the run of one that gave the file.
    if same != j {
        let k = choose|k: int| 0 <= k < cut[same].len() && cut[same][k] == c;
        assert(run_key(cut[same][k], true) == run_key(cut[same][0], true));
        if same < j {
            assert(lex_lt(run_key(cut[same][0], true), run_key(cut[j][0], true)));
        } else {
            assert(lex_lt(run_key(cut[j][0], true), run_key(cut[same][0], true)));
        }
        lemma_lex_lt_trichotomy(c.entry.hash, c.entry.hash);
    }
    c
}

/// Every file of a group among the candidates is that of a candidate with
/// the group's prefix fingerprint that shares its prefix fingerprint and
/// its content hash with no other candidate.
pub proof fn lemma_group_files_are_lone(cands: Seq<CandRow>, k: int, i: int) -> (c: CandRow)
    requires
        0 <= k < groups_among(cands).len(),
        0 <= i < groups_among(cands)[k].entries.len(),
    ensures
        cands.contains(c),
        c.prefix == groups_among(cands)[k].key,
        c.entry == groups_among(cands)[k].entries[i],
        is_lone(cands, c),
{
    let ordered = sorted(cands);
    lemma_sorted(cands);
    let buckets = runs(ordered, alike(false));
    let made = buckets.filter_map(potential_row());
    let g = groups_among(cands)[k];
    assert(sorted(made).contains(g));
    lemma_sorted_same_elements(made, g);
    buckets.lemma_filter_map_contains(potential_row(), g);
    let bucket = choose|b: Seq<CandRow>|
        #[trigger] buckets.contains(b) && potential_row()(b) == Some(g);
    let at = choose|at: int| 0 <= at < buckets.len() && buckets[at] == bucket;
    lemma_bucket(ordered, at);
    let e = g.entries[i];
    assert(sorted(singles(bucket)).contains(e));
    lemma_sorted_same_elements(singles(bucket), e);
    let c = lemma_single_is_lone(ordered, at, e);
    lemma_sorted_same_elements(cands, c);
    lemma_filter_len_of_same_elements(ordered, cands, twin_of(c));
    c
}

/// Two candidates with one prefix fingerprint and different content, each
/// the only one of its kind, are files of one group.
pub proof fn lemma_lone_pairs_are_grouped(cands: Seq<CandRow>, a: CandRow, b: CandRow) -> (k: int)
    requires
        cands.contains(a),
        cands.contains(b),
        a.prefix == b.prefix,
        a.entry.hash != b.entry.hash,
        is_lone(cands, a),
        is_lone(cands, b),
    ensures
        0 <= k < groups_among(cands).len(),
        groups_among(cands)[k].key == a.prefix,
        groups_among(cands)[k].entries.contains(a.entry),
        groups_among(cands)[k].entries.contains(b.entry),
{
    let ordered = sorted(cands);
    lemma_sorted(cands);
    lemma_sorted_same_elements(cands, a);
    lemma_sorted_same_elements(cands, b);
    lemma_filter_len_of_same_elements(ordered, cands, twin_of(a));
    lemma_filter_len_of_same_elements(ordered, cands, twin_of(b));
    let buckets = runs(ordered, alike(false));
    lemma_runs_of_sorted(ordered, false);
    lemma_runs_hold_their_keys(ordered, false);
    assert(in_a_run(buckets, a) && in_a_run(buckets, b));
    let at = choose|at: int| 0 <= at < buckets.len() && (#[trigger] buckets[at]).contains(a);
    let bt = choose|bt: int| 0 <= bt < buckets.len() && (#[trigger] buckets[bt]).contains(b);
    lemma_bucket(ordered, at);
    lemma_bucket(ordered, bt);
    if at != bt {
        if at < bt {
            assert(lex_lt(run_key(buckets[at][0], false), run_key(buckets[bt][0], false)));
        } else {
            assert(lex_lt(run_key(buckets[bt][0], false), run_key(buckets[at][0], false)));
        }
        lemma_lex_lt_trichotomy(a.prefix, a.prefix);
    }
    let bucket = buckets[at];
    lemma_lone_is_single(ordered, at, a);
    lemma_lone_is_single(ordered, at, b);
    let lone = singles(bucket);
    let i = choose|i: int| 0 <= i < lone.len() && lone[i] == a.entry;
    let j = choose|j: int| 0 <= j < lone.len() && lone[j] == b.entry;
    assert(i != j);
    assert(potential_row()(bucket) is Some);
    let g = potential_row()(bucket)->Some_0;
    lemma_sorted_same_elements(lone, a.entry);
    lemma_sorted_same_elements(lone, b.entry);
    let made = buckets.filter_map(potential_row());
    lemma_filter_map_has(buckets, potential_row(), at);
    lemma_sorted_same_elements(made, g);
    let k = choose|k: int| 0 <= k < sorted(made).len() && sorted(made)[k] == g;
    k
}

/// Whether a group is a potential-duplicate group among the candidates:
/// at least two files, largest first, each the file of a candidate with
/// the group's prefix fingerprint, and no two with the same content hash.
pub open spec fn is_potential_group(cands: Seq<CandRow>, g: PotentialRow) -> bool {
    &&& g.entries.len() >= 2
    &&& is_sorted(g.entries)
    &&& forall|i: int|
        0 <= i < g.entries.len() ==> is_file_under(cands, g.key, #[trigger] g.entries[i])
    &&& forall|i: int, j: int|
        0 <= i < j < g.entries.len() ==> (#[trigger] g.entries[i]).hash != (
        #[trigger] g.entries[j]).hash
}

/// The groups among the candidates are in order, and each is a
/// potential-duplicate group: files that share their prefix fingerprint,
/// and no two of which share their content.
pub proof fn lemma_groups_are_potential_groups(cands: Seq<CandRow>, k: int)
    requires
        0 <= k < groups_among(cands).len(),
    ensures
        is_sorted(groups_among(cands)),
        is_potential_group(cands, groups_among(cands)[k]),
{
    let ordered = sorted(cands);
    lemma_sorted(cands);
    let buckets = runs(ordered, alike(false));
    let made = buckets.filter_map(potential_row());
    lemma_sorted(made);
    let g = groups_among(cands)[k];
    assert(sorted(made).contains(g));
    lemma_sorted_same_elements(made, g);
    buckets.lemma_filter_map_contains(potential_row(), g);
    let bucket = choose|b: Seq<CandRow>|
        #[trigger] buckets.contains(b) && potential_row()(b) == Some(g);
    let at = choose|i: int| 0 <= i < buckets.len() && buckets[i] == bucket;
    lemma_runs_of_sorted(ordered, false);
    assert(one_prefix(bucket)) by {
        assert forall|i: int, j: int|
            0 <= i < bucket.len() && 0 <= j < bucket.len() implies (#[trigger] bucket[i]).prefix == (
            #[trigger] bucket[j]).prefix by {
            assert(run_key(buckets[at][i], false) == run_key(buckets[at][0], false));
            assert(run_key(buckets[at][j], false) == run_key(buckets[at][0], false));
        }
    }
    lemma_singles(bucket);
    let lone = singles(bucket);
    lemma_sorted(lone);
    assert(g.entries == sorted(lone));
    assert(g.key == bucket[0].prefix);
    assert forall|i: int| 0 <= i < g.entries.len() implies is_file_under(
        cands,
        g.key,
        #[trigger] g.entries[i],
    ) by {
        let e = g.entries[i];
        assert(sorted(lone).contains(e));
        lemma_sorted_same_elements(lone, e);
        let a = choose|a: int| 0 <= a < lone.len() && lone[a] == e;
        assert(is_file_of(bucket, lone[a]));
        let c = choose|c: CandRow| #[trigger] bucket.contains(c) && c.entry == lone[a];
        let b = choose|b: int| 0 <= b < bucket.len() && bucket[b] == c;
        assert(ordered.contains(buckets[at][b]));
        lemma_sorted_same_elements(cands, c);
        assert(run_key(buckets[at][b], false) == run_key(buckets[at][0], false));
    }
    assert forall|i: int, j: int| 0 <= i < j < g.entries.len() implies (#[trigger] g.entries[i]).hash
        != (#[trigger] g.entries[j]).hash by {
        let x = g.entries[i];
        let y = g.entries[j];
        assert(sorted(lone).contains(x) && sorted(lone).contains(y));
        lemma_sorted_same_elements(lone, x);
        lemma_sorted_same_elements(lone, y);
        let a = choose|a: int| 0 <= a < lone.len() && lone[a] == x;
        let b = choose|b: int| 0 <= b < lone.len() && lone[b] == y;
        if a < b {
            lemma_lex_lt_trichotomy(lone[a].hash, lone[b].hash);
        } else if b < a {
            lemma_lex_lt_trichotomy(lone[b].hash, lone[a].hash);
        } else {
            // One file of the bucket cannot stand at two places of the sorted list.
            assert(lone.no_duplicates()) by {
                assert forall|p: int, q: int|
                    0 <= p < lone.len() && 0 <= q < lone.len() && p != q implies lone[p]
                    != lone[q] by {
                    if p < q {
                        lemma_lex_lt_trichotomy(lone[p].hash, lone[q].hash);
                    } else {
                        lemma_lex_lt_trichotomy(lone[q].hash, lone[p].hash);
                    }
                }
            }
            lone.lemma_multiset_has_no_duplicates();
            assert(sorted(lone).to_multiset().contains(x)) by {
                vstd::seq_lib::to_multiset_contains(sorted(lone), x);
            }
            sorted(lone).lemma_multiset_has_no_duplicates_conv();
            assert(sorted(lone)[i] != sorted(lone)[j]);
        }
    }
}

/// No prefix fingerprint has two groups: the groups among the candidates
/// are of different prefix fingerprints.
pub proof fn lemma_one_group_per_prefix(cands: Seq<CandRow>, i: int, j: int)
    requires
        0 <= i < j < groups_among(cands).len(),
    ensures
        groups_among(cands)[i].key != groups_among(cands)[j].key,
{
    let ordered = sorted(cands);
    lemma_sorted(cands);
    let buckets = runs(ordered, alike(false));
    let made = buckets.filter_map(potential_row());
    let key_of = |g: PotentialRow| g.key;
    lemma_runs_of_sorted(ordered, false);
    assert forall|a: int, b: int| 0 <= a < b < made.len() implies key_of(#[trigger] made[a])
        != key_of(#[trigger] made[b]) by {
        lemma_filter_map_keeps_order(buckets, potential_row(), a, b);
        let (x, y) = choose|x: int, y: int|
            0 <= x < y < buckets.len() && potential_row()(#[trigger] buckets[x]) == Some(made[a])
                && potential_row()(#[trigger] buckets[y]) == Some(made[b]);
        assert(lex_lt(run_key(buckets[x][0], false), run_key(buckets[y][0], false)));
        lemma_lex_lt_trichotomy(buckets[x][0].prefix, buckets[y][0].prefix);
    }
    lemma_sorted_keeps_keys_apart(made, key_of, i, j);
}

/// The bytes of each candidate, bucket by bucket.
pub open spec fn bucket_views(buckets: Seq<Vec<Candidate>>) -> Seq<Seq<CandRow>> {
    buckets.map_values(|b: Vec<Candidate>| views_of(b@))
}

/// The live files with a prefix fingerprint, in order of file identifier.
pub fn candidates_in(snap: &Snapshot) -> (r: Result<Vec<Candidate>, StoreError>)
    ensures
        match r {
            Ok(out) => {
                &&& listed_by_id(snap@.file_meta)
                &&& views_of(out@) == candidates(snap@)
                &&& meta_sound(snap@)
            },
            Err(StoreError::Corrupt { file_id, cause }) => {
                &&& listed_by_id(snap@.file_meta)
                &&& meta_fails_at(snap@, file_id)
                &&& decode_failure(snap@.file_meta[file_id]) == Some(cause)
            },
            Err(StoreError::Backend(_)) => true,
            Err(StoreError::IdsExhausted) => false,
        },
{
    let metas = match seen_meta_rows(snap) {
        Ok(v) => v,
        Err(e) => {
            return Err(StoreError::Backend(e));
        },
    };
    let ghost rows = meta_rows(metas@);
    proof {
        lemma_rows_by_id(rows, snap@.file_meta);
    }
    let ghost make = cand_row(snap@);
    let mut out: Vec<Candidate> = Vec::new();
    let n: usize = metas.len();
    let mut i: usize = 0;
    assert(views_of(out@) =~= rows.take(0).filter_map(make));
    while i < n
        invariant
            n == metas@.len(),
            i <= n,
            rows == meta_rows(metas@),
            rows == rows_by_id(snap@.file_meta),
            lists_by_id(rows, snap@.file_meta),
            make == cand_row(snap@),
            views_of(out@) == rows.take(i as int).filter_map(make),
            forall|k: int| 0 <= k < i ==> !row_undecodable(snap@, #[trigger] rows[k]),
        decreases n - i,
    {
        let fid: u64 = metas[i].0;
        proof {
            rows.lemma_filter_map_take_succ(make, i as int);
            assert(rows[i as int] == (metas@[i as int].0, metas@[i as int].1@));
            assert(snap@.file_meta.contains_key(rows[i as int].0));
        }
        let code = match seen_state(snap, fid) {
            Ok(v) => v,
            Err(e) => {
                return Err(StoreError::Backend(e));
            },
        };
        let live: bool = match code {
            Some(c) => c == LIVE,
            None => false,
        };
        if !live {
            i = i + 1;
            continue ;
        }
        let meta = match FileMeta::decode(metas[i].1.as_slice()) {
            Ok(m) => m,
            Err(cause) => {
                proof {
                    assert(row_undecodable(snap@, rows[i as int]));
                    assert(meta_fails_at(snap@, fid));
                }
                return Err(StoreError::Corrupt { file_id: fid, cause });
            },
        };
        i = i + 1;
        let prefix: [u8; 20] = match meta.prefix_fp {
            Some(p) => p,
            None => {
                continue ;
            },
        };
        let path: String = match path_in(snap, fid) {
            Ok(Some(p)) => p,
            Ok(None) => {
                continue ;
            },
            Err(e) => {
                return Err(e);
            },
        };
        let ghost before = out@;
        out.push(Candidate { prefix, entry: Entry { path, size: meta.size, hash256: meta.hash256 } });
        assert(views_of(out@) =~= views_of(before).push(out@.last()@));
    }
    assert(rows.take(n as int) =~= rows);
    Ok(out)
}

/// Cuts a list of candidates into its longest runs of neighbours with the
/// same prefix fingerprint, or, where `by_hash` is set, the same content hash.
pub fn split_runs(v: Vec<Candidate>, by_hash: bool) -> (r: Vec<Vec<Candidate>>)
    ensures
        bucket_views(r@) == runs(views_of(v@), alike(by_hash)),
        forall|k: int| 0 <= k < r@.len() ==> (#[trigger] r@[k])@.len() > 0,
{
    let ghost all = views_of(v@);
    let ghost same = alike(by_hash);
    let mut left = reversed(v);
    let mut out: Vec<Vec<Candidate>> = Vec::new();
    let ghost mut done: int = 0;
    assert(all.take(0) =~= Seq::<CandRow>::empty());
    assert(bucket_views(out@) =~= runs(all.take(0), same));
    while left.len() > 0
        invariant
            same == alike(by_hash),
            all == views_of(v@),
            0 <= done <= all.len(),
            left@.len() == all.len() - done,
            forall|k: int|
                0 <= k < left@.len() ==> (#[trigger] left@[k])@ == all[all.len() - 1 - k],
            bucket_views(out@) == runs(all.take(done), same),
            forall|k: int| 0 <= k < out@.len() ==> (#[trigger] out@[k])@.len() > 0,
        decreases left@.len(),
    {
        let x = left.pop().unwrap();
        assert(x@ == all[done]);
        assert(all.take(done + 1).drop_last() =~= all.take(done));
        assert(all.take(done + 1).last() == all[done]);
        let ghost before = out@;
        let joins: bool = if out.len() > 0 {
            let last = &out[out.len() - 1];
            let prev = &last[last.len() - 1];
            assert(bucket_views(before).last() == views_of(last@));
            assert(views_of(last@).last() == prev@);
            if by_hash {
                same_bytes(prev.entry.hash256.as_slice(), x.entry.hash256.as_slice())
            } else {
                same_bytes(prev.prefix.as_slice(), x.prefix.as_slice())
            }
        } else {
            false
        };
        if joins {
            let mut last = out.pop().unwrap();
            let ghost last_before = last@;
            last.push(x);
            assert(views_of(last@) =~= views_of(last_before).push(x@));
            out.push(last);
            assert(bucket_views(out@) =~= bucket_views(before).drop_last().push(
                bucket_views(before).last().push(x@),
            ));
        } else {
            let mut fresh: Vec<Candidate> = Vec::new();
            fresh.push(x);
            assert(views_of(fresh@) =~= seq![x@]);
            out.push(fresh);
            assert(bucket_views(out@) =~= bucket_views(before).push(seq![x@]));
        }
        proof {
            done = done + 1;
        }
    }
    assert(all.take(done) =~= all);
    out
}

/// The files of a bucket, sorted by hash, that share their content hash
/// with no other file of the bucket.
pub fn singles_of(bucket: Vec<Candidate>) -> (r: Vec<Entry>)
    ensures
        views_of(r@) == singles(views_of(bucket@)),
{
    let by_hash = split_runs(bucket, true);
    let ghost all = bucket_views(by_hash@);
    let ghost pick = lone_entry();
    let mut left = reversed(by_hash);
    let mut out: Vec<Entry> = Vec::new();
    let ghost mut done: int = 0;
    assert(views_of(out@) =~= all.take(0).filter_map(pick));
    while left.len() > 0
        invariant
            pick == lone_entry(),
            0 <= done <= all.len(),
            left@.len() == all.len() - done,
            forall|k: int|
                0 <= k < left@.len() ==> views_of((#[trigger] left@[k])@) == all[all.len() - 1 - k],
            views_of(out@) == all.take(done).filter_map(pick),
        decreases left@.len(),
    {
        let mut run = left.pop().unwrap();
        assert(views_of(run@) == all[done]);
        proof {
            all.lemma_filter_map_take_succ(pick, done);
        }
        if run.len() == 1 {
            let c = run.pop().unwrap();
            assert(all[done][0] == c@);
            let ghost before = out@;
            out.push(c.entry);
            assert(views_of(out@) =~= views_of(before).push(c.entry@));
        }
        proof {
            done = done + 1;
        }
    }
    assert(all.take(done) =~= all);
    out
}

/// The potential-duplicate groups among a list of candidates.
pub fn group_candidates(cands: Vec<Candidate>) -> (r: Vec<PotentialGroup>)
    ensures
        views_of(r@) == groups_among(views_of(cands@)),
        is_sorted(views_of(r@)),
{
    let ordered = sort(cands);
    let buckets = split_runs(ordered, false);
    let ghost all = bucket_views(buckets@);
    let ghost make = potential_row();
    let mut left = reversed(buckets);
    let mut out: Vec<PotentialGroup> = Vec::new();
    let ghost mut done: int = 0;
    assert(views_of(out@) =~= all.take(0).filter_map(make));
    while left.len() > 0
        invariant
            make == potential_row(),
            0 <= done <= all.len(),
            left@.len() == all.len() - done,
            forall|k: int|
                0 <= k < left@.len() ==> views_of((#[trigger] left@[k])@) == all[all.len() - 1 - k],
            forall|k: int| 0 <= k < left@.len() ==> (#[trigger] left@[k])@.len() > 0,
            views_of(out@) == all.take(done).filter_map(make),
        decreases left@.len(),
    {
        let bucket = left.pop().unwrap();
        assert(views_of(bucket@) == all[done]);
        proof {
            all.lemma_filter_map_take_succ(make, done);
        }
        let key: [u8; 20] = bucket[0].prefix;
        assert(all[done][0].prefix == key@);
        let lone = singles_of(bucket);
        if lone.len() >= 2 {
            let entries = sort(lone);
            let ghost before = out@;
            out.push(PotentialGroup { key, entries });
            assert(views_of(out@) =~= views_of(before).push(out@.last()@));
        }
        proof {
            done = done + 1;
        }
    }
    assert(all.take(done) =~= all);
    proof {
        lemma_sorted(views_of(out@));
    }
    sort(out)
}

/// Whether `r` is what loading the potential-duplicate groups gives where
/// the tables hold `s`: the groups, in order, where the encoding of every
/// live observation decodes; an error that names the first live
/// observation whose encoding does not; or an error of the engine.
pub open spec fn potential_outcome(s: StoreState, r: Result<Vec<PotentialGroup>, StoreError>) -> bool {
    match r {
        Ok(groups) => {
            &&& listed_by_id(s.file_meta)
            &&& views_of(groups@) == potential_groups(s)
            &&& is_sorted(views_of(groups@))
            &&& meta_sound(s)
        },
        Err(StoreError::Corrupt { file_id, cause }) => {
            &&& listed_by_id(s.file_meta)
            &&& meta_fails_at(s, file_id)
            &&& decode_failure(s.file_meta[file_id]) == Some(cause)
        },
        Err(StoreError::Backend(_)) => true,
        Err(StoreError::IdsExhausted) => false,
    }
}

/// The potential-duplicate groups of a snapshot.
pub fn load_groups_in(snap: &Snapshot) -> (r: Result<Vec<PotentialGroup>, StoreError>)
    ensures
        potential_outcome(snap@, r),
{
    match candidates_in(snap) {
        Ok(cands) => Ok(group_candidates(cands)),
        Err(e) => Err(e),
    }
}

/// The potential-duplicate groups, as committed so far: what
/// `potential_outcome` says of the tables of a snapshot, unless the engine fails.
pub fn load_groups(db: &DbHandle) -> (r: Result<Vec<PotentialGroup>, StoreError>)
    ensures
        r matches Err(StoreError::Backend(_)) || exists|s: StoreState|
            #[trigger] potential_outcome(s, r),
        r matches Ok(groups) ==> is_sorted(views_of(groups@)),
        r matches Err(e) ==> !(e is IdsExhausted),
{
    let snap = match db.snapshot() {
        Ok(s) => s,
        Err(e) => {
            return Err(e);
        },
    };
    let r = load_groups_in(&snap);
    assert(potential_outcome(snap@, r));
    r
}

/// Whether the size of a file lies within the bounds.
pub open spec fn sized_within(min: Option<u64>, max: Option<u64>) -> spec_fn(EntryRow) -> bool {
    |e: EntryRow| in_range(e.size, min, max)
}

/// Whether the filter lets the path of one of the files through.
pub open spec fn any_file_let_through(prefixes: Seq<Seq<u8>>, entries: Seq<EntryRow>) -> bool {
    exists|i: int|
        0 <= i < entries.len() && lets_through(prefixes, str_bytes((#[trigger] entries[i]).path))
}

/// What narrowing leaves of a group: its files within the size bounds, if
/// they are at least two and the filter lets one of them through.
pub open spec fn narrowed(prefixes: Seq<Seq<u8>>, min: Option<u64>, max: Option<u64>) -> spec_fn(
    PotentialRow,
) -> Option<PotentialRow> {
    |g: PotentialRow|
        {
            let entries = g.entries.filter(sized_within(min, max));
            if entries.len() >= 2 && any_file_let_through(prefixes, entries) {
                Some(PotentialRow { key: g.key, entries })
            } else {
                None
            }
        }
}

/// The files whose size lies within the bounds, in their order.
pub fn keep_sizes(entries: Vec<Entry>, min_size: Option<u64>, max_size: Option<u64>) -> (r: Vec<
    Entry,
>)
    ensures
        views_of(r@) == views_of(entries@).filter(sized_within(min_size, max_size)),
{
    let ghost all = views_of(entries@);
    let ghost keep = sized_within(min_size, max_size);
    let mut left = reversed(entries);
    let mut out: Vec<Entry> = Vec::new();
    let ghost mut done: int = 0;
    proof {
        reveal(Seq::filter);
    }
    assert(views_of(out@) =~= all.take(0).filter(keep));
    while left.len() > 0
        invariant
            keep == sized_within(min_size, max_size),
            0 <= done <= all.len(),
            left@.len() == all.len() - done,
            forall|k: int|
                0 <= k < left@.len() ==> (#[trigger] left@[k])@ == all[all.len() - 1 - k],
            views_of(out@) == all.take(done).filter(keep),
        decreases left@.len(),
    {
        let e = left.pop().unwrap();
        proof {
            assert(e@ == all[done]);
            assert(all.take(done + 1) =~= all.take(done).push(all[done]));
            all.take(done).lemma_filter_push(all[done], keep);
        }
        if size_in_range(e.size, min_size, max_size) {
            let ghost before = out@;
            out.push(e);
            assert(views_of(out@) =~= views_of(before).push(e@));
        }
        proof {
            done = done + 1;
        }
    }
    assert(all.take(done) =~= all);
    out
}

/// Whether the filter lets the path of one of the files through.
pub fn any_file_matches(filter: &PathFilter, entries: &Vec<Entry>) -> (r: bool)
    ensures
        r == any_file_let_through(filter@, views_of(entries@)),
{
    let n: usize = entries.len();
    let mut i: usize = 0;
    while i < n
        invariant
            n == entries@.len(),
            i <= n,
            forall|k: int|
                0 <= k < i ==> !lets_through(
                    filter@,
                    str_bytes((#[trigger] views_of(entries@)[k]).path),
                ),
        decreases n - i,
    {
        assert(views_of(entries@)[i as int].path == entries@[i as int].path@);
        if filter.matches(entries[i].path.as_str()) {
            return true;
        }
        i = i + 1;
    }
    false
}

/// Narrows groups to the files within the size bounds, and keeps the
/// groups that then still have two files and a file under the filter.
pub fn filter_groups(
    groups: Vec<PotentialGroup>,
    filter: &PathFilter,
    min_size: Option<u64>,
    max_size: Option<u64>,
) -> (r: Vec<PotentialGroup>)
    ensures
        views_of(r@) == views_of(groups@).filter_map(narrowed(filter@, min_size, max_size)),
{
    let ghost all = views_of(groups@);
    let ghost narrow = narrowed(filter@, min_size, max_size);
    let mut left = reversed(groups);
    let mut out: Vec<PotentialGroup> = Vec::new();
    let ghost mut done: int = 0;
    assert(views_of(out@) =~= all.take(0).filter_map(narrow));
    while left.len() > 0
        invariant
            narrow == narrowed(filter@, min_size, max_size),
            0 <= done <= all.len(),
            left@.len() == all.len() - done,
            forall|k: int|
                0 <= k < left@.len() ==> (#[trigger] left@[k])@ == all[all.len() - 1 - k],
            views_of(out@) == all.take(done).filter_map(narrow),
        decreases left@.len(),
    {
        let g = left.pop().unwrap();
        proof {
            assert(g@ == all[done]);
            all.lemma_filter_map_take_succ(narrow, done);
        }
        let key = g.key;
        let entries = keep_sizes(g.entries, min_size, max_size);
        if entries.len() >= 2 && any_file_matches(filter, &entries) {
            let ghost before = out@;
            out.push(PotentialGroup { key, entries });
            assert(views_of(out@) =~= views_of(before).push(out@.last()@));
        }
        proof {
            done = done + 1;
        }
    }
    assert(all.take(done) =~= all);
    out
}

} // verus!
