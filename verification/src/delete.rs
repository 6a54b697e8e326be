//! The deletion planner: which copies of a duplicate group go, and which one stays.

use crate::codec::unpacked;
use crate::dupe_groups::{
    group_row, is_candidate, lemma_copies_are_listed, lemma_group_row_is_group,
    DupeEntry, DupeGroup, DupeRow, lemma_copies_differ,
};
use crate::invariants::{consistent_for_reads, index_agrees, lemma_marked_missing};
use crate::kv::{lists_by_bytes, lookup, StoreState};
use crate::model::{is_live, marked_missing, LIVE};
use crate::lex::{
    lemma_lex_le_total, lemma_lex_le_transitive, lemma_lex_lt_trichotomy, lex_le, lex_lt,
    rank_strs, str_bytes, Rank,
};
use crate::path_filter::{lets_through, PathFilter};
use crate::sort::views_of;
use vstd::prelude::*;

verus! {

/// Which copy of a content to keep when all of its copies are selected.
#[derive(Debug, Copy, Clone, Eq, PartialEq)]
pub enum Preserve {
    Oldest,
    Newest,
    ShortestPath,
    LongestPath,
    AlphaFirst,
    AlphaLast,
}

/// What to do with one duplicate group, as plain values.
pub struct PlanRow {
    pub keeper: Option<DupeRow>,
    pub to_delete: Seq<DupeRow>,
}

/// What to do with one duplicate group: the copies to delete, and the copy
/// that was chosen to stay where every copy was selected.
#[derive(Debug, Clone)]
pub struct GroupPlan {
    pub keeper: Option<DupeEntry>,
    pub to_delete: Vec<DupeEntry>,
}

impl View for GroupPlan {
    type V = PlanRow;

    open spec fn view(&self) -> PlanRow {
        PlanRow {
            keeper: match self.keeper {
                Some(k) => Some(k@),
                None => None,
            },
            to_delete: views_of(self.to_delete@),
        }
    }
}

/// A plan was refused: it would not have left exactly one copy of a group
/// whose copies were all selected.
#[derive(Debug, Copy, Clone, Eq, PartialEq)]
pub struct PlanRejected {
    pub group_len: usize,
    pub delete_len: usize,
}

/// Whether the modification time of a copy is not known.
pub open spec fn mtime_unknown(r: DupeRow) -> bool {
    r.mtime == 0
}

/// Whether `a` comes before `b`, or is `b`, in path order.
pub open spec fn path_le(a: DupeRow, b: DupeRow) -> bool {
    lex_le(str_bytes(a.path), str_bytes(b.path))
}

/// The length of a copy's path in bytes.
pub open spec fn path_len(r: DupeRow) -> nat {
    str_bytes(r.path).len()
}

/// Whether the policy prefers copy `a` to copy `b`, or holds them equal.
/// Every policy falls back on path order.
pub open spec fn prefers(policy: Preserve, a: DupeRow, b: DupeRow) -> bool {
    match policy {
        Preserve::Oldest => (!mtime_unknown(a) && mtime_unknown(b)) || (mtime_unknown(a)
            == mtime_unknown(b) && (a.mtime < b.mtime || (a.mtime == b.mtime && path_le(a, b)))),
        Preserve::Newest => (!mtime_unknown(a) && mtime_unknown(b)) || (mtime_unknown(a)
            == mtime_unknown(b) && (a.mtime > b.mtime || (a.mtime == b.mtime && path_le(a, b)))),
        Preserve::ShortestPath => path_len(a) < path_len(b) || (path_len(a) == path_len(b)
            && path_le(a, b)),
        Preserve::LongestPath => path_len(a) > path_len(b) || (path_len(a) == path_len(b)
            && path_le(a, b)),
        Preserve::AlphaFirst => path_le(a, b),
        Preserve::AlphaLast => path_le(b, a),
    }
}

/// Of any two copies a policy prefers one to the other, or holds them equal.
pub proof fn lemma_prefers_total(policy: Preserve, a: DupeRow, b: DupeRow)
    ensures
        prefers(policy, a, b) || prefers(policy, b, a),
{
    lemma_lex_le_total(str_bytes(a.path), str_bytes(b.path));
}

/// What a policy prefers carries over: if it prefers `a` to `b` and `b` to `c`, then `a` to `c`.
pub proof fn lemma_prefers_transitive(policy: Preserve, a: DupeRow, b: DupeRow, c: DupeRow)
    requires
        prefers(policy, a, b),
        prefers(policy, b, c),
    ensures
        prefers(policy, a, c),
{
    let (x, y, z) = (str_bytes(a.path), str_bytes(b.path), str_bytes(c.path));
    if lex_le(x, y) && lex_le(y, z) {
        lemma_lex_le_transitive(x, y, z);
    }
    if lex_le(z, y) && lex_le(y, x) {
        lemma_lex_le_transitive(z, y, x);
    }
}

/// The position of the copy to keep: the first one that the policy prefers to all others.
pub open spec fn keeper_at(rows: Seq<DupeRow>, policy: Preserve) -> int
    decreases rows.len(),
{
    if rows.len() <= 1 {
        0
    } else {
        let k = keeper_at(rows.drop_last(), policy);
        if prefers(policy, rows[k], rows.last()) {
            k
        } else {
            rows.len() - 1
        }
    }
}

/// The copy to keep is one of the group, and the policy prefers it to every copy.
pub proof fn lemma_keeper_preferred(rows: Seq<DupeRow>, policy: Preserve)
    requires
        rows.len() > 0,
    ensures
        0 <= keeper_at(rows, policy) < rows.len(),
        forall|j: int|
            0 <= j < rows.len() ==> prefers(policy, rows[keeper_at(rows, policy)], #[trigger] rows[j]),
    decreases rows.len(),
{
    if rows.len() == 1 {
        lemma_prefers_total(policy, rows[0], rows[0]);
    } else {
        let rest = rows.drop_last();
        lemma_keeper_preferred(rest, policy);
        let k = keeper_at(rest, policy);
        let last = rows.last();
        lemma_prefers_total(policy, rows[k], last);
        lemma_prefers_total(policy, last, last);
        assert forall|j: int| 0 <= j < rows.len() implies prefers(
            policy,
            rows[keeper_at(rows, policy)],
            #[trigger] rows[j],
        ) by {
            if j < rest.len() {
                assert(rows[j] == rest[j]);
                assert(prefers(policy, rest[k], rest[j]));
                if !prefers(policy, rows[k], last) {
                    lemma_prefers_transitive(policy, last, rest[k], rest[j]);
                }
            }
        }
    }
}

/// Whether the filter selects the copy.
pub open spec fn selects(prefixes: Seq<Seq<u8>>) -> spec_fn(DupeRow) -> bool {
    |r: DupeRow| lets_through(prefixes, str_bytes(r.path))
}

/// Whether the copy is another observation than the one with this identifier.
pub open spec fn other_than(file_id: u64) -> spec_fn(DupeRow) -> bool {
    |r: DupeRow| r.file_id != file_id
}

/// Whether the filter selects every copy of a group that has copies.
pub open spec fn all_selected(rows: Seq<DupeRow>, prefixes: Seq<Seq<u8>>) -> bool {
    rows.len() > 0 && rows.filter(selects(prefixes)).len() == rows.len()
}

/// The plan for a group: nothing where the filter selects no copy; where
/// it selects every copy, all but the one that the policy keeps; else
/// the selected copies, with no copy named as kept.
pub open spec fn plan_of(rows: Seq<DupeRow>, prefixes: Seq<Seq<u8>>, policy: Preserve) -> PlanRow {
    let selected = rows.filter(selects(prefixes));
    if selected.len() == 0 {
        PlanRow { keeper: None, to_delete: Seq::empty() }
    } else if selected.len() == rows.len() {
        let keeper = rows[keeper_at(rows, policy)];
        PlanRow { keeper: Some(keeper), to_delete: rows.filter(other_than(keeper.file_id)) }
    } else {
        PlanRow { keeper: None, to_delete: selected }
    }
}

/// Whether the plan for a group must be refused: every copy is selected,
/// and the plan would not delete all copies but exactly one.
pub open spec fn must_reject(rows: Seq<DupeRow>, prefixes: Seq<Seq<u8>>, policy: Preserve) -> bool {
    all_selected(rows, prefixes) && plan_of(rows, prefixes, policy).to_delete.len() + 1
        != rows.len()
}

/// Whether no two copies of the group are the same observation at different paths.
pub open spec fn one_path_per_file(rows: Seq<DupeRow>) -> bool {
    forall|i: int, j: int|
        0 <= i < rows.len() && 0 <= j < rows.len() && (#[trigger] rows[i]).file_id == (
        #[trigger] rows[j]).file_id ==> rows[i].path == rows[j].path
}

/// The plan for a group leaves a copy of the group: one whose observation
/// is not among those to delete.
pub proof fn lemma_plan_keeps_one(rows: Seq<DupeRow>, prefixes: Seq<Seq<u8>>, policy: Preserve)
    requires
        rows.len() > 0,
        one_path_per_file(rows),
    ensures
        exists|i: int|
            0 <= i < rows.len() && forall|j: int|
                0 <= j < plan_of(rows, prefixes, policy).to_delete.len() ==> (
                #[trigger] plan_of(rows, prefixes, policy).to_delete[j]).file_id != (
                #[trigger] rows[i]).file_id,
{
    let plan = plan_of(rows, prefixes, policy);
    let chosen = selects(prefixes);
    let selected = rows.filter(chosen);
    rows.lemma_filter_len(chosen);
    if selected.len() == 0 {
        // Nothing is deleted, so every copy is left; the first one is named.
        assert(rows[0] == rows[0]);
    } else if selected.len() == rows.len() {
        lemma_keeper_preferred(rows, policy);
        let k = keeper_at(rows, policy);
        let rest = other_than(rows[k].file_id);
        assert forall|j: int| 0 <= j < plan.to_delete.len() implies (
        #[trigger] plan.to_delete[j]).file_id != rows[k].file_id by {
            rows.lemma_filter_pred(rest, j);
        }
    } else {
        if forall|i: int| 0 <= i < rows.len() ==> chosen(#[trigger] rows[i]) {
            lemma_all_pass(rows, chosen);
        }
        let i = choose|i: int| 0 <= i < rows.len() && !chosen(#[trigger] rows[i]);
        assert forall|j: int| 0 <= j < plan.to_delete.len() implies (
        #[trigger] plan.to_delete[j]).file_id != rows[i].file_id by {
            let d = plan.to_delete[j];
            rows.lemma_filter_pred(chosen, j);
            assert(selected.contains(d));
            rows.lemma_filter_contains_rev(chosen, d);
            let k = choose|k: int| 0 <= k < rows.len() && rows[k] == d;
            if d.file_id == rows[i].file_id {
                assert(rows[k].path == rows[i].path);
            }
        }
    }
}

/// The file identifiers of the copies that a plan deletes, in plan order.
pub open spec fn ids_of(rows: Seq<DupeRow>) -> Seq<u64> {
    rows.map_values(|r: DupeRow| r.file_id)
}

/// Whatever the policy, the filter and the state of the database: once
/// the copies that the plan for a group deletes are marked missing, a live
/// observation of the group's content is left.
pub proof fn lemma_delete_keeps_a_live_copy(
    s: StoreState,
    prefixes: Seq<Seq<u8>>,
    policy: Preserve,
    e: (Seq<u8>, Seq<u8>),
)
    requires
        group_row(s, prefixes)(e) is Some,
    ensures
        ({
            let group = group_row(s, prefixes)(e)->Some_0;
            let plan = plan_of(group.entries, prefixes, policy);
            let after = marked_missing(s.file_state, ids_of(plan.to_delete));
            exists|f: u64|
                #[trigger] unpacked(e.1).contains(f) && is_live(s, f) && lookup(after, f) == Some(
                    LIVE,
                )
        }),
{
    let group = group_row(s, prefixes)(e)->Some_0;
    let rows = group.entries;
    let plan = plan_of(rows, prefixes, policy);
    lemma_group_row_is_group(s, prefixes, e);
    assert(one_path_per_file(rows)) by {
        assert forall|i: int, j: int|
            0 <= i < rows.len() && 0 <= j < rows.len() && (#[trigger] rows[i]).file_id == (
            #[trigger] rows[j]).file_id implies rows[i].path == rows[j].path by {
            lemma_copies_are_listed(s, prefixes, e, i);
            lemma_copies_are_listed(s, prefixes, e, j);
        }
    }
    lemma_plan_keeps_one(rows, prefixes, policy);
    let i = choose|i: int|
        0 <= i < rows.len() && forall|j: int|
            0 <= j < plan.to_delete.len() ==> (#[trigger] plan.to_delete[j]).file_id != (
            #[trigger] rows[i]).file_id;
    let f = rows[i].file_id;
    lemma_copies_are_listed(s, prefixes, e, i);
    let gone = ids_of(plan.to_delete);
    lemma_marked_missing(s.file_state, gone, f);
    if gone.contains(f) {
        let j = choose|j: int| 0 <= j < gone.len() && gone[j] == f;
        assert(plan.to_delete[j].file_id == f);
    }
    assert(unpacked(e.1).contains(f) && is_live(s, f));
}

/// The file identifiers that the plan for a row of the hash index deletes;
/// none where the row gives no group.
pub open spec fn doomed_of(s: StoreState, prefixes: Seq<Seq<u8>>, policy: Preserve) -> spec_fn(
    (Seq<u8>, Seq<u8>),
) -> Seq<u64> {
    |e: (Seq<u8>, Seq<u8>)|
        match group_row(s, prefixes)(e) {
            Some(group) => ids_of(plan_of(group.entries, prefixes, policy).to_delete),
            None => Seq::empty(),
        }
}

/// The file identifiers that the plans for all the rows delete, row by row.
pub open spec fn all_doomed(
    s: StoreState,
    prefixes: Seq<Seq<u8>>,
    policy: Preserve,
    rows: Seq<(Seq<u8>, Seq<u8>)>,
) -> Seq<u64>
    decreases rows.len(),
{
    if rows.len() == 0 {
        Seq::empty()
    } else {
        all_doomed(s, prefixes, policy, rows.drop_last()) + doomed_of(s, prefixes, policy)(
            rows.last(),
        )
    }
}

/// What the plans for all the rows delete is deleted by the plan for one of them.
pub proof fn lemma_doomed_by_a_row(
    s: StoreState,
    prefixes: Seq<Seq<u8>>,
    policy: Preserve,
    rows: Seq<(Seq<u8>, Seq<u8>)>,
    f: u64,
) -> (j: int)
    requires
        all_doomed(s, prefixes, policy, rows).contains(f),
    ensures
        0 <= j < rows.len(),
        doomed_of(s, prefixes, policy)(rows[j]).contains(f),
    decreases rows.len(),
{
    let rest = rows.drop_last();
    let before = all_doomed(s, prefixes, policy, rest);
    let here = doomed_of(s, prefixes, policy)(rows.last());
    let k = choose|k: int| 0 <= k < (before + here).len() && (before + here)[k] == f;
    if k < before.len() {
        assert(before[k] == f);
        let j = lemma_doomed_by_a_row(s, prefixes, policy, rest, f);
        assert(rest[j] == rows[j]);
        j
    } else {
        assert(here[k - before.len()] == f);
        rows.len() - 1
    }
}

/// What the plan for a row of the hash index deletes is a live observation
/// listed in that row.
pub proof fn lemma_doomed_are_listed(
    s: StoreState,
    prefixes: Seq<Seq<u8>>,
    policy: Preserve,
    e: (Seq<u8>, Seq<u8>),
    f: u64,
)
    requires
        doomed_of(s, prefixes, policy)(e).contains(f),
    ensures
        group_row(s, prefixes)(e) is Some,
        unpacked(e.1).contains(f),
        is_candidate(s, f),
{
    let group = group_row(s, prefixes)(e)->Some_0;
    let rows = group.entries;
    let plan = plan_of(rows, prefixes, policy);
    let gone = ids_of(plan.to_delete);
    let k = choose|k: int| 0 <= k < gone.len() && gone[k] == f;
    let d = plan.to_delete[k];
    assert(plan.to_delete.contains(d));
    let selected = rows.filter(selects(prefixes));
    if selected.len() != 0 && selected.len() == rows.len() {
        let keeper = rows[keeper_at(rows, policy)];
        rows.lemma_filter_contains_rev(other_than(keeper.file_id), d);
    } else {
        rows.lemma_filter_contains_rev(selects(prefixes), d);
    }
    let i = choose|i: int| 0 <= i < rows.len() && rows[i] == d;
    lemma_copies_are_listed(s, prefixes, e, i);
}

/// Whatever the policy, the filter, and the database, if only it lists
/// each observation under the hash of its encoding: once the copies that
/// the plans for all groups delete are marked missing, every content that
/// had a live observation has one still.
pub proof fn lemma_delete_keeps_every_content(
    s: StoreState,
    prefixes: Seq<Seq<u8>>,
    policy: Preserve,
    rows: Seq<(Seq<u8>, Seq<u8>)>,
    j: int,
    live: u64,
)
    requires
        index_agrees(s),
        lists_by_bytes(rows, s.hash_index),
        0 <= j < rows.len(),
        unpacked(rows[j].1).contains(live),
        is_live(s, live),
    ensures
        exists|f: u64|
            #[trigger] unpacked(rows[j].1).contains(f) && is_live(s, f) && lookup(
                marked_missing(s.file_state, all_doomed(s, prefixes, policy, rows)),
                f,
            ) == Some(LIVE),
{
    let e = rows[j];
    let gone = all_doomed(s, prefixes, policy, rows);
    // The observation that stays: one that the plan for the row leaves, or,
    // where the row has no plan, the one that was live.
    let stays = if group_row(s, prefixes)(e) is Some {
        lemma_delete_keeps_a_live_copy(s, prefixes, policy, e);
        let here = ids_of(plan_of(group_row(s, prefixes)(e)->Some_0.entries, prefixes, policy).to_delete);
        let f = choose|f: u64|
            #[trigger] unpacked(e.1).contains(f) && is_live(s, f) && lookup(
                marked_missing(s.file_state, here),
                f,
            ) == Some(LIVE);
        lemma_marked_missing(s.file_state, here, f);
        assert(!doomed_of(s, prefixes, policy)(e).contains(f));
        f
    } else {
        assert(doomed_of(s, prefixes, policy)(e) =~= Seq::<u64>::empty());
        live
    };
    assert(!doomed_of(s, prefixes, policy)(e).contains(stays));
    if gone.contains(stays) {
        let k = lemma_doomed_by_a_row(s, prefixes, policy, rows, stays);
        lemma_doomed_are_listed(s, prefixes, policy, rows[k], stays);
        // The observation is listed in both rows, so both rows are of the hash of its encoding.
        let at = choose|at: int|
            0 <= at < unpacked(rows[j].1).len() && unpacked(rows[j].1)[at] == stays;
        let bt = choose|bt: int|
            0 <= bt < unpacked(rows[k].1).len() && unpacked(rows[k].1)[bt] == stays;
        assert(s.hash_index.contains_key(rows[j].0) && s.hash_index[rows[j].0] == rows[j].1);
        assert(s.hash_index.contains_key(rows[k].0) && s.hash_index[rows[k].0] == rows[k].1);
        assert(unpacked(s.hash_index[rows[j].0])[at] == stays);
        assert(unpacked(s.hash_index[rows[k].0])[bt] == stays);
        assert(rows[j].0 == rows[k].0);
        if j < k {
            assert(lex_lt(rows[j].0, rows[k].0));
        } else if k < j {
            assert(lex_lt(rows[k].0, rows[j].0));
        }
        lemma_lex_lt_trichotomy(rows[j].0, rows[k].0);
    }
    lemma_marked_missing(s.file_state, gone, stays);
}

/// Where one element fails a test and all others pass, all but one are kept.
pub proof fn lemma_all_but_one<A>(s: Seq<A>, p: spec_fn(A) -> bool, k: int)
    requires
        0 <= k < s.len(),
        !p(s[k]),
        forall|j: int| 0 <= j < s.len() && j != k ==> p(#[trigger] s[j]),
    ensures
        s.filter(p).len() == s.len() - 1,
    decreases s.len(),
{
    reveal(Seq::filter);
    let rest = s.drop_last();
    if k == s.len() - 1 {
        assert forall|j: int| 0 <= j < rest.len() implies p(#[trigger] rest[j]) by {
            assert(rest[j] == s[j]);
        }
        lemma_all_pass(rest, p);
    } else {
        assert(rest[k] == s[k]);
        assert forall|j: int| 0 <= j < rest.len() && j != k implies p(#[trigger] rest[j]) by {
            assert(rest[j] == s[j]);
        }
        lemma_all_but_one(rest, p, k);
        assert(p(s[s.len() - 1]));
    }
}

/// Where the tables are consistent for reads, no plan is refused: of a
/// group whose copies are all selected, the plan deletes all but the one
/// that it keeps.
pub proof fn lemma_consistent_plans_are_not_rejected(
    s: StoreState,
    prefixes: Seq<Seq<u8>>,
    policy: Preserve,
    e: (Seq<u8>, Seq<u8>),
)
    requires
        consistent_for_reads(s),
        s.hash_index.contains_key(e.0),
        s.hash_index[e.0] == e.1,
        group_row(s, prefixes)(e) is Some,
    ensures
        !must_reject(group_row(s, prefixes)(e)->Some_0.entries, prefixes, policy),
{
    let rows = group_row(s, prefixes)(e)->Some_0.entries;
    lemma_group_row_is_group(s, prefixes, e);
    if all_selected(rows, prefixes) {
        lemma_keeper_preferred(rows, policy);
        let k = keeper_at(rows, policy);
        let rest = other_than(rows[k].file_id);
        assert forall|j: int| 0 <= j < rows.len() && j != k implies rest(#[trigger] rows[j]) by {
            if j < k {
                lemma_copies_differ(s, prefixes, e, j, k);
            } else {
                lemma_copies_differ(s, prefixes, e, k, j);
            }
        }
        lemma_all_but_one(rows, rest, k);
    }
}

/// Where every element passes a test, the elements that pass are all of them.
pub proof fn lemma_all_pass<A>(s: Seq<A>, p: spec_fn(A) -> bool)
    requires
        forall|i: int| 0 <= i < s.len() ==> p(#[trigger] s[i]),
    ensures
        s.filter(p) == s,
    decreases s.len(),
{
    reveal(Seq::filter);
    if s.len() > 0 {
        let rest = s.drop_last();
        assert forall|i: int| 0 <= i < rest.len() implies p(#[trigger] rest[i]) by {
            assert(rest[i] == s[i]);
        }
        lemma_all_pass(rest, p);
        assert(rest.push(s.last()) =~= s);
    }
}

/// Whether the policy prefers copy `a` to copy `b`, or holds them equal.
pub fn is_preferred(policy: Preserve, a: &DupeEntry, b: &DupeEntry) -> (r: bool)
    ensures
        r == prefers(policy, a@, b@),
{
    proof {
        lemma_lex_lt_trichotomy(str_bytes(a.path@), str_bytes(b.path@));
        lemma_lex_lt_trichotomy(str_bytes(b.path@), str_bytes(a.path@));
    }
    let rank = rank_strs(a.path.as_str(), b.path.as_str());
    let path_first: bool = match rank {
        Rank::After => false,
        _ => true,
    };
    let path_last: bool = match rank {
        Rank::Before => false,
        _ => true,
    };
    let a_len: usize = a.path.as_str().as_bytes().len();
    let b_len: usize = b.path.as_str().as_bytes().len();
    let a_unknown: bool = a.mtime == 0;
    let b_unknown: bool = b.mtime == 0;
    match policy {
        Preserve::Oldest => (!a_unknown && b_unknown) || (a_unknown == b_unknown && (a.mtime
            < b.mtime || (a.mtime == b.mtime && path_first))),
        Preserve::Newest => (!a_unknown && b_unknown) || (a_unknown == b_unknown && (a.mtime
            > b.mtime || (a.mtime == b.mtime && path_first))),
        Preserve::ShortestPath => a_len < b_len || (a_len == b_len && path_first),
        Preserve::LongestPath => a_len > b_len || (a_len == b_len && path_first),
        Preserve::AlphaFirst => path_first,
        Preserve::AlphaLast => path_last,
    }
}

/// The copy to keep of a group whose copies are all selected.
pub fn choose_keeper(entries: &[DupeEntry], preserve: Preserve) -> (r: DupeEntry)
    requires
        entries@.len() > 0,
    ensures
        r == entries@[keeper_at(views_of(entries@), preserve)],
        0 <= keeper_at(views_of(entries@), preserve) < entries@.len(),
{
    let ghost rows = views_of(entries@);
    let n: usize = entries.len();
    let mut best: usize = 0;
    let mut i: usize = 1;
    assert(rows.take(1).len() == 1);
    while i < n
        invariant
            n == entries@.len(),
            1 <= i <= n,
            best < i,
            rows == views_of(entries@),
            best == keeper_at(rows.take(i as int), preserve),
        decreases n - i,
    {
        let ghost next = rows.take(i + 1);
        assert(next.drop_last() =~= rows.take(i as int));
        assert(next.last() == entries@[i as int]@);
        assert(next[best as int] == entries@[best as int]@);
        if !is_preferred(preserve, &entries[best], &entries[i]) {
            best = i;
        }
        i = i + 1;
    }
    assert(rows.take(n as int) =~= rows);
    entries[best].duplicate()
}

/// The copies that the filter selects, in group order.
pub fn selected_of(entries: &[DupeEntry], filter: &PathFilter) -> (r: Vec<DupeEntry>)
    ensures
        views_of(r@) == views_of(entries@).filter(selects(filter@)),
{
    let ghost rows = views_of(entries@);
    let ghost chosen = selects(filter@);
    let mut out: Vec<DupeEntry> = Vec::new();
    let n: usize = entries.len();
    let mut i: usize = 0;
    proof {
        reveal(Seq::filter);
    }
    assert(views_of(out@) =~= rows.take(0).filter(chosen));
    while i < n
        invariant
            n == entries@.len(),
            i <= n,
            rows == views_of(entries@),
            chosen == selects(filter@),
            views_of(out@) == rows.take(i as int).filter(chosen),
        decreases n - i,
    {
        proof {
            assert(rows.take(i + 1) =~= rows.take(i as int).push(rows[i as int]));
            rows.take(i as int).lemma_filter_push(rows[i as int], chosen);
        }
        if filter.matches(entries[i].path.as_str()) {
            let ghost before = out@;
            out.push(entries[i].duplicate());
            assert(views_of(out@) =~= views_of(before).push(entries@[i as int]@));
        }
        i = i + 1;
    }
    assert(rows.take(n as int) =~= rows);
    out
}

/// The copies that are another observation than the one with this identifier, in group order.
pub fn others_of(entries: &[DupeEntry], file_id: u64) -> (r: Vec<DupeEntry>)
    ensures
        views_of(r@) == views_of(entries@).filter(other_than(file_id)),
{
    let ghost rows = views_of(entries@);
    let ghost rest = other_than(file_id);
    let mut out: Vec<DupeEntry> = Vec::new();
    let n: usize = entries.len();
    let mut i: usize = 0;
    proof {
        reveal(Seq::filter);
    }
    assert(views_of(out@) =~= rows.take(0).filter(rest));
    while i < n
        invariant
            n == entries@.len(),
            i <= n,
            rows == views_of(entries@),
            rest == other_than(file_id),
            views_of(out@) == rows.take(i as int).filter(rest),
        decreases n - i,
    {
        proof {
            assert(rows.take(i + 1) =~= rows.take(i as int).push(rows[i as int]));
            rows.take(i as int).lemma_filter_push(rows[i as int], rest);
        }
        if entries[i].file_id != file_id {
            let ghost before = out@;
            out.push(entries[i].duplicate());
            assert(views_of(out@) =~= views_of(before).push(entries@[i as int]@));
        }
        i = i + 1;
    }
    assert(rows.take(n as int) =~= rows);
    out
}

/// Plans what to delete of one duplicate group. It never plans to delete
/// every copy: where the plan would not leave exactly one copy of a group
/// whose copies are all selected, it is refused.
pub fn plan_group(group: &DupeGroup, filter: &PathFilter, preserve: Preserve) -> (r: Result<
    GroupPlan,
    PlanRejected,
>)
    ensures
        match r {
            Ok(plan) => {
                &&& !must_reject(group@.entries, filter@, preserve)
                &&& plan@ == plan_of(group@.entries, filter@, preserve)
            },
            Err(e) => {
                &&& must_reject(group@.entries, filter@, preserve)
                &&& e.group_len == group@.entries.len()
                &&& e.delete_len == plan_of(group@.entries, filter@, preserve).to_delete.len()
            },
        },
{
    let ghost rows = group@.entries;
    let selected = selected_of(group.entries.as_slice(), filter);
    proof {
        rows.lemma_filter_len(selects(filter@));
    }
    if selected.len() == 0 {
        let plan = GroupPlan { keeper: None, to_delete: Vec::new() };
        assert(plan@.to_delete =~= Seq::<DupeRow>::empty());
        return Ok(plan);
    }
    if selected.len() == group.entries.len() {
        let keeper = choose_keeper(group.entries.as_slice(), preserve);
        let to_delete = others_of(group.entries.as_slice(), keeper.file_id);
        proof {
            rows.lemma_filter_len(other_than(keeper.file_id));
        }
        if to_delete.len() >= group.entries.len() || to_delete.len() + 1 != group.entries.len() {
            return Err(
                PlanRejected { group_len: group.entries.len(), delete_len: to_delete.len() },
            );
        }
        Ok(GroupPlan { keeper: Some(keeper), to_delete })
    } else {
        Ok(GroupPlan { keeper: None, to_delete: selected })
    }
}

/// The file identifiers to mark missing once the files of a plan are deleted.
pub fn deleted_file_ids(plan: &GroupPlan) -> (r: Vec<u64>)
    ensures
        r@ == ids_of(plan@.to_delete),
{
    let mut out: Vec<u64> = Vec::new();
    let n: usize = plan.to_delete.len();
    let mut i: usize = 0;
    while i < n
        invariant
            n == plan.to_delete@.len(),
            i <= n,
            out@.len() == i,
            forall|k: int| 0 <= k < i ==> out@[k] == (#[trigger] plan.to_delete@[k]).file_id,
        decreases n - i,
    {
        out.push(plan.to_delete[i].file_id);
        i = i + 1;
    }
    assert(out@ =~= ids_of(plan@.to_delete));
    out
}

} // verus!
