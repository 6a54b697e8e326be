//! Listings of tables in key order.

use crate::kv::{lists_by_bytes, lists_by_id};
use crate::lex::{lemma_lex_lt_trichotomy, lex_lt};
use vstd::prelude::*;

verus! {

/// The listing of a table keyed by integers.
pub open spec fn rows_by_id<V>(m: Map<u64, V>) -> Seq<(u64, V)> {
    choose|es: Seq<(u64, V)>| lists_by_id(es, m)
}

/// The listing of a table keyed by byte strings.
pub open spec fn rows_by_bytes<V>(m: Map<Seq<u8>, V>) -> Seq<(Seq<u8>, V)> {
    choose|es: Seq<(Seq<u8>, V)>| lists_by_bytes(es, m)
}

/// Whether a table keyed by integers has a listing, so that `rows_by_id`
/// lists it: every pair once, in ascending order of the keys.
pub open spec fn listed_by_id<V>(m: Map<u64, V>) -> bool {
    lists_by_id(rows_by_id(m), m)
}

/// Whether a table keyed by byte strings has a listing, so that
/// `rows_by_bytes` lists it.
pub open spec fn listed_by_bytes<V>(m: Map<Seq<u8>, V>) -> bool {
    lists_by_bytes(rows_by_bytes(m), m)
}

/// A table keyed by integers has one listing only.
pub proof fn lemma_one_listing_by_id<V>(a: Seq<(u64, V)>, b: Seq<(u64, V)>, m: Map<u64, V>)
    requires
        lists_by_id(a, m),
        lists_by_id(b, m),
    ensures
        a == b,
    decreases a.len(),
{
    if a.len() == 0 {
        if b.len() > 0 {
            assert(m.contains_key(b[0].0));
        }
        assert(a =~= b);
    } else {
        assert(m.contains_key(a[0].0));
        assert(b.len() > 0);
        let ka = a.last().0;
        let kb = b.last().0;
        assert(m.contains_key(ka));
        assert(m.contains_key(kb));
        let ja = choose|j: int| 0 <= j < b.len() && #[trigger] b[j].0 == ka;
        let jb = choose|j: int| 0 <= j < a.len() && #[trigger] a[j].0 == kb;
        assert(ka == kb);
        assert(a.last() == b.last());
        let m1 = m.remove(ka);
        let a1 = a.drop_last();
        let b1 = b.drop_last();
        assert(lists_by_id(a1, m1)) by {
            assert forall|k: u64| #[trigger] m1.contains_key(k) implies exists|i: int|
                0 <= i < a1.len() && #[trigger] a1[i].0 == k by {
                assert(m.contains_key(k));
                let i = choose|i: int| 0 <= i < a.len() && #[trigger] a[i].0 == k;
                assert(a1[i].0 == k);
            }
            assert forall|i: int| 0 <= i < a1.len() implies m1.contains_key(#[trigger] a1[i].0)
                && m1[a1[i].0] == a1[i].1 by {
                assert(a1[i] == a[i]);
                assert(a[i].0 < a[a.len() - 1].0);
            }
            assert forall|i: int, j: int| 0 <= i < j < a1.len() implies #[trigger] a1[i].0
                < #[trigger] a1[j].0 by {
                assert(a1[i] == a[i] && a1[j] == a[j]);
            }
        }
        assert(lists_by_id(b1, m1)) by {
            assert forall|k: u64| #[trigger] m1.contains_key(k) implies exists|i: int|
                0 <= i < b1.len() && #[trigger] b1[i].0 == k by {
                assert(m.contains_key(k));
                let i = choose|i: int| 0 <= i < b.len() && #[trigger] b[i].0 == k;
                assert(b1[i].0 == k);
            }
            assert forall|i: int| 0 <= i < b1.len() implies m1.contains_key(#[trigger] b1[i].0)
                && m1[b1[i].0] == b1[i].1 by {
                assert(b1[i] == b[i]);
                assert(b[i].0 < b[b.len() - 1].0);
            }
            assert forall|i: int, j: int| 0 <= i < j < b1.len() implies #[trigger] b1[i].0
                < #[trigger] b1[j].0 by {
                assert(b1[i] == b[i] && b1[j] == b[j]);
            }
        }
        lemma_one_listing_by_id(a1, b1, m1);
        assert(a =~= a1.push(a.last()));
        assert(b =~= b1.push(b.last()));
    }
}

/// A table keyed by byte strings has one listing only.
pub proof fn lemma_one_listing_by_bytes<V>(
    a: Seq<(Seq<u8>, V)>,
    b: Seq<(Seq<u8>, V)>,
    m: Map<Seq<u8>, V>,
)
    requires
        lists_by_bytes(a, m),
        lists_by_bytes(b, m),
    ensures
        a == b,
    decreases a.len(),
{
    if a.len() == 0 {
        if b.len() > 0 {
            assert(m.contains_key(b[0].0));
        }
        assert(a =~= b);
    } else {
        assert(m.contains_key(a[0].0));
        assert(b.len() > 0);
        let ka = a.last().0;
        let kb = b.last().0;
        assert(m.contains_key(ka));
        assert(m.contains_key(kb));
        let ja = choose|j: int| 0 <= j < b.len() && #[trigger] b[j].0 == ka;
        let jb = choose|j: int| 0 <= j < a.len() && #[trigger] a[j].0 == kb;
        lemma_lex_lt_trichotomy(ka, kb);
        if ja < b.len() - 1 {
            assert(lex_lt(b[ja].0, b[b.len() - 1].0));
        }
        if jb < a.len() - 1 {
            assert(lex_lt(a[jb].0, a[a.len() - 1].0));
        }
        assert(ka == kb);
        assert(a.last() == b.last());
        let m1 = m.remove(ka);
        let a1 = a.drop_last();
        let b1 = b.drop_last();
        assert(lists_by_bytes(a1, m1)) by {
            assert forall|k: Seq<u8>| #[trigger] m1.contains_key(k) implies exists|i: int|
                0 <= i < a1.len() && #[trigger] a1[i].0 == k by {
                assert(m.contains_key(k));
                let i = choose|i: int| 0 <= i < a.len() && #[trigger] a[i].0 == k;
                assert(a1[i].0 == k);
            }
            assert forall|i: int| 0 <= i < a1.len() implies m1.contains_key(#[trigger] a1[i].0)
                && m1[a1[i].0] == a1[i].1 by {
                assert(a1[i] == a[i]);
                assert(lex_lt(a[i].0, a[a.len() - 1].0));
                lemma_lex_lt_trichotomy(a[i].0, ka);
            }
            assert forall|i: int, j: int| 0 <= i < j < a1.len() implies lex_lt(
                #[trigger] a1[i].0,
                #[trigger] a1[j].0,
            ) by {
                assert(a1[i] == a[i] && a1[j] == a[j]);
            }
        }
        assert(lists_by_bytes(b1, m1)) by {
            assert forall|k: Seq<u8>| #[trigger] m1.contains_key(k) implies exists|i: int|
                0 <= i < b1.len() && #[trigger] b1[i].0 == k by {
                assert(m.contains_key(k));
                let i = choose|i: int| 0 <= i < b.len() && #[trigger] b[i].0 == k;
                assert(b1[i].0 == k);
            }
            assert forall|i: int| 0 <= i < b1.len() implies m1.contains_key(#[trigger] b1[i].0)
                && m1[b1[i].0] == b1[i].1 by {
                assert(b1[i] == b[i]);
                assert(lex_lt(b[i].0, b[b.len() - 1].0));
                lemma_lex_lt_trichotomy(b[i].0, kb);
            }
            assert forall|i: int, j: int| 0 <= i < j < b1.len() implies lex_lt(
                #[trigger] b1[i].0,
                #[trigger] b1[j].0,
            ) by {
                assert(b1[i] == b[i] && b1[j] == b[j]);
            }
        }
        lemma_one_listing_by_bytes(a1, b1, m1);
        assert(a =~= a1.push(a.last()));
        assert(b =~= b1.push(b.last()));
    }
}

/// Whatever lists a table keyed by integers is its listing.
pub proof fn lemma_rows_by_id<V>(es: Seq<(u64, V)>, m: Map<u64, V>)
    requires
        lists_by_id(es, m),
    ensures
        es == rows_by_id(m),
{
    lemma_one_listing_by_id(es, rows_by_id(m), m);
}

/// Whatever lists a table keyed by byte strings is its listing.
pub proof fn lemma_rows_by_bytes<V>(es: Seq<(Seq<u8>, V)>, m: Map<Seq<u8>, V>)
    requires
        lists_by_bytes(es, m),
    ensures
        es == rows_by_bytes(m),
{
    lemma_one_listing_by_bytes(es, rows_by_bytes(m), m);
}

} // verus!
