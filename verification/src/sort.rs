//! A stable merge sort.

use vstd::multiset::Multiset;
use vstd::prelude::*;
use vstd::seq_lib::{to_multiset_build, to_multiset_contains};

verus! {

/// A type with a total preorder by which its values are sorted.
pub trait Order: Sized {
    /// Whether `self` may stand before `other` in sorted order.
    spec fn le(&self, other: &Self) -> bool;

    /// Any two values are comparable.
    proof fn lemma_le_total(a: &Self, b: &Self)
        ensures
            a.le(b) || b.le(a),
    ;

    /// The order is transitive.
    proof fn lemma_le_transitive(a: &Self, b: &Self, c: &Self)
        requires
            a.le(b),
            b.le(c),
        ensures
            a.le(c),
    ;
}

/// A type whose values are sorted by the order of their views.
pub trait Ordered: View + Sized where Self::V: Order {
    /// Decides whether `self` may stand before `other`.
    fn at_most(&self, other: &Self) -> (r: bool)
        ensures
            r == self@.le(&other@),
    ;
}

/// The views of the elements, in order.
pub open spec fn views_of<T: View>(s: Seq<T>) -> Seq<T::V> {
    s.map_values(|x: T| x@)
}

/// Whether every element may stand before every later one.
pub open spec fn is_sorted<T: Order>(s: Seq<T>) -> bool {
    forall|i: int, j: int| #![trigger s[i], s[j]] 0 <= i < j < s.len() ==> s[i].le(&s[j])
}

/// The merge of two sequences: the larger of the two last elements goes
/// last, and among equals the one from `b`.
pub open spec fn merged<T: Order>(a: Seq<T>, b: Seq<T>) -> Seq<T>
    decreases a.len() + b.len(),
{
    if a.len() == 0 {
        b
    } else if b.len() == 0 {
        a
    } else if a.last().le(&b.last()) {
        merged(a, b.drop_last()).push(b.last())
    } else {
        merged(a.drop_last(), b).push(a.last())
    }
}

/// The stable sort of a sequence: both halves sorted, then merged.
pub open spec fn sorted<T: Order>(s: Seq<T>) -> Seq<T>
    decreases s.len(),
{
    if s.len() <= 1 {
        s
    } else {
        let mid = (s.len() / 2) as int;
        merged(sorted(s.subrange(0, mid)), sorted(s.subrange(mid, s.len() as int)))
    }
}

/// A merge holds exactly the elements of its two inputs, and is sorted when
/// they are.
pub proof fn lemma_merged<T: Order>(a: Seq<T>, b: Seq<T>)
    ensures
        merged(a, b).to_multiset() == a.to_multiset().add(b.to_multiset()),
        merged(a, b).len() == a.len() + b.len(),
        is_sorted(a) && is_sorted(b) ==> is_sorted(merged(a, b)),
    decreases a.len() + b.len(),
{
    broadcast use to_multiset_build, to_multiset_contains;

    if a.len() == 0 {
        assert(a.to_multiset() =~= Multiset::<T>::empty());
        assert(merged(a, b).to_multiset() =~= a.to_multiset().add(b.to_multiset()));
    } else if b.len() == 0 {
        assert(b.to_multiset() =~= Multiset::<T>::empty());
        assert(merged(a, b).to_multiset() =~= a.to_multiset().add(b.to_multiset()));
    } else {
        let (a1, b1, x) = if a.last().le(&b.last()) {
            (a, b.drop_last(), b.last())
        } else {
            (a.drop_last(), b, a.last())
        };
        lemma_merged(a1, b1);
        let m = merged(a1, b1);
        assert(merged(a, b) == m.push(x));
        assert(a =~= a.drop_last().push(a.last()));
        assert(b =~= b.drop_last().push(b.last()));
        assert(merged(a, b).to_multiset() =~= a.to_multiset().add(b.to_multiset()));
        if is_sorted(a) && is_sorted(b) {
            assert(is_sorted(a1)) by {
                assert forall|i: int, j: int|
                    #![trigger a1[i], a1[j]]
                    0 <= i < j < a1.len() implies a1[i].le(&a1[j]) by {
                    assert(a1[i] == a[i] && a1[j] == a[j]);
                }
            }
            assert(is_sorted(b1)) by {
                assert forall|i: int, j: int|
                    #![trigger b1[i], b1[j]]
                    0 <= i < j < b1.len() implies b1[i].le(&b1[j]) by {
                    assert(b1[i] == b[i] && b1[j] == b[j]);
                }
            }
            assert forall|i: int| 0 <= i < m.len() implies (#[trigger] m[i]).le(&x) by {
                let e = m[i];
                assert(m.contains(e));
                assert(m.to_multiset().count(e) > 0);
                assert(a1.to_multiset().count(e) > 0 || b1.to_multiset().count(e) > 0);
                T::lemma_le_total(&a.last(), &b.last());
                if a1.to_multiset().count(e) > 0 {
                    assert(a1.contains(e));
                    let k = choose|k: int| 0 <= k < a1.len() && a1[k] == e;
                    assert(a[k] == e);
                    if k < a.len() - 1 {
                        assert(a[k].le(&a[a.len() - 1]));
                    } else {
                        T::lemma_le_total(&e, &e);
                    }
                    assert(e.le(&a.last()));
                    if a.last().le(&b.last()) {
                        T::lemma_le_transitive(&e, &a.last(), &b.last());
                    }
                } else {
                    assert(b1.contains(e));
                    let k = choose|k: int| 0 <= k < b1.len() && b1[k] == e;
                    assert(b[k] == e);
                    if k < b.len() - 1 {
                        assert(b[k].le(&b[b.len() - 1]));
                    } else {
                        T::lemma_le_total(&e, &e);
                    }
                    assert(e.le(&b.last()));
                    if !a.last().le(&b.last()) {
                        T::lemma_le_transitive(&e, &b.last(), &a.last());
                    }
                }
            }
            let r = m.push(x);
            assert forall|i: int, j: int|
                #![trigger r[i], r[j]]
                0 <= i < j < r.len() implies r[i].le(&r[j]) by {
                if j < m.len() {
                    assert(r[i] == m[i] && r[j] == m[j]);
                } else {
                    assert(r[i] == m[i]);
                }
            }
        }
    }
}

/// The stable sort of a sequence is sorted and holds exactly its elements.
pub proof fn lemma_sorted<T: Order>(s: Seq<T>)
    ensures
        is_sorted(sorted(s)),
        sorted(s).to_multiset() == s.to_multiset(),
        sorted(s).len() == s.len(),
    decreases s.len(),
{
    if s.len() > 1 {
        let mid = (s.len() / 2) as int;
        let l = s.subrange(0, mid);
        let r = s.subrange(mid, s.len() as int);
        lemma_sorted(l);
        lemma_sorted(r);
        lemma_merged(sorted(l), sorted(r));
        assert(s =~= l + r);
        vstd::seq_lib::lemma_multiset_commutative(l, r);
    }
}

/// Every element of the stable sort is an element of the input, and the other way round.
pub proof fn lemma_sorted_same_elements<T: Order>(s: Seq<T>, e: T)
    ensures
        sorted(s).contains(e) <==> s.contains(e),
{
    lemma_sorted(s);
    to_multiset_contains(sorted(s), e);
    to_multiset_contains(s, e);
}

/// Two sequences that are in order one after the other merge to the one after the other.
pub proof fn lemma_merged_in_order<T: Order>(a: Seq<T>, b: Seq<T>)
    requires
        is_sorted(a + b),
    ensures
        merged(a, b) == a + b,
    decreases a.len() + b.len(),
{
    let c = a + b;
    if a.len() == 0 {
        assert(c =~= b);
    } else if b.len() == 0 {
        assert(c =~= a);
    } else {
        assert(c[a.len() - 1] == a.last());
        assert(c[c.len() - 1] == b.last());
        assert(a.last().le(&b.last()));
        let b1 = b.drop_last();
        let c1 = a + b1;
        assert(is_sorted(c1)) by {
            assert forall|i: int, j: int|
                #![trigger c1[i], c1[j]]
                0 <= i < j < c1.len() implies c1[i].le(&c1[j]) by {
                assert(c1[i] == c[i] && c1[j] == c[j]);
            }
        }
        lemma_merged_in_order(a, b1);
        assert(c1.push(b.last()) =~= c);
    }
}

/// The stable sort leaves a sequence that is in order as it is.
pub proof fn lemma_sorted_stays<T: Order>(s: Seq<T>)
    requires
        is_sorted(s),
    ensures
        sorted(s) == s,
    decreases s.len(),
{
    if s.len() > 1 {
        let mid = (s.len() / 2) as int;
        let l = s.subrange(0, mid);
        let r = s.subrange(mid, s.len() as int);
        assert(is_sorted(l)) by {
            assert forall|i: int, j: int|
                #![trigger l[i], l[j]]
                0 <= i < j < l.len() implies l[i].le(&l[j]) by {
                assert(l[i] == s[i] && l[j] == s[j]);
            }
        }
        assert(is_sorted(r)) by {
            assert forall|i: int, j: int|
                #![trigger r[i], r[j]]
                0 <= i < j < r.len() implies r[i].le(&r[j]) by {
                assert(r[i] == s[mid + i] && r[j] == s[mid + j]);
            }
        }
        lemma_sorted_stays(l);
        lemma_sorted_stays(r);
        assert(l + r =~= s);
        lemma_merged_in_order(l, r);
    }
}

/// Where no two elements of a sequence have the same key, no two elements
/// of its stable sort have.
pub proof fn lemma_sorted_keeps_keys_apart<T: Order, K>(
    s: Seq<T>,
    key: spec_fn(T) -> K,
    i: int,
    j: int,
)
    requires
        forall|a: int, b: int| 0 <= a < b < s.len() ==> key(#[trigger] s[a]) != key(#[trigger] s[b]),
        0 <= i < j < sorted(s).len(),
    ensures
        key(sorted(s)[i]) != key(sorted(s)[j]),
{
    let t = sorted(s);
    lemma_sorted(s);
    assert(s.no_duplicates()) by {
        assert forall|a: int, b: int| 0 <= a < s.len() && 0 <= b < s.len() && a != b implies s[a]
            != s[b] by {
            if a < b {
                assert(key(s[a]) != key(s[b]));
            } else {
                assert(key(s[b]) != key(s[a]));
            }
        }
    }
    s.lemma_multiset_has_no_duplicates();
    t.lemma_multiset_has_no_duplicates_conv();
    assert(t[i] != t[j]);
    assert(t.contains(t[i]) && t.contains(t[j]));
    lemma_sorted_same_elements(s, t[i]);
    lemma_sorted_same_elements(s, t[j]);
    let a = choose|a: int| 0 <= a < s.len() && s[a] == t[i];
    let b = choose|b: int| 0 <= b < s.len() && s[b] == t[j];
    if a < b {
        assert(key(s[a]) != key(s[b]));
    } else if b < a {
        assert(key(s[b]) != key(s[a]));
    }
}

/// Moves the elements of `from`, last first, to the end of `to`.
fn pour_reversed<T>(from: Vec<T>, to: &mut Vec<T>)
    ensures
        final(to)@ == old(to)@ + from@.reverse(),
{
    let mut from = from;
    let ghost start = from@;
    while from.len() > 0
        invariant
            to@ + from@.reverse() == old(to)@ + start.reverse(),
        decreases from@.len(),
    {
        let ghost before = from@;
        let ghost to_before = to@;
        let x = from.pop().unwrap();
        to.push(x);
        assert(to@ + from@.reverse() =~= to_before + before.reverse());
    }
    assert(from@.reverse() =~= Seq::<T>::empty());
    assert(to@ + from@.reverse() =~= to@);
}

/// The vector with its elements in reverse order.
pub fn reversed<T>(v: Vec<T>) -> (r: Vec<T>)
    ensures
        r@ == v@.reverse(),
{
    let mut r: Vec<T> = Vec::new();
    pour_reversed(v, &mut r);
    assert(r@ =~= v@.reverse());
    r
}

/// Merges two vectors as `merged` says of their views.
fn merge<T: Ordered>(a: Vec<T>, b: Vec<T>) -> (r: Vec<T>) where T::V: Order
    ensures
        views_of(r@) == merged(views_of(a@), views_of(b@)),
{
    let mut a = a;
    let mut b = b;
    let ghost a0 = views_of(a@);
    let ghost b0 = views_of(b@);
    // The result from its end: what is decided first comes out last.
    let mut tail: Vec<T> = Vec::new();
    assert(merged(views_of(a@), views_of(b@)) + views_of(tail@).reverse() =~= merged(a0, b0));
    while a.len() > 0 && b.len() > 0
        invariant
            merged(views_of(a@), views_of(b@)) + views_of(tail@).reverse() == merged(a0, b0),
        decreases a@.len() + b@.len(),
    {
        let ghost a1 = a@;
        let ghost b1 = b@;
        let ghost t1 = tail@;
        assert(views_of(a1).last() == a1.last()@);
        assert(views_of(b1).last() == b1.last()@);
        if a[a.len() - 1].at_most(&b[b.len() - 1]) {
            let x = b.pop().unwrap();
            tail.push(x);
            assert(views_of(b@) =~= views_of(b1).drop_last());
        } else {
            let x = a.pop().unwrap();
            tail.push(x);
            assert(views_of(a@) =~= views_of(a1).drop_last());
        }
        assert(views_of(tail@) =~= views_of(t1).push(tail@.last()@));
        assert(merged(views_of(a@), views_of(b@)) + views_of(tail@).reverse() =~= merged(
            views_of(a1),
            views_of(b1),
        ) + views_of(t1).reverse());
    }
    let mut out: Vec<T> = if a.len() > 0 { a } else { b };
    assert(views_of(out@) == merged(views_of(a@), views_of(b@)));
    let ghost o1 = out@;
    pour_reversed(tail, &mut out);
    assert(views_of(out@) =~= views_of(o1) + views_of(tail@).reverse());
    out
}

/// Sorts a vector by the order of the views. Elements that the order does
/// not tell apart keep their relative positions.
pub fn sort<T: Ordered>(v: Vec<T>) -> (r: Vec<T>) where T::V: Order
    ensures
        views_of(r@) == sorted(views_of(v@)),
        is_sorted(views_of(r@)),
        views_of(r@).to_multiset() == views_of(v@).to_multiset(),
        r@.len() == v@.len(),
    decreases v@.len(),
{
    proof {
        lemma_sorted(views_of(v@));
    }
    if v.len() <= 1 {
        return v;
    }
    let mid: usize = v.len() / 2;
    let mut left = v;
    let right = left.split_off(mid);
    assert(views_of(left@) =~= views_of(v@).subrange(0, mid as int));
    assert(views_of(right@) =~= views_of(v@).subrange(mid as int, v@.len() as int));
    let left = sort(left);
    let right = sort(right);
    merge(left, right)
}

} // verus!
