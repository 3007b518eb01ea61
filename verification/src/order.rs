//! Deterministic ordering and duplicate collapsing.
//!
//! Sorting is specified as a stable insertion sort over a spec-level
//! ordering relation: each element is inserted after every element already
//! ordered at or before it, so elements with equal keys keep their original
//! relative order and the result is a pure function of the input sequence.
//! Duplicate collapsing keeps the first occurrence of every equivalence
//! class.

use vstd::prelude::*;
use vstd::relations::{sorted_by, strongly_connected, transitive};
use vstd::seq_lib::group_to_multiset_ensures;
use vstd::seq_lib::lemma_multiset_commutative;
use vstd::multiset::{group_multiset_axioms, Multiset};

verus! {

/// `x` inserted into `s` after every element ordered at or before it.
pub open spec fn insert_sorted<T>(x: T, s: Seq<T>, leq: spec_fn(T, T) -> bool) -> Seq<T>
    decreases s.len(),
{
    if s.len() == 0 {
        seq![x]
    } else if leq(s[0], x) {
        seq![s[0]] + insert_sorted(x, s.drop_first(), leq)
    } else {
        seq![x] + s
    }
}

/// Stable insertion sort of `s` by `leq`.
pub open spec fn sort_spec<T>(s: Seq<T>, leq: spec_fn(T, T) -> bool) -> Seq<T>
    decreases s.len(),
{
    if s.len() == 0 {
        Seq::empty()
    } else {
        insert_sorted(s.last(), sort_spec(s.drop_last(), leq), leq)
    }
}

/// Inserting at the position found by a left-to-right scan — the first index
/// whose element is not ordered at or before `x` — is what `insert_sorted`
/// does.
pub proof fn lemma_insert_sorted_at<T>(x: T, s: Seq<T>, leq: spec_fn(T, T) -> bool, j: int)
    requires
        0 <= j <= s.len(),
        forall|k: int| 0 <= k < j ==> leq(#[trigger] s[k], x),
        j < s.len() ==> !leq(s[j], x),
    ensures
        insert_sorted(x, s, leq) == s.take(j) + seq![x] + s.skip(j),
    decreases j,
{
    if j == 0 {
        if s.len() == 0 {
            assert(insert_sorted(x, s, leq) =~= s.take(0) + seq![x] + s.skip(0));
        } else {
            assert(insert_sorted(x, s, leq) =~= s.take(0) + seq![x] + s.skip(0));
        }
    } else {
        assert(leq(s[0], x));
        lemma_insert_sorted_at(x, s.drop_first(), leq, j - 1);
        assert(seq![s[0]] + (s.drop_first().take(j - 1) + seq![x] + s.drop_first().skip(j - 1))
            =~= s.take(j) + seq![x] + s.skip(j));
    }
}

/// Collapsed duplicates: the first occurrence of each equivalence class of
/// `eqv` is kept, later ones are dropped.
pub open spec fn dedup_spec<T>(s: Seq<T>, eqv: spec_fn(T, T) -> bool) -> Seq<T>
    decreases s.len(),
{
    if s.len() == 0 {
        Seq::empty()
    } else {
        let d = dedup_spec(s.drop_last(), eqv);
        if exists|i: int| 0 <= i < d.len() && eqv(#[trigger] d[i], s.last()) {
            d
        } else {
            d.push(s.last())
        }
    }
}

/// No element of the collapsed sequence is equivalent to a later one.
pub open spec fn dup_free<T>(s: Seq<T>, eqv: spec_fn(T, T) -> bool) -> bool {
    forall|i: int, j: int| 0 <= i < j < s.len() ==> !eqv(#[trigger] s[i], #[trigger] s[j])
}

/// Collapsing duplicates leaves no duplicates.
pub proof fn lemma_dedup_dup_free<T>(s: Seq<T>, eqv: spec_fn(T, T) -> bool)
    ensures
        dup_free(dedup_spec(s, eqv), eqv),
    decreases s.len(),
{
    if s.len() > 0 {
        lemma_dedup_dup_free(s.drop_last(), eqv);
    }
}

/// Collapsing duplicates in a sequence that has none is a no-op.
pub proof fn lemma_dedup_noop<T>(s: Seq<T>, eqv: spec_fn(T, T) -> bool)
    requires
        dup_free(s, eqv),
    ensures
        dedup_spec(s, eqv) == s,
    decreases s.len(),
{
    if s.len() > 0 {
        assert(dup_free(s.drop_last(), eqv));
        lemma_dedup_noop(s.drop_last(), eqv);
        assert(forall|i: int|
            0 <= i < s.len() - 1 ==> !eqv(#[trigger] s.drop_last()[i], s.last()));
        assert(dedup_spec(s, eqv) =~= s);
    }
}

/// Every element of the collapsed sequence stands somewhere in the original.
pub proof fn lemma_dedup_subseq<T>(s: Seq<T>, eqv: spec_fn(T, T) -> bool)
    ensures
        forall|i: int|
            0 <= i < dedup_spec(s, eqv).len() ==> s.contains(#[trigger] dedup_spec(s, eqv)[i]),
    decreases s.len(),
{
    if s.len() > 0 {
        lemma_dedup_subseq(s.drop_last(), eqv);
        let d = dedup_spec(s, eqv);
        let dprev = dedup_spec(s.drop_last(), eqv);
        assert forall|i: int| 0 <= i < d.len() implies s.contains(d[i]) by {
            if i < dprev.len() {
                assert(s.drop_last().contains(dprev[i]));
                let j = choose|j: int|
                    0 <= j < s.drop_last().len() && s.drop_last()[j] == dprev[i];
                assert(s[j] == dprev[i]);
            } else {
                assert(d[i] == s.last());
                assert(s[s.len() - 1] == s.last());
            }
        }
    }
}


// ---------------------------------------------------------------------------
// The theory of stable sorting and duplicate collapsing.
// ---------------------------------------------------------------------------

/// Insertion adds exactly the inserted element to the sequence's contents.
pub proof fn lemma_insert_sorted_multiset<T>(x: T, s: Seq<T>, leq: spec_fn(T, T) -> bool)
    ensures
        insert_sorted(x, s, leq).to_multiset() == s.to_multiset().insert(x),
    decreases s.len(),
{
    broadcast use group_to_multiset_ensures;
    broadcast use group_multiset_axioms;

    if s.len() == 0 {
        assert(seq![x] =~= Seq::<T>::empty().push(x));
        assert(insert_sorted(x, s, leq).to_multiset() =~= s.to_multiset().insert(x));
    } else if leq(s[0], x) {
        lemma_insert_sorted_multiset(x, s.drop_first(), leq);
        lemma_multiset_commutative(seq![s[0]], insert_sorted(x, s.drop_first(), leq));
        lemma_multiset_commutative(seq![s[0]], s.drop_first());
        assert(s =~= seq![s[0]] + s.drop_first());
        assert(seq![s[0]].to_multiset() =~= Multiset::<T>::empty().insert(s[0]));
        assert(insert_sorted(x, s, leq).to_multiset() =~= s.to_multiset().insert(x));
    } else {
        lemma_multiset_commutative(seq![x], s);
        assert(seq![x].to_multiset() =~= Multiset::<T>::empty().insert(x));
        assert(insert_sorted(x, s, leq).to_multiset() =~= s.to_multiset().insert(x));
    }
}

/// Insertion into a sorted sequence keeps it sorted, for a total transitive
/// order.
pub proof fn lemma_insert_sorted_sorted<T>(x: T, s: Seq<T>, leq: spec_fn(T, T) -> bool)
    requires
        sorted_by(s, leq),
        transitive(leq),
        strongly_connected(leq),
    ensures
        sorted_by(insert_sorted(x, s, leq), leq),
    decreases s.len(),
{
    broadcast use group_to_multiset_ensures;
    broadcast use group_multiset_axioms;

    if s.len() == 0 {
    } else if leq(s[0], x) {
        let rest = s.drop_first();
        assert(sorted_by(rest, leq));
        lemma_insert_sorted_sorted(x, rest, leq);
        let tail = insert_sorted(x, rest, leq);
        lemma_insert_sorted_multiset(x, rest, leq);
        let r = seq![s[0]] + tail;
        assert forall|i: int, j: int| 0 <= i < j < r.len() implies #[trigger] leq(r[i], r[j]) by {
            if i == 0 {
                let y = tail[j - 1];
                assert(tail.to_multiset().contains(y));
                if y == x {
                    assert(leq(s[0], y));
                } else {
                    assert(rest.to_multiset().contains(y));
                    assert(rest.contains(y));
                    let t = choose|t: int| 0 <= t < rest.len() && rest[t] == y;
                    assert(s[t + 1] == y);
                    assert(leq(s[0], y));
                }
            } else {
                assert(leq(tail[i - 1], tail[j - 1]));
            }
        }
    } else {
        assert(leq(x, s[0]));
        let r = seq![x] + s;
        assert forall|i: int, j: int| 0 <= i < j < r.len() implies #[trigger] leq(r[i], r[j]) by {
            if i == 0 {
                if j == 1 {
                    assert(leq(x, s[0]));
                } else {
                    assert(leq(s[0], s[j - 1]));
                    assert(leq(x, s[j - 1]));
                }
            } else {
                assert(leq(s[i - 1], s[j - 1]));
            }
        }
    }
}

/// The sort is a permutation of its input and is sorted, for a total
/// transitive order.
pub proof fn lemma_sort_spec_properties<T>(s: Seq<T>, leq: spec_fn(T, T) -> bool)
    requires
        transitive(leq),
        strongly_connected(leq),
    ensures
        sorted_by(sort_spec(s, leq), leq),
        sort_spec(s, leq).to_multiset() == s.to_multiset(),
    decreases s.len(),
{
    broadcast use group_to_multiset_ensures;
    broadcast use group_multiset_axioms;

    if s.len() > 0 {
        lemma_sort_spec_properties(s.drop_last(), leq);
        lemma_insert_sorted_sorted(s.last(), sort_spec(s.drop_last(), leq), leq);
        lemma_insert_sorted_multiset(s.last(), sort_spec(s.drop_last(), leq), leq);
        assert(s =~= s.drop_last().push(s.last()));
        assert(s.to_multiset() =~= s.drop_last().to_multiset().insert(s.last()));
    }
}

/// Sorting a sorted sequence is a no-op: the stable sort never reorders
/// elements it does not have to.
pub proof fn lemma_sort_spec_of_sorted<T>(s: Seq<T>, leq: spec_fn(T, T) -> bool)
    requires
        sorted_by(s, leq),
    ensures
        sort_spec(s, leq) == s,
    decreases s.len(),
{
    if s.len() > 0 {
        let rest = s.drop_last();
        assert(sorted_by(rest, leq));
        lemma_sort_spec_of_sorted(rest, leq);
        assert(forall|k: int| 0 <= k < rest.len() ==> leq(#[trigger] rest[k], s.last()));
        lemma_insert_sorted_at(s.last(), rest, leq, rest.len() as int);
        assert(rest.take(rest.len() as int) =~= rest);
        assert(rest.skip(rest.len() as int) =~= Seq::<T>::empty());
        assert(rest.take(rest.len() as int) + seq![s.last()] + rest.skip(rest.len() as int)
            =~= s);
    }
}

/// Two sorted sequences with the same contents are equal, provided the
/// order is antisymmetric on those contents.
pub proof fn lemma_sorted_unique_on<T>(x: Seq<T>, y: Seq<T>, leq: spec_fn(T, T) -> bool)
    requires
        sorted_by(x, leq),
        sorted_by(y, leq),
        x.to_multiset() == y.to_multiset(),
        forall|a: T, b: T|
            x.contains(a) && x.contains(b) && #[trigger] leq(a, b) && #[trigger] leq(b, a) ==> a
                == b,
    ensures
        x == y,
    decreases x.len(),
{
    broadcast use group_to_multiset_ensures;
    broadcast use group_multiset_axioms;

    if x.len() == 0 {
        assert(x.to_multiset().len() == x.len());
        assert(y.to_multiset().len() == y.len());
        assert(y.len() == 0);
        assert(x =~= y);
    } else {
        assert(x.to_multiset().len() == x.len());
        assert(y.to_multiset().len() == y.len());
        assert(y.len() == x.len());
        assert(x.contains(x[0]));
        assert(x.to_multiset().contains(x[0]));
        assert(y.to_multiset().contains(y[0]));
        assert(x.to_multiset().contains(y[0]));
        assert(x.contains(y[0]));
        assert(y.contains(x[0]));
        let i = choose|i: int| 0 <= i < x.len() && x[i] == y[0];
        let j = choose|j: int| 0 <= j < y.len() && y[j] == x[0];
        assert(leq(x[0], x[i]) || i == 0);
        assert(leq(y[0], y[j]) || j == 0);
        assert(leq(x[0], y[0]) || x[0] == y[0]);
        assert(leq(y[0], x[0]) || x[0] == y[0]);
        if x[0] != y[0] {
            assert(leq(x[0], y[0]) && leq(y[0], x[0]));
            assert(x[0] == y[0]);
        }
        assert(x.remove(0) =~= x.drop_first());
        assert(y.remove(0) =~= y.drop_first());
        assert(x.drop_first().to_multiset() =~= x.to_multiset().remove(x[0]));
        assert(y.drop_first().to_multiset() =~= y.to_multiset().remove(y[0]));
        assert(sorted_by(x.drop_first(), leq));
        assert(sorted_by(y.drop_first(), leq));
        assert(forall|a: T| x.drop_first().contains(a) ==> x.contains(a)) by {
            assert forall|a: T| x.drop_first().contains(a) implies x.contains(a) by {
                let t = choose|t: int|
                    0 <= t < x.drop_first().len() && x.drop_first()[t] == a;
                assert(x[t + 1] == a);
            }
        }
        lemma_sorted_unique_on(x.drop_first(), y.drop_first(), leq);
        assert(x =~= seq![x[0]] + x.drop_first());
        assert(y =~= seq![y[0]] + y.drop_first());
        assert(x =~= y);
    }
}

/// Sorting is insensitive to the input order: any two arrangements of the
/// same contents sort to the same sequence, provided the order is
/// antisymmetric on those contents.
pub proof fn lemma_sort_order_insensitive<T>(s1: Seq<T>, s2: Seq<T>, leq: spec_fn(T, T) -> bool)
    requires
        transitive(leq),
        strongly_connected(leq),
        s1.to_multiset() == s2.to_multiset(),
        forall|a: T, b: T|
            s1.contains(a) && s1.contains(b) && #[trigger] leq(a, b) && #[trigger] leq(b, a)
                ==> a == b,
    ensures
        sort_spec(s1, leq) == sort_spec(s2, leq),
{
    broadcast use group_to_multiset_ensures;

    lemma_sort_spec_properties(s1, leq);
    lemma_sort_spec_properties(s2, leq);
    let r1 = sort_spec(s1, leq);
    let r2 = sort_spec(s2, leq);
    assert forall|a: T, b: T|
        r1.contains(a) && r1.contains(b) && #[trigger] leq(a, b) && #[trigger] leq(b, a) implies a
        == b by {
        assert(r1.to_multiset().contains(a));
        assert(s1.contains(a));
        assert(r1.to_multiset().contains(b));
        assert(s1.contains(b));
    }
    lemma_sorted_unique_on(r1, r2, leq);
}

/// Freedom from duplicates survives any rearrangement, for a reflexive,
/// symmetric duplicate relation.
pub proof fn lemma_dup_free_permutation<T>(s1: Seq<T>, s2: Seq<T>, eqv: spec_fn(T, T) -> bool)
    requires
        dup_free(s1, eqv),
        s1.to_multiset() == s2.to_multiset(),
        forall|a: T| #[trigger] eqv(a, a),
        forall|a: T, b: T| #[trigger] eqv(a, b) == eqv(b, a),
    ensures
        dup_free(s2, eqv),
{
    broadcast use group_to_multiset_ensures;

    assert(s1.no_duplicates()) by {
        assert forall|i: int, j: int|
            0 <= i < s1.len() && 0 <= j < s1.len() && i != j implies s1[i] != s1[j] by {
            if s1[i] == s1[j] {
                if i < j {
                    assert(!eqv(s1[i], s1[j]));
                } else {
                    assert(!eqv(s1[j], s1[i]));
                }
                assert(eqv(s1[i], s1[i]));
            }
        }
    }
    s1.lemma_multiset_has_no_duplicates();
    s2.lemma_multiset_has_no_duplicates_conv();
    assert forall|i: int, j: int| 0 <= i < j < s2.len() implies !eqv(
        #[trigger] s2[i],
        #[trigger] s2[j],
    ) by {
        assert(s2[i] != s2[j]);
        assert(s2.contains(s2[i]));
        assert(s2.to_multiset().contains(s2[i]));
        assert(s1.to_multiset().contains(s2[i]));
        assert(s1.contains(s2[i]));
        assert(s2.contains(s2[j]));
        assert(s2.to_multiset().contains(s2[j]));
        assert(s1.to_multiset().contains(s2[j]));
        assert(s1.contains(s2[j]));
        let p = choose|p: int| 0 <= p < s1.len() && s1[p] == s2[i];
        let q = choose|q: int| 0 <= q < s1.len() && s1[q] == s2[j];
        assert(p != q);
        if p < q {
            assert(!eqv(s1[p], s1[q]));
        } else {
            assert(!eqv(s1[q], s1[p]));
        }
    }
}

/// Equal contents map to equal contents.
pub proof fn lemma_map_values_multiset<A, B>(s1: Seq<A>, s2: Seq<A>, f: spec_fn(A) -> B)
    requires
        s1.to_multiset() == s2.to_multiset(),
    ensures
        s1.map_values(f).to_multiset() == s2.map_values(f).to_multiset(),
    decreases s1.len(),
{
    broadcast use group_to_multiset_ensures;
    broadcast use group_multiset_axioms;

    if s1.len() == 0 {
        assert(s1.to_multiset().len() == s1.len());
        assert(s2.to_multiset().len() == s2.len());
        assert(s2.len() == 0);
        assert(s1.map_values(f) =~= s2.map_values(f));
    } else {
        let x = s1.last();
        assert(s1 =~= s1.drop_last().push(x));
        assert(s1.to_multiset() =~= s1.drop_last().to_multiset().insert(x));
        assert(s1.to_multiset().contains(x));
        assert(s2.to_multiset().contains(x));
        assert(s2.contains(x));
        let i = choose|i: int| 0 <= i < s2.len() && s2[i] == x;
        assert(s2.remove(i).to_multiset() =~= s2.to_multiset().remove(x));
        assert(s1.drop_last().to_multiset() =~= s1.to_multiset().remove(x));
        lemma_map_values_multiset(s1.drop_last(), s2.remove(i), f);
        assert(s1.map_values(f) =~= s1.drop_last().map_values(f).push(f(x)));
        assert(s1.map_values(f).to_multiset() =~= s1.drop_last().map_values(
            f,
        ).to_multiset().insert(f(x)));
        assert(s2.map_values(f).remove(i) =~= s2.remove(i).map_values(f));
        assert(s2.map_values(f).remove(i).to_multiset() =~= s2.map_values(f).to_multiset().remove(
            s2.map_values(f)[i],
        ));
        assert(s2.map_values(f)[i] == f(x));
        assert(s2.map_values(f).to_multiset().contains(f(x)));
        assert(s2.map_values(f).to_multiset() =~= s2.map_values(f).to_multiset().remove(
            f(x),
        ).insert(f(x)));
        assert(s1.map_values(f).to_multiset() =~= s2.map_values(f).to_multiset());
    }
}


/// No two elements at distinct positions are ordered both ways: the order
/// decides every pair.
pub open spec fn unambiguous<T>(s: Seq<T>, leq: spec_fn(T, T) -> bool) -> bool {
    forall|p: int, q: int|
        0 <= p < q < s.len() ==> !(#[trigger] leq(s[p], s[q]) && #[trigger] leq(s[q], s[p]))
}

} // verus!
