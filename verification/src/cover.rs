//! What a list of prefixes covers, and its reduction to a canonical list.
use crate::model;
use crate::order;
use vstd::prelude::*;

verus! {

/// Some path of the list is a prefix of `p`.
pub open spec fn covers(list: Seq<Seq<Seq<char>>>, p: Seq<Seq<char>>) -> bool {
    exists|i: int| 0 <= i < list.len() && (#[trigger] list[i]).is_prefix_of(p)
}

/// `p` is in the list and no other path of the list is a prefix of it.
pub open spec fn is_minimal(list: Seq<Seq<Seq<char>>>, p: Seq<Seq<char>>) -> bool {
    &&& list.contains(p)
    &&& forall|i: int|
        0 <= i < list.len() && (#[trigger] list[i]).is_prefix_of(p) ==> list[i] == p
}

/// Every path of the list comes before those that follow it.
pub open spec fn is_sorted(list: Seq<Seq<Seq<char>>>) -> bool {
    forall|i: int, j: int|
        0 <= i < j < list.len() ==> order::prefix_before(#[trigger] list[i], #[trigger] list[j])
}

/// No path of the list is a prefix of another one.
pub open spec fn is_antichain(list: Seq<Seq<Seq<char>>>) -> bool {
    forall|i: int, j: int|
        0 <= i < list.len() && 0 <= j < list.len() && (#[trigger] list[i]).is_prefix_of(
            #[trigger] list[j],
        ) ==> i == j
}

/// Every item of the list is a path.
pub open spec fn all_paths(list: Seq<Seq<Seq<char>>>) -> bool {
    forall|i: int| 0 <= i < list.len() ==> model::is_path(#[trigger] list[i])
}

/// A list of prefixes in its canonical form: sorted, and without overlap.
pub open spec fn is_canonical(list: Seq<Seq<Seq<char>>>) -> bool {
    is_sorted(list) && is_antichain(list) && all_paths(list)
}

/// `result` holds, sorted, those paths of `list` that no other path of it covers.
pub open spec fn is_reduction(list: Seq<Seq<Seq<char>>>, result: Seq<Seq<Seq<char>>>) -> bool {
    &&& is_sorted(result)
    &&& forall|p: Seq<Seq<char>>| #[trigger] result.contains(p) <==> is_minimal(list, p)
}

/// Being a prefix is transitive.
pub proof fn lemma_prefix_chain(a: Seq<Seq<char>>, b: Seq<Seq<char>>, c: Seq<Seq<char>>)
    requires
        a.is_prefix_of(b),
        b.is_prefix_of(c),
    ensures
        a.is_prefix_of(c),
{
    assert(a =~= c.subrange(0, a.len() as int)) by {
        assert(b =~= c.subrange(0, b.len() as int));
        assert(a =~= b.subrange(0, a.len() as int));
    }
}

/// A path is a prefix of itself.
pub proof fn lemma_prefix_self(a: Seq<Seq<char>>)
    ensures
        a.is_prefix_of(a),
{
    assert(a =~= a.subrange(0, a.len() as int));
}

/// A proper prefix is shorter, so it comes first in a list of prefixes.
pub proof fn lemma_prefix_is_before(a: Seq<Seq<char>>, b: Seq<Seq<char>>)
    requires
        model::is_path(b),
        a.is_prefix_of(b),
        a != b,
    ensures
        a.len() < b.len(),
        order::prefix_before(a, b),
{
    let n = a.len() as int;
    assert(a =~= b.take(n));
    if n == b.len() {
        assert(b.take(n) =~= b);
    }
    let rest = b.skip(n);
    assert(b =~= a + rest);
    if n > 0 {
        model::lemma_display_len_add(a, rest);
    } else {
        model::lemma_display_len_positive(b);
        assert(a =~= Seq::<Seq<char>>::empty());
    }
}

/// Below every path of a list there is a minimal one.
pub proof fn lemma_minimal_below(list: Seq<Seq<Seq<char>>>, p: Seq<Seq<char>>) -> (q: Seq<
    Seq<char>,
>)
    requires
        list.contains(p),
    ensures
        is_minimal(list, q),
        q.is_prefix_of(p),
    decreases p.len(),
{
    lemma_prefix_self(p);
    if is_minimal(list, p) {
        p
    } else {
        let i = choose|i: int|
            0 <= i < list.len() && (#[trigger] list[i]).is_prefix_of(p) && list[i] != p;
        let smaller = list[i];
        if smaller.len() == p.len() {
            assert(smaller =~= p);
        }
        assert(list.contains(smaller));
        let q = lemma_minimal_below(list, smaller);
        lemma_prefix_chain(q, smaller, p);
        q
    }
}

/// A sorted list holds every path once.
pub proof fn lemma_sorted_distinct(list: Seq<Seq<Seq<char>>>, i: int, j: int)
    requires
        is_sorted(list),
        0 <= i < list.len(),
        0 <= j < list.len(),
        list[i] == list[j],
    ensures
        i == j,
{
    order::lemma_prefix_total(list[i], list[i]);
}

/// Sorted lists of the same paths are the same.
pub proof fn lemma_sorted_unique(x: Seq<Seq<Seq<char>>>, y: Seq<Seq<Seq<char>>>)
    requires
        is_sorted(x),
        is_sorted(y),
        forall|p: Seq<Seq<char>>| #[trigger] x.contains(p) <==> y.contains(p),
    ensures
        x == y,
    decreases x.len(),
{
    if x.len() == 0 {
        if y.len() > 0 {
            assert(y.contains(y[0]));
            assert(x.contains(y[0]));
        }
        assert(x =~= y);
    } else {
        let a = x.last();
        assert(x.contains(a));
        assert(y.contains(a));
        let b = y.last();
        assert(y.contains(b));
        assert(x.contains(b));
        order::lemma_prefix_total(a, b);
        let i = choose|i: int| 0 <= i < x.len() && x[i] == b;
        let j = choose|j: int| 0 <= j < y.len() && y[j] == a;
        assert(i < x.len() - 1 ==> order::prefix_before(x[i], x[x.len() - 1]));
        assert(j < y.len() - 1 ==> order::prefix_before(y[j], y[y.len() - 1]));
        assert(a == b);
        let u = x.drop_last();
        let v = y.drop_last();
        assert forall|p: Seq<Seq<char>>| #[trigger] u.contains(p) <==> v.contains(p) by {
            if u.contains(p) {
                let k = choose|k: int| 0 <= k < u.len() && u[k] == p;
                assert(x[k] == p);
                assert(x.contains(p));
                if p == a {
                    lemma_sorted_distinct(x, k, x.len() - 1);
                }
                let m = choose|m: int| 0 <= m < y.len() && y[m] == p;
                assert(v[m] == p);
            }
            if v.contains(p) {
                let k = choose|k: int| 0 <= k < v.len() && v[k] == p;
                assert(y[k] == p);
                assert(y.contains(p));
                assert(x.contains(p));
                if p == b {
                    lemma_sorted_distinct(y, k, y.len() - 1);
                }
                let m = choose|m: int| 0 <= m < x.len() && x[m] == p;
                assert(u[m] == p);
            }
        }
        lemma_sorted_unique(u, v);
        assert(x =~= u.push(a));
        assert(y =~= v.push(b));
    }
}

/// A reduction of a list of paths is canonical.
pub proof fn lemma_reduction_canonical(list: Seq<Seq<Seq<char>>>, result: Seq<Seq<Seq<char>>>)
    requires
        all_paths(list),
        is_reduction(list, result),
    ensures
        is_canonical(result),
{
    assert forall|i: int| 0 <= i < result.len() implies model::is_path(#[trigger] result[i]) by {
        assert(result.contains(result[i]));
        let k = choose|k: int| 0 <= k < list.len() && list[k] == result[i];
        assert(model::is_path(list[k]));
    }
    assert forall|i: int, j: int|
        0 <= i < result.len() && 0 <= j < result.len() && (#[trigger] result[i]).is_prefix_of(
            #[trigger] result[j],
        ) implies i == j by {
        assert(result.contains(result[i]));
        assert(result.contains(result[j]));
        let k = choose|k: int| 0 <= k < list.len() && list[k] == result[i];
        assert(list[k] == result[j]);
        lemma_sorted_distinct(result, i, j);
    }
}

/// Lists of the same paths have the same minimal paths.
pub proof fn lemma_minimal_of_same(a: Seq<Seq<Seq<char>>>, b: Seq<Seq<Seq<char>>>)
    requires
        forall|p: Seq<Seq<char>>| #[trigger] a.contains(p) <==> b.contains(p),
    ensures
        forall|p: Seq<Seq<char>>| #[trigger] is_minimal(a, p) <==> is_minimal(b, p),
{
    assert forall|p: Seq<Seq<char>>| #[trigger]
        is_minimal(a, p) <==> is_minimal(b, p) by {
        if is_minimal(a, p) {
            assert(a.contains(p));
            assert forall|i: int|
                0 <= i < b.len() && (#[trigger] b[i]).is_prefix_of(p) implies b[i] == p by {
                assert(b.contains(b[i]));
                assert(a.contains(b[i]));
                let j = choose|j: int| 0 <= j < a.len() && a[j] == b[i];
                assert(a[j].is_prefix_of(p));
            }
        }
        if is_minimal(b, p) {
            assert(b.contains(p));
            assert(a.contains(p));
            assert forall|i: int|
                0 <= i < a.len() && (#[trigger] a[i]).is_prefix_of(p) implies a[i] == p by {
                assert(a.contains(a[i]));
                let j = choose|j: int| 0 <= j < b.len() && b[j] == a[i];
                assert(b[j].is_prefix_of(p));
            }
        }
    }
}

/// A minimal path of a list is minimal in every list that covers the same paths.
pub proof fn lemma_minimal_of_same_cover(
    a: Seq<Seq<Seq<char>>>,
    b: Seq<Seq<Seq<char>>>,
    p: Seq<Seq<char>>,
)
    requires
        forall|q: Seq<Seq<char>>| #[trigger] covers(a, q) <==> covers(b, q),
        is_minimal(a, p),
    ensures
        is_minimal(b, p),
{
    lemma_prefix_self(p);
    let k = choose|k: int| 0 <= k < a.len() && a[k] == p;
    assert(a[k].is_prefix_of(p));
    assert(covers(a, p));
    assert forall|i: int| 0 <= i < b.len() && (#[trigger] b[i]).is_prefix_of(p) implies b[i]
        == p by {
        lemma_prefix_self(b[i]);
        assert(covers(b, b[i]));
        assert(covers(a, b[i]));
        let j = choose|j: int| 0 <= j < a.len() && (#[trigger] a[j]).is_prefix_of(b[i]);
        lemma_prefix_chain(a[j], b[i], p);
        assert(a[j] == p);
        assert(b[i] =~= p);
    }
    let i = choose|i: int| 0 <= i < b.len() && (#[trigger] b[i]).is_prefix_of(p);
    assert(b[i] == p);
}

} // verus!
