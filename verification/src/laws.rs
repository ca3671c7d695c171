//! What holds of paths and of lists of prefixes as a whole.
//!
//! Paths appear here as the sequences of their parts, which is how the contracts of the
//! functions speak of them.
use crate::compare;
use crate::cover;
use crate::model;
use crate::order;
use crate::path::{AsPath, Path, PathOwned};
use crate::prefixes;
use crate::prefixes::PathPrefixes;
use crate::show;
use crate::text;
use crate::wire;
use std::cmp::Ordering;
use std::hash::Hasher;
use vstd::prelude::*;
use vstd::seq_lib::*;
use vstd::std_specs::cmp::{PartialEqSpec, PartialOrdSpec};
use vstd::utf8::*;

verus! {

/// Every character of `s` is a slash.
pub open spec fn all_slashes(s: Seq<char>) -> bool {
    forall|i: int| 0 <= i < s.len() ==> s[i] == '/'
}

/// A string of slashes denotes the empty path.
pub proof fn law_only_slashes(s: Seq<char>)
    requires
        all_slashes(s),
    ensures
        model::parts_of(s) == Seq::<Seq<char>>::empty(),
    decreases s.len(),
{
    if s.len() > 0 {
        law_only_slashes(s.drop_first());
    }
}

/// Leading and trailing slashes do not matter.
pub proof fn law_outer_slashes(front: Seq<char>, s: Seq<char>, back: Seq<char>)
    requires
        all_slashes(front),
        all_slashes(back),
    ensures
        model::parts_of(front + s + back) == model::parts_of(s),
    decreases front.len(),
{
    let whole = front + s + back;
    if front.len() > 0 {
        assert(whole.drop_first() =~= front.drop_first() + s + back);
        law_outer_slashes(front.drop_first(), s, back);
    } else {
        assert(whole =~= s + back);
        model::lemma_parts_of_add(s, back);
        law_only_slashes(back);
        assert(model::parts_of(s) + model::parts_of(back) =~= model::parts_of(s));
    }
}

/// Any number of slashes between two strings separates their parts as one slash does.
pub proof fn law_inner_slashes(a: Seq<char>, middle: Seq<char>, b: Seq<char>)
    requires
        all_slashes(middle),
        middle.len() > 0,
    ensures
        model::parts_of(a + middle + b) == model::parts_of(a) + model::parts_of(b),
        model::parts_of(a + middle + b) == model::parts_of(a + seq!['/'] + b),
{
    let tail = middle + b;
    assert(a + middle + b =~= a + tail);
    model::lemma_parts_of_add(a, tail);
    assert(tail =~= middle + b + Seq::<char>::empty());
    law_outer_slashes(middle, b, Seq::empty());
    model::lemma_parts_of_slash(a, b);
}

/// The parts of a string are not empty and hold no slash.
pub proof fn law_parts_of_string(s: Seq<char>)
    ensures
        model::is_path(model::parts_of(s)),
{
    model::lemma_parts_of_is_path(s);
}

/// Displaying a path and reading the string back gives the same path.
pub proof fn law_display_round_trip(ps: Seq<Seq<char>>)
    requires
        model::is_path(ps),
    ensures
        model::parts_of(model::joined(ps)) == ps,
{
    model::lemma_parts_of_joined(ps);
}

/// The texts that a path is shown with, one after another, are the path as a string; to a
/// developer, they are that string between `Path("` and `")`.
pub proof fn law_pieces(ps: Seq<Seq<char>>)
    ensures
        show::pieces(ps).flatten() == model::joined(ps),
        show::debug_pieces(ps).flatten() == "Path(\""@ + model::joined(ps) + "\")"@,
    decreases ps.len(),
{
    let texts = show::pieces(ps);
    if ps.len() == 1 {
        texts.lemma_flatten_one_element();
    } else if ps.len() > 1 {
        law_pieces(ps.drop_last());
        let shorter = show::pieces(ps.drop_last());
        shorter.lemma_flatten_push(seq!['/']);
        shorter.push(seq!['/']).lemma_flatten_push(ps.last());
        assert(texts =~= shorter.push(seq!['/']).push(ps.last()));
    }
    let front = seq!["Path(\""@];
    front.lemma_flatten_one_element();
    lemma_flatten_concat(front, texts);
    (front + texts).lemma_flatten_push("\")"@);
    assert(show::debug_pieces(ps) =~= (front + texts).push("\")"@));
}

/// Normalizing a string twice is the same as normalizing it once.
pub proof fn law_normalize_once(s: Seq<char>)
    ensures
        model::joined(model::parts_of(model::joined(model::parts_of(s)))) == model::joined(
            model::parts_of(s),
        ),
{
    model::lemma_parts_of_is_path(s);
    model::lemma_parts_of_joined(model::parts_of(s));
}

/// Paths are equal part by part exactly if they are displayed the same.
pub proof fn law_equality_of_display(ps: Seq<Seq<char>>, qs: Seq<Seq<char>>)
    requires
        model::is_path(ps),
        model::is_path(qs),
    ensures
        ps == qs <==> model::joined(ps) == model::joined(qs),
{
    model::lemma_parts_of_joined(ps);
    model::lemma_parts_of_joined(qs);
}

/// Being a prefix is a partial order, and the empty path is a prefix of every path.
pub proof fn law_prefix_order(p: Seq<Seq<char>>, q: Seq<Seq<char>>, r: Seq<Seq<char>>)
    ensures
        p.is_prefix_of(p),
        p.is_prefix_of(q) && q.is_prefix_of(p) ==> p == q,
        p.is_prefix_of(q) && q.is_prefix_of(r) ==> p.is_prefix_of(r),
        Seq::<Seq<char>>::empty().is_prefix_of(p),
{
    cover::lemma_prefix_self(p);
    if p.is_prefix_of(q) && q.is_prefix_of(p) {
        assert(p =~= q);
    }
    if p.is_prefix_of(q) && q.is_prefix_of(r) {
        cover::lemma_prefix_chain(p, q, r);
    }
    assert(Seq::<Seq<char>>::empty() =~= p.subrange(0, 0));
}

/// Prefixes respect part boundaries: `q` is a prefix of `p` exactly if it is empty, equal to
/// `p`, or the string of `p` goes on with a slash behind the string of `q`.
pub proof fn law_prefix_boundary(q: Seq<Seq<char>>, p: Seq<Seq<char>>)
    requires
        model::is_path(q),
        model::is_path(p),
    ensures
        q.is_prefix_of(p) <==> {
            ||| q.len() == 0
            ||| q == p
            ||| (model::joined(q) + seq!['/']).is_prefix_of(model::joined(p))
        },
{
    let s = model::joined(q) + seq!['/'];
    let t = model::joined(p);
    if q.is_prefix_of(p) {
        let n = q.len() as int;
        let rest = p.skip(n);
        assert(p =~= q + rest);
        if n > 0 && rest.len() > 0 {
            model::lemma_joined_add(q, rest);
            assert(s =~= t.subrange(0, s.len() as int));
        } else if n > 0 {
            assert(q =~= p);
        }
    }
    if q.len() == 0 {
        assert(q =~= p.subrange(0, 0));
    } else if q == p {
        cover::lemma_prefix_self(p);
    } else if s.is_prefix_of(t) {
        let behind = t.skip(s.len() as int);
        assert(t =~= model::joined(q) + seq!['/'] + behind);
        model::lemma_parts_of_slash(model::joined(q), behind);
        model::lemma_parts_of_joined(q);
        model::lemma_parts_of_joined(p);
        assert(p == q + model::parts_of(behind));
        assert(q =~= p.subrange(0, q.len() as int));
    }
}

/// Joining is associative, and joining with the empty path changes nothing.
pub proof fn law_join(a: Seq<Seq<char>>, b: Seq<Seq<char>>, c: Seq<Seq<char>>)
    ensures
        (a + b) + c == a + (b + c),
        a + Seq::<Seq<char>>::empty() == a,
        Seq::<Seq<char>>::empty() + a == a,
{
    assert((a + b) + c =~= a + (b + c));
    assert(a + Seq::<Seq<char>>::empty() =~= a);
    assert(Seq::<Seq<char>>::empty() + a =~= a);
}

/// Joining two strings as paths is reading them with a slash between them. Slashes at the end of
/// the first or at the start of the second make no difference, so no join is absolute.
pub proof fn law_join_strings(a: Seq<char>, b: Seq<char>)
    ensures
        model::parts_of(a) + model::parts_of(b) == model::parts_of(a + seq!['/'] + b),
        model::parts_of(a) + model::parts_of(seq!['/'] + b) == model::parts_of(a)
            + model::parts_of(b),
        model::parts_of(a + seq!['/']) + model::parts_of(b) == model::parts_of(a)
            + model::parts_of(b),
{
    model::lemma_parts_of_slash(a, b);
    assert(seq!['/'] + b =~= seq!['/'] + b + Seq::<char>::empty());
    law_outer_slashes(seq!['/'], b, Seq::empty());
    assert(a + seq!['/'] =~= Seq::<char>::empty() + a + seq!['/']);
    law_outer_slashes(Seq::empty(), a, seq!['/']);
}

/// The joined path is displayed as both paths with a slash between them.
pub proof fn law_join_display(a: Seq<Seq<char>>, b: Seq<Seq<char>>)
    requires
        a.len() > 0,
        b.len() > 0,
    ensures
        model::joined(a + b) == model::joined(a) + seq!['/'] + model::joined(b),
        model::display_len(a + b) == model::display_len(a) + 1 + model::display_len(b),
{
    model::lemma_joined_add(a, b);
    model::lemma_display_len_add(a, b);
}

/// Stripping a prefix undoes joining with it, and joining with it undoes stripping it.
pub proof fn law_strip_and_join(a: Seq<Seq<char>>, b: Seq<Seq<char>>, p: Seq<Seq<char>>)
    ensures
        a.is_prefix_of(a + b),
        (a + b).skip(a.len() as int) == b,
        a.is_prefix_of(p) ==> a + p.skip(a.len() as int) == p,
{
    assert(a =~= (a + b).subrange(0, a.len() as int));
    assert((a + b).skip(a.len() as int) =~= b);
    if a.is_prefix_of(p) {
        assert(a + p.skip(a.len() as int) =~= p);
    }
}

/// Stripping a joined prefix is stripping both prefixes, one after the other.
pub proof fn law_strip_in_steps(a: Seq<Seq<char>>, b: Seq<Seq<char>>, p: Seq<Seq<char>>)
    ensures
        (a + b).is_prefix_of(p) <==> a.is_prefix_of(p) && b.is_prefix_of(p.skip(a.len() as int)),
        (a + b).is_prefix_of(p) ==> p.skip((a + b).len() as int) == p.skip(a.len() as int).skip(
            b.len() as int,
        ),
{
    let rest = p.skip(a.len() as int);
    if (a + b).is_prefix_of(p) {
        assert(p.subrange(0, (a + b).len() as int) =~= a + b);
        assert forall|i: int| 0 <= i < a.len() implies a[i] == p[i] by {
            assert((a + b)[i] == p.subrange(0, (a + b).len() as int)[i]);
        }
        assert forall|i: int| 0 <= i < b.len() implies b[i] == rest[i] by {
            assert((a + b)[a.len() + i] == p.subrange(0, (a + b).len() as int)[a.len() + i]);
        }
        assert(a =~= p.subrange(0, a.len() as int));
        assert(b =~= rest.subrange(0, b.len() as int));
        assert(p.skip((a + b).len() as int) =~= rest.skip(b.len() as int));
    }
    if a.is_prefix_of(p) && b.is_prefix_of(rest) {
        assert(a =~= p.subrange(0, a.len() as int));
        assert(b =~= rest.subrange(0, b.len() as int));
        assert(a + b =~= p.subrange(0, (a + b).len() as int));
    }
}

/// Taking the first part of a path is stripping the prefix of that one part.
pub proof fn law_next_part(p: Seq<Seq<char>>)
    requires
        p.len() > 0,
    ensures
        seq![p[0]] + p.drop_first() == p,
        seq![p[0]].is_prefix_of(p),
        p.skip(1) == p.drop_first(),
{
    assert(seq![p[0]] + p.drop_first() =~= p);
    assert(seq![p[0]] =~= p.subrange(0, 1));
    assert(p.skip(1) =~= p.drop_first());
}

/// The order of paths is a strict total order.
pub proof fn law_path_order(p: Seq<Seq<char>>, q: Seq<Seq<char>>, r: Seq<Seq<char>>)
    ensures
        !order::path_before(p, p),
        order::path_before(p, q) ==> !order::path_before(q, p),
        p == q || order::path_before(p, q) || order::path_before(q, p),
        order::path_before(p, q) && order::path_before(q, r) ==> order::path_before(p, r),
{
    order::lemma_path_total(p, q);
    if order::path_before(p, q) && order::path_before(q, r) {
        order::lemma_path_transitive(p, q, r);
    }
}

/// Comparing the other way round gives the opposite, and only equal paths compare as equal.
pub proof fn law_place_mirror(p: Seq<Seq<char>>, q: Seq<Seq<char>>)
    ensures
        order::path_place(p, q) == order::Place::Before <==> order::path_place(q, p)
            == order::Place::After,
        order::path_place(p, q) == order::Place::Same <==> p == q,
{
    order::lemma_path_total(p, q);
}

/// Paths with the same parts feed a hasher the same strings in the same order, whether they are
/// borrowed or owned: whatever states the hash of one can lead from and to, the hash of the
/// other can too.
#[verifier::spinoff_prover]
pub proof fn law_equal_paths_hash_alike<'a, 'b, H: Hasher>(
    p: Path<'a>,
    q: Path<'b>,
    states: Seq<H>,
)
    requires
        p@ == q@,
    ensures
        (states.len() == p@.len() + 1 && forall|i: int|
            0 <= i < p@.len() ==> #[trigger] model::is_part(p@[i]) && exists|t: &str, m: &mut H|
                t@ == p@[i] && *m == states[i] && *final(m) == states[i + 1]
                    && #[trigger] call_ensures(compare::hash_str::<H>, (t, m), ())) <==> (
        states.len() == q@.len() + 1 && forall|i: int|
            0 <= i < q@.len() ==> #[trigger] model::is_part(q@[i]) && exists|t: &str, m: &mut H|
                t@ == q@[i] && *m == states[i] && *final(m) == states[i + 1]
                    && #[trigger] call_ensures(compare::hash_str::<H>, (t, m), ())),
{
    assert forall|i: int| 0 <= i < p@.len() implies model::is_part(p@[i]) == model::is_part(
        #[trigger] q@[i],
    ) by {}
}

/// Paths with the same parts, such as a path and its owned copy, behave alike: they are equal,
/// displayed alike and as long, ordered alike, and agree on what is a prefix of them, what is
/// left of them and what joining gives.
pub proof fn law_equal_paths_behave_alike<'a, 'b>(p: Path<'a>, q: Path<'b>, x: Seq<Seq<char>>)
    requires
        p@ == q@,
    ensures
        order::path_place(p@, q@) == order::Place::Same,
        model::joined(p@) == model::joined(q@),
        show::pieces(p@) == show::pieces(q@),
        show::debug_pieces(p@) == show::debug_pieces(q@),
        model::display_len(p@) == model::display_len(q@),
        order::path_place(p@, x) == order::path_place(q@, x),
        order::path_place(x, p@) == order::path_place(x, q@),
        x.is_prefix_of(p@) <==> x.is_prefix_of(q@),
        p@.skip(x.len() as int) == q@.skip(x.len() as int),
        p@.drop_first() == q@.drop_first(),
        p@ + x == q@ + x,
        x + p@ == x + q@,
        wire::encoded(p@) == wire::encoded(q@),
{
}

/// A proper prefix of a path comes before it.
pub proof fn law_prefix_comes_first(q: Seq<Seq<char>>, p: Seq<Seq<char>>)
    requires
        q.is_prefix_of(p),
        q != p,
    ensures
        order::path_before(q, p),
    decreases q.len(),
{
    if p.len() == q.len() {
        assert(q =~= p);
    }
    if q.len() > 0 {
        assert(p.subrange(0, q.len() as int)[0] == p[0]);
        let u = q.drop_first();
        let v = p.drop_first();
        assert forall|i: int| 0 <= i < u.len() implies u[i] == v[i] by {
            assert(p.subrange(0, q.len() as int)[i + 1] == p[i + 1]);
        }
        assert(u =~= v.subrange(0, u.len() as int));
        law_prefix_comes_first(u, v);
    }
}

/// The display length adds up the bytes of the parts and the slashes between them.
pub proof fn law_display_len(ps: Seq<Seq<char>>, p: Seq<char>)
    ensures
        model::display_len(Seq::<Seq<char>>::empty()) == 0,
        model::display_len(seq![p]) == encode_utf8(p).len(),
        ps.len() > 0 ==> model::display_len(ps.push(p)) == model::display_len(ps) + 1
            + encode_utf8(p).len(),
{
    let longer = ps.push(p);
    model::lemma_display_len_push(longer, ps.len() as int);
    assert(longer.take(ps.len() as int) =~= ps);
    assert(longer.take(longer.len() as int) =~= longer);
}

/// A string is at least as long as the path that it denotes is when displayed, and denotes no
/// more parts than it has characters.
pub proof fn law_length_of_string(s: Seq<char>)
    ensures
        model::display_len(model::parts_of(s)) <= encode_utf8(s).len(),
        model::parts_of(s).len() <= s.len() <= encode_utf8(s).len(),
{
    model::lemma_display_len_parts_of(s);
    model::lemma_parts_of_len(s);
    text::lemma_encode_empty(s);
}

/// What is encoded is decoded as the same path.
pub proof fn law_wire_round_trip(ps: Seq<Seq<char>>)
    requires
        model::is_path(ps),
    ensures
        wire::encoded(ps) matches Ok(s) ==> wire::decoded(s) == Ok::<
            Seq<Seq<char>>,
            wire::DecodeError,
        >(ps),
{
    model::lemma_parts_of_joined(ps);
}

/// Decoding refuses the string of a path exactly if encoding refuses the path.
pub proof fn law_wire_limit(ps: Seq<Seq<char>>)
    requires
        model::is_path(ps),
    ensures
        wire::encoded(ps) is Err <==> wire::decoded(model::joined(ps)) is Err,
{
    model::lemma_parts_of_joined(ps);
}

/// The order of a list of prefixes is a strict total order.
pub proof fn law_list_order(p: Seq<Seq<char>>, q: Seq<Seq<char>>, r: Seq<Seq<char>>)
    ensures
        !order::prefix_before(p, p),
        order::prefix_before(p, q) ==> !order::prefix_before(q, p),
        p == q || order::prefix_before(p, q) || order::prefix_before(q, p),
        order::prefix_before(p, q) && order::prefix_before(q, r) ==> order::prefix_before(p, r),
{
    order::lemma_prefix_total(p, q);
    if order::prefix_before(p, q) && order::prefix_before(q, r) {
        order::lemma_prefix_transitive(p, q, r);
    }
}

/// A reduced list covers the same paths as the list that it was made from.
pub proof fn law_reduction_covers_same(
    list: Seq<Seq<Seq<char>>>,
    result: Seq<Seq<Seq<char>>>,
    p: Seq<Seq<char>>,
)
    requires
        cover::is_reduction(list, result),
    ensures
        cover::covers(list, p) <==> cover::covers(result, p),
{
    if cover::covers(list, p) {
        let i = choose|i: int| 0 <= i < list.len() && (#[trigger] list[i]).is_prefix_of(p);
        assert(list.contains(list[i]));
        let q = cover::lemma_minimal_below(list, list[i]);
        cover::lemma_prefix_chain(q, list[i], p);
        assert(result.contains(q));
        let j = choose|j: int| 0 <= j < result.len() && result[j] == q;
        assert(result[j].is_prefix_of(p));
    }
    if cover::covers(result, p) {
        let j = choose|j: int| 0 <= j < result.len() && (#[trigger] result[j]).is_prefix_of(p);
        assert(result.contains(result[j]));
        let i = choose|i: int| 0 <= i < list.len() && list[i] == result[j];
        assert(list[i].is_prefix_of(p));
    }
}

/// A reduced list is canonical: sorted, and no path of it covers another one.
pub proof fn law_reduction_is_canonical(list: Seq<Seq<Seq<char>>>, result: Seq<Seq<Seq<char>>>)
    requires
        cover::all_paths(list),
        cover::is_reduction(list, result),
    ensures
        cover::is_canonical(result),
{
    cover::lemma_reduction_canonical(list, result);
}

/// Lists of the same paths, in any order and with any repetition, have the same reduction.
pub proof fn law_reduction_is_unique(
    a: Seq<Seq<Seq<char>>>,
    b: Seq<Seq<Seq<char>>>,
    x: Seq<Seq<Seq<char>>>,
    y: Seq<Seq<Seq<char>>>,
)
    requires
        forall|p: Seq<Seq<char>>| #[trigger] a.contains(p) <==> b.contains(p),
        cover::is_reduction(a, x),
        cover::is_reduction(b, y),
    ensures
        x == y,
{
    cover::lemma_minimal_of_same(a, b);
    assert forall|p: Seq<Seq<char>>| #[trigger] x.contains(p) <==> y.contains(p) by {
        assert(cover::is_minimal(a, p) <==> cover::is_minimal(b, p));
        assert(y.contains(p) <==> cover::is_minimal(b, p));
    }
    cover::lemma_sorted_unique(x, y);
}

/// Lists that cover the same paths have the same reduction.
pub proof fn law_reduction_of_same_cover(
    a: Seq<Seq<Seq<char>>>,
    b: Seq<Seq<Seq<char>>>,
    x: Seq<Seq<Seq<char>>>,
    y: Seq<Seq<Seq<char>>>,
)
    requires
        forall|p: Seq<Seq<char>>| #[trigger] cover::covers(a, p) <==> cover::covers(b, p),
        cover::is_reduction(a, x),
        cover::is_reduction(b, y),
    ensures
        x == y,
{
    assert forall|p: Seq<Seq<char>>| #[trigger] x.contains(p) <==> y.contains(p) by {
        if x.contains(p) {
            cover::lemma_minimal_of_same_cover(a, b, p);
            assert(y.contains(p));
        }
        if y.contains(p) {
            cover::lemma_minimal_of_same_cover(b, a, p);
            assert(x.contains(p));
        }
    }
    cover::lemma_sorted_unique(x, y);
}

/// Reducing a canonical list gives the same list.
pub proof fn law_reduction_once(list: Seq<Seq<Seq<char>>>, result: Seq<Seq<Seq<char>>>)
    requires
        cover::is_canonical(list),
        cover::is_reduction(list, result),
    ensures
        result == list,
{
    assert forall|p: Seq<Seq<char>>| #[trigger] result.contains(p) <==> list.contains(p) by {
        if list.contains(p) {
            let k = choose|k: int| 0 <= k < list.len() && list[k] == p;
            assert forall|i: int|
                0 <= i < list.len() && (#[trigger] list[i]).is_prefix_of(p) implies list[i] == p by {
                assert(list[i].is_prefix_of(list[k]));
            }
            assert(cover::is_minimal(list, p));
        }
        if result.contains(p) {
            assert(cover::is_minimal(list, p));
        }
    }
    cover::lemma_sorted_unique(result, list);
}

/// The empty path covers every path, so it is all that stays of a list with it.
pub proof fn law_empty_covers_all(list: Seq<Seq<Seq<char>>>, result: Seq<Seq<Seq<char>>>)
    requires
        list.contains(Seq::<Seq<char>>::empty()),
        cover::is_reduction(list, result),
    ensures
        result == seq![Seq::<Seq<char>>::empty()],
{
    let none = Seq::<Seq<char>>::empty();
    let one = seq![none];
    let e = choose|e: int| 0 <= e < list.len() && list[e] == none;
    assert forall|p: Seq<Seq<char>>| #[trigger] result.contains(p) <==> one.contains(p) by {
        if result.contains(p) {
            assert(none =~= p.subrange(0, 0));
            assert(list[e].is_prefix_of(p));
            assert(one[0] == p);
        }
        if one.contains(p) {
            assert forall|i: int|
                0 <= i < list.len() && (#[trigger] list[i]).is_prefix_of(p) implies list[i] == p by {
                assert(list[i] =~= p);
            }
            assert(cover::is_minimal(list, p));
        }
    }
    cover::lemma_sorted_unique(result, one);
}

/// A part is a string that is not empty and in which no slash occurs; a path is made of parts.
pub proof fn law_what_a_path_is(p: Seq<char>, ps: Seq<Seq<char>>)
    ensures
        model::is_part(p) <==> p.len() > 0 && !p.contains('/'),
        model::is_path(ps) <==> forall|i: int|
            0 <= i < ps.len() ==> (#[trigger] ps[i]).len() > 0 && !ps[i].contains('/'),
{
    lemma_slash_free(p);
    assert forall|i: int| 0 <= i < ps.len() implies (model::is_part(#[trigger] ps[i]) <==> ps[i].len()
        > 0 && !ps[i].contains('/')) by {
        lemma_slash_free(ps[i]);
    }
    if model::is_path(ps) {
        assert forall|i: int| 0 <= i < ps.len() implies (#[trigger] ps[i]).len() > 0
            && !ps[i].contains('/') by {
            assert(model::is_part(ps[i]));
        }
    }
}

/// A string is free of slashes exactly if none occurs in it.
proof fn lemma_slash_free(p: Seq<char>)
    ensures
        model::slash_free(p) <==> !p.contains('/'),
{
    if model::slash_free(p) && p.contains('/') {
        let k = choose|k: int| 0 <= k < p.len() && p[k] == '/';
        assert(p[k] != '/');
    }
    if !p.contains('/') {
        assert forall|k: int| 0 <= k < p.len() implies p[k] != '/' by {
            if p[k] == '/' {
                assert(p.contains(p[k]));
            }
        }
    }
}

/// Reading a string as a path splits it at its slashes: the parts in front of a slash come first
/// and then those behind it, a string without a slash is one part, and the empty string has none.
pub proof fn law_split_at_slashes(a: Seq<char>, b: Seq<char>, p: Seq<char>)
    ensures
        model::parts_of(Seq::empty()) == Seq::<Seq<char>>::empty(),
        p.len() > 0 && !p.contains('/') ==> model::parts_of(p) == seq![p],
        model::parts_of(a + seq!['/'] + b) == model::parts_of(a) + model::parts_of(b),
{
    lemma_slash_free(p);
    if p.len() > 0 && !p.contains('/') {
        model::lemma_parts_of_part(p);
    }
    model::lemma_parts_of_slash(a, b);
}

/// Characters of a string that stand between two slashes, or between a slash and an end, are a
/// part of the path that it denotes. The parts of what stands in front of them come before it,
/// and those of what stands behind come after it.
pub proof fn law_part_between_slashes(s: Seq<char>, i: int, j: int)
    requires
        0 <= i < j <= s.len(),
        !s.subrange(i, j).contains('/'),
        i == 0 || s[i - 1] == '/',
        j == s.len() || s[j] == '/',
    ensures
        model::parts_of(s) == model::parts_of(s.take(i)) + seq![s.subrange(i, j)]
            + model::parts_of(s.skip(j)),
{
    let front = s.take(i);
    let run = s.subrange(i, j);
    let back = s.skip(j);
    lemma_slash_free(run);
    model::lemma_parts_of_part(run);
    assert(s =~= front + run + back);
    model::lemma_parts_of_add(front + run, back);
    if i > 0 {
        let before = s.take(i - 1);
        assert(front =~= before + seq!['/'] + Seq::<char>::empty());
        model::lemma_parts_of_slash(before, Seq::empty());
        assert(model::parts_of(front) =~= model::parts_of(before));
        assert(front + run =~= before + seq!['/'] + run);
        model::lemma_parts_of_slash(before, run);
    } else {
        assert(front + run =~= run);
        assert(model::parts_of(front) + seq![run] =~= seq![run]);
    }
}

/// A path is displayed with one slash between neighbouring parts and nothing else: no part gives
/// nothing, one part gives its characters, and two paths in a row give both with a slash between.
pub proof fn law_display_of_parts(a: Seq<Seq<char>>, b: Seq<Seq<char>>, p: Seq<char>)
    ensures
        model::joined(Seq::empty()) == Seq::<char>::empty(),
        model::joined(seq![p]) == p,
        a.len() > 0 && b.len() > 0 ==> model::joined(a + b) == model::joined(a) + seq!['/']
            + model::joined(b),
{
    if a.len() > 0 && b.len() > 0 {
        model::lemma_joined_add(a, b);
    }
}

/// The length of a path is the number of UTF-8 bytes of the string that displays it.
pub proof fn law_length_of_display(ps: Seq<Seq<char>>)
    ensures
        model::display_len(ps) == encode_utf8(model::joined(ps)).len(),
{
}

/// The texts that a path is shown with are its parts at the even places and a slash at the odd
/// ones. To a developer there is one text more at each end.
pub proof fn law_pieces_in_order(ps: Seq<Seq<char>>, i: int)
    ensures
        show::pieces(ps).len() == (if ps.len() == 0 {
            0
        } else {
            2 * ps.len() - 1
        }),
        0 <= i < ps.len() ==> show::pieces(ps)[2 * i] == ps[i],
        0 <= i < ps.len() - 1 ==> show::pieces(ps)[2 * i + 1] == seq!['/'],
        show::debug_pieces(ps).len() == show::pieces(ps).len() + 2,
        show::debug_pieces(ps)[0] == "Path(\""@,
        0 <= i < show::pieces(ps).len() ==> show::debug_pieces(ps)[i + 1] == show::pieces(ps)[i],
        show::debug_pieces(ps).last() == "\")"@,
    decreases ps.len(),
{
    if ps.len() > 1 {
        law_pieces_in_order(ps.drop_last(), i);
    }
}

/// Byte strings that agree on their first `k` bytes are ordered by what follows: the smaller byte
/// comes first, and so does a string that ends there.
proof fn lemma_bytes_differ(x: Seq<u8>, y: Seq<u8>, k: int)
    requires
        0 <= k <= x.len(),
        k < y.len(),
        x.take(k) == y.take(k),
        k == x.len() || x[k] < y[k],
    ensures
        order::bytes_before(x, y),
        !order::bytes_before(y, x),
    decreases k,
{
    if k > 0 {
        assert(x.take(k)[0] == x[0]);
        assert(y.take(k)[0] == y[0]);
        let u = x.drop_first();
        let v = y.drop_first();
        assert forall|i: int| 0 <= i < k - 1 implies u[i] == v[i] by {
            assert(x.take(k)[i + 1] == x[i + 1]);
            assert(y.take(k)[i + 1] == y[i + 1]);
        }
        assert(u.take(k - 1) =~= v.take(k - 1));
        lemma_bytes_differ(u, v, k - 1);
    }
}

/// Parts are ordered by their bytes, whatever their lengths: of two parts whose first `k` bytes
/// agree, the one with the smaller byte behind them comes first, and so does one that ends there.
pub proof fn law_part_order(p: Seq<char>, q: Seq<char>, k: int)
    requires
        0 <= k <= encode_utf8(p).len(),
        k < encode_utf8(q).len(),
        encode_utf8(p).take(k) == encode_utf8(q).take(k),
        k == encode_utf8(p).len() || encode_utf8(p)[k] < encode_utf8(q)[k],
    ensures
        order::part_before(p, q),
        !order::part_before(q, p),
        order::part_place(p, q) == order::Place::Before,
        order::part_place(q, p) == order::Place::After,
{
    lemma_bytes_differ(encode_utf8(p), encode_utf8(q), k);
    order::lemma_part_total(p, p);
}

/// Paths are ordered by the first part in which they differ: it decides as the order of parts
/// does, whatever follows, and a path that ends there comes first.
pub proof fn law_first_difference(ps: Seq<Seq<char>>, qs: Seq<Seq<char>>, k: int)
    requires
        0 <= k <= ps.len(),
        k < qs.len(),
        ps.take(k) == qs.take(k),
        k == ps.len() || order::part_before(ps[k], qs[k]),
    ensures
        order::path_before(ps, qs),
        !order::path_before(qs, ps),
        order::path_place(ps, qs) == order::Place::Before,
        order::path_place(qs, ps) == order::Place::After,
    decreases k,
{
    if k > 0 {
        assert(ps.take(k)[0] == ps[0]);
        assert(qs.take(k)[0] == qs[0]);
        let u = ps.drop_first();
        let v = qs.drop_first();
        assert forall|i: int| 0 <= i < k - 1 implies u[i] == v[i] by {
            assert(ps.take(k)[i + 1] == ps[i + 1]);
            assert(qs.take(k)[i + 1] == qs[i + 1]);
        }
        assert(u.take(k - 1) =~= v.take(k - 1));
        law_first_difference(u, v, k - 1);
    } else if ps.len() > 0 {
        order::lemma_part_total(ps[0], qs[0]);
    }
    order::lemma_path_total(ps, qs);
}

/// Of two paths whose first `k` parts agree, and whose next parts agree on their first `m` bytes,
/// the one with the smaller byte behind those comes first, and so does the one whose part ends
/// there.
pub proof fn law_path_order_by_bytes(ps: Seq<Seq<char>>, qs: Seq<Seq<char>>, k: int, m: int)
    requires
        0 <= k < ps.len(),
        k < qs.len(),
        ps.take(k) == qs.take(k),
        0 <= m <= encode_utf8(ps[k]).len(),
        m < encode_utf8(qs[k]).len(),
        encode_utf8(ps[k]).take(m) == encode_utf8(qs[k]).take(m),
        m == encode_utf8(ps[k]).len() || encode_utf8(ps[k])[m] < encode_utf8(qs[k])[m],
    ensures
        order::path_before(ps, qs),
        order::path_place(ps, qs) == order::Place::Before,
        order::path_place(qs, ps) == order::Place::After,
{
    law_part_order(ps[k], qs[k], m);
    law_first_difference(ps, qs, k);
}

/// Comparing two paths says less, equal or greater as the order of their parts does.
pub proof fn law_compare_paths<'a>(p: Path<'a>, q: Path<'a>)
    ensures
        PartialOrdSpec::partial_cmp_spec(&p, &q) == Some(Ordering::Less) <==> order::path_before(
            p@,
            q@,
        ),
        PartialOrdSpec::partial_cmp_spec(&p, &q) == Some(Ordering::Equal) <==> p@ == q@,
        PartialOrdSpec::partial_cmp_spec(&p, &q) == Some(Ordering::Greater)
            <==> order::path_before(q@, p@),
{
    order::lemma_path_total(p@, q@);
}

/// Two paths are equal exactly if they have the same parts in the same order, which is to say if
/// they are displayed the same. A path equals a string exactly if it has the parts that the
/// string denotes.
pub proof fn law_equality<'a, 'b>(p: Path<'a>, q: Path<'b>, s: &'b str)
    ensures
        PartialEqSpec::eq_spec(&p, &q) <==> p@.len() == q@.len() && forall|i: int|
            0 <= i < p@.len() ==> #[trigger] p@[i] == q@[i],
        model::is_path(p@) && model::is_path(q@) ==> (PartialEqSpec::eq_spec(&p, &q)
            <==> model::joined(p@) == model::joined(q@)),
        PartialEqSpec::eq_spec(&p, &q) <==> order::path_place(p@, q@) == order::Place::Same,
        PartialEqSpec::eq_spec(&p, &s) <==> p@ == model::parts_of(s@),
        PartialEqSpec::eq_spec(&p, s) <==> p@ == model::parts_of(s@),
        PartialEqSpec::eq_spec(&s, &p) <==> p@ == model::parts_of(s@),
{
    if p@.len() == q@.len() && forall|i: int| 0 <= i < p@.len() ==> #[trigger] p@[i] == q@[i] {
        assert(p@ =~= q@);
    }
    if model::is_path(p@) && model::is_path(q@) {
        law_equality_of_display(p@, q@);
    }
}

/// Whatever kind of string is given where a path is asked for, it stands for the parts that it
/// denotes, and a path stands for its own parts.
pub proof fn law_what_stands_for_a_path<'a, 'b, 'c>(
    s: &'a str,
    t: String,
    u: &'a String,
    p: Path<'b>,
    q: &'c Path<'c>,
)
    ensures
        AsPath::path_parts(&s) == model::parts_of(s@),
        AsPath::path_parts(&t) == model::parts_of(t@),
        AsPath::path_parts(&u) == model::parts_of(u@),
        AsPath::path_parts(&p) == p@,
        AsPath::path_parts(&q) == q@,
{
}

/// A path travels as the string that displays it, its parts in order, and a string is received as
/// the path that it denotes. Both are refused exactly if there are more than 32 parts.
pub proof fn law_wire_text(ps: Seq<Seq<char>>, s: Seq<char>)
    ensures
        Path::MAX_PARTS == 32,
        ps.len() <= 32 ==> wire::encoded(ps) == Ok::<Seq<char>, wire::EncodeError>(
            model::joined(ps),
        ),
        ps.len() > 32 ==> wire::encoded(ps) == Err::<Seq<char>, wire::EncodeError>(
            wire::EncodeError::BoundsExceeded,
        ),
        model::parts_of(s).len() <= 32 ==> wire::decoded(s) == Ok::<
            Seq<Seq<char>>,
            wire::DecodeError,
        >(model::parts_of(s)),
        model::parts_of(s).len() > 32 ==> wire::decoded(s) == Err::<
            Seq<Seq<char>>,
            wire::DecodeError,
        >(wire::DecodeError::BoundsExceeded),
{
}

/// In a list of prefixes the path that takes fewer bytes when displayed comes first, whatever its
/// parts. Paths that take as many are in the order of paths.
pub proof fn law_shortest_first(p: Seq<Seq<char>>, q: Seq<Seq<char>>)
    ensures
        encode_utf8(model::joined(p)).len() < encode_utf8(model::joined(q)).len()
            ==> order::prefix_before(p, q) && !order::prefix_before(q, p),
        encode_utf8(model::joined(p)).len() == encode_utf8(model::joined(q)).len() ==> (
        order::prefix_before(p, q) <==> order::path_before(p, q)),
{
}

/// Every path of a canonical list takes at least as many bytes when displayed as those in front
/// of it. Paths that take as many are in the order of paths, and none is a prefix of another.
pub proof fn law_canonical_list(list: Seq<Seq<Seq<char>>>, i: int, j: int)
    requires
        cover::is_canonical(list),
        0 <= i < j < list.len(),
    ensures
        encode_utf8(model::joined(list[i])).len() <= encode_utf8(model::joined(list[j])).len(),
        encode_utf8(model::joined(list[i])).len() == encode_utf8(model::joined(list[j])).len()
            ==> order::path_before(list[i], list[j]),
        !list[i].is_prefix_of(list[j]),
        !list[j].is_prefix_of(list[i]),
        model::is_path(list[i]),
        model::is_path(list[j]),
{
    assert(order::prefix_before(list[i], list[j]));
}

/// A list that is sorted by length and then by the order of paths, in which no path is a prefix
/// of another, is canonical.
pub proof fn law_canonical_form(list: Seq<Seq<Seq<char>>>)
    requires
        forall|i: int| 0 <= i < list.len() ==> model::is_path(#[trigger] list[i]),
        forall|i: int, j: int|
            0 <= i < j < list.len() ==> !(#[trigger] list[i]).is_prefix_of(#[trigger] list[j])
                && !list[j].is_prefix_of(list[i]) && (encode_utf8(model::joined(list[i])).len()
                < encode_utf8(model::joined(list[j])).len() || (encode_utf8(
                model::joined(list[i]),
            ).len() == encode_utf8(model::joined(list[j])).len() && order::path_before(
                list[i],
                list[j],
            ))),
    ensures
        cover::is_canonical(list),
{
}

/// A reduced list holds exactly those paths of the list of which no other path of the list is a
/// prefix, each of them once, shortest first.
pub proof fn law_what_a_reduction_keeps(
    list: Seq<Seq<Seq<char>>>,
    result: Seq<Seq<Seq<char>>>,
    p: Seq<Seq<char>>,
    i: int,
    j: int,
)
    requires
        cover::is_reduction(list, result),
    ensures
        result.contains(p) <==> list.contains(p) && forall|k: int|
            0 <= k < list.len() && (#[trigger] list[k]).is_prefix_of(p) ==> list[k] == p,
        result.no_duplicates(),
        0 <= i < j < result.len() ==> encode_utf8(model::joined(result[i])).len() <= encode_utf8(
            model::joined(result[j]),
        ).len(),
        0 <= i < j < result.len() && encode_utf8(model::joined(result[i])).len() == encode_utf8(
            model::joined(result[j]),
        ).len() ==> order::path_before(result[i], result[j]),
{
    assert(result.contains(p) <==> cover::is_minimal(list, p));
    assert forall|a: int, b: int| 0 <= a < result.len() && 0 <= b < result.len() && a != b implies
        result[a] != result[b] by {
        if result[a] == result[b] {
            cover::lemma_sorted_distinct(result, a, b);
        }
    }
    if 0 <= i < j < result.len() {
        assert(order::prefix_before(result[i], result[j]));
    }
}

/// Whatever has a prefix in a list has a prefix in the reduced list, and the other way round.
pub proof fn law_reduction_matches_same(
    list: Seq<Seq<Seq<char>>>,
    result: Seq<Seq<Seq<char>>>,
    p: Seq<Seq<char>>,
)
    requires
        cover::is_reduction(list, result),
    ensures
        (exists|i: int| 0 <= i < list.len() && (#[trigger] list[i]).is_prefix_of(p)) <==> (exists|
            j: int,
        |
            0 <= j < result.len() && (#[trigger] result[j]).is_prefix_of(p)),
        cover::covers(list, p) <==> exists|i: int|
            0 <= i < list.len() && (#[trigger] list[i]).is_prefix_of(p),
{
    law_reduction_covers_same(list, result, p);
}

/// What the contracts of a list of prefixes speak of is what the list and its input hold, item by
/// item and in order.
pub proof fn law_items_of_lists<'a, P: AsPath>(
    list: PathPrefixes,
    paths: Seq<Path<'a>>,
    items: Seq<P>,
    i: int,
)
    ensures
        list@.len() == list.paths().len(),
        0 <= i < list.paths().len() ==> list@[i] == list.paths()[i]@,
        prefixes::views(paths).len() == paths.len(),
        0 <= i < paths.len() ==> prefixes::views(paths)[i] == paths[i]@,
        prefixes::as_views(items).len() == items.len(),
        0 <= i < items.len() ==> prefixes::as_views(items)[i] == items[i].path_parts(),
{
}

/// The paths of a list either share their parts or have none.
pub proof fn law_items_are_owned(paths: Seq<PathOwned>)
    ensures
        prefixes::all_owned(paths) <==> forall|i: int|
            0 <= i < paths.len() && (#[trigger] paths[i])@.len() > 0 ==> paths[i].is_shared(),
{
    if forall|i: int|
        0 <= i < paths.len() && (#[trigger] paths[i])@.len() > 0 ==> paths[i].is_shared() {
        assert forall|i: int| 0 <= i < paths.len() implies (#[trigger] paths[i]).is_shared()
            || paths[i]@.len() == 0 by {}
    }
}

/// Two lists of prefixes are equal exactly if they are as long and hold equal paths at each
/// place, and so are a list of prefixes and a list of paths.
pub proof fn law_equality_of_lists<'a>(a: PathPrefixes, b: PathPrefixes, v: Vec<Path<'a>>)
    ensures
        PartialEqSpec::eq_spec(&a, &b) <==> a.paths().len() == b.paths().len() && forall|i: int|
            0 <= i < a.paths().len() ==> (#[trigger] a.paths()[i])@ == b.paths()[i]@,
        PartialEqSpec::eq_spec(&a, &v) <==> a.paths().len() == v@.len() && forall|i: int|
            0 <= i < v@.len() ==> a.paths()[i]@ == (#[trigger] v@[i])@,
        PartialEqSpec::eq_spec(&v, &a) <==> PartialEqSpec::eq_spec(&a, &v),
{
    lemma_same_views(a.paths(), b.paths());
    lemma_same_views(a.paths(), v@);
}

/// Lists have the same views exactly if they are as long and their items have the same parts.
proof fn lemma_same_views<'a, 'b>(x: Seq<Path<'a>>, y: Seq<Path<'b>>)
    ensures
        prefixes::views(x) == prefixes::views(y) <==> x.len() == y.len() && forall|i: int|
            0 <= i < x.len() ==> (#[trigger] x[i])@ == y[i]@,
        prefixes::views(x) == prefixes::views(y) <==> x.len() == y.len() && forall|i: int|
            0 <= i < y.len() ==> x[i]@ == (#[trigger] y[i])@,
{
    let v = prefixes::views(x);
    let w = prefixes::views(y);
    assert(v.len() == x.len() && w.len() == y.len());
    if v == w {
        assert forall|i: int| 0 <= i < x.len() implies (#[trigger] x[i])@ == y[i]@ by {
            assert(v[i] == w[i]);
        }
        assert forall|i: int| 0 <= i < y.len() implies x[i]@ == (#[trigger] y[i])@ by {
            assert(v[i] == w[i]);
        }
    } else if x.len() == y.len() {
        assert(exists|i: int| 0 <= i < v.len() && v[i] != w[i]) by {
            if forall|i: int| 0 <= i < v.len() ==> v[i] == w[i] {
                assert(v =~= w);
            }
        }
        let i = choose|i: int| 0 <= i < v.len() && v[i] != w[i];
        assert(x[i]@ != y[i]@);
    }
}

/// The string that displays a path neither starts nor ends with a slash, and no slash in it
/// follows another.
pub proof fn law_display_is_normal(ps: Seq<Seq<char>>, i: int)
    requires
        model::is_path(ps),
        0 <= i < model::joined(ps).len(),
        model::joined(ps)[i] == '/',
    ensures
        0 < i < model::joined(ps).len() - 1,
        model::joined(ps)[i - 1] != '/',
        model::joined(ps)[i + 1] != '/',
    decreases ps.len(),
{
    let s = model::joined(ps);
    assert(model::is_part(ps[ps.len() - 1]));
    if ps.len() > 1 {
        let init = ps.drop_last();
        assert forall|k: int| 0 <= k < init.len() implies model::is_part(#[trigger] init[k]) by {
            assert(model::is_part(ps[k]));
        }
        let t = model::joined(init);
        let n = t.len() as int;
        assert(s =~= t + seq!['/'] + ps.last());
        lemma_display_ends(init);
        assert forall|k: int| n < k < s.len() implies s[k] != '/' by {
            assert(s[k] == ps.last()[k - n - 1]);
        }
        if i < n {
            assert(t[i] == s[i]);
            law_display_is_normal(init, i);
            assert(s[i - 1] == t[i - 1] && s[i + 1] == t[i + 1]);
        } else {
            assert(i == n);
            assert(s[n - 1] == t[n - 1]);
        }
    }
}

/// The string of a path that is not empty ends with a character other than a slash.
proof fn lemma_display_ends(ps: Seq<Seq<char>>)
    requires
        model::is_path(ps),
        ps.len() > 0,
    ensures
        model::joined(ps).len() > 0,
        model::joined(ps).last() != '/',
{
    assert(model::is_part(ps[ps.len() - 1]));
}

} // verus!
