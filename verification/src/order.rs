//! The order of paths: lexicographic over the parts, which are ordered by their bytes.
use crate::model;
use crate::text;
use vstd::prelude::*;
use vstd::utf8::*;

verus! {

/// The place of one value relative to another.
#[derive(Clone, Copy, PartialEq, Eq, Structural, Debug)]
pub enum Place {
    Before,
    Same,
    After,
}

/// `a` comes before `b` in the lexicographic order of byte strings.
pub open spec fn bytes_before(a: Seq<u8>, b: Seq<u8>) -> bool
    decreases a.len(),
{
    if b.len() == 0 {
        false
    } else if a.len() == 0 {
        true
    } else if a[0] != b[0] {
        a[0] < b[0]
    } else {
        bytes_before(a.drop_first(), b.drop_first())
    }
}

/// The part `p` comes before the part `q`: its UTF-8 bytes do.
pub open spec fn part_before(p: Seq<char>, q: Seq<char>) -> bool {
    bytes_before(encode_utf8(p), encode_utf8(q))
}

/// The path `ps` comes before the path `qs`: at the first part in which they differ its part
/// comes first, or it ends there.
pub open spec fn path_before(ps: Seq<Seq<char>>, qs: Seq<Seq<char>>) -> bool
    decreases ps.len(),
{
    if qs.len() == 0 {
        false
    } else if ps.len() == 0 {
        true
    } else if ps[0] != qs[0] {
        part_before(ps[0], qs[0])
    } else {
        path_before(ps.drop_first(), qs.drop_first())
    }
}

/// Where the part `p` stands relative to the part `q`.
pub open spec fn part_place(p: Seq<char>, q: Seq<char>) -> Place {
    if p == q {
        Place::Same
    } else if part_before(p, q) {
        Place::Before
    } else {
        Place::After
    }
}

/// Where the path `ps` stands relative to the path `qs`.
pub open spec fn path_place(ps: Seq<Seq<char>>, qs: Seq<Seq<char>>) -> Place {
    if ps == qs {
        Place::Same
    } else if path_before(ps, qs) {
        Place::Before
    } else {
        Place::After
    }
}

/// The path `ps` comes before the path `qs` in a list of prefixes: it is shorter when
/// displayed, or it is as long and comes first in the order of paths.
pub open spec fn prefix_before(ps: Seq<Seq<char>>, qs: Seq<Seq<char>>) -> bool {
    if model::display_len(ps) != model::display_len(qs) {
        model::display_len(ps) < model::display_len(qs)
    } else {
        path_before(ps, qs)
    }
}

/// Of two byte strings one comes first, unless they are the same.
pub proof fn lemma_bytes_total(a: Seq<u8>, b: Seq<u8>)
    ensures
        a != b ==> bytes_before(a, b) || bytes_before(b, a),
        !(bytes_before(a, b) && bytes_before(b, a)),
        !bytes_before(a, a),
    decreases a.len(),
{
    if a.len() > 0 && b.len() > 0 {
        lemma_bytes_total(a.drop_first(), b.drop_first());
        if a[0] == b[0] && a.drop_first() == b.drop_first() {
            assert(a =~= seq![a[0]] + a.drop_first());
            assert(b =~= seq![b[0]] + b.drop_first());
        }
    } else {
        if a.len() == 0 && b.len() == 0 {
            assert(a =~= b);
        }
        if a.len() > 0 {
            lemma_bytes_total(a.drop_first(), a.drop_first());
        }
    }
}

/// The order of byte strings is transitive.
pub proof fn lemma_bytes_transitive(a: Seq<u8>, b: Seq<u8>, c: Seq<u8>)
    requires
        bytes_before(a, b),
        bytes_before(b, c),
    ensures
        bytes_before(a, c),
    decreases a.len(),
{
    if a.len() > 0 && a[0] == b[0] && b[0] == c[0] {
        lemma_bytes_transitive(a.drop_first(), b.drop_first(), c.drop_first());
    }
}

/// Of two parts one comes first, unless they are the same.
pub proof fn lemma_part_total(p: Seq<char>, q: Seq<char>)
    ensures
        p != q ==> part_before(p, q) || part_before(q, p),
        !(part_before(p, q) && part_before(q, p)),
        !part_before(p, p),
{
    lemma_bytes_total(encode_utf8(p), encode_utf8(q));
    if encode_utf8(p) == encode_utf8(q) {
        text::lemma_encode_injective(p, q);
    }
}

/// Of two paths one comes first, unless they are the same.
pub proof fn lemma_path_total(ps: Seq<Seq<char>>, qs: Seq<Seq<char>>)
    ensures
        ps != qs ==> path_before(ps, qs) || path_before(qs, ps),
        !(path_before(ps, qs) && path_before(qs, ps)),
        !path_before(ps, ps),
    decreases ps.len(),
{
    if ps.len() > 0 && qs.len() > 0 {
        lemma_part_total(ps[0], qs[0]);
        lemma_path_total(ps.drop_first(), qs.drop_first());
        if ps[0] == qs[0] && ps.drop_first() == qs.drop_first() {
            assert(ps =~= seq![ps[0]] + ps.drop_first());
            assert(qs =~= seq![qs[0]] + qs.drop_first());
        }
    } else {
        if ps.len() == 0 && qs.len() == 0 {
            assert(ps =~= qs);
        }
        if ps.len() > 0 {
            lemma_path_total(ps.drop_first(), ps.drop_first());
        }
    }
}

/// The order of paths is transitive.
pub proof fn lemma_path_transitive(ps: Seq<Seq<char>>, qs: Seq<Seq<char>>, rs: Seq<Seq<char>>)
    requires
        path_before(ps, qs),
        path_before(qs, rs),
    ensures
        path_before(ps, rs),
    decreases ps.len(),
{
    if ps.len() > 0 {
        if ps[0] == qs[0] && qs[0] == rs[0] {
            lemma_path_transitive(ps.drop_first(), qs.drop_first(), rs.drop_first());
        } else if ps[0] != qs[0] && qs[0] != rs[0] {
            lemma_bytes_transitive(encode_utf8(ps[0]), encode_utf8(qs[0]), encode_utf8(rs[0]));
            lemma_part_total(ps[0], rs[0]);
        }
    }
}

/// The order of prefixes is total and strict.
pub proof fn lemma_prefix_total(ps: Seq<Seq<char>>, qs: Seq<Seq<char>>)
    ensures
        ps != qs ==> prefix_before(ps, qs) || prefix_before(qs, ps),
        !(prefix_before(ps, qs) && prefix_before(qs, ps)),
        !prefix_before(ps, ps),
{
    lemma_path_total(ps, qs);
}

/// The order of prefixes is transitive.
pub proof fn lemma_prefix_transitive(ps: Seq<Seq<char>>, qs: Seq<Seq<char>>, rs: Seq<Seq<char>>)
    requires
        prefix_before(ps, qs),
        prefix_before(qs, rs),
    ensures
        prefix_before(ps, rs),
{
    if model::display_len(ps) == model::display_len(qs) && model::display_len(qs)
        == model::display_len(rs) {
        lemma_path_transitive(ps, qs, rs);
    }
}

/// Where `a` stands relative to `b`, by their bytes.
pub(crate) fn place_str(a: &str, b: &str) -> (r: Place)
    ensures
        r == part_place(a@, b@),
{
    let x = a.as_bytes();
    let y = b.as_bytes();
    let mut i: usize = 0;
    proof {
        assert(x@.skip(0) =~= x@);
        assert(y@.skip(0) =~= y@);
        if a@ != b@ && x@ == y@ {
            text::lemma_encode_injective(a@, b@);
        }
    }
    while i < x.len() && i < y.len()
        invariant
            i <= x@.len(),
            i <= y@.len(),
            x@ == encode_utf8(a@),
            y@ == encode_utf8(b@),
            x@ == y@ ==> a@ == b@,
            forall|j: int| 0 <= j < i ==> x@[j] == y@[j],
            bytes_before(x@, y@) == bytes_before(x@.skip(i as int), y@.skip(i as int)),
        decreases x@.len() - i,
    {
        if x[i] != y[i] {
            return if x[i] < y[i] {
                Place::Before
            } else {
                Place::After
            };
        }
        proof {
            assert(x@.skip(i as int).drop_first() =~= x@.skip(i + 1));
            assert(y@.skip(i as int).drop_first() =~= y@.skip(i + 1));
        }
        i = i + 1;
    }
    if x.len() == y.len() {
        assert(x@ =~= y@);
        Place::Same
    } else if i == x.len() {
        Place::Before
    } else {
        Place::After
    }
}

} // verus!
