//! The mathematical model of a path.
//!
//! A path is the sequence of its parts. A part is a non-empty string without a slash, and a
//! string is the sequence of its characters.
use crate::text;
use vstd::prelude::*;
use vstd::utf8::*;

verus! {

/// No character of `s` is a slash.
pub open spec fn slash_free(s: Seq<char>) -> bool {
    forall|i: int| 0 <= i < s.len() ==> s[i] != '/'
}

/// `p` can be a part of a path: it is not empty and holds no slash.
pub open spec fn is_part(p: Seq<char>) -> bool {
    p.len() > 0 && slash_free(p)
}

/// `ps` is a path: each item is a part.
pub open spec fn is_path(ps: Seq<Seq<char>>) -> bool {
    forall|i: int| 0 <= i < ps.len() ==> is_part(#[trigger] ps[i])
}

/// The number of characters in front of the first slash of `s`, or all of them if it has none.
pub open spec fn run_len(s: Seq<char>) -> nat
    decreases s.len(),
{
    if s.len() == 0 || s[0] == '/' {
        0
    } else {
        1 + run_len(s.drop_first())
    }
}

/// The parts that the string `s` denotes: its maximal runs of characters other than a slash,
/// in order.
pub open spec fn parts_of(s: Seq<char>) -> Seq<Seq<char>>
    decreases s.len(),
{
    if s.len() == 0 {
        Seq::empty()
    } else if s[0] == '/' {
        parts_of(s.drop_first())
    } else {
        proof {
            lemma_run_len(s);
        }
        seq![s.take(run_len(s) as int)] + parts_of(s.skip(run_len(s) as int))
    }
}

/// The parts `ps` written one after another with a single slash between neighbours.
pub open spec fn joined(ps: Seq<Seq<char>>) -> Seq<char>
    decreases ps.len(),
{
    if ps.len() == 0 {
        Seq::empty()
    } else if ps.len() == 1 {
        ps[0]
    } else {
        joined(ps.drop_last()) + seq!['/'] + ps.last()
    }
}

/// The number of bytes that `joined(ps)` takes in UTF-8.
pub open spec fn display_len(ps: Seq<Seq<char>>) -> nat {
    encode_utf8(joined(ps)).len()
}

/// `s` without the slashes that it starts with.
pub open spec fn trim_front(s: Seq<char>) -> Seq<char>
    decreases s.len(),
{
    if s.len() > 0 && s[0] == '/' {
        trim_front(s.drop_first())
    } else {
        s
    }
}

/// `s` without the slashes that it ends with.
pub open spec fn trim_back(s: Seq<char>) -> Seq<char>
    decreases s.len(),
{
    if s.len() > 0 && s.last() == '/' {
        trim_back(s.drop_last())
    } else {
        s
    }
}

/// `s` neither starts nor ends with a slash.
pub open spec fn is_trimmed(s: Seq<char>) -> bool {
    s.len() > 0 ==> s[0] != '/' && s.last() != '/'
}

/// The run that `run_len` measures is slash-free, and a slash follows it unless `s` ends there.
pub proof fn lemma_run_len(s: Seq<char>)
    ensures
        run_len(s) <= s.len(),
        slash_free(s.take(run_len(s) as int)),
        run_len(s) < s.len() ==> s[run_len(s) as int] == '/',
        s.len() > 0 && s[0] != '/' ==> run_len(s) > 0,
    decreases s.len(),
{
    if s.len() > 0 && s[0] != '/' {
        let rest = s.drop_first();
        lemma_run_len(rest);
        let n = run_len(s) as int;
        assert forall|i: int| 0 <= i < s.take(n).len() implies s.take(n)[i] != '/' by {
            if i > 0 {
                assert(s.take(n)[i] == rest.take(n - 1)[i - 1]);
            }
        }
    }
}

/// `run_len` is the only length that `lemma_run_len` describes.
pub proof fn lemma_run_len_unique(s: Seq<char>, n: int)
    requires
        0 <= n <= s.len(),
        slash_free(s.take(n)),
        n < s.len() ==> s[n] == '/',
    ensures
        run_len(s) == n,
{
    lemma_run_len(s);
    let r = run_len(s) as int;
    if r < n {
        assert(s.take(n)[r] == '/');
    }
    if n < r {
        assert(s.take(r)[n] == '/');
    }
}

/// The parts of a string are parts.
pub proof fn lemma_parts_of_is_path(s: Seq<char>)
    ensures
        is_path(parts_of(s)),
    decreases s.len(),
{
    if s.len() == 0 {
    } else if s[0] == '/' {
        lemma_parts_of_is_path(s.drop_first());
    } else {
        lemma_run_len(s);
        lemma_parts_of_is_path(s.skip(run_len(s) as int));
    }
}

/// A part, read as a string, denotes the path of that one part.
pub proof fn lemma_parts_of_part(p: Seq<char>)
    requires
        is_part(p),
    ensures
        parts_of(p) == seq![p],
{
    assert(p.take(p.len() as int) =~= p);
    lemma_run_len_unique(p, p.len() as int);
    assert(p.skip(p.len() as int) =~= Seq::<char>::empty());
    assert(parts_of(p.skip(p.len() as int)) =~= Seq::<Seq<char>>::empty());
    assert(parts_of(p) =~= seq![p]);
}

/// A slash ends a run: what stands in front of it and what follows are split apart.
pub proof fn lemma_parts_of_add(a: Seq<char>, b: Seq<char>)
    requires
        b.len() > 0 ==> b[0] == '/',
    ensures
        parts_of(a + b) == parts_of(a) + parts_of(b),
    decreases a.len(),
{
    let s = a + b;
    if a.len() == 0 {
        assert(s =~= b);
        assert(parts_of(a) + parts_of(b) =~= parts_of(b));
    } else if a[0] == '/' {
        assert(s.drop_first() =~= a.drop_first() + b);
        lemma_parts_of_add(a.drop_first(), b);
    } else {
        lemma_run_len(a);
        let n = run_len(a) as int;
        assert(s.take(n) =~= a.take(n));
        assert(s.skip(n) =~= a.skip(n) + b);
        lemma_run_len_unique(s, n);
        lemma_parts_of_add(a.skip(n), b);
        assert(parts_of(s) =~= parts_of(a) + parts_of(b));
    }
}

/// Two strings with a slash between them denote the parts of the first and then those of the
/// second.
pub proof fn lemma_parts_of_slash(a: Seq<char>, b: Seq<char>)
    ensures
        parts_of(a + seq!['/'] + b) == parts_of(a) + parts_of(b),
{
    let t = seq!['/'] + b;
    assert(t.drop_first() =~= b);
    assert(a + seq!['/'] + b =~= a + t);
    lemma_parts_of_add(a, t);
}

/// Leading slashes do not change the parts.
pub proof fn lemma_trim_front(s: Seq<char>)
    ensures
        parts_of(trim_front(s)) == parts_of(s),
        trim_front(s).is_suffix_of(s),
        trim_front(s).len() > 0 ==> trim_front(s)[0] != '/',
    decreases s.len(),
{
    if s.len() > 0 && s[0] == '/' {
        lemma_trim_front(s.drop_first());
    } else {
        assert(s =~= s.subrange(0, s.len() as int));
    }
}

/// Trailing slashes do not change the parts.
pub proof fn lemma_trim_back(s: Seq<char>)
    ensures
        parts_of(trim_back(s)) == parts_of(s),
        trim_back(s).is_prefix_of(s),
        trim_back(s).len() > 0 ==> trim_back(s).last() != '/',
    decreases s.len(),
{
    if s.len() > 0 && s.last() == '/' {
        let t = s.drop_last();
        lemma_trim_back(t);
        lemma_parts_of_slash(t, Seq::empty());
        assert(t + seq!['/'] + Seq::<char>::empty() =~= s);
        assert(parts_of(t) + parts_of(Seq::<char>::empty()) =~= parts_of(t));
    } else {
        assert(s =~= s.subrange(0, s.len() as int));
    }
}

/// Writing a path as a string and reading that string gives the path back.
pub proof fn lemma_parts_of_joined(ps: Seq<Seq<char>>)
    requires
        is_path(ps),
    ensures
        parts_of(joined(ps)) == ps,
    decreases ps.len(),
{
    if ps.len() == 0 {
        assert(parts_of(joined(ps)) =~= ps);
    } else if ps.len() == 1 {
        assert(is_part(ps[0]));
        lemma_parts_of_part(ps[0]);
        assert(ps =~= seq![ps[0]]);
    } else {
        let init = ps.drop_last();
        assert forall|i: int| 0 <= i < init.len() implies is_part(#[trigger] init[i]) by {
            assert(is_part(ps[i]));
        }
        lemma_parts_of_joined(init);
        assert(is_part(ps[ps.len() - 1]));
        lemma_parts_of_part(ps.last());
        lemma_parts_of_slash(joined(init), ps.last());
        assert(init + seq![ps.last()] =~= ps);
    }
}

/// `joined` over two paths: the strings of both with a slash between them.
pub proof fn lemma_joined_add(a: Seq<Seq<char>>, b: Seq<Seq<char>>)
    requires
        a.len() > 0,
        b.len() > 0,
    ensures
        joined(a + b) == joined(a) + seq!['/'] + joined(b),
    decreases b.len(),
{
    let ab = a + b;
    assert(ab.drop_last() =~= a + b.drop_last());
    if b.len() == 1 {
        assert(a + b.drop_last() =~= a);
        assert(ab.last() == b[0]);
    } else {
        lemma_joined_add(a, b.drop_last());
        assert(joined(ab) =~= joined(a) + seq!['/'] + joined(b));
    }
}

/// The display length of a path grows by each part and by the slash in front of it.
pub proof fn lemma_display_len_push(ps: Seq<Seq<char>>, n: int)
    requires
        0 <= n < ps.len(),
    ensures
        display_len(ps.take(n + 1)) == if n == 0 {
            encode_utf8(ps[0]).len()
        } else {
            display_len(ps.take(n)) + 1 + encode_utf8(ps[n]).len()
        },
{
    let t = ps.take(n + 1);
    if n > 0 {
        assert(t.drop_last() =~= ps.take(n));
        let front = joined(ps.take(n)) + seq!['/'];
        text::lemma_encode_add(front, ps[n]);
        text::lemma_encode_add(joined(ps.take(n)), seq!['/']);
        text::lemma_encode_slash();
    }
}

/// The display length of two paths in a row.
pub proof fn lemma_display_len_add(a: Seq<Seq<char>>, b: Seq<Seq<char>>)
    requires
        a.len() > 0,
        b.len() > 0,
    ensures
        display_len(a + b) == display_len(a) + 1 + display_len(b),
{
    lemma_joined_add(a, b);
    text::lemma_encode_add(joined(a) + seq!['/'], joined(b));
    text::lemma_encode_add(joined(a), seq!['/']);
    text::lemma_encode_slash();
}

/// Only the empty path takes no room.
pub proof fn lemma_display_len_positive(ps: Seq<Seq<char>>)
    requires
        is_path(ps),
    ensures
        ps.len() > 0 <==> display_len(ps) > 0,
{
    if ps.len() > 0 {
        assert(is_part(ps[ps.len() - 1]));
        text::lemma_encode_empty(joined(ps));
    }
}

/// A string takes at least the bytes of the path that it denotes.
pub proof fn lemma_display_len_parts_of(s: Seq<char>)
    ensures
        display_len(parts_of(s)) <= encode_utf8(s).len(),
    decreases s.len(),
{
    if s.len() == 0 {
    } else if s[0] == '/' {
        lemma_display_len_parts_of(s.drop_first());
        text::lemma_encode_cut(s, 1);
        assert(s.skip(1) =~= s.drop_first());
    } else {
        lemma_run_len(s);
        let n = run_len(s) as int;
        let rest = s.skip(n);
        text::lemma_encode_cut(s, n);
        let first = seq![s.take(n)];
        if rest.len() > 0 {
            lemma_display_len_parts_of(rest.drop_first());
            text::lemma_encode_cut(rest, 1);
            assert(rest.take(1) =~= seq!['/']);
            assert(rest.skip(1) =~= rest.drop_first());
            text::lemma_encode_slash();
        }
        if parts_of(rest).len() > 0 {
            lemma_display_len_add(first, parts_of(rest));
        } else {
            assert(first + parts_of(rest) =~= first);
        }
    }
}

/// A string denotes no more parts than it has characters.
pub proof fn lemma_parts_of_len(s: Seq<char>)
    ensures
        parts_of(s).len() <= s.len(),
    decreases s.len(),
{
    if s.len() == 0 {
    } else if s[0] == '/' {
        lemma_parts_of_len(s.drop_first());
    } else {
        lemma_run_len(s);
        lemma_parts_of_len(s.skip(run_len(s) as int));
    }
}

/// A suffix of a path is a path, and not longer when displayed.
pub proof fn lemma_skip(ps: Seq<Seq<char>>, n: int)
    requires
        is_path(ps),
        0 <= n <= ps.len(),
    ensures
        is_path(ps.skip(n)),
        display_len(ps.skip(n)) <= display_len(ps),
{
    assert forall|i: int| 0 <= i < ps.skip(n).len() implies is_part(#[trigger] ps.skip(n)[i]) by {
        assert(is_part(ps[i + n]));
    }
    if 0 < n < ps.len() {
        assert(ps =~= ps.take(n) + ps.skip(n));
        lemma_display_len_add(ps.take(n), ps.skip(n));
    } else if n == 0 {
        assert(ps.skip(n) =~= ps);
    } else {
        assert(ps.skip(n) =~= Seq::<Seq<char>>::empty());
    }
}

/// Two paths in a row are a path.
pub proof fn lemma_append(a: Seq<Seq<char>>, b: Seq<Seq<char>>)
    requires
        is_path(a),
        is_path(b),
    ensures
        is_path(a + b),
{
    assert forall|i: int| 0 <= i < (a + b).len() implies is_part(#[trigger] (a + b)[i]) by {
        if i < a.len() {
            assert(is_part(a[i]));
        } else {
            assert(is_part(b[i - a.len()]));
        }
    }
}

} // verus!
