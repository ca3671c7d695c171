//! Splitting strings at slashes.
//!
//! A slash takes one byte in UTF-8, and that byte occurs in the encoding of no other character.
//! So the slashes of a string are found in its bytes, and the string is cut next to them.
use crate::model;
use vstd::prelude::*;
use vstd::utf8::*;

verus! {

/// The byte that encodes a slash.
pub const SLASH: u8 = 0x2f;

/// The slash byte stands in the encoding of a scalar only if the scalar is the slash.
proof fn lemma_encode_scalar(v: u32)
    requires
        is_scalar(v),
    ensures
        encode_scalar(v).len() > 0,
        v == '/' as u32 ==> encode_scalar(v) == seq![SLASH],
        v != '/' as u32 ==> forall|i: int|
            0 <= i < encode_scalar(v).len() ==> #[trigger] encode_scalar(v)[i] != SLASH,
{
    assert(v <= 0x7F ==> (v & 0x7F) as u8 == v) by (bit_vector);
    assert(0xC0 | ((v >> 6) & 0x1F) as u8 >= 0x80) by (bit_vector);
    assert(0xE0 | ((v >> 12) & 0x0F) as u8 >= 0x80) by (bit_vector);
    assert(0xF0 | ((v >> 18) & 0x7) as u8 >= 0x80) by (bit_vector);
    assert(0x80 | (v & 0x3F) as u8 >= 0x80) by (bit_vector);
    assert(0x80 | ((v >> 6) & 0x3F) as u8 >= 0x80) by (bit_vector);
    assert(0x80 | ((v >> 12) & 0x3F) as u8 >= 0x80) by (bit_vector);
}

/// The encoding of two strings in a row is the two encodings in a row.
pub proof fn lemma_encode_add(a: Seq<char>, b: Seq<char>)
    ensures
        encode_utf8(a + b) == encode_utf8(a) + encode_utf8(b),
    decreases a.len(),
{
    if a.len() == 0 {
        assert(a + b =~= b);
        assert(encode_utf8(a) + encode_utf8(b) =~= encode_utf8(b));
    } else {
        assert((a + b).drop_first() =~= a.drop_first() + b);
        lemma_encode_add(a.drop_first(), b);
        assert(encode_utf8(a + b) =~= encode_utf8(a) + encode_utf8(b));
    }
}

/// A string is encoded as the slash byte if it is one slash.
pub proof fn lemma_encode_slash()
    ensures
        encode_utf8(seq!['/']) == seq![SLASH],
{
    let s = seq!['/'];
    lemma_encode_scalar('/' as u32);
    assert(s.drop_first() =~= Seq::<char>::empty());
    assert(encode_utf8(s.drop_first()) =~= Seq::<u8>::empty());
    assert(encode_utf8(s) =~= seq![SLASH]);
}

/// Strings with the same encoding are the same.
pub proof fn lemma_encode_injective(a: Seq<char>, b: Seq<char>)
    requires
        encode_utf8(a) == encode_utf8(b),
    ensures
        a == b,
{
    encode_utf8_decode_utf8(a);
    encode_utf8_decode_utf8(b);
}

/// Only the empty string has the empty encoding.
pub proof fn lemma_encode_empty(s: Seq<char>)
    ensures
        s.len() == 0 <==> encode_utf8(s).len() == 0,
        s.len() <= encode_utf8(s).len(),
    decreases s.len(),
{
    if s.len() > 0 {
        char_is_scalar(s[0]);
        lemma_encode_scalar(s[0] as u32);
        lemma_encode_empty(s.drop_first());
    }
}

/// Where a string is cut in front of its `k`-th character, the encoding is cut as well.
pub proof fn lemma_encode_cut(s: Seq<char>, k: int)
    requires
        0 <= k <= s.len(),
    ensures
        encode_utf8(s) == encode_utf8(s.take(k)) + encode_utf8(s.skip(k)),
{
    assert(s =~= s.take(k) + s.skip(k));
    lemma_encode_add(s.take(k), s.skip(k));
}

/// Each slash byte of the encoding is a slash of the string.
pub proof fn lemma_slash_at_byte(s: Seq<char>, i: int) -> (k: int)
    requires
        0 <= i < encode_utf8(s).len(),
        encode_utf8(s)[i] == SLASH,
    ensures
        0 <= k < s.len(),
        s[k] == '/',
        encode_utf8(s.take(k)).len() == i,
    decreases s.len(),
{
    let first = encode_scalar(s[0] as u32);
    let rest = s.drop_first();
    char_is_scalar(s[0]);
    lemma_encode_scalar(s[0] as u32);
    assert(encode_utf8(s) == first + encode_utf8(rest));
    if i < first.len() {
        assert(first[i] == SLASH);
        char_u32_cast(s[0], '/' as u32);
        char_u32_cast('/', '/' as u32);
        assert(s.take(0) =~= Seq::<char>::empty());
        0
    } else {
        let j = lemma_slash_at_byte(rest, i - first.len());
        let t = s.take(j + 1);
        assert(t.drop_first() =~= rest.take(j));
        assert(encode_utf8(t) == first + encode_utf8(rest.take(j)));
        j + 1
    }
}

/// Each slash of the string is a slash byte of the encoding.
pub proof fn lemma_slash_at_char(s: Seq<char>, k: int)
    requires
        0 <= k < s.len(),
        s[k] == '/',
    ensures
        encode_utf8(s.take(k)).len() < encode_utf8(s).len(),
        encode_utf8(s)[encode_utf8(s.take(k)).len() as int] == SLASH,
{
    lemma_encode_cut(s, k);
    let t = s.skip(k);
    lemma_encode_cut(t, 1);
    assert(t.take(1) =~= seq!['/']);
    lemma_encode_slash();
}

/// The encoding grows with the string.
pub proof fn lemma_encode_monotone(s: Seq<char>, j: int, k: int)
    requires
        0 <= j < k <= s.len(),
    ensures
        encode_utf8(s.take(j)).len() < encode_utf8(s.take(k)).len(),
{
    let t = s.take(k);
    lemma_encode_cut(t, j);
    assert(t.take(j) =~= s.take(j));
    lemma_encode_empty(t.skip(j));
}

/// The first slash byte of the encoding is the end of the first run of the string.
proof fn lemma_first_slash(s: Seq<char>, i: int)
    requires
        0 <= i <= encode_utf8(s).len(),
        forall|j: int| 0 <= j < i ==> encode_utf8(s)[j] != SLASH,
        i < encode_utf8(s).len() ==> encode_utf8(s)[i] == SLASH,
    ensures
        encode_utf8(s.take(model::run_len(s) as int)) == encode_utf8(s).take(i),
        encode_utf8(s.skip(model::run_len(s) as int)) == encode_utf8(s).skip(i),
{
    let b = encode_utf8(s);
    let k: int = if i < b.len() {
        lemma_slash_at_byte(s, i)
    } else {
        s.len() as int
    };
    if i == b.len() {
        assert(s.take(k) =~= s);
    }
    let front = s.take(k);
    assert forall|j: int| 0 <= j < front.len() implies front[j] != '/' by {
        if front[j] == '/' {
            assert(s[j] == '/');
            lemma_slash_at_char(s, j);
            lemma_encode_monotone(s, j, k);
        }
    }
    model::lemma_run_len_unique(s, k);
    lemma_encode_cut(s, k);
    assert(encode_utf8(front) =~= b.take(i));
    assert(encode_utf8(s.skip(k)) =~= b.skip(i));
}

/// The encoding of a string that ends with a slash ends with the slash byte.
proof fn lemma_last_slash(s: Seq<char>)
    requires
        s.len() > 0,
        s.last() == '/',
    ensures
        encode_utf8(s).len() > 0,
        encode_utf8(s).last() == SLASH,
{
    let k = s.len() - 1;
    lemma_encode_cut(s, k);
    assert(s.skip(k) =~= seq!['/']);
    lemma_encode_slash();
}

/// `s` without its leading slashes.
pub(crate) fn trim_start(s: &str) -> (r: &str)
    ensures
        r@ == model::trim_front(s@),
{
    let mut r: &str = s;
    loop
        invariant
            model::trim_front(r@) == model::trim_front(s@),
        decreases r@.len(),
    {
        let bytes = r.as_bytes();
        if bytes.len() == 0 || bytes[0] != SLASH {
            proof {
                lemma_encode_empty(r@);
                if r@.len() > 0 && r@[0] == '/' {
                    lemma_slash_at_char(r@, 0);
                    assert(r@.take(0) =~= Seq::<char>::empty());
                }
            }
            return r;
        }
        proof {
            encode_utf8_valid_utf8(r@);
            let k = lemma_slash_at_byte(r@, 0);
            if k > 0 {
                lemma_encode_monotone(r@, 0, k);
            }
            lemma_encode_cut(r@, 1);
            assert(r@.take(1) =~= seq!['/']);
            lemma_encode_slash();
            reveal_with_fuel(is_char_boundary, 2);
        }
        let (_, rest) = r.split_at(1);
        proof {
            assert(encode_utf8(r@.skip(1)) =~= encode_utf8(rest@));
            lemma_encode_injective(r@.skip(1), rest@);
            assert(r@.skip(1) =~= r@.drop_first());
        }
        r = rest;
    }
}

/// `s` without its trailing slashes.
pub(crate) fn trim_end(s: &str) -> (r: &str)
    ensures
        r@ == model::trim_back(s@),
{
    let mut r: &str = s;
    loop
        invariant
            model::trim_back(r@) == model::trim_back(s@),
        decreases r@.len(),
    {
        let bytes = r.as_bytes();
        let n: usize = bytes.len();
        if n == 0 || bytes[n - 1] != SLASH {
            proof {
                lemma_encode_empty(r@);
                if r@.len() > 0 && r@.last() == '/' {
                    lemma_last_slash(r@);
                }
            }
            return r;
        }
        proof {
            let last = r@.len() - 1;
            encode_utf8_valid_utf8(r@);
            let k = lemma_slash_at_byte(r@, n - 1);
            lemma_encode_cut(r@, k);
            lemma_encode_monotone(r@, k, r@.len() as int);
            assert(r@.take(r@.len() as int) =~= r@);
            if k < last {
                lemma_encode_monotone(r@, k, last);
                lemma_encode_monotone(r@, last, r@.len() as int);
            }
            is_char_boundary_iff_not_is_continuation_byte(encode_utf8(r@), n - 1);
        }
        let (rest, _) = r.split_at(n - 1);
        proof {
            assert(encode_utf8(r@.take(r@.len() - 1)) =~= encode_utf8(rest@));
            lemma_encode_injective(r@.take(r@.len() - 1), rest@);
            assert(r@.take(r@.len() - 1) =~= r@.drop_last());
        }
        r = rest;
    }
}

/// Whether two strings hold the same characters.
pub(crate) fn same(a: &str, b: &str) -> (r: bool)
    ensures
        r == (a@ == b@),
{
    let x = a.as_bytes();
    let y = b.as_bytes();
    if x.len() != y.len() {
        return false;
    }
    let mut i: usize = 0;
    while i < x.len()
        invariant
            i <= x@.len(),
            x@.len() == y@.len(),
            x@ == encode_utf8(a@),
            y@ == encode_utf8(b@),
            forall|j: int| 0 <= j < i ==> x@[j] == y@[j],
        decreases x@.len() - i,
    {
        if x[i] != y[i] {
            return false;
        }
        i = i + 1;
    }
    proof {
        assert(x@ =~= y@);
        lemma_encode_injective(a@, b@);
    }
    true
}

/// The first part of the path that `s` denotes, and the string behind it without its leading
/// slashes. There is none if `s` denotes no part.
pub(crate) fn split_first(s: &str) -> (r: Option<(&str, &str)>)
    ensures
        r is None <==> model::parts_of(s@).len() == 0,
        r matches Some((dir, rest)) ==> {
            &&& model::is_part(dir@)
            &&& model::parts_of(s@) == seq![dir@] + model::parts_of(rest@)
            &&& rest@.is_suffix_of(s@)
            &&& rest@.len() > 0 ==> rest@[0] != '/'
            &&& rest@.len() < s@.len()
        },
{
    let t = trim_start(s);
    proof {
        model::lemma_trim_front(s@);
    }
    if t.is_empty() {
        return None;
    }
    let bytes = t.as_bytes();
    let n: usize = bytes.len();
    let mut i: usize = 0;
    while i < n && bytes[i] != SLASH
        invariant
            i <= n,
            n == bytes@.len(),
            forall|j: int| 0 <= j < i ==> bytes@[j] != SLASH,
        decreases n - i,
    {
        i = i + 1;
    }
    proof {
        let b = encode_utf8(t@);
        encode_utf8_valid_utf8(t@);
        lemma_first_slash(t@, i as int);
        model::lemma_run_len(t@);
        is_char_boundary_start_end_of_seq(b);
        if i < n {
            is_char_boundary_iff_not_is_continuation_byte(b, i as int);
        }
    }
    let (dir, behind) = t.split_at(i);
    let rest = trim_start(behind);
    proof {
        let b = encode_utf8(t@);
        let k = model::run_len(t@) as int;
        assert(encode_utf8(dir@) =~= b.take(i as int));
        assert(encode_utf8(behind@) =~= b.skip(i as int));
        lemma_encode_injective(dir@, t@.take(k));
        lemma_encode_injective(behind@, t@.skip(k));
        model::lemma_trim_front(behind@);
    }
    Some((dir, rest))
}

} // verus!
