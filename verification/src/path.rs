//! Broadcast paths and the iterator over their parts.
use crate::model;
use crate::text;
use std::sync::Arc;
use vstd::prelude::*;
use vstd::utf8::*;

verus! {

/// An owned version of [`Path`] with a `'static` lifetime.
pub type PathOwned = Path<'static>;

/// A trait for types that can be converted to a [`Path`].
///
/// When providing a `String` or `str`, leading and trailing slashes are trimmed and multiple
/// consecutive slashes are collapsed. When already a `Path`, normalization is skipped and the
/// underlying parts are reused without copying.
pub trait AsPath {
    /// The parts of the path that the value stands for.
    spec fn path_parts(&self) -> Seq<Seq<char>>;

    /// The value as a path.
    fn as_path(&self) -> (path: Path<'_>)
        ensures
            path@ == self.path_parts(),
    ;
}

/// A borrowed, unparsed string or a suffix of a shared list of shared parts.
///
/// The `Parts` variant is what makes owned paths cheap: every part is its own
/// reference-counted string, so paths built by joining a common root share the root's part
/// allocations instead of duplicating the prefix bytes per path. Cloning bumps one refcount on
/// the list and suffix operations only advance `start`.
enum Repr<'a> {
    Str(&'a str),
    Parts { list: Arc<[Arc<str>]>, start: usize },
}

/// A broadcast path: a sequence of non-empty parts, like a filesystem path.
///
/// Provides safe prefix matching operations that respect part boundaries, preventing issues
/// like "foo" matching "foobar".
///
/// Paths are automatically trimmed of leading and trailing slashes on creation, making all
/// slashes implicit at boundaries. All paths are relative; joining with a leading slash does not
/// make an absolute path.
///
/// Owned paths ([`PathOwned`]) store each part as a shared reference-counted string: cloning,
/// [`Path::to_owned`] on an owned path, and suffix operations like [`Path::strip_prefix`] do not
/// copy any bytes, and paths built with [`Path::join`] share the parts of both inputs.
///
/// In contracts, the view of a path is the sequence of its parts.
pub struct Path<'a>(Repr<'a>);

/// Iterator over the parts of a [`Path`], yielded in order.
///
/// In contracts, the view is the sequence of the parts that are still to come.
pub struct Parts<'p> {
    inner: PartsRepr<'p>,
}

enum PartsRepr<'p> {
    Str(&'p str),
    List { list: &'p [Arc<str>], next: usize },
}

/// The parts that a list of shared strings holds.
spec fn list_parts(list: Seq<Arc<str>>) -> Seq<Seq<char>> {
    Seq::new(list.len(), |i: int| (*list[i])@)
}

impl<'a> View for Path<'a> {
    type V = Seq<Seq<char>>;

    closed spec fn view(&self) -> Seq<Seq<char>> {
        match self.0 {
            Repr::Str(s) => model::parts_of(s@),
            Repr::Parts { list, start } => list_parts((*list)@).skip(start as int),
        }
    }
}

impl<'p> View for Parts<'p> {
    type V = Seq<Seq<char>>;

    closed spec fn view(&self) -> Seq<Seq<char>> {
        match self.inner {
            PartsRepr::Str(s) => model::parts_of(s@),
            PartsRepr::List { list, next } => list_parts(list@).skip(next as int),
        }
    }
}

/// `std::sync::Arc::from`, on a string: a new shared string with the characters of `s`.
#[verifier::external_body]
fn shared_str(s: &str) -> (r: Arc<str>)
    ensures
        (*r)@ == s@,
{
    Arc::from(s)
}

/// `std::sync::Arc::from`, on a vector: a new shared list with the items of `v`, in order.
#[verifier::external_body]
fn shared_list(v: Vec<Arc<str>>) -> (r: Arc<[Arc<str>]>)
    ensures
        (*r)@ == v@,
{
    Arc::from(v)
}

impl<'p> Parts<'p> {
    #[verifier::type_invariant]
    spec fn wf(self) -> bool {
        match self.inner {
            PartsRepr::Str(_) => true,
            PartsRepr::List { list, next } => {
                &&& next <= list@.len()
                &&& model::is_path(list_parts(list@))
            },
        }
    }

    /// Whether the parts come from a shared list, so that their number is known.
    pub closed spec fn from_list(&self) -> bool {
        self.inner is List
    }
}

impl<'p> Iterator for Parts<'p> {
    type Item = &'p str;

    /// The next part, if any.
    fn next(&mut self) -> (part: Option<&'p str>)
        ensures
            part is None <==> old(self)@.len() == 0,
            part is None ==> final(self)@ == old(self)@,
            part matches Some(p) ==> {
                &&& model::is_part(p@)
                &&& p@ == old(self)@[0]
                &&& final(self)@ == old(self)@.drop_first()
            },
            final(self).from_list() == old(self).from_list(),
    {
        proof {
            use_type_invariant(&*self);
        }
        match &self.inner {
            PartsRepr::Str(s) => {
                match text::split_first(s) {
                    None => None,
                    Some((dir, rest)) => {
                        let ghost before = self@;
                        self.inner = PartsRepr::Str(rest);
                        assert(self@ =~= before.drop_first());
                        Some(dir)
                    },
                }
            },
            PartsRepr::List { list, next } => {
                let list: &'p [Arc<str>] = list;
                let next: usize = *next;
                if next < list.len() {
                    let ghost before = self@;
                    self.inner = PartsRepr::List { list, next: next + 1 };
                    assert(self@ =~= before.drop_first());
                    assert(model::is_part(list_parts(list@)[next as int]));
                    Some(&*list[next])
                } else {
                    None
                }
            },
        }
    }

    /// The number of parts to come, where it is known.
    fn size_hint(&self) -> (hint: (usize, Option<usize>))
        ensures
            self.from_list() ==> hint.0 == self@.len() && hint.1 == Some(hint.0),
            !self.from_list() ==> hint == (0usize, None::<usize>),
    {
        proof {
            use_type_invariant(self);
        }
        match &self.inner {
            PartsRepr::Str(_) => (0, None),
            PartsRepr::List { list, next } => {
                let n: usize = list.len() - *next;
                (n, Some(n))
            },
        }
    }
}

/// The contract of `next` speaks of the characters of each part. The laws of iterators that
/// predict their items speak of the items as values, so they are not claimed.
impl<'p> vstd::std_specs::iter::IteratorSpecImpl for Parts<'p> {
    open spec fn obeys_prophetic_iter_laws(&self) -> bool {
        false
    }

    open spec fn remaining(&self) -> Seq<Self::Item> {
        Seq::empty()
    }

    open spec fn will_return_none(&self) -> bool {
        false
    }

    open spec fn decrease(&self) -> Option<nat> {
        None
    }

    open spec fn initial_value_relation(&self, init: &Self) -> bool {
        true
    }

    open spec fn peek(&self, index: int) -> Option<Self::Item> {
        None
    }
}

impl<'a> Path<'a> {
    /// Maximum number of slash-separated parts in a path.
    ///
    /// Matches the limit of 32 fields in a namespace tuple of the IETF moq-transport protocol.
    /// Encoding or decoding a deeper path fails.
    pub const MAX_PARTS: usize = 32;

    #[verifier::type_invariant]
    spec fn wf(self) -> bool {
        match self.0 {
            Repr::Str(s) => model::is_trimmed(s@),
            Repr::Parts { list, start } => {
                &&& start <= (*list)@.len()
                &&& model::is_path(list_parts((*list)@))
            },
        }
    }

    /// The parts of a well-formed path are parts.
    proof fn lemma_is_path(self)
        requires
            self.wf(),
        ensures
            model::is_path(self@),
    {
        match self.0 {
            Repr::Str(s) => {
                model::lemma_parts_of_is_path(s@);
            },
            Repr::Parts { list, start } => {
                model::lemma_skip(list_parts((*list)@), start as int);
            },
        }
    }

    /// Whether the parts are held in a shared list.
    pub closed spec fn is_shared(&self) -> bool {
        self.0 is Parts
    }

    /// Create a new path from a string slice.
    ///
    /// Leading and trailing slashes are automatically trimmed. Multiple consecutive internal
    /// slashes are collapsed to single slashes.
    pub fn new(s: &'a str) -> (path: Self)
        ensures
            path@ == model::parts_of(s@),
            model::is_path(path@),
            model::display_len(path@) <= usize::MAX,
            !path.is_shared(),
    {
        let trimmed = text::trim_end(text::trim_start(s));
        let bytes = s.as_bytes();
        proof {
            let front = model::trim_front(s@);
            model::lemma_trim_front(s@);
            model::lemma_trim_back(front);
            model::lemma_parts_of_is_path(s@);
            model::lemma_display_len_parts_of(s@);
            assert(bytes.len() <= usize::MAX);
        }
        Path(Repr::Str(trimmed))
    }

    /// Iterate over the parts of the path. The empty path has no parts.
    pub fn parts(&self) -> (parts: Parts<'_>)
        ensures
            parts@ == self@,
            parts.from_list() == self.is_shared(),
            model::is_path(self@),
    {
        proof {
            use_type_invariant(self);
            self.lemma_is_path();
        }
        Parts {
            inner: match &self.0 {
                Repr::Str(s) => PartsRepr::Str(s),
                Repr::Parts { list, start } => PartsRepr::List { list: &**list, next: *start },
            },
        }
    }

    /// Get the nth part of the path, if any.
    pub fn part(&self, n: usize) -> (part: Option<&str>)
        ensures
            part is Some <==> n < self@.len(),
            part matches Some(p) ==> p@ == self@[n as int],
    {
        let mut parts = self.parts();
        let mut i: usize = 0;
        loop
            invariant
                i <= n,
                i <= self@.len(),
                parts@ == self@.skip(i as int),
            decreases n - i,
        {
            match parts.next() {
                None => {
                    return None;
                },
                Some(part) => {
                    if i == n {
                        return Some(part);
                    }
                    i = i + 1;
                    assert(parts@ =~= self@.skip(i as int));
                },
            }
        }
    }

    /// Number of parts in the path.
    pub fn part_count(&self) -> (n: usize)
        ensures
            n == self@.len(),
    {
        proof {
            use_type_invariant(self);
        }
        match &self.0 {
            Repr::Str(s) => {
                let bytes = s.as_bytes();
                let mut parts = self.parts();
                let mut n: usize = 0;
                proof {
                    text::lemma_encode_empty(s@);
                    model::lemma_parts_of_len(s@);
                    assert(bytes.len() <= usize::MAX);
                }
                loop
                    invariant
                        n + parts@.len() == self@.len(),
                        self@.len() <= usize::MAX,
                    decreases parts@.len(),
                {
                    match parts.next() {
                        None => {
                            return n;
                        },
                        Some(_) => {
                            n = n + 1;
                        },
                    }
                }
            },
            Repr::Parts { list, start } => list.len() - *start,
        }
    }

    /// Check if this path has the given prefix, respecting part boundaries.
    ///
    /// Unlike `str::starts_with`, this ensures that "foo" does not match "foobar". The prefix
    /// must either:
    /// - be exactly equal to this path
    /// - be a leading sequence of this path's parts
    /// - be empty (matches everything)
    pub fn has_prefix(&self, prefix: impl AsPath) -> (r: bool)
        ensures
            r == prefix.path_parts().is_prefix_of(self@),
    {
        let expected = prefix.as_path();
        let mut parts = self.parts();
        let mut wanted = expected.parts();
        let ghost mut n: int = 0;
        assert(self@.skip(0) =~= self@);
        assert(expected@.skip(0) =~= expected@);
        loop
            invariant
                expected@ == prefix.path_parts(),
                0 <= n <= self@.len(),
                n <= expected@.len(),
                parts@ == self@.skip(n),
                wanted@ == expected@.skip(n),
                forall|i: int| 0 <= i < n ==> self@[i] == expected@[i],
            decreases expected@.len() - n,
        {
            match wanted.next() {
                None => {
                    assert(expected@ =~= self@.subrange(0, expected@.len() as int));
                    return true;
                },
                Some(want) => {
                    let matches = match parts.next() {
                        None => false,
                        Some(part) => text::same(part, want),
                    };
                    if !matches {
                        proof {
                            assert(expected@[n] == want@);
                            if expected@.is_prefix_of(self@) {
                                assert(self@.subrange(0, expected@.len() as int)[n] == self@[n]);
                            }
                        }
                        return false;
                    }
                    proof {
                        n = n + 1;
                        assert(parts@ =~= self@.skip(n));
                        assert(wanted@ =~= expected@.skip(n));
                    }
                },
            }
        }
    }

    /// Strip the given prefix, returning the rest of the path.
    ///
    /// Returns `None` if the prefix doesn't match according to [`Self::has_prefix`] rules.
    pub fn strip_prefix(&'a self, prefix: impl AsPath) -> (rest: Option<Path<'a>>)
        ensures
            rest is Some <==> prefix.path_parts().is_prefix_of(self@),
            rest matches Some(r) ==> {
                &&& r@ == self@.skip(prefix.path_parts().len() as int)
                &&& r.is_shared() == self.is_shared()
                &&& model::is_path(r@)
                &&& model::display_len(r@) <= model::display_len(self@)
            },
    {
        let expected = prefix.as_path();
        let mut wanted = expected.parts();
        let ghost mut n: int = 0;
        proof {
            use_type_invariant(self);
            self.lemma_is_path();
            assert(self@.skip(0) =~= self@);
            assert(expected@.skip(0) =~= expected@);
        }
        match &self.0 {
            Repr::Str(s) => {
                // Walk the prefix parts along the string so the rest stays borrowed.
                let mut rest: &'a str = s;
                loop
                    invariant
                        expected@ == prefix.path_parts(),
                        model::is_path(self@),
                        !self.is_shared(),
                        0 <= n <= self@.len(),
                        n <= expected@.len(),
                        model::is_trimmed(rest@),
                        model::parts_of(rest@) == self@.skip(n),
                        wanted@ == expected@.skip(n),
                        forall|i: int| 0 <= i < n ==> self@[i] == expected@[i],
                    decreases expected@.len() - n,
                {
                    match wanted.next() {
                        None => {
                            proof {
                                assert(expected@ =~= self@.subrange(0, expected@.len() as int));
                                model::lemma_skip(self@, n);
                            }
                            return Some(Path(Repr::Str(rest)));
                        },
                        Some(want) => {
                            match text::split_first(rest) {
                                None => {
                                    return None;
                                },
                                Some((dir, next)) => {
                                    assert(self@[n] == self@.skip(n)[0]);
                                    if !text::same(dir, want) {
                                        proof {
                                            assert(expected@[n] == want@);
                                            if expected@.is_prefix_of(self@) {
                                                assert(self@.subrange(
                                                    0,
                                                    expected@.len() as int,
                                                )[n] == self@[n]);
                                            }
                                        }
                                        return None;
                                    }
                                    proof {
                                        let here = model::parts_of(rest@);
                                        assert(here.drop_first() =~= model::parts_of(next@));
                                        assert(here.drop_first() =~= self@.skip(n + 1));
                                        n = n + 1;
                                        assert(wanted@ =~= expected@.skip(n));
                                    }
                                    rest = next;
                                },
                            }
                        },
                    }
                }
            },
            Repr::Parts { list, start } => {
                let total: usize = list.len();
                let mut parts = self.parts();
                let mut count: usize = 0;
                loop
                    invariant
                        total == (*list)@.len(),
                        expected@ == prefix.path_parts(),
                        model::is_path(self@),
                        self.is_shared(),
                        self.wf(),
                        self.0 == (Repr::Parts { list: *list, start: *start }),
                        n == count,
                        0 <= n <= self@.len(),
                        n <= expected@.len(),
                        parts@ == self@.skip(n),
                        wanted@ == expected@.skip(n),
                        forall|i: int| 0 <= i < n ==> self@[i] == expected@[i],
                    decreases expected@.len() - n,
                {
                    match wanted.next() {
                        None => {
                            proof {
                                assert(expected@ =~= self@.subrange(0, expected@.len() as int));
                                assert(list_parts((*list)@).skip(start + count) =~= self@.skip(n));
                                model::lemma_skip(self@, n);
                            }
                            return Some(
                                Path(Repr::Parts { list: list.clone(), start: *start + count }),
                            );
                        },
                        Some(want) => {
                            let matches = match parts.next() {
                                None => false,
                                Some(part) => text::same(part, want),
                            };
                            if !matches {
                                proof {
                                    assert(expected@[n] == want@);
                                    if expected@.is_prefix_of(self@) {
                                        assert(self@.subrange(0, expected@.len() as int)[n]
                                            == self@[n]);
                                    }
                                }
                                return None;
                            }
                            count = count + 1;
                            proof {
                                n = n + 1;
                                assert(parts@ =~= self@.skip(n));
                                assert(wanted@ =~= expected@.skip(n));
                            }
                        },
                    }
                }
            },
        }
    }

    /// Strip the first part of the path, if any, and return it with the rest of the path.
    pub fn next_part(&'a self) -> (r: Option<(&'a str, Path<'a>)>)
        ensures
            r is Some <==> self@.len() > 0,
            r matches Some((dir, rest)) ==> {
                &&& dir@ == self@[0]
                &&& model::is_part(dir@)
                &&& rest@ == self@.drop_first()
                &&& rest.is_shared() == self.is_shared()
                &&& model::is_path(rest@)
                &&& model::display_len(rest@) <= model::display_len(self@)
            },
    {
        proof {
            use_type_invariant(self);
            self.lemma_is_path();
            if self@.len() > 0 {
                model::lemma_skip(self@, 1);
                assert(self@.skip(1) =~= self@.drop_first());
                assert(model::is_part(self@[0]));
            }
        }
        match &self.0 {
            Repr::Str(s) => {
                match text::split_first(s) {
                    None => None,
                    Some((dir, rest)) => {
                        assert(model::parts_of(rest@) =~= self@.drop_first());
                        Some((dir, Path(Repr::Str(rest))))
                    },
                }
            },
            Repr::Parts { list, start } => {
                let start: usize = *start;
                if start < list.len() {
                    assert(list_parts((*list)@).skip(start + 1) =~= self@.drop_first());
                    Some((&*list[start], Path(Repr::Parts { list: list.clone(), start: start + 1 })))
                } else {
                    None
                }
            },
        }
    }

    /// The empty path, a prefix of every path.
    pub fn empty() -> (path: Path<'static>)
        ensures
            path@ == Seq::<Seq<char>>::empty(),
            !path.is_shared(),
    {
        proof {
            reveal_strlit("");
        }
        Path(Repr::Str(""))
    }

    /// Whether the path has no parts.
    pub fn is_empty(&self) -> (r: bool)
        ensures
            r == (self@.len() == 0),
    {
        let mut parts = self.parts();
        parts.next().is_none()
    }

    /// The length of the path in bytes when displayed, in a type that holds every such length.
    pub(crate) fn wide_len(&self) -> (len: u128)
        ensures
            len == model::display_len(self@),
            model::is_path(self@),
    {
        let count: usize = self.part_count();
        let mut parts = self.parts();
        let mut len: u128 = 0;
        let mut i: usize = 0;
        assert(self@.skip(0) =~= self@);
        assert(self@.take(0) =~= Seq::<Seq<char>>::empty());
        loop
            invariant
                count == self@.len(),
                i <= count,
                parts@ == self@.skip(i as int),
                len == model::display_len(self@.take(i as int)),
                len <= i * 0x1_0000_0000_0000_0000,
                model::is_path(self@),
            decreases count - i,
        {
            match parts.next() {
                None => {
                    assert(self@.take(i as int) =~= self@);
                    return len;
                },
                Some(part) => {
                    let n: usize = part.as_bytes().len();
                    proof {
                        model::lemma_display_len_push(self@, i as int);
                        assert(part@ == self@[i as int]);
                    }
                    len = if i == 0 {
                        n as u128
                    } else {
                        len + 1 + n as u128
                    };
                    i = i + 1;
                    assert(parts@ =~= self@.skip(i as int));
                },
            }
        }
    }

    /// The length of the path in bytes when displayed, including separators, if it fits.
    pub fn checked_len(&self) -> (len: Option<usize>)
        ensures
            len is Some <==> model::display_len(self@) <= usize::MAX,
            len matches Some(n) ==> n == model::display_len(self@),
            len matches Some(n) ==> n == encode_utf8(model::joined(self@)).len(),
    {
        let len: u128 = self.wide_len();
        if len <= usize::MAX as u128 {
            Some(len as usize)
        } else {
            None
        }
    }

    /// The length of the path in bytes when displayed, including separators.
    pub fn len(&self) -> (len: usize)
        requires
            model::display_len(self@) <= usize::MAX,
        ensures
            len == model::display_len(self@),
            len == encode_utf8(model::joined(self@)).len(),
    {
        self.wide_len() as usize
    }

    /// The path as a string: its parts with a single slash between neighbours.
    pub fn to_string(&self) -> (s: String)
        ensures
            s@ == model::joined(self@),
    {
        let mut out = String::new();
        let mut parts = self.parts();
        let mut first = true;
        let ghost mut n: int = 0;
        assert(self@.skip(0) =~= self@);
        assert(self@.take(0) =~= Seq::<Seq<char>>::empty());
        loop
            invariant
                0 <= n <= self@.len(),
                first == (n == 0),
                parts@ == self@.skip(n),
                out@ == model::joined(self@.take(n)),
            decreases self@.len() - n,
        {
            match parts.next() {
                None => {
                    assert(self@.take(n) =~= self@);
                    return out;
                },
                Some(part) => {
                    assert(part@ == self@[n]);
                    let ghost longer = self@.take(n + 1);
                    assert(longer.drop_last() =~= self@.take(n));
                    if !first {
                        out.append("/");
                        proof {
                            reveal_strlit("/");
                            assert("/"@ =~= seq!['/']);
                        }
                    }
                    first = false;
                    out.append(part);
                    proof {
                        assert(out@ =~= model::joined(longer));
                        n = n + 1;
                        assert(parts@ =~= self@.skip(n));
                    }
                },
            }
        }
    }

    /// Convert to an owned path, parsing borrowed strings into shared parts.
    pub fn to_owned(&self) -> (path: PathOwned)
        ensures
            path@ == self@,
            path.is_shared() == (self.is_shared() || self@.len() > 0),
            model::is_path(path@),
    {
        proof {
            use_type_invariant(self);
            self.lemma_is_path();
        }
        match &self.0 {
            Repr::Str(s) => {
                if s.is_empty() {
                    return Path::empty();
                }
                let mut list: Vec<Arc<str>> = Vec::new();
                self.append_parts(&mut list);
                assert(list_parts(list@).skip(0) =~= self@);
                assert(list_parts(list@) =~= self@);
                Path(Repr::Parts { list: shared_list(list), start: 0 })
            },
            Repr::Parts { list, start } => Path(Repr::Parts { list: list.clone(), start: *start }),
        }
    }

    /// Convert into an owned path, parsing borrowed strings into shared parts.
    pub fn into_owned(self) -> (path: PathOwned)
        ensures
            path@ == self@,
            path.is_shared() == (self.is_shared() || self@.len() > 0),
            model::is_path(path@),
    {
        self.to_owned()
    }

    /// A copy of this path bound to `self`'s lifetime, without copying any bytes.
    pub fn borrow(&'a self) -> (path: Path<'a>)
        ensures
            path@ == self@,
            path.is_shared() == self.is_shared(),
            model::is_path(path@),
    {
        proof {
            use_type_invariant(self);
            self.lemma_is_path();
        }
        match &self.0 {
            Repr::Str(s) => Path(Repr::Str(s)),
            Repr::Parts { list, start } => Path(Repr::Parts { list: list.clone(), start: *start }),
        }
    }

    /// Append the parts to a list: borrowed ones are copied once, owned ones are shared.
    fn append_parts(&self, list: &mut Vec<Arc<str>>)
        ensures
            list_parts(final(list)@) == list_parts(old(list)@) + self@,
    {
        let ghost before = list_parts(list@);
        proof {
            use_type_invariant(self);
        }
        match &self.0 {
            Repr::Str(_) => {
                let mut parts = self.parts();
                let ghost mut n: int = 0;
                assert(self@.skip(0) =~= self@);
                assert(list_parts(list@) =~= before + self@.take(0));
                loop
                    invariant
                        0 <= n <= self@.len(),
                        parts@ == self@.skip(n),
                        list_parts(list@) == before + self@.take(n),
                        before == list_parts(old(list)@),
                    decreases self@.len() - n,
                {
                    match parts.next() {
                        None => {
                            assert(self@.take(n) =~= self@);
                            return;
                        },
                        Some(part) => {
                            let ghost so_far = list@;
                            list.push(shared_str(part));
                            proof {
                                assert(part@ == self@[n]);
                                assert(list_parts(list@) =~= list_parts(so_far).push(part@));
                                n = n + 1;
                                assert(list_parts(list@) =~= before + self@.take(n));
                                assert(parts@ =~= self@.skip(n));
                            }
                        },
                    }
                }
            },
            Repr::Parts { list: own, start } => {
                let mut i: usize = *start;
                assert(list_parts(list@) =~= before + self@.take(0));
                while i < own.len()
                    invariant
                        *start <= i <= (*own)@.len(),
                        self.0 == (Repr::Parts { list: *own, start: *start }),
                        list_parts(list@) == before + self@.take(i - *start),
                        before == list_parts(old(list)@),
                    decreases (*own)@.len() - i,
                {
                    let ghost so_far = list@;
                    list.push(own[i].clone());
                    proof {
                        let part = (*(*own)@[i as int])@;
                        assert(part == self@[i - *start]);
                        assert(list_parts(list@) =~= list_parts(so_far).push(part));
                        assert(list_parts(list@) =~= before + self@.take(i + 1 - *start));
                    }
                    i = i + 1;
                }
                assert(self@.take(i - *start) =~= self@);
            },
        }
    }

    /// Join this path with another path, sharing the parts of both inputs.
    pub fn join(&self, other: impl AsPath) -> (path: PathOwned)
        ensures
            path@ == self@ + other.path_parts(),
            path.is_shared() || path@.len() == 0,
            model::is_path(path@),
    {
        let other = other.as_path();
        if self.is_empty() {
            assert(self@ + other@ =~= other@);
            return other.to_owned();
        }
        if other.is_empty() {
            assert(self@ + other@ =~= self@);
            return self.to_owned();
        }
        let mut list: Vec<Arc<str>> = Vec::new();
        self.append_parts(&mut list);
        other.append_parts(&mut list);
        proof {
            use_type_invariant(self);
            self.lemma_is_path();
            use_type_invariant(&other);
            other.lemma_is_path();
            assert(list_parts(list@) =~= self@ + other@);
            model::lemma_append(self@, other@);
            assert(list_parts(list@).skip(0) =~= self@ + other@);
        }
        Path(Repr::Parts { list: shared_list(list), start: 0 })
    }
}

impl<'a> Clone for Path<'a> {
    /// A copy of the path. It shares what the original holds and copies no bytes.
    fn clone(&self) -> (path: Self)
        ensures
            path@ == self@,
            path.is_shared() == self.is_shared(),
    {
        proof {
            use_type_invariant(self);
        }
        match &self.0 {
            Repr::Str(s) => Path(Repr::Str(s)),
            Repr::Parts { list, start } => Path(Repr::Parts { list: list.clone(), start: *start }),
        }
    }
}

} // verus!
