//! Equality, order and hashing of paths.
//!
//! All of them go part by part, so that a borrowed and an owned path with the same content
//! behave identically.
use crate::model;
use crate::order;
use crate::order::Place;
use crate::path::Path;
use crate::text;
use std::cmp::Ordering;
use std::hash::{Hash, Hasher};
use vstd::prelude::*;
use vstd::std_specs::cmp::{PartialEqSpecImpl, PartialOrdSpecImpl};

verus! {

impl<'a> Path<'a> {
    /// Whether both paths have the same parts.
    fn same_parts(&self, other: &Path<'_>) -> (r: bool)
        ensures
            r == (self@ == other@),
    {
        let mut mine = self.parts();
        let mut theirs = other.parts();
        let ghost mut n: int = 0;
        assert(self@.skip(0) =~= self@);
        assert(other@.skip(0) =~= other@);
        loop
            invariant
                0 <= n <= self@.len(),
                n <= other@.len(),
                mine@ == self@.skip(n),
                theirs@ == other@.skip(n),
                forall|i: int| 0 <= i < n ==> self@[i] == other@[i],
            decreases self@.len() - n,
        {
            match (mine.next(), theirs.next()) {
                (None, None) => {
                    assert(self@ =~= other@);
                    return true;
                },
                (Some(a), Some(b)) => {
                    assert(a@ == self@[n] && b@ == other@[n]);
                    if !text::same(a, b) {
                        return false;
                    }
                    proof {
                        n = n + 1;
                        assert(mine@ =~= self@.skip(n));
                        assert(theirs@ =~= other@.skip(n));
                    }
                },
                _ => {
                    return false;
                },
            }
        }
    }

    /// Where this path stands relative to another in the order of paths.
    pub(crate) fn place(&self, other: &Path<'_>) -> (r: Place)
        ensures
            r == order::path_place(self@, other@),
    {
        let mut mine = self.parts();
        let mut theirs = other.parts();
        let ghost mut n: int = 0;
        assert(self@.skip(0) =~= self@);
        assert(other@.skip(0) =~= other@);
        loop
            invariant
                0 <= n <= self@.len(),
                n <= other@.len(),
                mine@ == self@.skip(n),
                theirs@ == other@.skip(n),
                forall|i: int| 0 <= i < n ==> self@[i] == other@[i],
                order::path_before(self@, other@) == order::path_before(mine@, theirs@),
            decreases self@.len() - n,
        {
            match (mine.next(), theirs.next()) {
                (None, None) => {
                    assert(self@ =~= other@);
                    return Place::Same;
                },
                (None, Some(_)) => {
                    return Place::Before;
                },
                (Some(_), None) => {
                    return Place::After;
                },
                (Some(a), Some(b)) => {
                    assert(a@ == self@[n] && b@ == other@[n]);
                    match order::place_str(a, b) {
                        Place::Same => {},
                        differs => {
                            return differs;
                        },
                    }
                    proof {
                        n = n + 1;
                        assert(mine@ =~= self@.skip(n));
                        assert(theirs@ =~= other@.skip(n));
                    }
                },
            }
        }
    }

    /// Compare two paths: lexicographic over the parts, which are compared by their bytes.
    pub fn cmp(&self, other: &Path<'_>) -> (r: Ordering)
        ensures
            r == (match order::path_place(self@, other@) {
                Place::Before => Ordering::Less,
                Place::Same => Ordering::Equal,
                Place::After => Ordering::Greater,
            }),
            r == Ordering::Equal <==> self@ == other@,
            r == Ordering::Less <==> order::path_before(self@, other@),
            r == Ordering::Greater <==> order::path_before(other@, self@),
    {
        proof {
            order::lemma_path_total(self@, other@);
        }
        match self.place(other) {
            Place::Before => Ordering::Less,
            Place::Same => Ordering::Equal,
            Place::After => Ordering::Greater,
        }
    }
}

impl<'a, 'b> PartialEq<Path<'b>> for Path<'a> {
    fn eq(&self, other: &Path<'b>) -> (r: bool)
        ensures
            r == (self@ == other@),
    {
        self.same_parts(other)
    }
}

impl<'a, 'b> PartialEqSpecImpl<Path<'b>> for Path<'a> {
    open spec fn obeys_eq_spec() -> bool {
        true
    }

    open spec fn eq_spec(&self, other: &Path<'b>) -> bool {
        self@ == other@
    }
}

impl<'a> Eq for Path<'a> {

}

impl<'a, 'b> PartialEq<&'b str> for Path<'a> {
    fn eq(&self, other: &&'b str) -> (r: bool)
        ensures
            r == (self@ == model::parts_of(other@)),
    {
        *self == Path::new(other)
    }
}

impl<'a, 'b> PartialEqSpecImpl<&'b str> for Path<'a> {
    open spec fn obeys_eq_spec() -> bool {
        true
    }

    open spec fn eq_spec(&self, other: &&'b str) -> bool {
        self@ == model::parts_of(other@)
    }
}

impl<'a> PartialEq<str> for Path<'a> {
    fn eq(&self, other: &str) -> (r: bool)
        ensures
            r == (self@ == model::parts_of(other@)),
    {
        *self == Path::new(other)
    }
}

impl<'a> PartialEqSpecImpl<str> for Path<'a> {
    open spec fn obeys_eq_spec() -> bool {
        true
    }

    open spec fn eq_spec(&self, other: &str) -> bool {
        self@ == model::parts_of(other@)
    }
}

impl<'a, 'b> PartialEq<Path<'a>> for &'b str {
    fn eq(&self, other: &Path<'a>) -> (r: bool)
        ensures
            r == (model::parts_of(self@) == other@),
    {
        *other == *self
    }
}

impl<'a, 'b> PartialEqSpecImpl<Path<'a>> for &'b str {
    open spec fn obeys_eq_spec() -> bool {
        true
    }

    open spec fn eq_spec(&self, other: &Path<'a>) -> bool {
        model::parts_of(self@) == other@
    }
}

impl<'a> PartialOrd for Path<'a> {
    fn partial_cmp(&self, other: &Self) -> (r: Option<Ordering>)
        ensures
            r == Some(
                match order::path_place(self@, other@) {
                    Place::Before => Ordering::Less,
                    Place::Same => Ordering::Equal,
                    Place::After => Ordering::Greater,
                },
            ),
    {
        Some(self.cmp(other))
    }
}

impl<'a> PartialOrdSpecImpl for Path<'a> {
    open spec fn obeys_partial_cmp_spec() -> bool {
        true
    }

    open spec fn partial_cmp_spec(&self, other: &Self) -> Option<Ordering> {
        Some(
            match order::path_place(self@, other@) {
                Place::Before => Ordering::Less,
                Place::Same => Ordering::Equal,
                Place::After => Ordering::Greater,
            },
        )
    }
}

/// `std::hash::Hash::hash`, on a string. Nothing is claimed of the state that it leaves the
/// hasher in: that is up to the hasher. The contract of hashing a path says on which strings
/// this is called, and in which order.
#[verifier::external_body]
pub fn hash_str<H: Hasher>(s: &str, state: &mut H) {
    s.hash(state)
}

/// Call `f` on a string and a hasher.
fn feed<H: Hasher, F: Fn(&str, &mut H)>(f: F, s: &str, state: &mut H)
    requires
        forall|t: &str, m: &mut H| call_requires(f, (t, m)),
    ensures
        exists|t: &str, m: &mut H|
            t@ == s@ && *m == *old(state) && *final(m) == *final(state)
                && #[trigger] call_ensures(f, (t, m), ()),
{
    f(s, state)
}

impl<'a> Hash for Path<'a> {
    /// Feed each part to the hasher, in order. The hash of a string is self-delimiting, so this
    /// is unambiguous.
    ///
    /// In the contract, `states` holds the states of the hasher: the first one, and then the one
    /// behind each part. A call of [`hash_str`] on the part leads from each to the next.
    fn hash<H: Hasher>(&self, state: &mut H)
        ensures
            exists|states: Seq<H>|
                #![trigger states.len()]
                states.len() == self@.len() + 1 && states[0] == *old(state)
                    && states[self@.len() as int] == *final(state) && forall|i: int|
                    0 <= i < self@.len() ==> #[trigger] model::is_part(self@[i])
                        && exists|t: &str, m: &mut H|
                        t@ == self@[i] && *m == states[i] && *final(m) == states[i + 1]
                            && #[trigger] call_ensures(hash_str::<H>, (t, m), ()),
    {
        let mut parts = self.parts();
        let ghost mut states: Seq<H> = seq![*state];
        let ghost mut n: int = 0;
        assert(self@.skip(0) =~= self@);
        loop
            invariant
                model::is_path(self@),
                0 <= n <= self@.len(),
                parts@ == self@.skip(n),
                states.len() == n + 1,
                states[0] == *old(state),
                states[n] == *state,
                forall|i: int|
                    0 <= i < n ==> #[trigger] model::is_part(self@[i])
                        && exists|t: &str, m: &mut H|
                        t@ == self@[i] && *m == states[i] && *final(m) == states[i + 1]
                            && #[trigger] call_ensures(hash_str::<H>, (t, m), ()),
            decreases self@.len() - n,
        {
            match parts.next() {
                None => {
                    return;
                },
                Some(part) => {
                    assert(part@ == self@[n]);
                    feed(hash_str::<H>, part, state);
                    proof {
                        states = states.push(*state);
                        n = n + 1;
                        assert(parts@ =~= self@.skip(n));
                    }
                },
            }
        }
    }
}

} // verus!
