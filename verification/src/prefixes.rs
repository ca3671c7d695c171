//! Deduplicated lists of path prefixes.
use crate::cover;
use crate::model;
use crate::order;
use crate::order::Place;
use crate::path::{AsPath, Path, PathOwned};
use vstd::prelude::*;
use vstd::std_specs::cmp::{PartialEqSpec, PartialEqSpecImpl};
use vstd::std_specs::convert::FromSpecImpl;
use vstd::std_specs::iter::IteratorSpec;

verus! {

/// The parts of each path in a list.
pub open spec fn views<'a>(paths: Seq<Path<'a>>) -> Seq<Seq<Seq<char>>> {
    Seq::new(paths.len(), |i: int| paths[i]@)
}

/// The parts of the path that each item of a list stands for.
pub open spec fn as_views<P: AsPath>(items: Seq<P>) -> Seq<Seq<Seq<char>>> {
    Seq::new(items.len(), |i: int| items[i].path_parts())
}

/// Whether no path of a list borrows its parts from elsewhere: each one shares its parts or has
/// none.
pub open spec fn all_owned(paths: Seq<PathOwned>) -> bool {
    forall|i: int|
        0 <= i < paths.len() ==> (#[trigger] paths[i]).is_shared() || paths[i]@.len() == 0
}

/// A deduplicated list of path prefixes.
///
/// Automatically removes exact duplicates and overlapping prefixes on construction. For example,
/// `["demo", "demo/foo", "anon"]` becomes `["anon", "demo"]` since `"demo"` already covers
/// `"demo/foo"`.
///
/// In contracts, the view is the list of the parts of each path.
#[derive(Debug)]
pub struct PathPrefixes {
    paths: Vec<PathOwned>,
}

impl View for PathPrefixes {
    type V = Seq<Seq<Seq<char>>>;

    open spec fn view(&self) -> Seq<Seq<Seq<char>>> {
        views(self.paths())
    }
}

/// Where `a` stands relative to `b` in a list of prefixes: shorter paths come first, and paths
/// of one length are in the order of paths.
fn prefix_place(a: &Path<'_>, b: &Path<'_>) -> (r: Place)
    ensures
        r == (if a@ == b@ {
            Place::Same
        } else if order::prefix_before(a@, b@) {
            Place::Before
        } else {
            Place::After
        }),
{
    let m: u128 = a.wide_len();
    let n: u128 = b.wide_len();
    if m < n {
        Place::Before
    } else if n < m {
        Place::After
    } else {
        a.place(b)
    }
}

/// Put `path` in its place in a sorted list, unless the list holds it already.
fn insert_sorted(list: &mut Vec<PathOwned>, path: PathOwned)
    requires
        cover::is_sorted(views(old(list)@)),
        all_owned(old(list)@),
        path.is_shared() || path@.len() == 0,
    ensures
        cover::is_sorted(views(final(list)@)),
        all_owned(final(list)@),
        forall|p: Seq<Seq<char>>| #[trigger]
            views(final(list)@).contains(p) <==> views(old(list)@).contains(p) || p == path@,
{
    let ghost v = views(list@);
    let mut lo: usize = 0;
    let mut hi: usize = list.len();
    while lo < hi
        invariant
            v == views(list@),
            *list == *old(list),
            all_owned(list@),
            cover::is_sorted(v),
            lo <= hi <= list@.len(),
            forall|i: int| 0 <= i < lo ==> order::prefix_before(#[trigger] v[i], path@),
            forall|i: int| hi <= i < v.len() ==> order::prefix_before(path@, #[trigger] v[i]),
        decreases hi - lo,
    {
        let mid: usize = lo + (hi - lo) / 2;
        match prefix_place(&path, &list[mid]) {
            Place::Same => {
                assert(v[mid as int] == path@);
                return;
            },
            Place::Before => {
                assert forall|i: int| mid <= i < v.len() implies order::prefix_before(
                    path@,
                    #[trigger] v[i],
                ) by {
                    if i > mid {
                        order::lemma_prefix_transitive(path@, v[mid as int], v[i]);
                    }
                }
                hi = mid;
            },
            Place::After => {
                proof {
                    order::lemma_prefix_total(path@, v[mid as int]);
                }
                assert forall|i: int| 0 <= i < mid + 1 implies order::prefix_before(
                    #[trigger] v[i],
                    path@,
                ) by {
                    if i < mid {
                        order::lemma_prefix_transitive(v[i], v[mid as int], path@);
                    }
                }
                lo = mid + 1;
            },
        }
    }
    let ghost added = path@;
    list.insert(lo, path);
    proof {
        let w = views(list@);
        assert(w =~= v.insert(lo as int, added));
        assert forall|p: Seq<Seq<char>>| #[trigger] w.contains(p) <==> v.contains(p) || p
            == added by {
            if v.contains(p) {
                let i = choose|i: int| 0 <= i < v.len() && v[i] == p;
                assert(w[if i < lo { i } else { i + 1 }] == p);
            }
            if p == added {
                assert(w[lo as int] == p);
            }
        }
        assert forall|i: int, j: int| 0 <= i < j < w.len() implies order::prefix_before(
            #[trigger] w[i],
            #[trigger] w[j],
        ) by {
            let x: int = if i < lo { i } else { i - 1 };
            let y: int = if j < lo { j } else { j - 1 };
            if i == lo {
                assert(w[j] == v[y]);
            } else if j == lo {
                assert(w[i] == v[x]);
            } else {
                assert(w[i] == v[x] && w[j] == v[y]);
            }
        }
    }
}

impl PathPrefixes {
    #[verifier::type_invariant]
    spec fn wf(self) -> bool {
        &&& cover::is_canonical(views(self.paths@))
        &&& all_owned(self.paths@)
    }

    /// The paths of the list.
    pub closed spec fn paths(&self) -> Seq<PathOwned> {
        self.paths@
    }

    /// Create a new list, deduplicating and removing overlapping prefixes.
    ///
    /// Shorter prefixes subsume longer ones: `"demo"` covers `"demo/foo"`.
    pub fn new<P: AsPath>(paths: Vec<P>) -> (list: Self)
        ensures
            cover::is_reduction(as_views(paths@), list@),
            cover::is_canonical(list@),
            all_owned(list.paths()),
    {
        // Sort so that shorter (more permissive) prefixes come first, and drop duplicates.
        let ghost all = as_views(paths@);
        let mut sorted: Vec<PathOwned> = Vec::new();
        let mut i: usize = 0;
        while i < paths.len()
            invariant
                all == as_views(paths@),
                i <= paths@.len(),
                cover::is_sorted(views(sorted@)),
                all_owned(sorted@),
                forall|p: Seq<Seq<char>>| #[trigger]
                    views(sorted@).contains(p) <==> all.take(i as int).contains(p),
                cover::all_paths(all.take(i as int)),
            decreases paths@.len() - i,
        {
            let path = paths[i].as_path().to_owned();
            let ghost before = all.take(i as int);
            let ghost after = all.take(i + 1);
            assert(path@ == all[i as int]);
            assert(after =~= before.push(path@));
            insert_sorted(&mut sorted, path);
            assert forall|p: Seq<Seq<char>>| #[trigger]
                views(sorted@).contains(p) <==> after.contains(p) by {
                if before.contains(p) {
                    let k = choose|k: int| 0 <= k < before.len() && before[k] == p;
                    assert(after[k] == p);
                }
                if p == all[i as int] {
                    assert(after[i as int] == p);
                }
                if after.contains(p) {
                    let k = choose|k: int| 0 <= k < after.len() && after[k] == p;
                    if k < i {
                        assert(before[k] == p);
                    }
                }
            }
            i = i + 1;
        }
        assert(all.take(i as int) =~= all);
        assert forall|k: int| 0 <= k < views(sorted@).len() implies model::is_path(
            #[trigger] views(sorted@)[k],
        ) by {
            assert(views(sorted@).contains(views(sorted@)[k]));
            let j = choose|j: int| 0 <= j < all.len() && all[j] == views(sorted@)[k];
            assert(model::is_path(all[j]));
        }
        let paths = Self::drop_covered(sorted);
        proof {
            cover::lemma_minimal_of_same(views(sorted@), all);
            cover::lemma_reduction_canonical(all, views(paths@));
        }
        PathPrefixes { paths }
    }

    /// Create a new list from the items that an iterator yields.
    pub fn from_iter<I: Iterator<Item = PathOwned>>(iter: I) -> (list: Self)
        requires
            iter.obeys_prophetic_iter_laws(),
            iter.decrease() is Some,
        ensures
            cover::is_reduction(views(iter.remaining()), list@),
            cover::is_canonical(list@),
            all_owned(list.paths()),
    {
        let ghost all = iter.remaining();
        let mut items = iter;
        let mut paths: Vec<PathOwned> = Vec::new();
        assert(paths@ + items.remaining() =~= all);
        loop
            invariant
                items.obeys_prophetic_iter_laws(),
                items.decrease() is Some,
                paths@ + items.remaining() == all,
            ensures
                paths@ == all,
            decreases items.decrease()->0,
        {
            let ghost rest = items.remaining();
            match items.next() {
                None => {
                    assert(paths@ =~= all);
                    break;
                },
                Some(path) => {
                    let ghost so_far = paths@;
                    paths.push(path);
                    assert(so_far + rest =~= paths@ + rest.drop_first());
                },
            }
        }
        assert(as_views(paths@) =~= views(all));
        Self::new(paths)
    }

    /// Whether the list holds no path.
    pub fn is_empty(&self) -> (r: bool)
        ensures
            r == (self@.len() == 0),
    {
        self.paths.is_empty()
    }

    /// The number of paths in the list.
    pub fn len(&self) -> (n: usize)
        ensures
            n == self@.len(),
    {
        self.paths.len()
    }

    /// Iterate over the paths of the list, in order.
    pub fn iter(&self) -> (iter: std::slice::Iter<'_, PathOwned>)
        ensures
            iter.remaining() == self.paths().as_ref(),
            iter.decrease() is Some,
            iter.initial_value_relation(&iter),
            cover::is_canonical(self@),
            all_owned(self.paths()),
    {
        proof {
            use_type_invariant(self);
        }
        self.paths.iter()
    }

    /// Iterate over the paths of the list by value, in order.
    pub fn into_iter(self) -> (iter: std::vec::IntoIter<PathOwned>)
        ensures
            iter.remaining() == self.paths(),
            iter.decrease() is Some,
            iter.initial_value_relation(&iter),
            cover::is_canonical(self@),
            all_owned(self.paths()),
    {
        proof {
            use_type_invariant(&self);
        }
        self.paths.into_iter()
    }

    /// Keep the paths of a sorted list that no other path of it covers.
    fn drop_covered(sorted: Vec<PathOwned>) -> (kept: Vec<PathOwned>)
        requires
            cover::is_sorted(views(sorted@)),
            cover::all_paths(views(sorted@)),
            all_owned(sorted@),
        ensures
            cover::is_reduction(views(sorted@), views(kept@)),
            all_owned(kept@),
    {
        let ghost v = views(sorted@);
        let mut kept: Vec<PathOwned> = Vec::new();
        let mut k: usize = 0;
        while k < sorted.len()
            invariant
                v == views(sorted@),
                cover::is_sorted(v),
                cover::all_paths(v),
                k <= sorted@.len(),
                all_owned(sorted@),
                all_owned(kept@),
                cover::is_sorted(views(kept@)),
                forall|p: Seq<Seq<char>>| #[trigger]
                    views(kept@).contains(p) <==> v.take(k as int).contains(p)
                        && cover::is_minimal(v, p),
            decreases sorted@.len() - k,
        {
            let path = &sorted[k];
            let covered = Self::any_prefix(&kept, path);
            let ghost old_kept = views(kept@);
            proof {
                lemma_covered_is_not_minimal(v, old_kept, k as int);
            }
            if !covered {
                kept.push(path.clone());
            }
            proof {
                let now = views(kept@);
                if !covered {
                    assert(now =~= old_kept.push(v[k as int]));
                }
                lemma_keep(v, old_kept, now, k as int);
            }
            k = k + 1;
        }
        proof {
            assert(v.take(k as int) =~= v);
            assert forall|p: Seq<Seq<char>>| #[trigger]
                views(kept@).contains(p) <==> cover::is_minimal(v, p) by {}
        }
        kept
    }

    /// Whether a path of the list is a prefix of `path`.
    fn any_prefix(list: &Vec<PathOwned>, path: &PathOwned) -> (r: bool)
        ensures
            r == cover::covers(views(list@), path@),
    {
        let mut i: usize = 0;
        while i < list.len()
            invariant
                i <= list@.len(),
                forall|j: int| 0 <= j < i ==> !(#[trigger] list@[j])@.is_prefix_of(path@),
            decreases list@.len() - i,
        {
            if path.has_prefix(&list[i]) {
                assert(views(list@)[i as int].is_prefix_of(path@));
                return true;
            }
            i = i + 1;
        }
        assert(!cover::covers(views(list@), path@)) by {
            assert forall|j: int| 0 <= j < views(list@).len() implies !(#[trigger] views(
                list@,
            )[j]).is_prefix_of(path@) by {
                assert(!list@[j]@.is_prefix_of(path@));
            }
        }
        false
    }
}

impl std::ops::Deref for PathPrefixes {
    type Target = [PathOwned];

    /// The paths of the list, in order.
    fn deref(&self) -> (paths: &[PathOwned])
        ensures
            paths@ == self.paths(),
            cover::is_canonical(self@),
            all_owned(self.paths()),
    {
        proof {
            use_type_invariant(self);
        }
        self.paths.as_slice()
    }
}

impl From<Vec<PathOwned>> for PathPrefixes {
    fn from(paths: Vec<PathOwned>) -> (list: Self)
        ensures
            cover::is_reduction(views(paths@), list@),
            cover::is_canonical(list@),
            all_owned(list.paths()),
    {
        assert(as_views(paths@) =~= views(paths@));
        Self::new(paths)
    }
}

impl FromSpecImpl<Vec<PathOwned>> for PathPrefixes {
    open spec fn obeys_from_spec() -> bool {
        false
    }

    open spec fn from_spec(paths: Vec<PathOwned>) -> Self {
        arbitrary()
    }
}

impl Clone for PathPrefixes {
    fn clone(&self) -> (list: Self)
        ensures
            list@ == self@,
            forall|i: int|
                0 <= i < list.paths().len() ==> (#[trigger] list.paths()[i]).is_shared()
                    == self.paths()[i].is_shared(),
            all_owned(list.paths()),
    {
        proof {
            use_type_invariant(self);
        }
        let paths = self.paths.clone();
        assert(views(paths@) =~= views(self.paths@));
        PathPrefixes { paths }
    }
}

impl Default for PathPrefixes {
    /// The list without a path.
    fn default() -> (list: Self)
        ensures
            list@ == Seq::<Seq<Seq<char>>>::empty(),
    {
        let paths: Vec<PathOwned> = Vec::new();
        assert(views(paths@) =~= Seq::<Seq<Seq<char>>>::empty());
        PathPrefixes { paths }
    }
}

/// Whether two lists hold the same paths in the same order.
fn same_paths(a: &Vec<PathOwned>, b: &Vec<Path<'_>>) -> (r: bool)
    ensures
        r == (views(a@) == views(b@)),
{
    let r = *a == *b;
    proof {
        let v = views(a@);
        let w = views(b@);
        if r {
            assert forall|i: int| 0 <= i < v.len() implies v[i] == w[i] by {
                assert(PartialEqSpec::eq_spec(&a@[i], &b@[i]));
            }
            assert(v =~= w);
        }
        if v == w {
            assert(a@.len() == v.len() && b@.len() == w.len());
            assert forall|i: int| 0 <= i < a@.len() implies PartialEqSpec::eq_spec(
                &(#[trigger] a@[i]),
                &b@[i],
            ) by {
                assert(v[i] == w[i]);
            }
        }
    }
    r
}

impl PartialEq for PathPrefixes {
    fn eq(&self, other: &Self) -> (r: bool)
        ensures
            r == (self@ == other@),
    {
        same_paths(&self.paths, &other.paths)
    }
}

impl PartialEqSpecImpl for PathPrefixes {
    open spec fn obeys_eq_spec() -> bool {
        true
    }

    open spec fn eq_spec(&self, other: &Self) -> bool {
        self@ == other@
    }
}

impl Eq for PathPrefixes {

}

impl<'a> PartialEq<Vec<Path<'a>>> for PathPrefixes {
    fn eq(&self, other: &Vec<Path<'a>>) -> (r: bool)
        ensures
            r == (self@ == views(other@)),
    {
        same_paths(&self.paths, other)
    }
}

impl<'a> PartialEqSpecImpl<Vec<Path<'a>>> for PathPrefixes {
    open spec fn obeys_eq_spec() -> bool {
        true
    }

    open spec fn eq_spec(&self, other: &Vec<Path<'a>>) -> bool {
        self@ == views(other@)
    }
}

impl<'a> PartialEq<PathPrefixes> for Vec<Path<'a>> {
    fn eq(&self, other: &PathPrefixes) -> (r: bool)
        ensures
            r == (views(self@) == other@),
    {
        same_paths(&other.paths, self)
    }
}

impl<'a> PartialEqSpecImpl<PathPrefixes> for Vec<Path<'a>> {
    open spec fn obeys_eq_spec() -> bool {
        true
    }

    open spec fn eq_spec(&self, other: &PathPrefixes) -> bool {
        views(self@) == other@
    }
}

/// The `k`-th path of a sorted list is covered by the minimal ones in front of it exactly if it
/// is not minimal.
proof fn lemma_covered_is_not_minimal(v: Seq<Seq<Seq<char>>>, kept: Seq<Seq<Seq<char>>>, k: int)
    requires
        cover::is_sorted(v),
        cover::all_paths(v),
        0 <= k < v.len(),
        forall|p: Seq<Seq<char>>| #[trigger]
            kept.contains(p) <==> v.take(k).contains(p) && cover::is_minimal(v, p),
    ensures
        cover::covers(kept, v[k]) <==> !cover::is_minimal(v, v[k]),
{
    let p = v[k];
    let front = v.take(k);
    assert(v.contains(p));
    if cover::covers(kept, p) {
        let i = choose|i: int| 0 <= i < kept.len() && (#[trigger] kept[i]).is_prefix_of(p);
        assert(kept.contains(kept[i]));
        let j = choose|j: int| 0 <= j < front.len() && front[j] == kept[i];
        assert(v[j] == kept[i]);
        if v[j] == p {
            cover::lemma_sorted_distinct(v, j, k);
        }
    }
    if !cover::is_minimal(v, p) {
        let q = cover::lemma_minimal_below(v, p);
        assert(v.contains(q));
        let j = choose|j: int| 0 <= j < v.len() && v[j] == q;
        assert(model::is_path(v[k]));
        cover::lemma_prefix_is_before(q, p);
        if j >= k {
            order::lemma_prefix_total(q, p);
            assert(j > k ==> order::prefix_before(v[k], v[j]));
        }
        assert(front[j] == q);
        assert(front.contains(q));
        assert(kept.contains(q));
        let i = choose|i: int| 0 <= i < kept.len() && kept[i] == q;
        assert(kept[i].is_prefix_of(p));
    }
}

/// Taking in the `k`-th path if it is minimal keeps the list of minimal paths sorted and exact.
proof fn lemma_keep(
    v: Seq<Seq<Seq<char>>>,
    kept: Seq<Seq<Seq<char>>>,
    now: Seq<Seq<Seq<char>>>,
    k: int,
)
    requires
        cover::is_sorted(v),
        0 <= k < v.len(),
        cover::is_sorted(kept),
        forall|p: Seq<Seq<char>>| #[trigger]
            kept.contains(p) <==> v.take(k).contains(p) && cover::is_minimal(v, p),
        now == (if cover::is_minimal(v, v[k]) {
            kept.push(v[k])
        } else {
            kept
        }),
    ensures
        cover::is_sorted(now),
        forall|p: Seq<Seq<char>>| #[trigger]
            now.contains(p) <==> v.take(k + 1).contains(p) && cover::is_minimal(v, p),
{
    let front = v.take(k);
    let longer = v.take(k + 1);
    assert(longer =~= front.push(v[k]));
    assert forall|p: Seq<Seq<char>>| #[trigger]
        now.contains(p) <==> longer.contains(p) && cover::is_minimal(v, p) by {
        if now.contains(p) {
            let i = choose|i: int| 0 <= i < now.len() && now[i] == p;
            if i < kept.len() {
                assert(kept[i] == p);
                assert(kept.contains(p));
                let j = choose|j: int| 0 <= j < front.len() && front[j] == p;
                assert(longer[j] == p);
            } else {
                assert(longer[k] == p);
            }
        }
        if longer.contains(p) && cover::is_minimal(v, p) {
            let j = choose|j: int| 0 <= j < longer.len() && longer[j] == p;
            if j < k {
                assert(front[j] == p);
                assert(kept.contains(p));
                let i = choose|i: int| 0 <= i < kept.len() && kept[i] == p;
                assert(now[i] == p);
            } else {
                assert(now[kept.len() as int] == p);
            }
        }
    }
    assert forall|i: int, j: int| 0 <= i < j < now.len() implies order::prefix_before(
        #[trigger] now[i],
        #[trigger] now[j],
    ) by {
        assert(now[i] == kept[i]);
        assert(kept.contains(kept[i]));
        let m = choose|m: int| 0 <= m < front.len() && front[m] == kept[i];
        assert(v[m] == kept[i]);
        if j < kept.len() {
            assert(now[j] == kept[j]);
        } else {
            assert(now[j] == v[k]);
        }
    }
}

} // verus!
