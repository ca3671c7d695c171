//! Conversions to paths.
use crate::model;
use crate::path::{AsPath, Path};
use vstd::prelude::*;
use vstd::std_specs::convert::FromSpecImpl;

verus! {

impl<'a> AsPath for &'a str {
    open spec fn path_parts(&self) -> Seq<Seq<char>> {
        model::parts_of(self@)
    }

    fn as_path(&self) -> (path: Path<'a>)
        ensures
            path@ == model::parts_of(self@),
            model::display_len(path@) <= usize::MAX,
            !path.is_shared(),
    {
        Path::new(self)
    }
}

impl<'a> AsPath for &'a Path<'a> {
    open spec fn path_parts(&self) -> Seq<Seq<char>> {
        self@
    }

    fn as_path(&self) -> (path: Path<'a>)
        ensures
            path@ == self@,
            path.is_shared() == self.is_shared(),
    {
        self.borrow()
    }
}

impl<'b> AsPath for Path<'b> {
    open spec fn path_parts(&self) -> Seq<Seq<char>> {
        self@
    }

    fn as_path(&self) -> (path: Path<'_>)
        ensures
            path@ == self@,
            path.is_shared() == self.is_shared(),
    {
        self.borrow()
    }
}

impl AsPath for String {
    open spec fn path_parts(&self) -> Seq<Seq<char>> {
        model::parts_of(self@)
    }

    fn as_path(&self) -> (path: Path<'_>)
        ensures
            path@ == model::parts_of(self@),
            model::display_len(path@) <= usize::MAX,
            !path.is_shared(),
    {
        Path::new(self.as_str())
    }
}

impl<'a> AsPath for &'a String {
    open spec fn path_parts(&self) -> Seq<Seq<char>> {
        model::parts_of(self@)
    }

    fn as_path(&self) -> (path: Path<'a>)
        ensures
            path@ == model::parts_of(self@),
            model::display_len(path@) <= usize::MAX,
            !path.is_shared(),
    {
        Path::new(self.as_str())
    }
}

impl<'a> From<&'a str> for Path<'a> {
    fn from(s: &'a str) -> (path: Self)
        ensures
            path@ == model::parts_of(s@),
            model::display_len(path@) <= usize::MAX,
            !path.is_shared(),
    {
        Self::new(s)
    }
}

impl<'a> FromSpecImpl<&'a str> for Path<'a> {
    open spec fn obeys_from_spec() -> bool {
        false
    }

    open spec fn from_spec(s: &'a str) -> Self {
        arbitrary()
    }
}

impl<'a> From<&'a String> for Path<'a> {
    fn from(s: &'a String) -> (path: Self)
        ensures
            path@ == model::parts_of(s@),
            model::display_len(path@) <= usize::MAX,
            !path.is_shared(),
    {
        Self::new(s.as_str())
    }
}

impl<'a> FromSpecImpl<&'a String> for Path<'a> {
    open spec fn obeys_from_spec() -> bool {
        false
    }

    open spec fn from_spec(s: &'a String) -> Self {
        arbitrary()
    }
}

impl<'a> From<String> for Path<'a> {
    fn from(s: String) -> (path: Self)
        ensures
            path@ == model::parts_of(s@),
            model::display_len(path@) <= usize::MAX,
            path.is_shared() == (path@.len() > 0),
    {
        Path::new(s.as_str()).into_owned()
    }
}

impl<'a> FromSpecImpl<String> for Path<'a> {
    open spec fn obeys_from_spec() -> bool {
        false
    }

    open spec fn from_spec(s: String) -> Self {
        arbitrary()
    }
}

impl<'a> Default for Path<'a> {
    /// The empty path.
    fn default() -> (path: Self)
        ensures
            path@ == Seq::<Seq<char>>::empty(),
            !path.is_shared(),
    {
        Path::empty()
    }
}

} // verus!
