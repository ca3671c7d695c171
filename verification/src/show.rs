//! How paths are shown.
use crate::path::Path;
use std::fmt;
use vstd::prelude::*;

verus! {

/// `std::fmt::Formatter`: where formatted text goes. Nothing is known of what is inside.
#[verifier::external_type_specification]
#[verifier::external_body]
pub struct ExFormatter<'a>(fmt::Formatter<'a>);

/// `std::fmt::Error`: that writing formatted text failed.
#[verifier::external_type_specification]
#[verifier::external_body]
pub struct ExError(fmt::Error);

/// `std::fmt::Formatter::write_str`. Nothing is claimed of what it returns or leaves behind: that
/// is up to where the text goes. The contracts of showing a path say on which texts this is
/// called, and in which order.
#[verifier::external_body]
pub fn write_text(f: &mut fmt::Formatter<'_>, text: &str) -> fmt::Result {
    f.write_str(text)
}

/// The texts that display a path, in order: its parts, with a slash between neighbours.
pub open spec fn pieces(ps: Seq<Seq<char>>) -> Seq<Seq<char>>
    decreases ps.len(),
{
    if ps.len() == 0 {
        Seq::empty()
    } else if ps.len() == 1 {
        seq![ps[0]]
    } else {
        pieces(ps.drop_last()) + seq![seq!['/'], ps.last()]
    }
}

/// The texts that show a path to a developer, in order: those that display it, between `Path("`
/// and `")`.
pub open spec fn debug_pieces(ps: Seq<Seq<char>>) -> Seq<Seq<char>> {
    seq!["Path(\""@] + pieces(ps) + seq!["\")"@]
}

/// The characters of each text.
spec fn contents(texts: Seq<&str>) -> Seq<Seq<char>> {
    Seq::new(texts.len(), |i: int| texts[i]@)
}

/// Call `w` on a formatter and a text.
fn send<W: Fn(&mut fmt::Formatter<'_>, &str) -> fmt::Result>(
    w: W,
    f: &mut fmt::Formatter<'_>,
    text: &str,
) -> (r: fmt::Result)
    requires
        forall|g: &mut fmt::Formatter<'_>, t: &str| call_requires(w, (g, t)),
    ensures
        exists|g: &mut fmt::Formatter<'_>, t: &str|
            t@ == text@ && *g == *old(f) && *final(g) == *final(f)
                && #[trigger] call_ensures(w, (g, t), r),
{
    w(f, text)
}

/// Write the texts one after another, and stop at the first that cannot be written.
///
/// In the contract, `states` holds the states of the formatter: the first one, and then the one
/// behind each call of [`write_text`]. What each call returned is in `results`.
fn write_all(f: &mut fmt::Formatter<'_>, texts: &Vec<&str>) -> (r: fmt::Result)
    ensures
        exists|states: Seq<fmt::Formatter<'_>>, results: Seq<fmt::Result>|
            #![trigger states.len(), results.len()]
            results.len() <= contents(texts@).len() && states.len() == results.len() + 1
                && states[0] == *old(f) && states.last() == *final(f)
                && (results.len() == 0 ==> r is Ok) && (results.len() > 0 ==> r == results.last())
                && (r is Ok ==> results.len() == contents(texts@).len()) && forall|i: int|
                #![trigger results[i]]
                0 <= i < results.len() ==> (i + 1 < results.len() ==> results[i] is Ok)
                    && exists|g: &mut fmt::Formatter<'_>, t: &str|
                    t@ == contents(texts@)[i] && *g == states[i] && *final(g) == states[i + 1]
                        && #[trigger] call_ensures(write_text, (g, t), results[i]),
{
    let ghost all = contents(texts@);
    let ghost mut states: Seq<fmt::Formatter<'_>> = seq![*f];
    let ghost mut results: Seq<fmt::Result> = seq![];
    let mut r: fmt::Result = Ok(());
    let mut n: usize = 0;
    while n < texts.len() && r.is_ok()
        invariant
            all == contents(texts@),
            results.len() == n <= texts@.len(),
            states.len() == n + 1,
            states[0] == *old(f),
            states[n as int] == *f,
            n == 0 ==> r is Ok,
            n > 0 ==> r == results.last(),
            forall|i: int|
                #![trigger results[i]]
                0 <= i < results.len() ==> (i + 1 < results.len() ==> results[i] is Ok)
                    && exists|g: &mut fmt::Formatter<'_>, t: &str|
                    t@ == all[i] && *g == states[i] && *final(g) == states[i + 1]
                        && #[trigger] call_ensures(write_text, (g, t), results[i]),
        decreases texts@.len() - n,
    {
        r = send(write_text, f, texts[n]);
        assert(texts@[n as int]@ == all[n as int]);
        proof {
            states = states.push(*f);
            results = results.push(r);
        }
        n = n + 1;
    }
    r
}

impl<'b> Path<'b> {
    /// Append the texts that display the path.
    fn append_pieces<'p>(&'p self, texts: &mut Vec<&'p str>)
        ensures
            contents(final(texts)@) == contents(old(texts)@) + pieces(self@),
    {
        let ghost before = contents(texts@);
        let mut parts = self.parts();
        let mut first = true;
        let ghost mut n: int = 0;
        assert(self@.skip(0) =~= self@);
        assert(self@.take(0) =~= Seq::<Seq<char>>::empty());
        assert(before + pieces(self@.take(0)) =~= before);
        loop
            invariant
                0 <= n <= self@.len(),
                first == (n == 0),
                parts@ == self@.skip(n),
                contents(texts@) == before + pieces(self@.take(n)),
                before == contents(old(texts)@),
            decreases self@.len() - n,
        {
            match parts.next() {
                None => {
                    assert(self@.take(n) =~= self@);
                    return;
                },
                Some(part) => {
                    let ghost so_far = contents(texts@);
                    let ghost longer = self@.take(n + 1);
                    assert(part@ == self@[n]);
                    assert(longer.drop_last() =~= self@.take(n));
                    if !first {
                        texts.push("/");
                        proof {
                            reveal_strlit("/");
                            assert("/"@ =~= seq!['/']);
                        }
                        assert(contents(texts@) =~= so_far.push(seq!['/']));
                    }
                    first = false;
                    let ghost now = contents(texts@);
                    texts.push(part);
                    proof {
                        assert(contents(texts@) =~= now.push(part@));
                        assert(contents(texts@) =~= before + pieces(longer));
                        n = n + 1;
                        assert(parts@ =~= self@.skip(n));
                    }
                },
            }
        }
    }
}

impl<'b> fmt::Display for Path<'b> {
    /// Write the parts with a single slash between neighbours, and stop at the first text that
    /// cannot be written.
    ///
    /// In the contract, `states` holds the states of the formatter: the first one, and then the
    /// one behind each call of [`write_text`]. What each call returned is in `results`. The calls
    /// are on the [`pieces`] of the path, in order; every one but the last succeeded, and what the
    /// last one returned is returned.
    fn fmt(&self, f: &mut fmt::Formatter<'_>) -> (r: fmt::Result)
        ensures
            exists|states: Seq<fmt::Formatter<'_>>, results: Seq<fmt::Result>|
                #![trigger states.len(), results.len()]
                results.len() <= pieces(self@).len() && states.len() == results.len() + 1
                    && states[0] == *old(f) && states.last() == *final(f)
                    && (results.len() == 0 ==> r is Ok) && (results.len() > 0 ==> r == results.last())
                    && (r is Ok ==> results.len() == pieces(self@).len()) && forall|i: int|
                    #![trigger results[i]]
                    0 <= i < results.len() ==> (i + 1 < results.len() ==> results[i] is Ok)
                        && exists|g: &mut fmt::Formatter<'_>, t: &str|
                        t@ == pieces(self@)[i] && *g == states[i] && *final(g) == states[i + 1]
                            && #[trigger] call_ensures(write_text, (g, t), results[i]),
    {
        let mut texts: Vec<&str> = Vec::new();
        self.append_pieces(&mut texts);
        assert(contents(texts@) =~= pieces(self@));
        write_all(f, &texts)
    }
}

impl<'b> fmt::Debug for Path<'b> {
    /// Write `Path("..")` with the path as it is displayed inside, and stop at the first text
    /// that cannot be written.
    ///
    /// The contract is that of displaying the path, over its [`debug_pieces`].
    fn fmt(&self, f: &mut fmt::Formatter<'_>) -> (r: fmt::Result)
        ensures
            exists|states: Seq<fmt::Formatter<'_>>, results: Seq<fmt::Result>|
                #![trigger states.len(), results.len()]
                results.len() <= debug_pieces(self@).len() && states.len() == results.len() + 1
                    && states[0] == *old(f) && states.last() == *final(f)
                    && (results.len() == 0 ==> r is Ok) && (results.len() > 0 ==> r == results.last())
                    && (r is Ok ==> results.len() == debug_pieces(self@).len()) && forall|i: int|
                    #![trigger results[i]]
                    0 <= i < results.len() ==> (i + 1 < results.len() ==> results[i] is Ok)
                        && exists|g: &mut fmt::Formatter<'_>, t: &str|
                        t@ == debug_pieces(self@)[i] && *g == states[i] && *final(g) == states[i + 1]
                            && #[trigger] call_ensures(write_text, (g, t), results[i]),
    {
        let mut texts: Vec<&str> = Vec::new();
        texts.push("Path(\"");
        assert(contents(texts@) =~= seq!["Path(\""@]);
        self.append_pieces(&mut texts);
        let ghost so_far = contents(texts@);
        texts.push("\")");
        assert(contents(texts@) =~= so_far + seq!["\")"@]);
        assert(contents(texts@) =~= debug_pieces(self@));
        write_all(f, &texts)
    }
}

} // verus!
