//! The single error surface of the conversion pair: an upgrade met an
//! unrecognized variant somewhere in the nested structure.

use vstd::prelude::*;

verus! {

/// Mathematical form of an upgrade failure: the name of the tagged union
/// that actually held the unrecognized tag, and the ordered chain of
/// containing union type names, outermost first.
pub struct ErrorV {
    pub ty: Seq<char>,
    pub path: Seq<Seq<char>>,
}

/// An upgrade failure.  `ty` names the innermost tagged union — the one that
/// actually held the unrecognized tag — and `path` names the containing
/// union types, outermost first.
#[derive(Debug, Clone, PartialEq, Eq)]
pub enum Error {
    UnknownVariant { ty: String, path: Vec<String> },
}

impl View for Error {
    type V = ErrorV;

    open spec fn view(&self) -> ErrorV {
        match self {
            Error::UnknownVariant { ty, path } => ErrorV { ty: ty@, path: path.deep_view() },
        }
    }
}

impl Error {
    /// The error raised at the union that held the unrecognized tag itself:
    /// no containing types yet, so the path is empty.
    pub fn unknown_variant(ty: String) -> (r: Error)
        ensures
            r@ == (ErrorV { ty: ty@, path: Seq::<Seq<char>>::empty() }),
    {
        let r = Error::UnknownVariant { ty, path: Vec::new() };
        proof {
            assert(r@.path =~= Seq::<Seq<char>>::empty());
        }
        r
    }

    /// Wraps the error as it propagates out of a containing union: one more
    /// path segment is prepended, outermost first, and the innermost type
    /// name stays the visible leaf.
    pub fn extend(self, ext: String) -> (r: Error)
        ensures
            r@ == (ErrorV { ty: self@.ty, path: seq![ext@] + self@.path }),
    {
        match self {
            Error::UnknownVariant { ty, mut path } => {
                let ghost p0 = path.deep_view();
                path.insert(0, ext);
                proof {
                    assert(path.deep_view() =~= seq![ext@] + p0);
                }
                Error::UnknownVariant { ty, path }
            }
        }
    }

    /// The human-readable dotted rendering of the failure, outermost
    /// containing type first, ending at the type that held the tag.
    pub fn message(&self) -> (r: String)
        ensures
            r@ == spec_message(self@),
    {
        match self {
            Error::UnknownVariant { ty, path } => {
                let mut s = String::from_str("evolution failed: ");
                proof {
                    assert(path.deep_view().subrange(0, path.deep_view().len() as int)
                        =~= path.deep_view());
                }
                let mut i: usize = 0;
                while i < path.len()
                    invariant
                        0 <= i <= path@.len(),
                        spec_message(self@) == s@ + spec_chain(
                            path.deep_view().subrange(i as int, path.deep_view().len() as int),
                            ty@,
                        ),
                        self@ == (ErrorV { ty: ty@, path: path.deep_view() }),
                    decreases path@.len() - i,
                {
                    let ghost rest = path.deep_view().subrange(i as int, path.deep_view().len() as int);
                    let ghost s0 = s@;
                    s.append(path[i].as_str());
                    s.append(".");
                    proof {
                        assert(rest.drop_first() =~= path.deep_view().subrange(
                            i + 1,
                            path.deep_view().len() as int,
                        ));
                        assert(rest[0] == path.deep_view()[i as int]);
                        assert(s@ =~= s0 + rest[0] + "."@);
                        assert(s0 + spec_chain(rest, ty@)
                            =~= (s0 + rest[0] + "."@) + spec_chain(rest.drop_first(), ty@));
                    }
                    i = i + 1;
                }
                proof {
                    assert(path.deep_view().subrange(
                        path.deep_view().len() as int,
                        path.deep_view().len() as int,
                    ) =~= Seq::<Seq<char>>::empty());
                }
                let ghost s1 = s@;
                s.append(ty.as_str());
                s.append(".");
                s.append("[unknown_variant]");
                proof {
                    assert(s@ =~= s1 + (ty@ + "."@ + "[unknown_variant]"@));
                }
                s
            }
        }
    }
}

/// The rendered chain for the remaining path segments, then the innermost
/// type name, then the marker for the unrecognized content.
pub open spec fn spec_chain(path: Seq<Seq<char>>, ty: Seq<char>) -> Seq<char>
    decreases path.len(),
{
    if path.len() == 0 {
        ty + "."@ + "[unknown_variant]"@
    } else {
        path[0] + "."@ + spec_chain(path.drop_first(), ty)
    }
}

/// What `Error::message` returns, as a sequence of characters.
pub open spec fn spec_message(e: ErrorV) -> Seq<char> {
    "evolution failed: "@ + spec_chain(e.path, e.ty)
}

} // verus!
