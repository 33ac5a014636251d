//! The conversion API surface, as traits: a type in its complete form
//! devolves totally into its tolerant counterpart, and the counterpart
//! evolves back fallibly.

use vstd::prelude::*;
use crate::error::Error;
use crate::error::ErrorV;

verus! {

/// A data structure in its complete, latest-known form, which can always be
/// converted into its devolved (tolerant) counterpart.
pub trait Devolve: Sized {
    type Devolved;

    /// What the conversion produces.
    spec fn devolve_spec(self) -> Self::Devolved;

    /// Converts into the devolved form.  Total: every value has one, and the
    /// conversion never targets the catch-all arm.
    fn into_devolved(self) -> (r: Self::Devolved)
        ensures
            r == self.devolve_spec(),
    ;
}

/// A data structure in its devolved (tolerant) form, which can be converted
/// back into the complete form unless it holds unrecognized content.
pub trait Evolve: Sized {
    type Evolved;

    /// What the conversion produces: the evolved value, or the
    /// unrecognized-variant error.
    spec fn evolve_spec(self) -> Result<Self::Evolved, ErrorV>;

    /// Attempts the conversion back into the evolved form.  All or nothing:
    /// either the fully constructed value, or an error naming the union that
    /// held the unrecognized tag.
    fn try_into_evolved(self) -> (r: Result<Self::Evolved, Error>)
        ensures
            match r {
                Ok(v) => self.evolve_spec() == Ok::<Self::Evolved, ErrorV>(v),
                Err(e) => self.evolve_spec() == Err::<Self::Evolved, ErrorV>(e@),
            },
    ;
}

} // verus!
