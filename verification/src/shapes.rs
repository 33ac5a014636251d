//! A worked example of the conversion pair on a concrete pair of types: a
//! geometric `Shape` and its hand-written tolerant mirror, the form the
//! shape transformer derives for a two-variant union.

use vstd::prelude::*;
use crate::error::Error;
use crate::error::ErrorV;
use crate::evolve::Devolve;
use crate::evolve::Evolve;
use crate::value::Dyn;

verus! {

/// A geometric shape, as its current writer knows it.
#[derive(Debug, PartialEq, Eq, Clone, Copy)]
pub enum Shape {
    Circle { r: i64 },
    Square { s: i64 },
}

/// The tolerant mirror of [`Shape`]: the declared variants carry over and a
/// synthetic catch-all arm absorbs any variant a newer writer may add,
/// holding its payload as an uninterpreted fallback value.
#[derive(Debug, PartialEq, Eq)]
pub enum DevolvedShape {
    Circle { r: i64 },
    Square { s: i64 },
    UnrecognizedVariant(Dyn),
}

impl Devolve for Shape {
    type Devolved = DevolvedShape;

    open spec fn devolve_spec(self) -> DevolvedShape {
        match self {
            Shape::Circle { r } => DevolvedShape::Circle { r },
            Shape::Square { s } => DevolvedShape::Square { s },
        }
    }

    fn into_devolved(self) -> (r: DevolvedShape)
        ensures
            r == self.devolve_spec(),
    {
        match self {
            Shape::Circle { r } => DevolvedShape::Circle { r },
            Shape::Square { s } => DevolvedShape::Square { s },
        }
    }
}

impl Evolve for DevolvedShape {
    type Evolved = Shape;

    open spec fn evolve_spec(self) -> Result<Shape, ErrorV> {
        match self {
            DevolvedShape::Circle { r } => Ok(Shape::Circle { r }),
            DevolvedShape::Square { s } => Ok(Shape::Square { s }),
            DevolvedShape::UnrecognizedVariant(_) => Err(
                ErrorV { ty: "Shape"@, path: Seq::empty() },
            ),
        }
    }

    fn try_into_evolved(self) -> (r: Result<Shape, Error>)
        ensures
            match r {
                Ok(v) => self.evolve_spec() == Ok::<Shape, ErrorV>(v),
                Err(e) => self.evolve_spec() == Err::<Shape, ErrorV>(e@),
            },
    {
        match self {
            DevolvedShape::Circle { r } => Ok(Shape::Circle { r }),
            DevolvedShape::Square { s } => Ok(Shape::Square { s }),
            DevolvedShape::UnrecognizedVariant(_) => Err(
                Error::unknown_variant(String::from_str("Shape")),
            ),
        }
    }
}

/// Round-trip idempotence for the worked example: devolving any shape and
/// evolving it back gives the shape unchanged.
pub proof fn lemma_shape_roundtrip(v: Shape)
    ensures
        v.devolve_spec().evolve_spec() == Ok::<Shape, ErrorV>(v),
{
}

} // verus!
