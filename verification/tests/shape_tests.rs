use devo::error::Error;
use devo::evolve::Devolve;
use devo::evolve::Evolve;
use devo::shapes::DevolvedShape;
use devo::shapes::Shape;
use devo::value::Dyn;

#[test]
fn shape_roundtrip_is_identity() {
    let v = Shape::Square { s: 2 };
    let devolved = v.into_devolved();
    assert_eq!(devolved, DevolvedShape::Square { s: 2 });
    assert_eq!(devolved.try_into_evolved().unwrap(), v);

    let v = Shape::Circle { r: 5 };
    assert_eq!(v.into_devolved().try_into_evolved().unwrap(), v);
}

#[test]
fn unrecognized_shape_fails_to_evolve() {
    let held = DevolvedShape::UnrecognizedVariant(Dyn::Text(String::from("Triangle")));
    let err = held.try_into_evolved().unwrap_err();
    match &err {
        Error::UnknownVariant { ty, path } => {
            assert_eq!(ty, "Shape");
            assert!(path.is_empty());
        }
    }
    assert_eq!(err.message(), "evolution failed: Shape.[unknown_variant]");
}
