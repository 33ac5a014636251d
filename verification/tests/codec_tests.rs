use devo::codec::decode_tolerant;
use devo::codec::encode_tolerant;
use devo::codec::encode_value;
use devo::convert::downgrade;
use devo::convert::upgrade;
use devo::error::Error;
use devo::schema::derive_shape;
use devo::schema::Defs;
use devo::schema::FallbackTy;
use devo::schema::FieldDef;
use devo::schema::FieldTy;
use devo::schema::TolDefs;
use devo::schema::TypeDef;
use devo::schema::VariantDef;
use devo::schema::VariantFields;
use devo::value::Dyn;
use devo::value::TolValue;
use devo::value::Value;

fn opaque_field() -> FieldDef {
    FieldDef { name: None, public: false, evolvable: false, ty: FieldTy::Opaque }
}

fn named_opaque_field(name: &str) -> FieldDef {
    FieldDef { name: Some(String::from(name)), public: false, evolvable: false, ty: FieldTy::Opaque }
}

fn evolvable_field(target: usize) -> FieldDef {
    FieldDef { name: None, public: false, evolvable: true, ty: FieldTy::Named(target) }
}

fn unit_variant(name: &str) -> VariantDef {
    VariantDef { name: String::from(name), untagged: false, fields: VariantFields::Unit }
}

fn tuple_variant(name: &str, fields: Vec<FieldDef>) -> VariantDef {
    VariantDef { name: String::from(name), untagged: false, fields: VariantFields::Tuple(fields) }
}

fn record_variant(name: &str, fields: Vec<FieldDef>) -> VariantDef {
    VariantDef { name: String::from(name), untagged: false, fields: VariantFields::Record(fields) }
}

/// A record holding an evolvable union slot and an uninterpreted slot.
fn sample_defs() -> (Defs, TolDefs) {
    let defs = Defs {
        types: vec![
            TypeDef::Record {
                name: String::from("Holder"),
                fields: vec![evolvable_field(1), opaque_field()],
            },
            TypeDef::Union {
                name: String::from("Status"),
                variants: vec![
                    unit_variant("Idle"),
                    tuple_variant("Busy", vec![opaque_field(), opaque_field()]),
                ],
                fallback: None,
            },
        ],
    };
    let tol = derive_shape(&defs, Some(FallbackTy::Any)).unwrap().shape;
    (defs, tol)
}

fn sample_value() -> Value {
    Value::Rec {
        fields: vec![
            Value::Un {
                tag: 1,
                fields: vec![Value::Opaque(Dyn::Int(3)), Value::Opaque(Dyn::Bool(true))],
            },
            Value::Opaque(Dyn::Text(String::from("keep"))),
        ],
    }
}

#[test]
fn encoding_is_stable_under_downgrade() {
    let (defs, tol_defs) = sample_defs();
    let v = sample_value();
    let direct = encode_value(&defs, 0, &v);
    let through = encode_tolerant(&tol_defs, 0, &downgrade(&v));
    assert_eq!(direct, through);
}

#[test]
fn test_roundtrip_direct() {
    let (defs, tol_defs) = sample_defs();
    let v = sample_value();
    let wire = encode_value(&defs, 0, &v);
    let decoded = decode_tolerant(&tol_defs, 0, &wire).unwrap();
    let rewire = encode_tolerant(&tol_defs, 0, &decoded);
    assert_eq!(wire, rewire);
}

#[test]
fn test_roundtrip_through_devo() {
    let (_, tol_defs) = sample_defs();
    let initial = sample_value();
    let wire = encode_tolerant(&tol_defs, 0, &downgrade(&initial));
    let devolved = decode_tolerant(&tol_defs, 0, &wire).unwrap();
    let reevolved = upgrade(&tol_defs, 0, &devolved).unwrap();
    let rewire = encode_tolerant(&tol_defs, 0, &downgrade(&reevolved));
    let finished = upgrade(&tol_defs, 0, &decode_tolerant(&tol_defs, 0, &rewire).unwrap())
        .unwrap();
    assert_eq!(wire, rewire);
    assert_eq!(initial, finished);
}

#[test]
fn unit_variants_encode_as_their_bare_tag() {
    let (defs, _) = sample_defs();
    let v = Value::Un { tag: 0, fields: vec![] };
    assert_eq!(encode_value(&defs, 1, &v), Dyn::Text(String::from("Idle")));
}

#[test]
fn payload_variants_encode_with_the_tag_at_the_head() {
    let (defs, _) = sample_defs();
    let v = Value::Un {
        tag: 1,
        fields: vec![Value::Opaque(Dyn::Int(3)), Value::Opaque(Dyn::Bool(true))],
    };
    assert_eq!(
        encode_value(&defs, 1, &v),
        Dyn::List(vec![Dyn::Text(String::from("Busy")), Dyn::Int(3), Dyn::Bool(true)])
    );
}

/// The concrete forward-compatibility scenario: a reader that only knows
/// `Circle` receives a `Square` written by a newer producer.
fn shape_tables() -> (Defs, Defs, TolDefs) {
    let old = Defs {
        types: vec![TypeDef::Union {
            name: String::from("Shape"),
            variants: vec![record_variant("Circle", vec![named_opaque_field("r")])],
            fallback: None,
        }],
    };
    let new = Defs {
        types: vec![TypeDef::Union {
            name: String::from("Shape"),
            variants: vec![
                record_variant("Circle", vec![named_opaque_field("r")]),
                record_variant("Square", vec![named_opaque_field("s")]),
            ],
            fallback: None,
        }],
    };
    let old_tol = derive_shape(&old, Some(FallbackTy::Any)).unwrap().shape;
    (old, new, old_tol)
}

#[test]
fn test_compat() {
    let (_, new, old_tol) = shape_tables();
    let square = Value::Un { tag: 1, fields: vec![Value::Opaque(Dyn::Int(2))] };
    let wire = encode_value(&new, 0, &square);
    assert_eq!(wire, Dyn::List(vec![Dyn::Text(String::from("Square")), Dyn::Int(2)]));

    // The old reader decodes into its tolerant shape: the synthetic arm
    // captures the complete unknown payload.
    let decoded = decode_tolerant(&old_tol, 0, &wire).unwrap();
    assert_eq!(decoded, TolValue::Unknown(wire.duplicate()));

    // Upgrading fails, naming exactly the enum that gained the variant.
    let err = upgrade(&old_tol, 0, &decoded).unwrap_err();
    match &err {
        Error::UnknownVariant { ty, path } => {
            assert_eq!(ty, "Shape");
            assert!(path.is_empty());
        }
    }

    // Re-encoding the decoded value reproduces the producer's bytes exactly.
    let rewire = encode_tolerant(&old_tol, 0, &decoded);
    assert_eq!(rewire, wire);
}

#[test]
fn known_variants_still_upgrade_under_the_old_reader() {
    let (_, new, old_tol) = shape_tables();
    let circle = Value::Un { tag: 0, fields: vec![Value::Opaque(Dyn::Int(4))] };
    let wire = encode_value(&new, 0, &circle);
    let decoded = decode_tolerant(&old_tol, 0, &wire).unwrap();
    let evolved = upgrade(&old_tol, 0, &decoded).unwrap();
    assert_eq!(evolved, circle);
}

#[test]
fn test_fallback() {
    let variants = vec![unit_variant("Foo"), unit_variant("Bar"), unit_variant("Baz")];
    let permissive = Defs {
        types: vec![TypeDef::Union {
            name: String::from("MyEnum"),
            variants: variants.clone(),
            fallback: None,
        }],
    };
    let rigid = Defs {
        types: vec![TypeDef::Union {
            name: String::from("MyEnum"),
            variants,
            fallback: Some(FallbackTy::Arity(3)),
        }],
    };
    let permissive_tol = derive_shape(&permissive, Some(FallbackTy::Any)).unwrap().shape;
    let rigid_tol = derive_shape(&rigid, Some(FallbackTy::Any)).unwrap().shape;

    // A newer writer's unit variant, unknown to both readers.
    let wire = Dyn::Text(String::from("Corge"));
    let decoded = decode_tolerant(&permissive_tol, 0, &wire).unwrap();
    assert_eq!(decoded, TolValue::Unknown(Dyn::Text(String::from("Corge"))));

    // The rigid fixed-arity fallback cannot represent the payload: an
    // ordinary decode error at the codec boundary, as declared.
    assert!(decode_tolerant(&rigid_tol, 0, &wire).is_err());
}

#[test]
fn untagged_arms_absorb_unmatched_data_and_suppress_the_catch_all() {
    let defs = Defs {
        types: vec![TypeDef::Union {
            name: String::from("Mixed"),
            variants: vec![
                unit_variant("Known"),
                VariantDef {
                    name: String::from("AlreadyUntagged"),
                    untagged: true,
                    fields: VariantFields::Tuple(vec![opaque_field()]),
                },
            ],
            fallback: None,
        }],
    };
    let tol = derive_shape(&defs, Some(FallbackTy::Any)).unwrap().shape;
    let wire = Dyn::Text(String::from("SomethingElse"));
    let decoded = decode_tolerant(&tol, 0, &wire).unwrap();
    assert_eq!(
        decoded,
        TolValue::Un {
            tag: 1,
            fields: vec![TolValue::Opaque(Dyn::Text(String::from("SomethingElse")))],
        }
    );
    // Round trip: the captured payload is re-emitted verbatim.
    assert_eq!(encode_tolerant(&tol, 0, &decoded), wire);
}

#[test]
fn nested_unknown_variants_are_absorbed_in_place() {
    // A record holding a union slot: only the union gained a variant.
    let old = Defs {
        types: vec![
            TypeDef::Record {
                name: String::from("Holder"),
                fields: vec![evolvable_field(1), opaque_field()],
            },
            TypeDef::Union {
                name: String::from("Status"),
                variants: vec![unit_variant("Idle")],
                fallback: None,
            },
        ],
    };
    let mut new = old.clone();
    match &mut new.types[1] {
        TypeDef::Union { variants, .. } => {
            variants.push(tuple_variant("Paused", vec![opaque_field()]))
        }
        _ => panic!("expected a union"),
    }
    let old_tol = derive_shape(&old, Some(FallbackTy::Any)).unwrap().shape;

    let v = Value::Rec {
        fields: vec![
            Value::Un { tag: 1, fields: vec![Value::Opaque(Dyn::Int(9))] },
            Value::Opaque(Dyn::Bool(false)),
        ],
    };
    let wire = encode_value(&new, 0, &v);
    let decoded = decode_tolerant(&old_tol, 0, &wire).unwrap();
    match &decoded {
        TolValue::Rec { fields } => {
            assert_eq!(
                fields[0],
                TolValue::Unknown(Dyn::List(vec![Dyn::Text(String::from("Paused")), Dyn::Int(9)]))
            );
            assert_eq!(fields[1], TolValue::Opaque(Dyn::Bool(false)));
        }
        _ => panic!("expected a record value"),
    }
    // The failure names the union that gained the variant; the containing
    // record adds no path segment.
    let err = upgrade(&old_tol, 0, &decoded).unwrap_err();
    match &err {
        Error::UnknownVariant { ty, path } => {
            assert_eq!(ty, "Status");
            assert!(path.is_empty());
        }
    }
    // The whole nested structure still re-encodes byte-for-byte.
    assert_eq!(encode_tolerant(&old_tol, 0, &decoded), wire);
}
