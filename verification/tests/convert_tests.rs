use devo::convert::downgrade;
use devo::convert::upgrade;
use devo::error::Error;
use devo::schema::derive_shape;
use devo::schema::Defs;
use devo::schema::FallbackTy;
use devo::schema::FieldDef;
use devo::schema::FieldTy;
use devo::schema::TolDefs;
use devo::schema::TypeDef;
use devo::schema::VariantDef;
use devo::schema::VariantFields;
use devo::value::Dyn;
use devo::value::TolValue;
use devo::value::Value;

fn opaque_field() -> FieldDef {
    FieldDef { name: None, public: false, evolvable: false, ty: FieldTy::Opaque }
}

fn evolvable_field(target: usize) -> FieldDef {
    FieldDef { name: None, public: false, evolvable: true, ty: FieldTy::Named(target) }
}

fn tuple_variant(name: &str, fields: Vec<FieldDef>) -> VariantDef {
    VariantDef { name: String::from(name), untagged: false, fields: VariantFields::Tuple(fields) }
}

fn unit_variant(name: &str) -> VariantDef {
    VariantDef { name: String::from(name), untagged: false, fields: VariantFields::Unit }
}

/// A record holding one evolvable union slot and one uninterpreted slot.
fn record_defs() -> (Defs, TolDefs) {
    let defs = Defs {
        types: vec![
            TypeDef::Record {
                name: String::from("Holder"),
                fields: vec![evolvable_field(1), opaque_field()],
            },
            TypeDef::Union {
                name: String::from("Status"),
                variants: vec![
                    unit_variant("Idle"),
                    tuple_variant("Busy", vec![opaque_field()]),
                ],
                fallback: None,
            },
        ],
    };
    let tol = derive_shape(&defs, Some(FallbackTy::Any)).unwrap().shape;
    (defs, tol)
}

fn holder_value() -> Value {
    Value::Rec {
        fields: vec![
            Value::Un { tag: 1, fields: vec![Value::Opaque(Dyn::Int(7))] },
            Value::Opaque(Dyn::Text(String::from("payload"))),
        ],
    }
}

#[test]
fn downgrade_preserves_structure_and_tags() {
    let tol = downgrade(&holder_value());
    match &tol {
        TolValue::Rec { fields } => {
            assert!(matches!(&fields[0], TolValue::Un { tag: 1, .. }));
            assert_eq!(fields[1], TolValue::Opaque(Dyn::Text(String::from("payload"))));
        }
        _ => panic!("expected a record value"),
    }
}

#[test]
fn upgrade_of_downgrade_is_identity() {
    let (_, tol_defs) = record_defs();
    let v = holder_value();
    let devolved = downgrade(&v);
    let evolved = upgrade(&tol_defs, 0, &devolved).unwrap();
    assert_eq!(evolved, v);
}

#[test]
fn opaque_fields_pass_through_unchanged() {
    let (_, tol_defs) = record_defs();
    let v = holder_value();
    let devolved = downgrade(&v);
    let back = upgrade(&tol_defs, 0, &devolved).unwrap();
    match (&v, &devolved, &back) {
        (
            Value::Rec { fields: before },
            TolValue::Rec { fields: held },
            Value::Rec { fields: after },
        ) => {
            assert_eq!(before[1], Value::Opaque(Dyn::Text(String::from("payload"))));
            assert_eq!(held[1], TolValue::Opaque(Dyn::Text(String::from("payload"))));
            assert_eq!(after[1], before[1]);
        }
        _ => panic!("expected record values"),
    }
}

#[test]
fn upgrade_of_the_catch_all_fails_with_the_union_name() {
    let (_, tol_defs) = record_defs();
    let unknown = TolValue::Unknown(Dyn::Text(String::from("Surprise")));
    let err = upgrade(&tol_defs, 1, &unknown).unwrap_err();
    match &err {
        Error::UnknownVariant { ty, path } => {
            assert_eq!(ty, "Status");
            assert!(path.is_empty());
        }
    }
}

#[test]
fn upgrade_leaves_the_tolerant_value_usable_after_failure() {
    let (_, tol_defs) = record_defs();
    let unknown = TolValue::Unknown(Dyn::Int(5));
    assert!(upgrade(&tol_defs, 1, &unknown).is_err());
    // The value was only read; it is still intact and can be re-examined.
    assert_eq!(unknown, TolValue::Unknown(Dyn::Int(5)));
}

/// Three nested unions where only the innermost holds unrecognized content.
fn nested_defs() -> TolDefs {
    let defs = Defs {
        types: vec![
            TypeDef::Union {
                name: String::from("A"),
                variants: vec![tuple_variant("WrapB", vec![evolvable_field(1)])],
                fallback: None,
            },
            TypeDef::Union {
                name: String::from("B"),
                variants: vec![tuple_variant("WrapC", vec![evolvable_field(2)])],
                fallback: None,
            },
            TypeDef::Union {
                name: String::from("C"),
                variants: vec![unit_variant("Leaf")],
                fallback: None,
            },
        ],
    };
    derive_shape(&defs, Some(FallbackTy::Any)).unwrap().shape
}

#[test]
fn nested_upgrade_failure_names_every_containing_union() {
    let tol_defs = nested_defs();
    let value = TolValue::Un {
        tag: 0,
        fields: vec![TolValue::Un {
            tag: 0,
            fields: vec![TolValue::Unknown(Dyn::Text(String::from("mystery")))],
        }],
    };
    let err = upgrade(&tol_defs, 0, &value).unwrap_err();
    match &err {
        Error::UnknownVariant { ty, path } => {
            assert_eq!(ty, "C");
            assert_eq!(path, &vec![String::from("A"), String::from("B")]);
        }
    }
    assert_eq!(err.message(), "evolution failed: A.B.C.[unknown_variant]");
}
