use devo::schema::derive_shape;
use devo::schema::DefError;
use devo::schema::Defs;
use devo::schema::FallbackTy;
use devo::schema::FieldDef;
use devo::schema::FieldTy;
use devo::schema::TolTypeDef;
use devo::schema::TypeDef;
use devo::schema::VariantDef;
use devo::schema::VariantFields;
use devo::schema::WarningKind;

fn opaque_field() -> FieldDef {
    FieldDef { name: None, public: false, evolvable: false, ty: FieldTy::Opaque }
}

fn named_opaque_field(name: &str) -> FieldDef {
    FieldDef { name: Some(String::from(name)), public: false, evolvable: false, ty: FieldTy::Opaque }
}

fn evolvable_field(target: usize) -> FieldDef {
    FieldDef { name: None, public: false, evolvable: true, ty: FieldTy::Named(target) }
}

fn unit_variant(name: &str) -> VariantDef {
    VariantDef { name: String::from(name), untagged: false, fields: VariantFields::Unit }
}

fn tuple_variant(name: &str, fields: Vec<FieldDef>) -> VariantDef {
    VariantDef { name: String::from(name), untagged: false, fields: VariantFields::Tuple(fields) }
}

fn untagged_variant(name: &str) -> VariantDef {
    VariantDef {
        name: String::from(name),
        untagged: true,
        fields: VariantFields::Tuple(vec![opaque_field()]),
    }
}

/// StructOne holds two evolvable references to EnumTwo; EnumTwo has an
/// evolvable variant referring to EnumThree; EnumThree is a leaf union.
fn sample_defs() -> Defs {
    Defs {
        types: vec![
            TypeDef::Record {
                name: String::from("StructOne"),
                fields: vec![
                    evolvable_field(1),
                    FieldDef {
                        name: Some(String::from("enum_two_public")),
                        public: true,
                        evolvable: true,
                        ty: FieldTy::Named(1),
                    },
                    named_opaque_field("plain"),
                ],
            },
            TypeDef::Union {
                name: String::from("EnumTwo"),
                variants: vec![
                    unit_variant("VariantOne"),
                    VariantDef {
                        name: String::from("VariantTwo"),
                        untagged: false,
                        fields: VariantFields::Record(vec![
                            named_opaque_field("struct_field"),
                            named_opaque_field("tuple_struct_field"),
                        ]),
                    },
                    tuple_variant("VariantThree", vec![evolvable_field(2)]),
                ],
                fallback: None,
            },
            TypeDef::Union {
                name: String::from("EnumThree"),
                variants: vec![
                    VariantDef {
                        name: String::from("VariantOne"),
                        untagged: false,
                        fields: VariantFields::Record(vec![
                            named_opaque_field("a"),
                            named_opaque_field("b"),
                        ]),
                    },
                    tuple_variant("VariantTwo", vec![opaque_field()]),
                    unit_variant("VariantThree"),
                ],
                fallback: None,
            },
            TypeDef::Union {
                name: String::from("EnumUntagged"),
                variants: vec![unit_variant("Known"), untagged_variant("AlreadyUntagged")],
                fallback: None,
            },
        ],
    }
}

#[test]
fn derive_adds_catch_all_to_plain_unions() {
    let defs = sample_defs();
    let derivation = derive_shape(&defs, Some(FallbackTy::Any)).unwrap();
    match &derivation.shape.types[1] {
        TolTypeDef::Union { name, variants, catch_all } => {
            assert_eq!(name, "EnumTwo");
            assert_eq!(variants.len(), 3);
            assert_eq!(*catch_all, Some(FallbackTy::Any));
        }
        _ => panic!("expected a union"),
    }
}

#[test]
fn derive_suppresses_catch_all_for_untagged_unions() {
    let defs = sample_defs();
    let derivation = derive_shape(&defs, Some(FallbackTy::Any)).unwrap();
    match &derivation.shape.types[3] {
        TolTypeDef::Union { catch_all, .. } => assert_eq!(*catch_all, None),
        _ => panic!("expected a union"),
    }
}

#[test]
fn derive_keeps_record_fields_unchanged() {
    let defs = sample_defs();
    let derivation = derive_shape(&defs, Some(FallbackTy::Any)).unwrap();
    match (&defs.types[0], &derivation.shape.types[0]) {
        (TypeDef::Record { fields, .. }, TolTypeDef::Record { name, fields: tol_fields }) => {
            assert_eq!(name, "StructOne");
            assert_eq!(fields, tol_fields);
        }
        _ => panic!("expected records"),
    }
}

#[test]
fn derive_prefers_the_declared_override() {
    let mut defs = sample_defs();
    match &mut defs.types[2] {
        TypeDef::Union { fallback, .. } => *fallback = Some(FallbackTy::Arity(3)),
        _ => panic!("expected a union"),
    }
    let derivation = derive_shape(&defs, Some(FallbackTy::Any)).unwrap();
    match &derivation.shape.types[2] {
        TolTypeDef::Union { catch_all, .. } => assert_eq!(*catch_all, Some(FallbackTy::Arity(3))),
        _ => panic!("expected a union"),
    }
}

#[test]
fn derive_warns_about_inert_types() {
    let defs = Defs {
        types: vec![
            TypeDef::Record {
                name: String::from("PlainRecord"),
                fields: vec![named_opaque_field("x")],
            },
            TypeDef::Union {
                name: String::from("PlainEnum"),
                variants: vec![unit_variant("Only")],
                fallback: None,
            },
        ],
    };
    let derivation = derive_shape(&defs, Some(FallbackTy::Any)).unwrap();
    assert_eq!(derivation.warnings.len(), 2);
    assert_eq!(derivation.warnings[0].ty_index, 0);
    assert_eq!(derivation.warnings[0].ty, "PlainRecord");
    assert_eq!(derivation.warnings[0].kind, WarningKind::InertRecord);
    assert_eq!(derivation.warnings[1].ty_index, 1);
    assert_eq!(derivation.warnings[1].kind, WarningKind::InertUnion);
}

#[test]
fn derive_does_not_warn_about_marked_types() {
    let defs = sample_defs();
    let derivation = derive_shape(&defs, Some(FallbackTy::Any)).unwrap();
    // Only EnumThree carries neither an evolvable marker nor an untagged arm.
    let warned: Vec<usize> = derivation.warnings.iter().map(|w| w.ty_index).collect();
    assert!(!warned.contains(&0));
    assert!(!warned.contains(&1));
    assert_eq!(warned, vec![2]);
}

#[test]
fn derive_rejects_an_unresolvable_evolvable_field() {
    let defs = Defs {
        types: vec![TypeDef::Record {
            name: String::from("Broken"),
            fields: vec![FieldDef {
                name: None,
                public: false,
                evolvable: true,
                ty: FieldTy::Opaque,
            }],
        }],
    };
    let err = derive_shape(&defs, Some(FallbackTy::Any)).unwrap_err();
    assert_eq!(err, DefError::UnresolvableEvolvable { ty: String::from("Broken") });
}

#[test]
fn derive_rejects_an_out_of_table_reference() {
    let defs = Defs {
        types: vec![TypeDef::Record {
            name: String::from("Dangling"),
            fields: vec![evolvable_field(7)],
        }],
    };
    let err = derive_shape(&defs, Some(FallbackTy::Any)).unwrap_err();
    assert_eq!(err, DefError::UnresolvableEvolvable { ty: String::from("Dangling") });
}

#[test]
fn derive_rejects_a_missing_fallback() {
    let defs = Defs {
        types: vec![TypeDef::Union {
            name: String::from("NoFallback"),
            variants: vec![unit_variant("Only")],
            fallback: None,
        }],
    };
    let err = derive_shape(&defs, None).unwrap_err();
    assert_eq!(err, DefError::MissingFallback { ty: String::from("NoFallback") });
}

#[test]
fn derive_accepts_a_missing_default_when_overridden() {
    let defs = Defs {
        types: vec![TypeDef::Union {
            name: String::from("Overridden"),
            variants: vec![unit_variant("Only")],
            fallback: Some(FallbackTy::Arity(2)),
        }],
    };
    assert!(derive_shape(&defs, None).is_ok());
}

#[test]
fn derive_rejects_a_cyclic_table() {
    let defs = Defs {
        types: vec![
            TypeDef::Record { name: String::from("Ouro"), fields: vec![evolvable_field(1)] },
            TypeDef::Record { name: String::from("Boros"), fields: vec![evolvable_field(0)] },
        ],
    };
    let err = derive_shape(&defs, Some(FallbackTy::Any)).unwrap_err();
    assert!(matches!(err, DefError::CyclicDefinitions { .. }));
}

#[test]
fn derive_rejects_a_self_cycle() {
    let defs = Defs {
        types: vec![TypeDef::Record {
            name: String::from("Selfish"),
            fields: vec![evolvable_field(0)],
        }],
    };
    let err = derive_shape(&defs, Some(FallbackTy::Any)).unwrap_err();
    assert_eq!(err, DefError::CyclicDefinitions { ty: String::from("Selfish") });
}
