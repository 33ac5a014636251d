use devo::error::Error;

#[test]
fn extend_prepends_path_and_keeps_leaf() {
    let e = Error::unknown_variant(String::from("C"));
    let e = e.extend(String::from("B"));
    let e = e.extend(String::from("A"));
    match &e {
        Error::UnknownVariant { ty, path } => {
            assert_eq!(ty, "C");
            assert_eq!(path, &vec![String::from("A"), String::from("B")]);
        }
    }
}

#[test]
fn message_renders_dotted_path_outermost_first() {
    let e = Error::unknown_variant(String::from("C"))
        .extend(String::from("B"))
        .extend(String::from("A"));
    assert_eq!(e.message(), "evolution failed: A.B.C.[unknown_variant]");
}

#[test]
fn message_without_path_names_the_type_alone() {
    let e = Error::unknown_variant(String::from("Shape"));
    assert_eq!(e.message(), "evolution failed: Shape.[unknown_variant]");
}
