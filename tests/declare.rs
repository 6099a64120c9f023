use component_container::declare::{
    build_depends_on, build_impl_component_lifecycle, build_struct_fields, derive_component,
    is_injected_attribute, is_lifecycle_mode, parse_struct_data, parse_struct_field, AttrPath,
    Attribute, DeriveError, DeriveInput, FieldDecl, FieldInit, MetaForm, StructData,
};

fn attr(path: AttrPath, form: MetaForm) -> Attribute {
    Attribute { path, form }
}

fn field(ident: &str, ty: u64, attrs: Vec<Attribute>) -> FieldDecl {
    FieldDecl { ident: ident.to_string(), ty, attrs }
}

fn injected() -> Attribute {
    attr(AttrPath::Injected, MetaForm::Path)
}

#[test]
fn injected_attribute_forms() {
    assert_eq!(is_injected_attribute(&injected()), Ok(true));
    assert_eq!(is_injected_attribute(&attr(AttrPath::Other, MetaForm::Path)), Ok(false));
    assert_eq!(is_injected_attribute(&attr(AttrPath::Lifecycle, MetaForm::List)), Ok(false));
    assert_eq!(is_injected_attribute(&attr(AttrPath::Injected, MetaForm::List)), Err(()));
    assert_eq!(is_injected_attribute(&attr(AttrPath::Injected, MetaForm::NameValue)), Err(()));
    assert_eq!(is_injected_attribute(&attr(AttrPath::Injected, MetaForm::Malformed)), Err(()));
}

#[test]
fn field_with_malformed_injected_is_not_injected() {
    let f = field("db", 7, vec![attr(AttrPath::Injected, MetaForm::List)]);
    let c = parse_struct_field(&f);
    assert!(!c.injected);
    assert_eq!(c.ident, "db");
    assert_eq!(c.ty, 7);
    let f = field("db", 7, vec![attr(AttrPath::Other, MetaForm::Path), injected()]);
    assert!(parse_struct_field(&f).injected);
}

#[test]
fn lifecycle_mode_needs_the_attribute() {
    assert!(!is_lifecycle_mode(&vec![]));
    assert!(!is_lifecycle_mode(&vec![injected(), attr(AttrPath::Other, MetaForm::Path)]));
    assert!(is_lifecycle_mode(&vec![attr(AttrPath::Other, MetaForm::Path), attr(AttrPath::Lifecycle, MetaForm::Path)]));
}

#[test]
fn struct_shapes() {
    assert!(parse_struct_data(&StructData::Unit).unwrap().is_empty());
    assert!(matches!(parse_struct_data(&StructData::Tuple), Err(DeriveError::TupleStruct)));
    assert!(matches!(parse_struct_data(&StructData::Enum), Err(DeriveError::NotAStruct)));
    assert!(matches!(parse_struct_data(&StructData::Union), Err(DeriveError::NotAStruct)));
    let fs = parse_struct_data(&StructData::Named(vec![field("a", 1, vec![injected()]), field("n", 9, vec![])])).unwrap();
    assert_eq!(fs.len(), 2);
    assert!(fs[0].injected && !fs[1].injected);
    assert_eq!(fs[1].ident, "n");
}

#[test]
fn injected_fields_become_dependencies() {
    let data = StructData::Named(vec![
        field("a", 1, vec![injected()]),
        field("count", 9, vec![]),
        field("b", 2, vec![injected()]),
    ]);
    let fs = parse_struct_data(&data).unwrap();
    assert_eq!(build_depends_on(&fs), vec![1, 2]);
    assert_eq!(build_struct_fields(&fs), vec![FieldInit::Injected(1), FieldInit::Default, FieldInit::Injected(2)]);
}

#[test]
fn derive_component_metadata() {
    let input = DeriveInput {
        type_id: 5,
        attrs: vec![attr(AttrPath::Lifecycle, MetaForm::Path)],
        data: StructData::Named(vec![field("a", 1, vec![injected()]), field("x", 3, vec![])]),
    };
    let m = derive_component(&input).unwrap();
    assert_eq!(m.type_id, 5);
    assert_eq!(m.depends_on, vec![1]);
    assert!(m.lifecycle);
    assert!(!build_impl_component_lifecycle(&input));

    let plain = DeriveInput { type_id: 6, attrs: vec![], data: StructData::Unit };
    let m = derive_component(&plain).unwrap();
    assert!(m.depends_on.is_empty());
    assert!(!m.lifecycle);
    assert!(build_impl_component_lifecycle(&plain));

    let tuple = DeriveInput { type_id: 7, attrs: vec![], data: StructData::Tuple };
    assert!(matches!(derive_component(&tuple), Err(DeriveError::TupleStruct)));
}
