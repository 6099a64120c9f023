//! How a component's metadata follows from the declaration of its struct:
//! fields marked `#[injected]` become its dependencies, and a struct marked
//! `#[lifecycle]` supplies its own start and stop hooks.
use vstd::prelude::*;

use crate::graph::{ComponentMeta, TypeKey};

verus! {

/// The path of an attribute, as far as components care.
#[derive(PartialEq, Eq, Structural, Clone, Copy, Debug)]
pub enum AttrPath {
    Injected,
    Lifecycle,
    Other,
}

/// The shape of an attribute's arguments.
#[derive(PartialEq, Eq, Structural, Clone, Copy, Debug)]
pub enum MetaForm {
    /// A bare path, as in `#[injected]`.
    Path,
    /// A list, as in `#[injected(x)]`.
    List,
    /// A name and a value, as in `#[injected = "x"]`.
    NameValue,
    /// Arguments that do not parse.
    Malformed,
}

#[derive(PartialEq, Eq, Structural, Clone, Copy, Debug)]
pub struct Attribute {
    pub path: AttrPath,
    pub form: MetaForm,
}

/// A named field of a component struct: its name, the interface type it
/// holds and its attributes.
pub struct FieldDecl {
    pub ident: String,
    pub ty: TypeKey,
    pub attrs: Vec<Attribute>,
}

/// The body of the declared type.
pub enum StructData {
    Named(Vec<FieldDecl>),
    Unit,
    Tuple,
    Enum,
    Union,
}

/// A declared component type: its interface type, its attributes and its body.
pub struct DeriveInput {
    pub type_id: TypeKey,
    pub attrs: Vec<Attribute>,
    pub data: StructData,
}

/// A field as the component's constructor sees it.
pub struct ComponentField {
    pub injected: bool,
    pub ident: String,
    pub ty: TypeKey,
}

/// How the constructor fills one field.
#[derive(PartialEq, Eq, Structural, Clone, Copy, Debug)]
pub enum FieldInit {
    /// Taken from the repository, under this interface type.
    Injected(TypeKey),
    /// The field type's default value.
    Default,
}

/// Why a declaration cannot be a component.
#[derive(PartialEq, Eq, Structural, Clone, Copy, Debug)]
pub enum DeriveError {
    NotAStruct,
    TupleStruct,
}

/// What an attribute says about injection: nothing unless its path is
/// `injected`, then yes when it is a bare path, else it is malformed.
pub open spec fn injected_attribute(attr: Attribute) -> Result<bool, ()> {
    if attr.path != AttrPath::Injected {
        Ok(false)
    } else if attr.form == MetaForm::Path {
        Ok(true)
    } else {
        Err(())
    }
}

/// Some attribute of the field marks it as injected.
pub open spec fn field_injected(attrs: Seq<Attribute>) -> bool {
    exists|i: int| 0 <= i < attrs.len() && injected_attribute(#[trigger] attrs[i]) == Ok::<bool, ()>(true)
}

/// Some attribute of the type is `lifecycle`.
pub open spec fn lifecycle_mode(attrs: Seq<Attribute>) -> bool {
    exists|i: int| 0 <= i < attrs.len() && (#[trigger] attrs[i]).path == AttrPath::Lifecycle
}

/// The interface types of the injected fields, in field order.
pub open spec fn injected_types(fields: Seq<ComponentField>) -> Seq<TypeKey>
    decreases fields.len(),
{
    if fields.len() == 0 {
        Seq::empty()
    } else if fields.last().injected {
        injected_types(fields.drop_last()).push(fields.last().ty)
    } else {
        injected_types(fields.drop_last())
    }
}

/// `c` is the declared field `f` as the constructor sees it.
pub open spec fn parsed_field(f: FieldDecl, c: ComponentField) -> bool {
    c.injected == field_injected(f.attrs@) && c.ident == f.ident && c.ty == f.ty
}

pub fn is_injected_attribute(attr: &Attribute) -> (r: Result<bool, ()>)
    ensures
        r == injected_attribute(*attr),
{
    if attr.path != AttrPath::Injected {
        return Ok(false);
    }
    match attr.form {
        MetaForm::Path => Ok(true),
        _ => Err(()),
    }
}

/// Whether the type carries the `lifecycle` attribute.
pub fn is_lifecycle_mode(attrs: &Vec<Attribute>) -> (r: bool)
    ensures
        r == lifecycle_mode(attrs@),
{
    let mut i: usize = 0;
    while i < attrs.len()
        invariant
            i <= attrs@.len(),
            forall|j: int| 0 <= j < i ==> (#[trigger] attrs@[j]).path != AttrPath::Lifecycle,
        decreases attrs@.len() - i,
    {
        if attrs[i].path == AttrPath::Lifecycle {
            return true;
        }
        i = i + 1;
    }
    false
}

/// Reads one named field: it is injected when one of its attributes is a
/// bare `injected`; a malformed `injected` attribute does not count.
pub fn parse_struct_field(field: &FieldDecl) -> (r: ComponentField)
    ensures
        parsed_field(*field, r),
{
    let mut injected = false;
    let mut i: usize = 0;
    while i < field.attrs.len()
        invariant
            i <= field.attrs@.len(),
            injected == exists|j: int|
                0 <= j < i && injected_attribute(#[trigger] field.attrs@[j]) == Ok::<bool, ()>(true),
        decreases field.attrs@.len() - i,
    {
        match is_injected_attribute(&field.attrs[i]) {
            Ok(true) => {
                injected = true;
            },
            _ => {},
        }
        i = i + 1;
    }
    ComponentField { injected, ident: field.ident.clone(), ty: field.ty }
}

/// The fields of the declared type: those of a struct with named fields, or
/// none for a unit struct. Any other body is refused.
pub fn parse_struct_data(data: &StructData) -> (r: Result<Vec<ComponentField>, DeriveError>)
    ensures
        match (data, r) {
            (StructData::Named(fs), Ok(cs)) => cs@.len() == fs@.len() && forall|i: int|
                0 <= i < fs@.len() ==> parsed_field(#[trigger] fs@[i], cs@[i]),
            (StructData::Unit, Ok(cs)) => cs@.len() == 0,
            (StructData::Tuple, Err(e)) => e == DeriveError::TupleStruct,
            (StructData::Enum, Err(e)) => e == DeriveError::NotAStruct,
            (StructData::Union, Err(e)) => e == DeriveError::NotAStruct,
            _ => false,
        },
{
    let fs = match data {
        StructData::Named(fs) => fs,
        StructData::Unit => {
            return Ok(Vec::new());
        },
        StructData::Tuple => {
            return Err(DeriveError::TupleStruct);
        },
        _ => {
            return Err(DeriveError::NotAStruct);
        },
    };
    let mut cs: Vec<ComponentField> = Vec::new();
    let mut i: usize = 0;
    while i < fs.len()
        invariant
            i <= fs@.len(),
            cs@.len() == i,
            forall|j: int| 0 <= j < i ==> parsed_field(#[trigger] fs@[j], cs@[j]),
        decreases fs@.len() - i,
    {
        let c = parse_struct_field(&fs[i]);
        cs.push(c);
        assert(cs@[i as int] == c);
        i = i + 1;
    }
    Ok(cs)
}

/// How the constructor fills each field, in field order.
pub fn build_struct_fields(fields: &Vec<ComponentField>) -> (r: Vec<FieldInit>)
    ensures
        r@.len() == fields@.len(),
        forall|i: int|
            0 <= i < fields@.len() ==> #[trigger] r@[i] == if fields@[i].injected {
                FieldInit::Injected(fields@[i].ty)
            } else {
                FieldInit::Default
            },
{
    let mut r: Vec<FieldInit> = Vec::new();
    let mut i: usize = 0;
    while i < fields.len()
        invariant
            i <= fields@.len(),
            r@.len() == i,
            forall|j: int|
                0 <= j < i ==> #[trigger] r@[j] == if fields@[j].injected {
                    FieldInit::Injected(fields@[j].ty)
                } else {
                    FieldInit::Default
                },
        decreases fields@.len() - i,
    {
        if fields[i].injected {
            r.push(FieldInit::Injected(fields[i].ty));
        } else {
            r.push(FieldInit::Default);
        }
        i = i + 1;
    }
    r
}

/// The interface types of the injected fields, in field order.
pub fn build_depends_on(fields: &Vec<ComponentField>) -> (r: Vec<TypeKey>)
    ensures
        r@ == injected_types(fields@),
{
    let mut r: Vec<TypeKey> = Vec::new();
    let mut i: usize = 0;
    while i < fields.len()
        invariant
            i <= fields@.len(),
            r@ == injected_types(fields@.subrange(0, i as int)),
        decreases fields@.len() - i,
    {
        let ghost before = fields@.subrange(0, i as int);
        let ghost after = fields@.subrange(0, i as int + 1);
        assert(after.drop_last() == before);
        if fields[i].injected {
            r.push(fields[i].ty);
        }
        i = i + 1;
    }
    assert(fields@.subrange(0, fields@.len() as int) == fields@);
    r
}

/// Whether the type needs the default, hook-free lifecycle: it does unless
/// it is marked `lifecycle` and supplies its own.
pub fn build_impl_component_lifecycle(input: &DeriveInput) -> (r: bool)
    ensures
        r == !lifecycle_mode(input.attrs@),
{
    !is_lifecycle_mode(&input.attrs)
}

/// The metadata of a declared component type: its interface type, the
/// types of its injected fields as dependencies, and whether it has hooks.
pub fn derive_component(input: &DeriveInput) -> (r: Result<ComponentMeta, DeriveError>)
    ensures
        match r {
            Ok(meta) => exists|cs: Seq<ComponentField>| {
                &&& match input.data {
                    StructData::Named(fs) => cs.len() == fs@.len() && forall|i: int|
                        0 <= i < fs@.len() ==> parsed_field(#[trigger] fs@[i], cs[i]),
                    StructData::Unit => cs.len() == 0,
                    _ => false,
                }
                &&& meta.type_id == input.type_id
                &&& meta.depends_on@ == injected_types(cs)
                &&& meta.lifecycle == lifecycle_mode(input.attrs@)
            },
            Err(e) => match input.data {
                StructData::Tuple => e == DeriveError::TupleStruct,
                StructData::Enum | StructData::Union => e == DeriveError::NotAStruct,
                _ => false,
            },
        },
{
    let fields = match parse_struct_data(&input.data) {
        Ok(fields) => fields,
        Err(e) => {
            return Err(e);
        },
    };
    let depends_on = build_depends_on(&fields);
    let lifecycle = is_lifecycle_mode(&input.attrs);
    Ok(ComponentMeta { type_id: input.type_id, depends_on, lifecycle })
}

} // verus!
