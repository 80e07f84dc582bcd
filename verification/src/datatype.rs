//! The structural description of a value's shape.
//!
//! The description is a finite tree. A compound type (an object or an enum)
//! carries an identity; two compound types with one identity are meant to be
//! the same type, wherever in a tree they stand.

use vstd::prelude::*;

verus! {

/// One field of an object type.
#[derive(Debug, PartialEq, Eq)]
pub struct ObjectField {
    pub name: String,
    pub ty: DataType,
    pub optional: bool,
    pub inline: bool,
}

/// A compound type with named fields.
#[derive(Debug, PartialEq, Eq)]
pub struct ObjectType {
    pub name: String,
    pub id: u64,
    pub fields: Vec<ObjectField>,
    pub inline: bool,
    pub tag: Option<String>,
}

/// One variant of an enum type.
#[derive(Debug, PartialEq, Eq)]
pub enum EnumVariant {
    Unit(String),
    Unnamed(Vec<DataType>),
    Named(ObjectType),
}

/// A compound type with a closed set of variants.
#[derive(Debug, PartialEq, Eq)]
pub struct EnumType {
    pub name: String,
    pub id: u64,
    pub variants: Vec<EnumVariant>,
    pub inline: bool,
}

/// The shape of a value.
#[derive(Debug, PartialEq, Eq)]
pub enum DataType {
    Primitive(String),
    Object(ObjectType),
    Enum(EnumType),
    List(Box<DataType>),
    Nullable(Box<DataType>),
    Tuple(Vec<DataType>),
}

/// Whether `ty` is an object or an enum that is not marked inline: the types
/// that get a declaration of their own.
pub open spec fn declarable(ty: DataType) -> bool {
    match ty {
        DataType::Object(o) => !o.inline,
        DataType::Enum(e) => !e.inline,
        _ => false,
    }
}

impl DataType {
    /// Whether this type gets a declaration of its own.
    pub fn is_declarable(&self) -> (r: bool)
        ensures
            r == declarable(*self),
    {
        match self {
            DataType::Object(o) => !o.inline,
            DataType::Enum(e) => !e.inline,
            _ => false,
        }
    }

    /// The identity of a compound type, `None` for any other type.
    pub fn id(&self) -> (r: Option<u64>)
        ensures
            match *self {
                DataType::Object(o) => r == Some(o.id),
                DataType::Enum(e) => r == Some(e.id),
                _ => r is None,
            },
    {
        match self {
            DataType::Object(o) => Some(o.id),
            DataType::Enum(e) => Some(e.id),
            _ => None,
        }
    }
}

/// Whether `b` is built as `a` is: the same variant, names, identity and
/// flags, and parts that are built alike, in the same order.
pub open spec fn alike(a: DataType, b: DataType) -> bool
    decreases a, 0nat,
{
    match (a, b) {
        (DataType::Primitive(x), DataType::Primitive(y)) => x@ == y@,
        (DataType::Object(x), DataType::Object(y)) => alike_object(x, y),
        (DataType::Enum(x), DataType::Enum(y)) => alike_enum(x, y),
        (DataType::List(x), DataType::List(y)) => alike(*x, *y),
        (DataType::Nullable(x), DataType::Nullable(y)) => alike(*x, *y),
        (DataType::Tuple(x), DataType::Tuple(y)) => alike_items(x, y),
        _ => false,
    }
}

/// Whether the items of `b` are as many as those of `a` and built alike, one
/// by one.
pub open spec fn alike_items(a: Vec<DataType>, b: Vec<DataType>) -> bool
    decreases a, 1nat,
{
    &&& a.len() == b.len()
    &&& forall|i: int| 0 <= i < a.len() ==> alike(#[trigger] a[i], b[i])
}

/// Whether the field `b` is built as the field `a` is.
pub open spec fn alike_field(a: ObjectField, b: ObjectField) -> bool
    decreases a, 0nat,
{
    &&& a.name@ == b.name@
    &&& a.optional == b.optional
    &&& a.inline == b.inline
    &&& alike(a.ty, b.ty)
}

/// Whether the object type `b` is built as the object type `a` is.
pub open spec fn alike_object(a: ObjectType, b: ObjectType) -> bool
    decreases a, 0nat,
{
    &&& a.name@ == b.name@
    &&& a.id == b.id
    &&& a.inline == b.inline
    &&& match (a.tag, b.tag) {
        (Some(x), Some(y)) => x@ == y@,
        (None, None) => true,
        _ => false,
    }
    &&& a.fields.len() == b.fields.len()
    &&& forall|i: int| 0 <= i < a.fields.len() ==> alike_field(#[trigger] a.fields[i], b.fields[i])
}

/// Whether the variant `b` is built as the variant `a` is.
pub open spec fn alike_variant(a: EnumVariant, b: EnumVariant) -> bool
    decreases a, 0nat,
{
    match (a, b) {
        (EnumVariant::Unit(x), EnumVariant::Unit(y)) => x@ == y@,
        (EnumVariant::Unnamed(x), EnumVariant::Unnamed(y)) => alike_items(x, y),
        (EnumVariant::Named(x), EnumVariant::Named(y)) => alike_object(x, y),
        _ => false,
    }
}

/// Whether the enum type `b` is built as the enum type `a` is.
pub open spec fn alike_enum(a: EnumType, b: EnumType) -> bool
    decreases a, 0nat,
{
    &&& a.name@ == b.name@
    &&& a.id == b.id
    &&& a.inline == b.inline
    &&& a.variants.len() == b.variants.len()
    &&& forall|i: int|
        0 <= i < a.variants.len() ==> alike_variant(#[trigger] a.variants[i], b.variants[i])
}

impl Clone for DataType {
    /// A copy of the whole description, built as this one is.
    fn clone(&self) -> (r: Self)
        ensures
            alike(*self, r),
        decreases self, 0nat,
    {
        match self {
            DataType::Primitive(name) => DataType::Primitive(name.clone()),
            DataType::Object(o) => DataType::Object(o.clone()),
            DataType::Enum(e) => DataType::Enum(e.clone()),
            DataType::List(t) => {
                let inner: &DataType = t;
                DataType::List(Box::new(inner.clone()))
            },
            DataType::Nullable(t) => {
                let inner: &DataType = t;
                DataType::Nullable(Box::new(inner.clone()))
            },
            DataType::Tuple(items) => DataType::Tuple(clone_items(items)),
        }
    }
}

impl Clone for ObjectType {
    /// A copy of the object type and of its fields, built as this one is.
    fn clone(&self) -> (r: Self)
        ensures
            alike_object(*self, r),
        decreases self, 0nat,
    {
        let mut fields: Vec<ObjectField> = Vec::new();
        let mut i: usize = 0;
        while i < self.fields.len()
            invariant
                i <= self.fields.len(),
                fields.len() == i,
                forall|k: int| 0 <= k < i ==> alike_field(#[trigger] self.fields[k], fields[k]),
            decreases self.fields.len() - i,
        {
            fields.push(self.fields[i].clone());
            i += 1;
        }
        ObjectType {
            name: self.name.clone(),
            id: self.id,
            fields,
            inline: self.inline,
            tag: match &self.tag {
                Some(tag) => Some(tag.clone()),
                None => None,
            },
        }
    }
}

impl Clone for ObjectField {
    /// A copy of the field and of its type, built as this one is.
    fn clone(&self) -> (r: Self)
        ensures
            alike_field(*self, r),
        decreases self, 0nat,
    {
        ObjectField {
            name: self.name.clone(),
            ty: self.ty.clone(),
            optional: self.optional,
            inline: self.inline,
        }
    }
}

impl Clone for EnumVariant {
    /// A copy of the variant and of its types, built as this one is.
    fn clone(&self) -> (r: Self)
        ensures
            alike_variant(*self, r),
        decreases self, 0nat,
    {
        match self {
            EnumVariant::Unit(name) => EnumVariant::Unit(name.clone()),
            EnumVariant::Unnamed(items) => EnumVariant::Unnamed(clone_items(items)),
            EnumVariant::Named(o) => EnumVariant::Named(o.clone()),
        }
    }
}

impl Clone for EnumType {
    /// A copy of the enum type and of its variants, built as this one is.
    fn clone(&self) -> (r: Self)
        ensures
            alike_enum(*self, r),
        decreases self, 0nat,
    {
        let mut variants: Vec<EnumVariant> = Vec::new();
        let mut i: usize = 0;
        while i < self.variants.len()
            invariant
                i <= self.variants.len(),
                variants.len() == i,
                forall|k: int|
                    0 <= k < i ==> alike_variant(#[trigger] self.variants[k], variants[k]),
            decreases self.variants.len() - i,
        {
            variants.push(self.variants[i].clone());
            i += 1;
        }
        EnumType { name: self.name.clone(), id: self.id, variants, inline: self.inline }
    }
}

/// Copies the items of a tuple, one by one and in their order.
fn clone_items(items: &Vec<DataType>) -> (r: Vec<DataType>)
    ensures
        alike_items(*items, r),
    decreases items, 1nat,
{
    let mut out: Vec<DataType> = Vec::new();
    let mut i: usize = 0;
    while i < items.len()
        invariant
            i <= items.len(),
            out.len() == i,
            forall|k: int| 0 <= k < i ==> alike(#[trigger] items[k], out[k]),
        decreases items.len() - i,
    {
        out.push(items[i].clone());
        i += 1;
    }
    out
}

} // verus!
