//! Rendering of type descriptions as type expressions and declarations.

use vstd::prelude::*;
use vstd::string::StringExecFns;
use crate::datatype::{
    alike, alike_enum, alike_field, alike_items, alike_object, alike_variant, DataType, EnumType,
    EnumVariant, ObjectField, ObjectType,
};

verus! {

/// The type expression for `ty`. A compound type that is not marked inline is
/// written by its name, unless `inline` asks for its body.
pub open spec fn ts_expr(ty: DataType, inline: bool) -> Seq<char>
    decreases ty, 0nat,
{
    match ty {
        DataType::Primitive(name) => name@,
        DataType::Nullable(t) => ts_expr(*t, false) + " | null"@,
        DataType::List(t) => "Array<"@ + ts_expr(*t, false) + ">"@,
        DataType::Tuple(items) => ts_tuple(items),
        DataType::Object(o) => if !o.inline && !inline {
            o.name@
        } else {
            ts_object(o)
        },
        DataType::Enum(e) => if !e.inline && !inline {
            e.name@
        } else {
            ts_enum(e)
        },
    }
}

/// The body of an object type: `null` where it has neither tag nor field,
/// else the tag and the fields between braces.
pub open spec fn ts_object(o: ObjectType) -> Seq<char>
    decreases o, 0nat,
{
    match o.tag {
        None => if o.fields.len() == 0 {
            "null"@
        } else {
            "{ "@ + ts_fields(o.fields, o.fields.len() as nat) + " }"@
        },
        Some(tag) => if o.fields.len() == 0 {
            "{ "@ + tag@ + ": \""@ + o.name@ + "\" }"@
        } else {
            "{ "@ + tag@ + ": \""@ + o.name@ + "\", "@ + ts_fields(
                o.fields,
                o.fields.len() as nat,
            ) + " }"@
        },
    }
}

/// One field: its name, `?` where it is optional, and its type. An optional
/// field of a nullable type is written with the type that is wrapped.
pub open spec fn ts_field(f: ObjectField) -> Seq<char>
    decreases f, 0nat,
{
    if f.optional {
        f.name@ + "?: "@ + match f.ty {
            DataType::Nullable(t) => ts_expr(*t, f.inline),
            _ => ts_expr(f.ty, f.inline),
        }
    } else {
        f.name@ + ": "@ + ts_expr(f.ty, f.inline)
    }
}

/// The first `n` fields, separated by `, `.
pub open spec fn ts_fields(fields: Vec<ObjectField>, n: nat) -> Seq<char>
    decreases fields, n,
{
    if n == 0 || n > fields.len() {
        Seq::empty()
    } else if n == 1 {
        ts_field(fields[0])
    } else {
        ts_fields(fields, (n - 1) as nat) + ", "@ + ts_field(fields[n - 1])
    }
}

/// The first `n` items, separated by `, `.
pub open spec fn ts_items(items: Vec<DataType>, n: nat) -> Seq<char>
    decreases items, n,
{
    if n == 0 || n > items.len() {
        Seq::empty()
    } else if n == 1 {
        ts_expr(items[0], false)
    } else {
        ts_items(items, (n - 1) as nat) + ", "@ + ts_expr(items[n - 1], false)
    }
}

/// A tuple: `null` where it is empty, the item alone where there is one, else
/// the items between square brackets.
pub open spec fn ts_tuple(items: Vec<DataType>) -> Seq<char>
    decreases items, items.len() + 1,
{
    if items.len() == 0 {
        "null"@
    } else if items.len() == 1 {
        ts_expr(items[0], false)
    } else {
        "["@ + ts_items(items, items.len() as nat) + "]"@
    }
}

/// One variant: a unit variant is its name as a string literal.
pub open spec fn ts_variant(v: EnumVariant) -> Seq<char>
    decreases v, 0nat,
{
    match v {
        EnumVariant::Unit(name) => "\""@ + name@ + "\""@,
        EnumVariant::Unnamed(items) => ts_tuple(items),
        EnumVariant::Named(o) => ts_object(o),
    }
}

/// The first `n` variants, separated by ` | `.
pub open spec fn ts_variants(variants: Vec<EnumVariant>, n: nat) -> Seq<char>
    decreases variants, n,
{
    if n == 0 || n > variants.len() {
        Seq::empty()
    } else if n == 1 {
        ts_variant(variants[0])
    } else {
        ts_variants(variants, (n - 1) as nat) + " | "@ + ts_variant(variants[n - 1])
    }
}

/// The body of an enum type: the union of its variants, `never` where it has
/// none.
pub open spec fn ts_enum(e: EnumType) -> Seq<char>
    decreases e, 0nat,
{
    if e.variants.len() == 0 {
        "never"@
    } else {
        ts_variants(e.variants, e.variants.len() as nat)
    }
}

/// Renders the type expression for `ty`.
pub fn to_ts(ty: &DataType, inline: bool) -> (r: String)
    ensures
        r@ == ts_expr(*ty, inline),
    decreases ty, 0nat,
{
    match ty {
        DataType::Primitive(name) => name.clone(),
        DataType::Nullable(t) => {
            let mut s = to_ts(t, false);
            s.append(" | null");
            s
        },
        DataType::List(t) => {
            let mut s = String::from_str("Array<");
            let inner = to_ts(t, false);
            s.append(inner.as_str());
            s.append(">");
            s
        },
        DataType::Tuple(items) => tuple_ts(items),
        DataType::Object(o) => {
            if !o.inline && !inline {
                o.name.clone()
            } else {
                object_ts(o)
            }
        },
        DataType::Enum(e) => {
            if !e.inline && !inline {
                e.name.clone()
            } else {
                enum_ts(e)
            }
        },
    }
}

/// Renders the body of an object type.
pub fn object_ts(o: &ObjectType) -> (r: String)
    ensures
        r@ == ts_object(*o),
    decreases o, 0nat,
{
    if o.tag.is_none() && o.fields.len() == 0 {
        return String::from_str("null");
    }
    let mut s = String::from_str("{ ");
    match &o.tag {
        Some(tag) => {
            s.append(tag.as_str());
            s.append(": \"");
            s.append(o.name.as_str());
            if o.fields.len() == 0 {
                s.append("\" }");
                return s;
            }
            s.append("\", ");
        },
        None => {},
    }
    let fields = fields_ts(&o.fields);
    s.append(fields.as_str());
    s.append(" }");
    s
}

/// Renders one field of an object type.
pub fn field_ts(f: &ObjectField) -> (r: String)
    ensures
        r@ == ts_field(*f),
    decreases f, 0nat,
{
    let mut s = f.name.clone();
    if f.optional {
        s.append("?: ");
        let ty = match &f.ty {
            DataType::Nullable(t) => to_ts(t, f.inline),
            _ => to_ts(&f.ty, f.inline),
        };
        s.append(ty.as_str());
    } else {
        s.append(": ");
        let ty = to_ts(&f.ty, f.inline);
        s.append(ty.as_str());
    }
    s
}

fn fields_ts(fields: &Vec<ObjectField>) -> (r: String)
    ensures
        r@ == ts_fields(*fields, fields.len() as nat),
    decreases fields, 1nat,
{
    let mut s = String::new();
    let mut i: usize = 0;
    while i < fields.len()
        invariant
            i <= fields.len(),
            s@ == ts_fields(*fields, i as nat),
        decreases fields.len() - i,
    {
        if i > 0 {
            s.append(", ");
        }
        let f = field_ts(&fields[i]);
        s.append(f.as_str());
        i += 1;
        assert(s@ =~= ts_fields(*fields, i as nat));
    }
    s
}

fn items_ts(items: &Vec<DataType>) -> (r: String)
    ensures
        r@ == ts_items(*items, items.len() as nat),
    decreases items, 1nat,
{
    let mut s = String::new();
    let mut i: usize = 0;
    while i < items.len()
        invariant
            i <= items.len(),
            s@ == ts_items(*items, i as nat),
        decreases items.len() - i,
    {
        if i > 0 {
            s.append(", ");
        }
        let t = to_ts(&items[i], false);
        s.append(t.as_str());
        i += 1;
        assert(s@ =~= ts_items(*items, i as nat));
    }
    s
}

/// Renders a tuple of types.
pub fn tuple_ts(items: &Vec<DataType>) -> (r: String)
    ensures
        r@ == ts_tuple(*items),
    decreases items, 2nat,
{
    if items.len() == 0 {
        String::from_str("null")
    } else if items.len() == 1 {
        to_ts(&items[0], false)
    } else {
        let mut s = String::from_str("[");
        let inner = items_ts(items);
        s.append(inner.as_str());
        s.append("]");
        s
    }
}

fn variant_ts(v: &EnumVariant) -> (r: String)
    ensures
        r@ == ts_variant(*v),
    decreases v, 0nat,
{
    match v {
        EnumVariant::Unit(name) => {
            let mut s = String::from_str("\"");
            s.append(name.as_str());
            s.append("\"");
            s
        },
        EnumVariant::Unnamed(items) => tuple_ts(items),
        EnumVariant::Named(o) => object_ts(o),
    }
}

/// Renders the body of an enum type.
pub fn enum_ts(e: &EnumType) -> (r: String)
    ensures
        r@ == ts_enum(*e),
    decreases e, 0nat,
{
    if e.variants.len() == 0 {
        return String::from_str("never");
    }
    let mut s = String::new();
    let mut i: usize = 0;
    while i < e.variants.len()
        invariant
            i <= e.variants.len(),
            s@ == ts_variants(e.variants, i as nat),
        decreases e.variants.len() - i,
    {
        if i > 0 {
            s.append(" | ");
        }
        let v = variant_ts(&e.variants[i]);
        s.append(v.as_str());
        i += 1;
        assert(s@ =~= ts_variants(e.variants, i as nat));
    }
    s
}

/// Types that are built alike have the same type expression: a copy is
/// rendered as the type it was copied from.
pub proof fn lemma_alike_ts(a: DataType, b: DataType, inline: bool)
    requires
        alike(a, b),
    ensures
        ts_expr(a, inline) == ts_expr(b, inline),
    decreases a, 0nat,
{
    match (a, b) {
        (DataType::Object(x), DataType::Object(y)) => {
            assert(alike_object(x, y));
            assert(x.inline == y.inline && x.name@ == y.name@);
            lemma_alike_object_ts(x, y);
        },
        (DataType::Enum(x), DataType::Enum(y)) => {
            assert(alike_enum(x, y));
            assert(x.inline == y.inline && x.name@ == y.name@);
            lemma_alike_enum_ts(x, y);
        },
        (DataType::List(x), DataType::List(y)) => lemma_alike_ts(*x, *y, false),
        (DataType::Nullable(x), DataType::Nullable(y)) => lemma_alike_ts(*x, *y, false),
        (DataType::Tuple(x), DataType::Tuple(y)) => lemma_alike_tuple_ts(x, y),
        _ => {},
    }
}

/// Object types that are built alike have the same body.
pub proof fn lemma_alike_object_ts(a: ObjectType, b: ObjectType)
    requires
        alike_object(a, b),
    ensures
        ts_object(a) == ts_object(b),
    decreases a, 0nat,
{
    lemma_alike_fields_ts(a.fields, b.fields, a.fields.len() as nat);
}

/// Fields that are built alike are rendered alike.
pub proof fn lemma_alike_field_ts(a: ObjectField, b: ObjectField)
    requires
        alike_field(a, b),
    ensures
        ts_field(a) == ts_field(b),
    decreases a, 0nat,
{
    match (a.ty, b.ty) {
        (DataType::Nullable(x), DataType::Nullable(y)) => {
            if a.optional {
                lemma_alike_ts(*x, *y, a.inline);
            } else {
                lemma_alike_ts(a.ty, b.ty, a.inline);
            }
        },
        _ => lemma_alike_ts(a.ty, b.ty, a.inline),
    }
}

/// Where the fields of two lists are built alike, one by one, the first `n`
/// of each are rendered alike.
pub proof fn lemma_alike_fields_ts(a: Vec<ObjectField>, b: Vec<ObjectField>, n: nat)
    requires
        a.len() == b.len(),
        forall|i: int| 0 <= i < a.len() ==> alike_field(#[trigger] a[i], b[i]),
        n <= a.len(),
    ensures
        ts_fields(a, n) == ts_fields(b, n),
    decreases a, n,
{
    if n > 0 {
        lemma_alike_fields_ts(a, b, (n - 1) as nat);
        lemma_alike_field_ts(a[n - 1], b[n - 1]);
    }
}

/// Where the items of two lists are built alike, one by one, the first `n`
/// of each are rendered alike.
pub proof fn lemma_alike_items_ts(a: Vec<DataType>, b: Vec<DataType>, n: nat)
    requires
        alike_items(a, b),
        n <= a.len(),
    ensures
        ts_items(a, n) == ts_items(b, n),
    decreases a, n,
{
    if n > 0 {
        lemma_alike_items_ts(a, b, (n - 1) as nat);
        lemma_alike_ts(a[n - 1], b[n - 1], false);
    }
}

/// Tuples whose items are built alike are rendered alike.
pub proof fn lemma_alike_tuple_ts(a: Vec<DataType>, b: Vec<DataType>)
    requires
        alike_items(a, b),
    ensures
        ts_tuple(a) == ts_tuple(b),
    decreases a, a.len() + 1,
{
    if a.len() == 1 {
        lemma_alike_ts(a[0], b[0], false);
    } else if a.len() > 1 {
        lemma_alike_items_ts(a, b, a.len() as nat);
    }
}

/// Variants that are built alike are rendered alike.
pub proof fn lemma_alike_variant_ts(a: EnumVariant, b: EnumVariant)
    requires
        alike_variant(a, b),
    ensures
        ts_variant(a) == ts_variant(b),
    decreases a, 0nat,
{
    match (a, b) {
        (EnumVariant::Unnamed(x), EnumVariant::Unnamed(y)) => lemma_alike_tuple_ts(x, y),
        (EnumVariant::Named(x), EnumVariant::Named(y)) => lemma_alike_object_ts(x, y),
        _ => {},
    }
}

/// Where the variants of two lists are built alike, one by one, the first
/// `n` of each are rendered alike.
pub proof fn lemma_alike_variants_ts(a: Vec<EnumVariant>, b: Vec<EnumVariant>, n: nat)
    requires
        a.len() == b.len(),
        forall|i: int| 0 <= i < a.len() ==> alike_variant(#[trigger] a[i], b[i]),
        n <= a.len(),
    ensures
        ts_variants(a, n) == ts_variants(b, n),
    decreases a, n,
{
    if n > 0 {
        lemma_alike_variants_ts(a, b, (n - 1) as nat);
        lemma_alike_variant_ts(a[n - 1], b[n - 1]);
    }
}

/// Enum types that are built alike have the same body.
pub proof fn lemma_alike_enum_ts(a: EnumType, b: EnumType)
    requires
        alike_enum(a, b),
    ensures
        ts_enum(a) == ts_enum(b),
    decreases a, 0nat,
{
    lemma_alike_variants_ts(a.variants, b.variants, a.variants.len() as nat);
}

} // verus!
