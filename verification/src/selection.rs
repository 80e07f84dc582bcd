//! The type description of a selection: some fields picked from a value.
//!
//! A selection is described as an inline object, so it is written out where
//! it is used and never declared by itself.

use vstd::prelude::*;
use vstd::string::StringExecFns;
use crate::datatype::{DataType, ObjectField, ObjectType};
use crate::typedefs::{extract, extract_fields, extract_object, Definition};

verus! {

/// Whether `ty` is the selection with the identity `id` and the fields
/// `fields`: an inline object named `Selection`, without tag.
pub open spec fn is_selection(ty: DataType, id: u64, fields: Vec<ObjectField>) -> bool {
    match ty {
        DataType::Object(o) => {
            &&& o.name@ == "Selection"@
            &&& o.id == id
            &&& o.fields == fields
            &&& o.inline
            &&& o.tag is None
        },
        _ => false,
    }
}

/// A field of a selection: neither optional nor inline.
pub fn selection_field(name: String, ty: DataType) -> (r: ObjectField)
    ensures
        r.name == name,
        r.ty == ty,
        !r.optional,
        !r.inline,
{
    ObjectField { name, ty, optional: false, inline: false }
}

/// The description of the selection of `fields`.
pub fn selection(id: u64, fields: Vec<ObjectField>) -> (r: DataType)
    ensures
        is_selection(r, id, fields),
{
    DataType::Object(
        ObjectType { name: String::from_str("Selection"), id, fields, inline: true, tag: None },
    )
}

/// A selection registers what its fields reach and never itself.
pub proof fn law_selection_is_not_registered(
    ty: DataType,
    id: u64,
    fields: Vec<ObjectField>,
    defs: Seq<Definition>,
)
    requires
        is_selection(ty, id, fields),
    ensures
        extract(ty, defs) == extract_fields(fields, fields.len() as nat, defs),
{
    match ty {
        DataType::Object(o) => {
            assert(extract_object(o, defs) == extract_fields(
                o.fields,
                o.fields.len() as nat,
                defs,
            ));
        },
        _ => {},
    }
}

} // verus!
