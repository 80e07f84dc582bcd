use rspc::datatype::{DataType, EnumType, EnumVariant, ObjectField, ObjectType};
use rspc::export::{to_ts_export, ExportError};
use rspc::ts::to_ts;
use rspc::typedefs::{extract_into, extract_types, TypeDef, TypeDefs};

fn prim(name: &str) -> DataType {
    DataType::Primitive(name.to_string())
}

fn field(name: &str, ty: DataType, optional: bool, inline: bool) -> ObjectField {
    ObjectField { name: name.to_string(), ty, optional, inline }
}

fn object(name: &str, id: u64, fields: Vec<ObjectField>, inline: bool) -> ObjectType {
    ObjectType { name: name.to_string(), id, fields, inline, tag: None }
}

fn optional(b_optional: bool) -> DataType {
    DataType::Object(object(
        "Optional",
        1,
        vec![
            field("a", DataType::Nullable(Box::new(prim("number"))), true, false),
            field("b", DataType::Nullable(Box::new(prim("string"))), b_optional, false),
        ],
        false,
    ))
}

fn ids(defs: &TypeDefs<'_>) -> Vec<u64> {
    let mut out = Vec::new();
    let mut i = 0;
    while let Some(def) = defs.get(i) {
        out.push(def.id());
        i += 1;
    }
    out
}

#[test]
fn test() {
    assert_eq!(to_ts(&optional(false), true), "{ a?: number, b: string | null }");

    assert_eq!(to_ts(&optional(true), true), "{ a?: number, b?: string }");
}

#[test]
fn named_type_is_written_by_name_unless_inline_is_asked() {
    let ty = optional(false);
    assert_eq!(to_ts(&ty, false), "Optional");
    assert_eq!(to_ts(&ty, true), "{ a?: number, b: string | null }");
}

#[test]
fn primitive_list_nullable_and_tuple() {
    assert_eq!(to_ts(&prim("boolean"), false), "boolean");
    assert_eq!(to_ts(&DataType::List(Box::new(prim("number"))), false), "Array<number>");
    assert_eq!(to_ts(&DataType::Nullable(Box::new(prim("string"))), false), "string | null");
    assert_eq!(to_ts(&DataType::Tuple(vec![]), false), "null");
    assert_eq!(to_ts(&DataType::Tuple(vec![prim("number")]), false), "number");
    assert_eq!(
        to_ts(&DataType::Tuple(vec![prim("number"), prim("string"), prim("boolean")]), false),
        "[number, string, boolean]"
    );
}

#[test]
fn object_without_fields_and_with_tag() {
    assert_eq!(to_ts(&DataType::Object(object("Unit", 3, vec![], true)), false), "null");
    let mut tagged = object("Circle", 4, vec![field("r", prim("number"), false, false)], true);
    tagged.tag = Some("type".to_string());
    assert_eq!(to_ts(&DataType::Object(tagged), false), "{ type: \"Circle\", r: number }");
    let mut bare = object("Point", 5, vec![], true);
    bare.tag = Some("kind".to_string());
    assert_eq!(to_ts(&DataType::Object(bare), false), "{ kind: \"Point\" }");
}

#[test]
fn inline_field_is_expanded_in_place() {
    let inner = || DataType::Object(object("Inner", 7, vec![field("x", prim("number"), false, false)], false));
    let by_name = DataType::Object(object("Outer", 8, vec![field("i", inner(), false, false)], true));
    let in_place = DataType::Object(object("Outer", 8, vec![field("i", inner(), false, true)], true));
    assert_eq!(to_ts(&by_name, false), "{ i: Inner }");
    assert_eq!(to_ts(&in_place, false), "{ i: { x: number } }");
}

#[test]
fn enum_variants_form_a_union() {
    let e = EnumType {
        name: "Shape".to_string(),
        id: 9,
        variants: vec![
            EnumVariant::Unit("Empty".to_string()),
            EnumVariant::Unnamed(vec![prim("number"), prim("number")]),
            EnumVariant::Named(object("Square", 10, vec![field("side", prim("number"), false, false)], false)),
        ],
        inline: false,
    };
    let ty = DataType::Enum(e);
    assert_eq!(to_ts(&ty, false), "Shape");
    assert_eq!(to_ts(&ty, true), "\"Empty\" | [number, number] | { side: number }");
    let none = DataType::Enum(EnumType { name: "Void".to_string(), id: 11, variants: vec![], inline: true });
    assert_eq!(to_ts(&none, false), "never");
}

#[test]
fn declaration_of_object_and_enum() {
    assert_eq!(
        to_ts_export(&optional(false)).unwrap(),
        "export type Optional = { a?: number, b: string | null };"
    );
    let e = DataType::Enum(EnumType {
        name: "Flag".to_string(),
        id: 12,
        variants: vec![EnumVariant::Unit("On".to_string()), EnumVariant::Unit("Off".to_string())],
        inline: false,
    });
    assert_eq!(to_ts_export(&e).unwrap(), "export type Flag = \"On\" | \"Off\";");
}

#[test]
fn declaration_of_a_primitive_is_refused() {
    assert_eq!(to_ts_export(&prim("number")), Err(ExportError::NotCompound));
    assert_eq!(to_ts_export(&DataType::Tuple(vec![])), Err(ExportError::NotCompound));
}

#[test]
fn extraction_registers_nested_types_in_walk_order() {
    let inner = DataType::Object(object("Inner", 21, vec![], false));
    let e = DataType::Enum(EnumType {
        name: "E".to_string(),
        id: 22,
        variants: vec![
            EnumVariant::Unit("U".to_string()),
            EnumVariant::Unnamed(vec![DataType::Object(object("InTuple", 23, vec![], false))]),
            EnumVariant::Named(object("Named", 24, vec![], false)),
        ],
        inline: false,
    });
    let outer = DataType::Object(object(
        "Outer",
        20,
        vec![
            field("a", DataType::List(Box::new(inner)), false, false),
            field("b", DataType::Nullable(Box::new(e)), false, false),
            field("c", DataType::Tuple(vec![DataType::Object(object("T", 25, vec![], false))]), false, false),
        ],
        false,
    ));
    let defs = extract_types(&outer);
    assert_eq!(ids(&defs), vec![20, 21, 22, 23, 24, 25]);
    assert!(defs.contains_key(24));
    assert!(!defs.contains_key(26));
    assert!(defs.get(6).is_none());
}

#[test]
fn extraction_is_deterministic() {
    let a = optional(false);
    let b = optional(false);
    let da = extract_types(&a);
    let db = extract_types(&b);
    assert_eq!(ids(&da), ids(&db));
    assert_eq!(to_ts(&a, true), to_ts(&b, true));
}

#[test]
fn inline_type_is_never_registered() {
    let inner = DataType::Object(object("Kept", 31, vec![], false));
    let inline = DataType::Object(object("Inline", 30, vec![field("k", inner, false, false)], true));
    let root = DataType::Tuple(vec![inline, DataType::Object(object("Inline", 30, vec![], true))]);
    let defs = extract_types(&root);
    assert_eq!(ids(&defs), vec![31]);
    assert!(!defs.contains_key(30));
}

#[test]
fn self_referential_object_is_registered_once() {
    let leaf = DataType::Object(object("Node", 40, vec![], false));
    let node = DataType::Object(object(
        "Node",
        40,
        vec![field("next", DataType::Nullable(Box::new(leaf)), false, false)],
        false,
    ));
    let defs = extract_types(&node);
    assert_eq!(defs.len(), 1);
    assert_eq!(ids(&defs), vec![40]);
    match defs.get(0) {
        Some(TypeDef::Object(o)) => assert_eq!(o.fields.len(), 1),
        _ => panic!("the root is the registered definition"),
    }
}

#[test]
fn several_roots_share_one_registry() {
    let a = optional(false);
    let b = DataType::Object(object("Other", 2, vec![field("o", optional(true), false, false)], false));
    let mut defs = TypeDefs::new();
    extract_into(&a, &mut defs);
    extract_into(&b, &mut defs);
    extract_into(&a, &mut defs);
    assert_eq!(ids(&defs), vec![1, 2]);
}

#[test]
fn registries_of_two_root_sets_agree_on_shared_identities() {
    let roots_a = vec![optional(false), DataType::List(Box::new(optional(false)))];
    let roots_b = vec![DataType::Object(object(
        "Holder",
        50,
        vec![field("o", optional(false), false, false)],
        false,
    ))];
    let a = rspc::typedefs::extract_all(&roots_a);
    let b = rspc::typedefs::extract_all(&roots_b);
    assert_eq!(ids(&a), vec![1]);
    assert_eq!(ids(&b), vec![50, 1]);
    assert_eq!(a.get(0), b.get(1));
    assert_eq!(
        rspc::export::declaration(a.get(0).unwrap()),
        rspc::export::declaration(b.get(1).unwrap())
    );
}

#[test]
fn every_reachable_type_is_registered_and_nothing_else() {
    let roots = vec![
        DataType::Tuple(vec![optional(false), prim("number")]),
        DataType::Nullable(Box::new(DataType::Object(object(
            "Wrap",
            60,
            vec![field("inner", optional(false), true, true)],
            true,
        )))),
        DataType::Object(object("Last", 61, vec![], false)),
    ];
    let defs = rspc::typedefs::extract_all(&roots);
    assert_eq!(ids(&defs), vec![1, 61]);
    let none: Vec<DataType> = vec![];
    assert_eq!(rspc::typedefs::extract_all(&none).len(), 0);
}

#[test]
fn a_clone_is_equal_to_its_source() {
    let e = DataType::Enum(EnumType {
        name: "E".to_string(),
        id: 70,
        variants: vec![
            EnumVariant::Unit("U".to_string()),
            EnumVariant::Unnamed(vec![optional(true), prim("string")]),
            EnumVariant::Named(object("N", 71, vec![field("f", prim("number"), true, false)], true)),
        ],
        inline: false,
    });
    let ty = DataType::List(Box::new(DataType::Nullable(Box::new(e))));
    let copy = ty.clone();
    assert_eq!(copy, ty);
    assert_eq!(to_ts(&copy, true), to_ts(&ty, true));
    assert_ne!(optional(false), optional(true));
}

#[test]
fn identity_and_declarability_of_a_type() {
    assert_eq!(optional(false).id(), Some(1));
    assert!(optional(false).is_declarable());
    assert_eq!(prim("number").id(), None);
    assert!(!prim("number").is_declarable());
    let inline = DataType::Object(object("I", 80, vec![], true));
    assert_eq!(inline.id(), Some(80));
    assert!(!inline.is_declarable());
}

#[test]
fn union_of_registries_keeps_the_first_and_adds_what_is_new() {
    let a_root = DataType::Tuple(vec![optional(false), DataType::Object(object("A", 90, vec![], false))]);
    let b_root = DataType::Tuple(vec![
        DataType::Object(object("B", 91, vec![], false)),
        optional(false),
        DataType::Object(object("C", 92, vec![], false)),
    ]);
    let mut a = extract_types(&a_root);
    let b = extract_types(&b_root);
    a.extend(&b);
    assert_eq!(ids(&a), vec![1, 90, 91, 92]);
    a.extend(&b);
    assert_eq!(ids(&a), vec![1, 90, 91, 92]);
    let mut empty = TypeDefs::new();
    empty.extend(&b);
    assert_eq!(ids(&empty), vec![91, 1, 92]);
}

#[test]
fn a_second_walk_changes_nothing() {
    let root = DataType::Tuple(vec![
        optional(false),
        DataType::Object(object("Holder", 50, vec![field("o", optional(false), false, true)], true)),
        DataType::Object(object("Last", 61, vec![], false)),
    ]);
    let mut defs = extract_types(&root);
    let once = ids(&defs);
    assert_eq!(once, vec![1, 61]);
    extract_into(&root, &mut defs);
    assert_eq!(ids(&defs), once);
}

#[test]
fn order_of_roots_changes_the_order_and_not_the_identities() {
    let ab = vec![optional(false), DataType::Object(object("B", 2, vec![], false))];
    let ba = vec![DataType::Object(object("B", 2, vec![], false)), optional(false)];
    let x = rspc::typedefs::extract_all(&ab);
    let y = rspc::typedefs::extract_all(&ba);
    assert_eq!(ids(&x), vec![1, 2]);
    assert_eq!(ids(&y), vec![2, 1]);
    let mut union = extract_types(&ab[0]);
    union.extend(&extract_types(&ab[1]));
    assert_eq!(ids(&union), ids(&x));
}

#[test]
fn the_registry_of_a_clone_is_built_as_that_of_its_source() {
    let root = DataType::Object(object(
        "Outer",
        20,
        vec![field("a", DataType::List(Box::new(optional(true))), false, false)],
        false,
    ));
    let copy = root.clone();
    let a = extract_types(&root);
    let b = extract_types(&copy);
    assert_eq!(ids(&a), vec![20, 1]);
    assert_eq!(ids(&a), ids(&b));
    assert_eq!(a.get(0), b.get(0));
    assert_eq!(a.get(1), b.get(1));
}
