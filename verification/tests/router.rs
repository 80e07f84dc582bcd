use rspc::datatype::{DataType, ObjectField, ObjectType};
use rspc::payload::Payload;
use rspc::router::{ExecError, OperationKey, OperationKind, Procedure, ProcedureType, Router};

fn never() -> DataType {
    DataType::Primitive("never".to_string())
}

fn procedure(name: &str, handler: u32) -> Procedure<u32> {
    Procedure {
        name: name.to_string(),
        ty: ProcedureType { arg_ty: never(), result_ty: DataType::Primitive("string".to_string()) },
        handler,
    }
}

fn key(name: &str, payload: Option<Payload>) -> OperationKey {
    OperationKey { name: name.to_string(), payload }
}

fn sample() -> Router<u32> {
    let mut r = Router::new();
    assert!(r.add(OperationKind::Query, procedure("version", 1)));
    assert!(r.add(OperationKind::Mutation, procedure("version", 2)));
    assert!(r.add(OperationKind::SubscriptionAdd, procedure("version", 3)));
    assert!(r.add(OperationKind::Query, procedure("other", 4)));
    r
}

#[test]
fn each_kind_matches_its_own_namespace() {
    let r = sample();
    let q = r.exec(OperationKind::Query, key("version", None)).ok().unwrap();
    assert_eq!(q.procedure.handler, 1);
    assert_eq!(q.kind, OperationKind::Query);
    assert_eq!(q.name, "version");
    let m = r.exec(OperationKind::Mutation, key("version", None)).ok().unwrap();
    assert_eq!(m.procedure.handler, 2);
    let s = r.exec(OperationKind::SubscriptionAdd, key("version", None)).ok().unwrap();
    assert_eq!(s.procedure.handler, 3);
}

#[test]
fn a_name_of_another_namespace_is_not_found() {
    let r = sample();
    match r.exec(OperationKind::Mutation, key("other", None)) {
        Err(ExecError::OperationNotFound(name)) => assert_eq!(name, "other"),
        _ => panic!("the mutation namespace has no such name"),
    }
}

#[test]
fn missing_name_fails_with_that_name() {
    let r = sample();
    match r.exec(OperationKind::Query, key("absent", Some(Payload::Null))) {
        Err(ExecError::OperationNotFound(name)) => assert_eq!(name, "absent"),
        _ => panic!("no procedure of that name"),
    }
    let empty: Router<u32> = Router::new();
    assert!(matches!(
        empty.exec(OperationKind::SubscriptionAdd, key("version", None)),
        Err(ExecError::OperationNotFound(_))
    ));
}

#[test]
fn subscription_remove_is_unimplemented() {
    let r = sample();
    assert!(matches!(
        r.exec(OperationKind::SubscriptionRemove, key("version", None)),
        Err(ExecError::Unimplemented)
    ));
    assert!(matches!(
        r.exec(OperationKind::SubscriptionRemove, key("absent", Some(Payload::Null))),
        Err(ExecError::Unimplemented)
    ));
}

#[test]
fn no_payload_is_the_null_payload() {
    let r = sample();
    let none = r.exec(OperationKind::Query, key("version", None)).ok().unwrap();
    let null = r.exec(OperationKind::Query, key("version", Some(Payload::Null))).ok().unwrap();
    assert!(none.input.is_null());
    assert!(null.input.is_null());
    assert_eq!(none.procedure.handler, null.procedure.handler);
    assert_eq!(none.input.into_value(), serde_json::Value::Null);
}

#[test]
fn a_payload_reaches_the_handler_unchanged() {
    let r = sample();
    let v = serde_json::Value::from(42);
    let call = r.exec(OperationKind::Query, key("other", Some(Payload::from_value(v.clone())))).ok().unwrap();
    assert!(!call.input.is_null());
    assert_eq!(call.input.into_value(), v);
}

#[test]
fn payload_of_json_null_is_the_null_payload() {
    assert!(Payload::from_value(serde_json::Value::Null).is_null());
    assert!(!Payload::from_value(serde_json::Value::from("x")).is_null());
    assert_eq!(Payload::from_value(serde_json::Value::from(true)).into_value(), serde_json::Value::from(true));
}

#[test]
fn a_taken_name_is_refused() {
    let mut r = sample();
    assert!(!r.add(OperationKind::Query, procedure("version", 9)));
    assert!(!r.add(OperationKind::SubscriptionRemove, procedure("fresh", 9)));
    assert_eq!(r.query_procedures().len(), 2);
    assert_eq!(r.mutation_procedures().len(), 1);
    assert_eq!(r.subscription_procedures().len(), 1);
    let q = r.exec(OperationKind::Query, key("version", None)).ok().unwrap();
    assert_eq!(q.procedure.handler, 1);
}

#[test]
fn arced_keeps_the_router() {
    let r = sample().arced();
    let q = r.exec(OperationKind::Query, key("other", None)).ok().unwrap();
    assert_eq!(q.procedure.handler, 4);
}

#[test]
fn empty_router_exports_never() {
    let r: Router<u32> = Router::new();
    assert_eq!(
        r.export_ts(),
        "// This file was generated by [rspc](https://github.com/oscartbeaumont/rspc). Do not edit this file manually.\n\nexport type Operations = {\n    queries: never,\n    mutations: never,\n    subscriptions: never\n};\n"
    );
}

#[test]
fn ping_router_end_to_end() {
    let code = || {
        DataType::Object(ObjectType {
            name: "Pong".to_string(),
            id: 77,
            fields: vec![ObjectField {
                name: "code".to_string(),
                ty: DataType::Primitive("number".to_string()),
                optional: false,
                inline: false,
            }],
            inline: false,
            tag: None,
        })
    };
    let mut r: Router<fn() -> serde_json::Value> = Router::new();
    fn pong() -> serde_json::Value {
        let mut m = serde_json::Map::new();
        m.insert("code".to_string(), serde_json::Value::from(200));
        serde_json::Value::Object(m)
    }
    assert!(r.add(
        OperationKind::Query,
        Procedure { name: "ping".to_string(), ty: ProcedureType { arg_ty: never(), result_ty: code() }, handler: pong },
    ));
    let call = r.exec(OperationKind::Query, key("ping", None)).ok().unwrap();
    assert!(call.input.is_null());
    let out = (call.procedure.handler)();
    assert_eq!(out.get("code"), Some(&serde_json::Value::from(200)));

    let defs = r.type_defs();
    assert_eq!(defs.len(), 1);
    assert_eq!(defs.get(0).unwrap().id(), 77);
    assert_eq!(
        r.export_ts(),
        "// This file was generated by [rspc](https://github.com/oscartbeaumont/rspc). Do not edit this file manually.\n\nexport type Operations = {\n    queries: \n        { key: \"ping\", arg: never, result: Pong },\n    mutations: never,\n    subscriptions: never\n};\nexport type Pong = { code: number };\n"
    );
}

#[test]
fn namespace_union_has_one_member_for_each_procedure() {
    let mut r: Router<u32> = Router::new();
    r.add(OperationKind::Mutation, procedure("a", 1));
    r.add(OperationKind::Mutation, procedure("b", 2));
    assert_eq!(
        rspc::export::generate_procedures_ts(r.mutation_procedures()),
        "\n        { key: \"a\", arg: never, result: string } | \n        { key: \"b\", arg: never, result: string }"
    );
}

#[test]
fn key_from_name_and_json_argument() {
    let none = OperationKey::new("a".to_string(), None);
    assert_eq!(none.name, "a");
    assert!(none.payload.is_none());
    let null = OperationKey::new("b".to_string(), Some(serde_json::Value::Null));
    assert!(null.payload.unwrap().is_null());
    let some = OperationKey::new("c".to_string(), Some(serde_json::Value::from(3)));
    assert_eq!(some.payload.unwrap().into_value(), serde_json::Value::from(3));
}

#[test]
fn a_payload_is_sorted_by_what_is_known_of_the_value() {
    let v = serde_json::Value::from(5);
    assert!(Payload::sorted(true, v.clone()).is_null());
    assert_eq!(Payload::sorted(false, v.clone()), Payload::Json(v));
    assert_eq!(
        Payload::sorted(false, serde_json::Value::Null),
        Payload::Json(serde_json::Value::Null)
    );
}

#[test]
fn a_type_shared_by_procedures_has_one_entry() {
    let shared = || {
        DataType::Object(ObjectType {
            name: "Shared".to_string(),
            id: 5,
            fields: vec![],
            inline: false,
            tag: None,
        })
    };
    let mut r: Router<u32> = Router::new();
    r.add(
        OperationKind::Query,
        Procedure { name: "a".to_string(), ty: ProcedureType { arg_ty: shared(), result_ty: shared() }, handler: 1 },
    );
    r.add(
        OperationKind::Mutation,
        Procedure {
            name: "b".to_string(),
            ty: ProcedureType { arg_ty: never(), result_ty: DataType::List(Box::new(shared())) },
            handler: 2,
        },
    );
    let defs = r.type_defs();
    assert_eq!(defs.len(), 1);
    assert_eq!(defs.get(0).unwrap().id(), 5);
    assert_eq!(rspc::export::declaration(defs.get(0).unwrap()), "export type Shared = null;");
}

#[test]
fn json_null_argument_is_the_null_payload() {
    let r = sample();
    let k = OperationKey::new("version".to_string(), Some(serde_json::Value::Null));
    assert_eq!(k.payload, Some(Payload::Null));
    let call = r.exec(OperationKind::Query, k).ok().unwrap();
    assert!(call.input.is_null());
    assert!(Payload::Null.into_value().is_null());
    let j = OperationKey::new("version".to_string(), Some(serde_json::Value::from(false)));
    assert_eq!(j.payload, Some(Payload::Json(serde_json::Value::from(false))));
}
