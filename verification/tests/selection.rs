use rspc::datatype::DataType;
use rspc::selection::{selection, selection_field};
use rspc::ts::to_ts;
use rspc::typedefs::extract_types;

#[derive(Clone)]
struct User {
    #[allow(dead_code)]
    pub id: i32,
    pub name: String,
    #[allow(dead_code)]
    pub email: String,
    pub age: i32,
    #[allow(dead_code)]
    pub password: String,
}

struct Selection {
    pub name: String,
    pub age: i32,
}

fn selection_type() -> DataType {
    selection(
        1,
        vec![
            selection_field("name".to_string(), DataType::Primitive("string".to_string())),
            selection_field("age".to_string(), DataType::Primitive("number".to_string())),
        ],
    )
}

#[test]
fn test_selection_macros() {
    let user = User {
        id: 1,
        name: "Monty Beaumont".into(),
        email: "monty@otbeaumont.me".into(),
        age: 7,
        password: "password123".into(),
    };

    let u = user.clone();
    let s1 = Selection { name: u.name, age: u.age };
    assert_eq!(s1.name, "Monty Beaumont".to_string());
    assert_eq!(s1.age, 7);

    let users = vec![user; 3];
    let s2 = users.into_iter().map(|v| Selection { name: v.name, age: v.age }).collect::<Vec<_>>();
    assert_eq!(s2[0].name, "Monty Beaumont".to_string());
    assert_eq!(s2[0].age, 7);

    assert_eq!(to_ts(&selection_type(), false), "{ name: string, age: number }");
}

#[test]
fn a_selection_is_inline_and_never_registered() {
    let ty = selection_type();
    match &ty {
        DataType::Object(o) => {
            assert_eq!(o.name, "Selection");
            assert_eq!(o.id, 1);
            assert!(o.inline);
            assert!(o.tag.is_none());
            assert_eq!(o.fields.len(), 2);
            assert!(!o.fields[0].optional && !o.fields[0].inline);
        }
        _ => panic!("a selection is an object"),
    }
    assert_eq!(extract_types(&ty).len(), 0);
}
