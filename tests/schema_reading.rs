use graphql_swift::parser::Type;
use graphql_swift::schema::{Json, NamedTypeKind, Schema, SchemaError};

fn s(x: &str) -> Json {
    Json::String(x.to_string())
}

fn obj(members: Vec<(&str, Json)>) -> Json {
    Json::Object(members.into_iter().map(|(k, v)| (k.to_string(), v)).collect())
}

fn type_ref(kind: &str, name: Option<&str>, of_type: Option<Json>) -> Json {
    let mut m = vec![("kind", s(kind)), ("name", name.map(s).unwrap_or(Json::Null))];
    if let Some(o) = of_type {
        m.push(("ofType", o));
    }
    obj(m)
}

fn field(name: &str, t: Json) -> Json {
    obj(vec![("name", s(name)), ("args", Json::Array(vec![])), ("type", t)])
}

fn response(types: Vec<Json>, wrapped: bool) -> Json {
    let schema = obj(vec![
        ("queryType", obj(vec![("name", s("Query"))])),
        ("mutationType", obj(vec![("name", s("Mutation"))])),
        ("types", Json::Array(types)),
    ]);
    if wrapped {
        obj(vec![("data", obj(vec![("__schema", schema)]))])
    } else {
        obj(vec![("__schema", schema)])
    }
}

fn user_type() -> Json {
    obj(vec![
        ("kind", s("OBJECT")),
        ("name", s("User")),
        ("fields", Json::Array(vec![
            field("id", type_ref("NON_NULL", None, Some(type_ref("SCALAR", Some("Int"), None)))),
            field("tags", type_ref("LIST", None, Some(type_ref("NON_NULL", None, Some(type_ref("SCALAR", Some("String"), None)))))),
            field("role", type_ref("ENUM", Some("Role"), None)),
        ])),
    ])
}

#[test]
fn reads_types_and_fields() {
    let schema = match Schema::from_json(&response(vec![user_type()], true)) {
        Ok(s) => s,
        Err(_) => panic!("schema read failed"),
    };
    let user = match schema.get("User") {
        Some(u) => u,
        None => panic!("User missing"),
    };
    assert_eq!(user.kind, NamedTypeKind::Object);
    assert_eq!(user.fields.len(), 3);
    let id = user.field("id").map(|f| &f.of_type);
    assert!(matches!(id, Some(Type::NonNull(t)) if matches!(**t, Type::Int)));
    let tags = user.field("tags").map(|f| &f.of_type);
    assert!(matches!(tags, Some(Type::Array(t)) if matches!(&**t, Type::NonNull(u) if matches!(**u, Type::String))));
    let role = user.field("role").map(|f| &f.of_type);
    assert!(matches!(role, Some(Type::Input(n)) if n == "Role"));
    assert!(user.field("missing").is_none());
    assert!(schema.get("Nope").is_none());
    assert!(schema.query_root().is_none());
}

#[test]
fn reads_unwrapped_response() {
    assert!(Schema::from_json(&response(vec![user_type()], false)).is_ok());
}

#[test]
fn missing_schema_is_malformed() {
    assert!(matches!(Schema::from_json(&obj(vec![])), Err(SchemaError::Malformed)));
}

#[test]
fn unknown_kind_fails() {
    let t = obj(vec![("kind", s("UNION")), ("name", s("U"))]);
    assert!(matches!(Schema::from_json(&response(vec![t], true)), Err(SchemaError::UnknownKind)));
}

#[test]
fn non_null_without_inner_type_fails() {
    let t = obj(vec![
        ("kind", s("OBJECT")),
        ("name", s("T")),
        ("fields", Json::Array(vec![field("x", type_ref("NON_NULL", None, None))])),
    ]);
    assert!(matches!(Schema::from_json(&response(vec![t], true)), Err(SchemaError::Malformed)));
}

#[test]
fn get_named_unwraps_layers() {
    let schema = match Schema::from_json(&response(vec![user_type()], true)) {
        Ok(s) => s,
        Err(_) => panic!("schema read failed"),
    };
    let t = Type::NonNull(Box::new(Type::Array(Box::new(Type::Input("User".to_string())))));
    assert!(matches!(schema.get_named(&t), Some(u) if u.name == "User"));
    assert!(schema.get_named(&Type::Int).is_none());
}
