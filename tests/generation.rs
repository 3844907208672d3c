use graphql_swift::codegen::{gen, Codegen, GenError, TypeCase};
use graphql_swift::lexer::lex;
use graphql_swift::parser::{
    parse, Argument, Field, Fragment, GraphQL, InlineFragment, PlainField, Query, Type, Value,
};
use graphql_swift::schema::{Field as SchemaField, NamedType, NamedTypeKind, Schema};

fn sf(name: &str, t: Type) -> SchemaField {
    SchemaField { name: name.to_string(), args: vec![], of_type: t }
}

fn named(name: &str) -> Type {
    Type::Input(name.to_string())
}

fn non_null(t: Type) -> Type {
    Type::NonNull(Box::new(t))
}

fn nt(name: &str, kind: NamedTypeKind, fields: Vec<SchemaField>) -> NamedType {
    NamedType { name: name.to_string(), kind, fields }
}

fn schema() -> Schema {
    Schema::new(
        "Query".to_string(),
        "Mutation".to_string(),
        vec![
            nt("Query", NamedTypeKind::Object, vec![sf("user", named("User")), sf("node", named("Node"))]),
            nt("Mutation", NamedTypeKind::Object, vec![sf("logout", non_null(Type::Bool))]),
            nt("User", NamedTypeKind::Object, vec![
                sf("id", non_null(Type::Int)),
                sf("name", non_null(Type::String)),
                sf("friends", Type::Array(Box::new(non_null(named("User"))))),
            ]),
            nt("Node", NamedTypeKind::Interface, vec![
                sf("id", non_null(Type::Int)),
                sf("label", Type::String),
                sf("owner", named("User")),
            ]),
            nt("Human", NamedTypeKind::Object, vec![sf("name", non_null(Type::String))]),
            nt("Droid", NamedTypeKind::Object, vec![sf("model", non_null(Type::String))]),
        ],
    )
}

fn generate(src: &str) -> Result<String, GenError> {
    let tokens = match lex("doc.graphql", src) {
        Ok(t) => t,
        Err(_) => panic!("lexing failed"),
    };
    let doc = match parse(tokens) {
        Ok(d) => d,
        Err(_) => panic!("parse failed"),
    };
    gen(&schema(), &doc)
}

fn out(src: &str) -> String {
    match generate(src) {
        Ok(s) => s,
        Err(_) => panic!("generation failed"),
    }
}

fn squash(s: &str) -> String {
    s.split_whitespace().collect::<Vec<_>>().join(" ")
}

/// The text of each `graphql` literal, with runs of white space made one space.
fn graphql_texts(src: &str) -> Vec<String> {
    src.split("static let graphql = \"\"\"")
        .skip(1)
        .map(|rest| squash(rest.split("\"\"\"").next().unwrap_or("")))
        .collect()
}

#[test]
fn plain_object_query() {
    let src = out("query GetUser { user { id name } }");
    assert!(src.contains("struct GetUserQuery : Encodable, GraphQLQuery {"));
    assert!(src.contains("struct Data : Decodable {"));
    assert!(src.contains("struct User : Decodable, Identifiable {"));
    assert!(src.contains("var id : Int"));
    assert!(!src.contains("var id : Int?"));
    assert!(src.contains("var name : String"));
    assert!(!src.contains("var name : String?"));
    assert!(src.contains("var user : User?"));
    assert_eq!(graphql_texts(&src), vec!["query GetUser { user { id name } }".to_string()]);
    assert!(src.contains("static let fragments : [String] = []"));
}

#[test]
fn interface_inline_fragments() {
    let src = out("query Q { node { ... on Human { name } ... on Droid { model } } }");
    assert!(src.contains("enum Node : Decodable, Identifiable {"));
    assert!(src.contains("case AsHuman(Human)"));
    assert!(src.contains("case AsDroid(Droid)"));
    assert!(src.contains("case \"Human\" : self = .AsHuman(try Human(from: decoder))"));
    assert!(src.contains("case let .AsDroid(value) : return value.id"));
    assert!(src.contains("default: throw UnknownTypename()"));
    assert!(src.contains("struct Human : Decodable {"));
    assert!(src.contains("struct Droid : Decodable {"));
    assert!(src.contains("var model : String"));
    assert_eq!(
        graphql_texts(&src),
        vec!["query Q { node { __typename ... on Human { name } ... on Droid { model } } }".to_string()]
    );
}

#[test]
fn interface_with_plain_fields_gets_nested_sum_type() {
    let src = out("query Q { node { label ... on Human { name } } }");
    assert!(src.contains("struct Node : Decodable {"));
    assert!(src.contains("enum Types : Decodable, Identifiable {"));
    assert!(src.contains("var kind : Types"));
    assert!(src.contains("enum CodingKeys : String, CodingKey"));
    assert!(src.contains("case __typename, label"));
    assert!(src.contains("self.label = try container.decode(String?.self, forKey: .label)"));
    assert!(src.contains("self.kind = try Types(from: decoder)"));
}

#[test]
fn sole_fragment_reuses_the_fragment_type() {
    let src = out("fragment UserFields on User { id name } query Q { user { ...UserFields } }");
    assert!(src.contains("struct UserFields : Decodable, Identifiable {"));
    assert!(src.contains("var user : UserFields?"));
    assert!(!src.contains("struct User :"));
    assert!(src.contains("static let fragments : [String] = [\"UserFields\"]"));
    assert!(src.contains("meta.register(name: \"UserFields\", fragments: [], graphql: \"\"\""));
}

#[test]
fn sole_fragment_at_top_level_emits_no_data_type() {
    let src = out("fragment Top on Query { user { id } } query Q { ...Top }");
    assert!(!src.contains("struct Data"));
    assert_eq!(graphql_texts(&src), vec!["query Q { ...Top }".to_string()]);
}

#[test]
fn dependent_fragments_once_each_in_order_of_appearance() {
    let a = out("fragment A on User { id } fragment B on User { name } query Q { user { ...A friends { ...B ...A } } }");
    let b = out("fragment B on User { name } fragment A on User { id } query Q { user { ...A friends { ...B ...A } } }");
    assert!(a.contains("static let fragments : [String] = [\"A\",\"B\"]"));
    assert!(b.contains("static let fragments : [String] = [\"A\",\"B\"]"));
}

#[test]
fn fragment_registration_text() {
    let src = out("fragment UserFields on User { id }");
    assert!(src.contains("func initUserFieldsFragment(meta: FragmentMeta) {"));
    let text = squash(&src);
    assert!(text.contains("graphql: \"\"\" fragment UserFields on User { id } \"\"\")"));
}

fn query_with_args(args: Vec<Argument>) -> GraphQL {
    GraphQL {
        fragments: vec![],
        queries: vec![Query {
            name: "Q".to_string(),
            args: vec![],
            fields: vec![Field::PlainField(PlainField {
                name: "user".to_string(),
                args,
                fields: vec![Field::PlainField(PlainField { name: "id".to_string(), args: vec![], fields: vec![] })],
            })],
        }],
        mutations: vec![],
    }
}

fn arg(name: &str, value: Value) -> Argument {
    Argument { name: name.to_string(), value }
}

#[test]
fn boolean_values_reprint() {
    let t = match gen(&schema(), &query_with_args(vec![arg("active", Value::Bool(true))])) {
        Ok(s) => s,
        Err(_) => panic!("generation failed"),
    };
    assert!(t.contains("user(active : true) {"));
    let f = match gen(&schema(), &query_with_args(vec![arg("active", Value::Bool(false))])) {
        Ok(s) => s,
        Err(_) => panic!("generation failed"),
    };
    // `false` keeps its trailing space.
    assert!(f.contains("user(active : false ) {"));
}

#[test]
fn other_values_reprint() {
    let src = match gen(&schema(), &query_with_args(vec![
        arg("n", Value::Int(42)),
        arg("m", Value::Int(-7)),
        arg("s", Value::String("x".to_string())),
        arg("v", Value::Variable("id".to_string())),
    ])) {
        Ok(s) => s,
        Err(_) => panic!("generation failed"),
    };
    assert!(src.contains("user(n : 42, m : -7, s : \"x\", v : $id) {"));
}

#[test]
fn operation_parameters_reprint() {
    let src = out("query Q($id: Int!, $tags: [String]) { user { id } }");
    assert!(graphql_texts(&src)[0].starts_with("query Q($id : Int!, $tags : [String]) {"));
    assert!(src.contains("var id : Int\n"));
    assert!(src.contains("var tags : [String?]?"));
}

#[test]
fn mutation_request_type() {
    let src = out("mutation Logout { logout }");
    assert!(src.contains("struct LogoutMutation : Encodable, GraphQLMutation {"));
    assert!(src.contains("var logout : Bool"));
    assert_eq!(graphql_texts(&src), vec!["mutation Logout { logout }".to_string()]);
}

#[test]
fn empty_document_generates_nothing() {
    assert_eq!(out(""), "");
}

#[test]
fn unknown_field_fails() {
    assert!(matches!(generate("query Q { user { age } }"), Err(GenError::UnknownField(f)) if f == "age"));
}

#[test]
fn unknown_fragment_type_fails() {
    assert!(matches!(generate("fragment F on Ghost { id }"), Err(GenError::UnknownType(_))));
}

#[test]
fn missing_root_fails() {
    let s = Schema::new("Query".to_string(), "Mutation".to_string(), vec![]);
    let doc = query_with_args(vec![]);
    assert!(matches!(gen(&s, &doc), Err(GenError::MissingRoot)));
}

#[test]
fn swift_names_capitalise_the_first_character() {
    assert_eq!(Codegen::swift_name("user"), "User");
    assert_eq!(Codegen::swift_name("User"), "User");
    assert_eq!(Codegen::swift_name("_x"), "_x");
    assert_eq!(Codegen::swift_name("q"), "Q");
    assert_eq!(Codegen::swift_name(""), "");
}

fn inline(on: &str, fields: Vec<Field>) -> Field {
    Field::InlineFragment(InlineFragment { on: named(on), fields })
}

fn spread(n: &str) -> Field {
    Field::Fragment(n.to_string())
}

fn plain(n: &str) -> Field {
    Field::PlainField(PlainField { name: n.to_string(), args: vec![], fields: vec![] })
}

#[test]
fn one_case_per_branch() {
    let s = schema();
    let frags = vec![Fragment {
        name: "humanFields".to_string(),
        args: vec![],
        on: named("Human"),
        fields: vec![plain("name")],
    }];
    let g = Codegen::new(&s, &frags);
    let fields = vec![spread("humanFields"), plain("id"), inline("Droid", vec![spread("DroidFields")]), inline("Human", vec![plain("name")])];
    let cases = match g.possible_type_cases(&fields) {
        Ok(c) => c,
        Err(_) => panic!("cases failed"),
    };
    assert_eq!(
        cases,
        vec![
            ("Human".to_string(), "HumanFields".to_string()),
            ("Droid".to_string(), "DroidFields".to_string()),
            ("Human".to_string(), "Human".to_string()),
        ]
    );
    assert!(g.possible_type_cases(&vec![inline("Ghost", vec![])]).is_err());
    assert!(g.possible_type_cases(&vec![spread("undeclared")]).is_err());
    assert_eq!(g.source(), "");
}

#[test]
fn classification() {
    let node = nt("Node", NamedTypeKind::Interface, vec![]);
    let user = nt("User", NamedTypeKind::Object, vec![]);
    assert!(matches!(Codegen::analyze(&node, &vec![spread("F")]), TypeCase::SoleFragment(f) if f == "F"));
    assert!(matches!(Codegen::analyze(&user, &vec![spread("F")]), TypeCase::SoleFragment(_)));
    assert!(matches!(Codegen::analyze(&node, &vec![spread("F"), inline("Human", vec![])]), TypeCase::InterfaceOnlyFragments));
    assert!(matches!(Codegen::analyze(&node, &vec![plain("id"), spread("F")]), TypeCase::Interface));
    assert!(matches!(Codegen::analyze(&user, &vec![spread("F"), spread("G")]), TypeCase::Regular));
    assert!(matches!(Codegen::analyze(&node, &vec![]), TypeCase::InterfaceOnlyFragments));
}

#[test]
fn interface_decoder_names_nested_types_like_their_declarations() {
    let src = out("query Q { node { owner { id } ... on Human { name } } }");
    assert!(src.contains("struct Owner : Decodable, Identifiable {"));
    assert!(src.contains("var owner : Owner?"));
    assert!(src.contains("self.owner = try container.decode(Owner?.self, forKey: .owner)"));
}

#[test]
fn nested_types_are_indented_inside_their_parent() {
    let src = out("query GetUser { user { id } }");
    assert!(src.contains("\n    struct Data : Decodable {\n        struct User : Decodable, Identifiable {\n            var id : Int\n        }\n        var user : User?\n    }"));
}

#[test]
fn spread_case_is_tagged_with_the_fragment_type_condition() {
    let src = out("fragment HumanFields on Human { name } query Q { node { ...HumanFields ... on Droid { model } } }");
    assert!(src.contains("case AsHuman(HumanFields)"));
    assert!(src.contains("case AsDroid(Droid)"));
    assert!(src.contains("case \"Human\" : self = .AsHuman(try HumanFields(from: decoder))"));
}

#[test]
fn interface_fields_after_an_inline_fragment_get_nested_types() {
    let src = out("query Q { node { ... on Human { name } owner { id } label } }");
    assert!(src.contains("struct Owner : Decodable, Identifiable {"));
    assert!(src.contains("var owner : Owner?"));
}

#[test]
fn smallest_integer_reprints() {
    let src = match gen(&schema(), &query_with_args(vec![arg("n", Value::Int(i32::MIN)), arg("z", Value::Int(0))])) {
        Ok(s) => s,
        Err(_) => panic!("generation failed"),
    };
    assert!(src.contains("user(n : -2147483648, z : 0) {"));
}

#[test]
fn later_type_of_a_name_replaces_an_earlier_one() {
    let s = Schema::new(
        "Query".to_string(),
        "Mutation".to_string(),
        vec![
            nt("Query", NamedTypeKind::Object, vec![]),
            nt("Query", NamedTypeKind::Object, vec![sf("user", named("User"))]),
            nt("User", NamedTypeKind::Object, vec![sf("id", non_null(Type::Int))]),
        ],
    );
    assert!(matches!(s.get("Query"), Some(t) if t.fields.len() == 1));
}
