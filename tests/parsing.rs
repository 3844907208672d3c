use graphql_swift::lexer::lex;
use graphql_swift::parser::{parse, ErrorKind, Field, GraphQL, Type, Value};

fn doc(src: &str) -> Result<GraphQL, graphql_swift::parser::Error> {
    match lex("doc.graphql", src) {
        Ok(ts) => parse(ts),
        Err(_) => panic!("lexing failed"),
    }
}

#[test]
fn query_with_nested_selection() {
    let g = match doc("query GetUser { user { id name } }") {
        Ok(g) => g,
        Err(_) => panic!("parse failed"),
    };
    assert_eq!(g.queries.len(), 1);
    assert_eq!(g.fragments.len(), 0);
    assert_eq!(g.mutations.len(), 0);
    let q = &g.queries[0];
    assert_eq!(q.name, "GetUser");
    assert_eq!(q.fields.len(), 1);
    match &q.fields[0] {
        Field::PlainField(p) => {
            assert_eq!(p.name, "user");
            assert_eq!(p.fields.len(), 2);
            assert!(matches!(&p.fields[0], Field::PlainField(f) if f.name == "id" && f.fields.is_empty()));
            assert!(matches!(&p.fields[1], Field::PlainField(f) if f.name == "name"));
        }
        _ => panic!("expected a plain field"),
    }
}

#[test]
fn arguments_definitions_and_types() {
    let g = match doc("query Q($id: Int!, $tags: [String]) { node(id: $id, n: 3) { name } }") {
        Ok(g) => g,
        Err(_) => panic!("parse failed"),
    };
    let q = &g.queries[0];
    assert_eq!(q.args.len(), 2);
    assert_eq!(q.args[0].name, "id");
    assert!(matches!(&q.args[0].kind, Type::NonNull(t) if matches!(**t, Type::Int)));
    assert!(matches!(&q.args[1].kind, Type::Array(t) if matches!(**t, Type::String)));
    match &q.fields[0] {
        Field::PlainField(p) => {
            assert_eq!(p.args.len(), 2);
            assert!(matches!(&p.args[0].value, Value::Variable(v) if v == "id"));
            assert!(matches!(p.args[1].value, Value::Int(3)));
        }
        _ => panic!("expected a plain field"),
    }
}

#[test]
fn fragments_spreads_and_inline_fragments() {
    let g = match doc("fragment F on User { id } query Q { node { ...F ... on Human { name } } }") {
        Ok(g) => g,
        Err(_) => panic!("parse failed"),
    };
    assert_eq!(g.fragments.len(), 1);
    assert_eq!(g.fragments[0].name, "F");
    assert!(matches!(&g.fragments[0].on, Type::Input(n) if n == "User"));
    match &g.queries[0].fields[0] {
        Field::PlainField(p) => {
            assert!(matches!(&p.fields[0], Field::Fragment(n) if n == "F"));
            assert!(matches!(&p.fields[1], Field::InlineFragment(i) if i.fields.len() == 1));
        }
        _ => panic!("expected a plain field"),
    }
}

#[test]
fn mutation_with_arguments() {
    let g = match doc("mutation Logout($all: Bool) { logout(all: $all) }") {
        Ok(g) => g,
        Err(_) => panic!("parse failed"),
    };
    assert_eq!(g.mutations.len(), 1);
    assert_eq!(g.mutations[0].name, "Logout");
    assert_eq!(g.mutations[0].fields.len(), 1);
}

#[test]
fn empty_document() {
    let g = match doc("") {
        Ok(g) => g,
        Err(_) => panic!("parse failed"),
    };
    assert_eq!(g.queries.len() + g.fragments.len() + g.mutations.len(), 0);
}

#[test]
fn every_token_is_consumed() {
    assert!(doc("query Q { a } }").is_err());
    assert!(doc("query Q { a } query").is_err());
    assert!(doc("query Q { a").is_err());
    assert!(doc("query Q { a } query R { b }").is_ok());
}

#[test]
fn top_level_must_be_an_operation() {
    match doc("user { id }") {
        Err(e) => {
            assert!(matches!(e.kind, ErrorKind::Expecting(_)));
            assert_eq!((e.line, e.column), (1, 0));
        }
        Ok(_) => panic!("a bare selection is no document"),
    }
}

#[test]
fn selection_must_open_with_a_brace() {
    assert!(doc("query Q ( ) a }").is_err());
    assert!(doc("fragment F User { id }").is_err());
}

#[test]
fn cut_off_document_fails_at_the_last_token() {
    match doc("query Q {\n  user(") {
        Err(e) => assert_eq!((e.line, e.column), (2, 6)),
        Ok(_) => panic!("a cut-off document must fail"),
    }
}

#[test]
fn fragment_without_on_fails() {
    assert!(doc("fragment F User { id }").is_err());
}

#[test]
fn arguments_come_back_in_order() {
    let g = match doc("query Q { user(first: 10 after: $cursor) { id } }") {
        Ok(g) => g,
        Err(_) => panic!("parse failed"),
    };
    match &g.queries[0].fields[0] {
        Field::PlainField(p) => {
            assert_eq!(p.args.len(), 2);
            assert_eq!(p.args[0].name, "first");
            assert!(matches!(p.args[0].value, Value::Int(10)));
            assert_eq!(p.args[1].name, "after");
            assert!(matches!(&p.args[1].value, Value::Variable(v) if v == "cursor"));
        }
        _ => panic!("expected a plain field"),
    }
}

#[test]
fn doubled_bang_is_not_a_type() {
    assert!(doc("query Q($a: Int!!) { user { id } }").is_err());
}

#[test]
fn missing_brace_is_reported_at_the_offending_token() {
    match doc("query Q { ... on Human id } }") {
        Err(e) => {
            assert!(matches!(e.kind, ErrorKind::Expecting("{")));
            assert_eq!((e.line, e.column), (1, 23));
        }
        Ok(_) => panic!("an inline fragment needs a braced selection"),
    }
}
