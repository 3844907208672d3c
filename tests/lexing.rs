use graphql_swift::lexer::{lex, ErrorKind, TokenKind};

fn kinds(src: &str) -> Vec<TokenKind> {
    match lex("doc.graphql", src) {
        Ok(ts) => ts.into_iter().map(|t| t.kind).collect(),
        Err(_) => panic!("lexing failed"),
    }
}

#[test]
fn punctuation_and_keywords() {
    let ks = kinds("query Q { a(x: $v) [Int!] } fragment on mutation String Bool");
    assert_eq!(ks.len(), 19);
    assert!(matches!(ks[0], TokenKind::QueryKeyword));
    assert!(matches!(&ks[1], TokenKind::Identifier(n) if n == "Q"));
    assert!(matches!(ks[2], TokenKind::OpenBracket));
    assert!(matches!(&ks[3], TokenKind::Identifier(n) if n == "a"));
    assert!(matches!(ks[4], TokenKind::OpenParen));
    assert!(matches!(&ks[5], TokenKind::Identifier(n) if n == "x"));
    assert!(matches!(ks[6], TokenKind::Colon));
    assert!(matches!(&ks[7], TokenKind::Variable(n) if n == "v"));
    assert!(matches!(ks[8], TokenKind::CloseParen));
    assert!(matches!(ks[9], TokenKind::OpenSquare));
    assert!(matches!(ks[10], TokenKind::IntKeyword));
    assert!(matches!(ks[11], TokenKind::Exclamation));
    assert!(matches!(ks[12], TokenKind::CloseSquare));
    assert!(matches!(ks[13], TokenKind::CloseBracket));
    assert!(matches!(ks[14], TokenKind::FragmentKeyword));
    assert!(matches!(ks[15], TokenKind::OnKeyword));
    assert!(matches!(ks[16], TokenKind::MutationKeyword));
    assert!(matches!(ks[17], TokenKind::StringKeyword));
    assert!(matches!(ks[18], TokenKind::BoolKeyword));
}

#[test]
fn spread_and_integer() {
    let ks = kinds("...Foo, 1234 x_1");
    assert_eq!(ks.len(), 4);
    assert!(matches!(ks[0], TokenKind::Spread));
    assert!(matches!(&ks[1], TokenKind::Identifier(n) if n == "Foo"));
    assert!(matches!(ks[2], TokenKind::Int(1234)));
    assert!(matches!(&ks[3], TokenKind::Identifier(n) if n == "x_1"));
}

#[test]
fn largest_integer_and_overflow() {
    let ks = kinds("2147483647");
    assert!(matches!(ks[0], TokenKind::Int(2147483647)));
    match lex("doc.graphql", "2147483648") {
        Err(e) => {
            assert!(matches!(e.kind, ErrorKind::Expecting("an integer that fits in 32 bits")));
            assert_eq!((e.location.line, e.location.column), (1, 0));
        }
        Ok(_) => panic!("an integer above i32::MAX must fail"),
    }
}

#[test]
fn empty_source_has_no_tokens() {
    assert_eq!(kinds("").len(), 0);
    assert_eq!(kinds(" ,\t\r\n ").len(), 0);
}

#[test]
fn positions_are_line_and_column_of_first_character() {
    let ts = match lex("doc.graphql", "query Q {\n  name\n}") {
        Ok(ts) => ts,
        Err(_) => panic!("lexing failed"),
    };
    assert_eq!(ts.len(), 5);
    assert_eq!((ts[0].line, ts[0].column), (1, 0));
    assert_eq!((ts[1].line, ts[1].column), (1, 6));
    assert_eq!((ts[2].line, ts[2].column), (1, 8));
    assert_eq!((ts[3].line, ts[3].column), (2, 2));
    assert_eq!((ts[4].line, ts[4].column), (3, 0));
}

#[test]
fn malformed_spread_fails_at_the_dot() {
    match lex("doc.graphql", "{ a\n  .x }") {
        Err(e) => {
            assert!(matches!(e.kind, ErrorKind::Expecting("...")));
            assert_eq!(e.location.line, 2);
            assert_eq!(e.location.column, 2);
            assert_eq!(e.location.path, "doc.graphql");
        }
        Ok(_) => panic!("a single dot must fail"),
    }
}

#[test]
fn two_dots_at_the_end_fail() {
    assert!(matches!(lex("p", ".."), Err(e) if matches!(e.kind, ErrorKind::Expecting("..."))));
}

#[test]
fn unexpected_character() {
    match lex("doc.graphql", "query @") {
        Err(e) => {
            assert!(matches!(e.kind, ErrorKind::Unexpected('@')));
            assert_eq!((e.location.line, e.location.column), (1, 6));
        }
        Ok(_) => panic!("@ starts no token"),
    }
}
