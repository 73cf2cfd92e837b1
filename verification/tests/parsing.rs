use picoc::parser::{ParseError, Parser, Token, TT};
use picoc::rep::scope::ScopeError;
use picoc::rep::{InstrKind, TypeKind};

fn tok(typ: TT, lexeme: &str) -> Token {
    Token { typ, lexeme: lexeme.to_string() }
}

/// Tokens of `int main ( ) { <body> } <trailing>`.
fn program(body: Vec<Token>, trailing: Vec<Token>) -> Vec<Token> {
    let mut ts = vec![
        tok(TT::KeywordInt, "int"),
        tok(TT::Alias, "main"),
        tok(TT::PuncLeftParen, "("),
        tok(TT::PuncRightParen, ")"),
        tok(TT::PuncLeftBrace, "{"),
    ];
    ts.extend(body);
    ts.push(tok(TT::PuncRightBrace, "}"));
    ts.extend(trailing);
    ts
}

/// The handles reachable from `root` through input edges.
fn reachable(parser: &Parser, root: usize) -> Vec<usize> {
    let mut seen = vec![root];
    let mut work = vec![root];
    while let Some(n) = work.pop() {
        for &i in parser.graph.nodes[n].inputs.iter() {
            if !seen.contains(&i) {
                seen.push(i);
                work.push(i);
            }
        }
    }
    seen
}

#[test]
fn lit() {
    let tokens = program(
        vec![tok(TT::KeywordRet, "return"), tok(TT::LiteralInt, "8"), tok(TT::PuncSemiColon, ";")],
        vec![],
    );
    let mut parser = Parser::new();
    let root = parser.parse_prg(&tokens).unwrap();
    let ret = &parser.graph.nodes[root];
    assert_eq!(ret.kind, InstrKind::Return);
    assert_eq!(ret.inputs.len(), 2);
    assert_eq!(ret.inputs[0], parser.start);
    let data = ret.inputs[1];
    assert_eq!(parser.graph.nodes[data].kind, InstrKind::Int);
    assert_eq!(parser.graph.nodes[data].typ, TypeKind::Int(8));
    // the constant leaf hangs off the entry node by its phantom anchor edge
    assert_eq!(parser.graph.nodes[data].inputs, vec![parser.start]);
    // exactly two non-entry nodes are reachable from the root
    let live = reachable(&parser, root);
    let non_entry = live
        .iter()
        .filter(|&&n| parser.graph.nodes[n].kind != InstrKind::Start)
        .count();
    assert_eq!(non_entry, 2);
}

#[test]
fn add() {
    let tokens = program(
        vec![
            tok(TT::KeywordRet, "return"),
            tok(TT::LiteralInt, "8"),
            tok(TT::Plus, "+"),
            tok(TT::LiteralInt, "11"),
            tok(TT::PuncSemiColon, ";"),
        ],
        vec![],
    );
    let mut parser = Parser::new();
    let root = parser.parse_prg(&tokens).unwrap();
    // no addition node survives anywhere in the arena
    assert!(parser.graph.nodes.iter().all(|n| n.kind != InstrKind::Add));
    // the return's data input is a single constant carrying 19
    let data = parser.graph.nodes[root].inputs[1];
    assert_eq!(parser.graph.nodes[data].kind, InstrKind::Int);
    assert_eq!(parser.graph.nodes[data].typ, TypeKind::Int(19));
}

#[test]
fn assignment() {
    // several bindings, several folded expressions, variables read back
    let tokens = program(
        vec![
            tok(TT::KeywordInt, "int"),
            tok(TT::Alias, "a"),
            tok(TT::Equals, "="),
            tok(TT::LiteralInt, "8"),
            tok(TT::Plus, "+"),
            tok(TT::LiteralInt, "11"),
            tok(TT::PuncSemiColon, ";"),
            tok(TT::KeywordInt, "int"),
            tok(TT::Alias, "b"),
            tok(TT::Equals, "="),
            tok(TT::LiteralInt, "8"),
            tok(TT::Plus, "+"),
            tok(TT::LiteralInt, "11"),
            tok(TT::PuncSemiColon, ";"),
            tok(TT::KeywordRet, "return"),
            tok(TT::Alias, "a"),
            tok(TT::Plus, "+"),
            tok(TT::Alias, "b"),
            tok(TT::PuncSemiColon, ";"),
        ],
        vec![],
    );
    let mut parser = Parser::new();
    let root = parser.parse_prg(&tokens).unwrap();
    let data = parser.graph.nodes[root].inputs[1];
    assert_eq!(parser.graph.nodes[data].kind, InstrKind::Int);
    assert_eq!(parser.graph.nodes[data].typ, TypeKind::Int(38));
    assert!(parser.graph.nodes.iter().all(|n| n.kind != InstrKind::Add));
}

#[test]
fn left_associative_chain() {
    // 10 - 3 - 2 must fold left-associatively to 5, not to 9
    let tokens = program(
        vec![
            tok(TT::KeywordRet, "return"),
            tok(TT::LiteralInt, "10"),
            tok(TT::Minus, "-"),
            tok(TT::LiteralInt, "3"),
            tok(TT::Minus, "-"),
            tok(TT::LiteralInt, "2"),
            tok(TT::PuncSemiColon, ";"),
        ],
        vec![],
    );
    let mut parser = Parser::new();
    let root = parser.parse_prg(&tokens).unwrap();
    let data = parser.graph.nodes[root].inputs[1];
    assert_eq!(parser.graph.nodes[data].typ, TypeKind::Int(5));
}

#[test]
fn term_binds_tighter_than_expr() {
    // 1 + 2 * 3 is 7, not 9
    let tokens = program(
        vec![
            tok(TT::KeywordRet, "return"),
            tok(TT::LiteralInt, "1"),
            tok(TT::Plus, "+"),
            tok(TT::LiteralInt, "2"),
            tok(TT::Star, "*"),
            tok(TT::LiteralInt, "3"),
            tok(TT::PuncSemiColon, ";"),
        ],
        vec![],
    );
    let mut parser = Parser::new();
    let root = parser.parse_prg(&tokens).unwrap();
    let data = parser.graph.nodes[root].inputs[1];
    assert_eq!(parser.graph.nodes[data].typ, TypeKind::Int(7));
}

#[test]
fn division_truncates() {
    let tokens = program(
        vec![
            tok(TT::KeywordRet, "return"),
            tok(TT::LiteralInt, "9"),
            tok(TT::Slash, "/"),
            tok(TT::LiteralInt, "2"),
            tok(TT::PuncSemiColon, ";"),
        ],
        vec![],
    );
    let mut parser = Parser::new();
    let root = parser.parse_prg(&tokens).unwrap();
    let data = parser.graph.nodes[root].inputs[1];
    assert_eq!(parser.graph.nodes[data].typ, TypeKind::Int(4));
}

#[test]
fn largest_literal() {
    let tokens = program(
        vec![
            tok(TT::KeywordRet, "return"),
            tok(TT::LiteralInt, "170141183460469231731687303715884105727"),
            tok(TT::PuncSemiColon, ";"),
        ],
        vec![],
    );
    let mut parser = Parser::new();
    let root = parser.parse_prg(&tokens).unwrap();
    let data = parser.graph.nodes[root].inputs[1];
    assert_eq!(parser.graph.nodes[data].typ, TypeKind::Int(i128::MAX));
}

#[test]
fn overflowing_fold_is_left_unfolded() {
    // MAX + 1 does not fit the constant representation: the addition node
    // survives with the conservative type
    let tokens = program(
        vec![
            tok(TT::KeywordRet, "return"),
            tok(TT::LiteralInt, "170141183460469231731687303715884105727"),
            tok(TT::Plus, "+"),
            tok(TT::LiteralInt, "1"),
            tok(TT::PuncSemiColon, ";"),
        ],
        vec![],
    );
    let mut parser = Parser::new();
    let root = parser.parse_prg(&tokens).unwrap();
    let data = parser.graph.nodes[root].inputs[1];
    assert_eq!(parser.graph.nodes[data].kind, InstrKind::Add);
    assert_eq!(parser.graph.nodes[data].typ, TypeKind::Bot);
}

#[test]
fn double_define() {
    let tokens = program(
        vec![
            tok(TT::KeywordInt, "int"),
            tok(TT::Alias, "a"),
            tok(TT::Equals, "="),
            tok(TT::LiteralInt, "1"),
            tok(TT::PuncSemiColon, ";"),
            tok(TT::KeywordInt, "int"),
            tok(TT::Alias, "a"),
            tok(TT::Equals, "="),
            tok(TT::LiteralInt, "2"),
            tok(TT::PuncSemiColon, ";"),
            tok(TT::KeywordRet, "return"),
            tok(TT::Alias, "a"),
            tok(TT::PuncSemiColon, ";"),
        ],
        vec![],
    );
    let mut parser = Parser::new();
    let r = parser.parse_prg(&tokens);
    assert!(matches!(r, Err(ParseError::Scope(ScopeError::DoubleDefine(a))) if a == "a"));
}

#[test]
fn not_found() {
    let tokens = program(
        vec![tok(TT::KeywordRet, "return"), tok(TT::Alias, "b"), tok(TT::PuncSemiColon, ";")],
        vec![],
    );
    let mut parser = Parser::new();
    let r = parser.parse_prg(&tokens);
    assert!(matches!(r, Err(ParseError::Scope(ScopeError::NotFound(a))) if a == "b"));
}

#[test]
fn division_by_zero() {
    let tokens = program(
        vec![
            tok(TT::KeywordRet, "return"),
            tok(TT::LiteralInt, "4"),
            tok(TT::Slash, "/"),
            tok(TT::LiteralInt, "0"),
            tok(TT::PuncSemiColon, ";"),
        ],
        vec![],
    );
    let mut parser = Parser::new();
    let r = parser.parse_prg(&tokens);
    assert!(matches!(r, Err(ParseError::DivisionByZero)));
}

#[test]
fn trailing_tokens() {
    let tokens = program(
        vec![tok(TT::KeywordRet, "return"), tok(TT::LiteralInt, "1"), tok(TT::PuncSemiColon, ";")],
        vec![tok(TT::PuncSemiColon, ";")],
    );
    let mut parser = Parser::new();
    let r = parser.parse_prg(&tokens);
    assert!(matches!(r, Err(ParseError::UnexpectedTrailingTokens)));
}

#[test]
fn token_mismatch() {
    // the opening parenthesis is missing
    let tokens = vec![
        tok(TT::KeywordInt, "int"),
        tok(TT::Alias, "main"),
        tok(TT::PuncRightParen, ")"),
    ];
    let mut parser = Parser::new();
    let r = parser.parse_prg(&tokens);
    assert!(matches!(
        r,
        Err(ParseError::TokenMismatch { expected: TT::PuncLeftParen, actual: TT::PuncRightParen })
    ));
}

#[test]
fn unexpected_end_of_stream() {
    let tokens = vec![tok(TT::KeywordInt, "int")];
    let mut parser = Parser::new();
    let r = parser.parse_prg(&tokens);
    assert!(matches!(r, Err(ParseError::UnexpectedEndOfStream)));
}

#[test]
fn empty_body_is_rejected() {
    let tokens = program(vec![], vec![]);
    let mut parser = Parser::new();
    let r = parser.parse_prg(&tokens);
    assert!(matches!(
        r,
        Err(ParseError::TokenMismatch { expected: TT::KeywordRet, actual: TT::PuncRightBrace })
    ));
}

#[test]
fn fresh_units_are_independent() {
    let tokens = program(
        vec![tok(TT::KeywordRet, "return"), tok(TT::LiteralInt, "5"), tok(TT::PuncSemiColon, ";")],
        vec![],
    );
    let mut first = Parser::new();
    let r1 = first.parse_prg(&tokens).unwrap();
    let mut second = Parser::new();
    let r2 = second.parse_prg(&tokens).unwrap();
    assert_eq!(r1, r2);
    assert_eq!(first.graph.nodes.len(), second.graph.nodes.len());
}
