use exprflow::lexer::{lex, Term, Token};
use exprflow::parser::parse;

#[test]
fn test_parse() {
    let tokens = lex("12").unwrap();
    parse(&tokens).unwrap();
    let tokens = lex("( 12 )").unwrap();
    parse(&tokens).unwrap();
    let tokens = lex(":a + 1").unwrap();
    parse(&tokens).unwrap();
    let tokens = lex("(1 + (3))").unwrap();
    parse(&tokens).unwrap();
    let tokens = lex("false || (:input < (10.3 - 9))").unwrap();
    parse(&tokens).unwrap();
    let tokens = lex(":a * :b < 102").unwrap();
    parse(&tokens).unwrap();
}

#[test]
fn parse_is_right_associative() {
    let tokens = lex("1 - 2 - 3").unwrap();
    let node = parse(&tokens).unwrap();
    assert_eq!(node.token, Token::Neg);
    assert_eq!(node.dependencies.len(), 2);
    assert_eq!(node.dependencies[0].token, Token::Term(Term::IntV(1)));
    assert_eq!(node.dependencies[1].token, Token::Neg);
    assert_eq!(node.dependencies[1].dependencies[1].token, Token::Term(Term::IntV(3)));
}

#[test]
fn parse_rejects_bad_shapes() {
    for text in ["", "(1", "1 )", "1 2", "+", "1 +", ")", "* 1", "1 sin 2"] {
        let tokens = lex(text).unwrap();
        assert!(parse(&tokens).is_err(), "{text}");
    }
    let tokens = lex("sin 1").unwrap();
    let node = parse(&tokens).unwrap();
    assert_eq!(node.token, Token::Sin);
    assert_eq!(node.dependencies.len(), 1);
}

#[test]
fn group_cannot_be_followed_by_operator() {
    let tokens = lex("(1 + 2) * 3").unwrap();
    assert!(parse(&tokens).is_err());
}

#[test]
fn leading_plus_is_not_unary() {
    let tokens = lex("+ 1").unwrap();
    assert!(parse(&tokens).is_err());
}
