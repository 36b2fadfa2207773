use exprflow::lexer::{lex, lex_multiline, Term, Token};

#[test]
fn test_literals() {
    let program = "12";
    let result = lex(program).unwrap();
    assert_eq!(result, vec![Token::Term(Term::IntV(12)),]);

    let program = "-98.232345";
    let result = lex(program).unwrap();
    assert_eq!(
        result,
        vec![Token::Neg, Token::Term(Term::FloatV("98.232345".to_string())),]
    );

    let program = "98.232345";
    let result = lex(program).unwrap();
    assert_eq!(result, vec![Token::Term(Term::FloatV("98.232345".to_string())),]);

    let program = "98.23234.5";
    assert!(lex(program).is_err(), "Double dot");

    let program = "94F";
    assert!(lex(program).is_err(), "Unexpected character `F`");

    let program = "true";
    let result = lex(program).unwrap();
    assert_eq!(result, vec![Token::Term(Term::BoolV(true)),]);

    let program = "false";
    let result = lex(program).unwrap();
    assert_eq!(result, vec![Token::Term(Term::BoolV(false)),]);
}

#[test]
fn test_expressions() {
    let program = "1 + :a";
    let result = lex(program).unwrap();
    assert_eq!(
        result,
        vec![
            Token::Term(Term::IntV(1)),
            Token::Plus,
            Token::Term(Term::Var("a".to_owned())),
        ]
    );

    let program = "((10.3 - 9) > :input) || false";
    let result = lex(program).unwrap();
    assert_eq!(
        result,
        vec![
            Token::LeftParen,
            Token::LeftParen,
            Token::Term(Term::FloatV("10.3".to_string())),
            Token::Neg,
            Token::Term(Term::IntV(9)),
            Token::RightParen,
            Token::Gt,
            Token::Term(Term::Var("input".to_owned())),
            Token::RightParen,
            Token::Or,
            Token::Term(Term::BoolV(false)),
        ]
    );
}

#[test]
fn literal_round_trips() {
    assert_eq!(lex("0").unwrap(), vec![Token::Term(Term::IntV(0))]);
    assert_eq!(
        lex("9223372036854775807").unwrap(),
        vec![Token::Term(Term::IntV(i64::MAX))]
    );
    assert_eq!(lex("7.").unwrap(), vec![Token::Term(Term::FloatV("7.".to_string()))]);
    assert_eq!(lex("-42").unwrap(), vec![Token::Neg, Token::Term(Term::IntV(42))]);
}

#[test]
fn error_messages() {
    assert_eq!(
        lex("98.23234.5").unwrap_err().substr,
        "Failed; cannot have multiple `.` in numeric literal"
    );
    assert_eq!(lex("94F").unwrap_err().substr, "Unexpected character: F");
    assert_eq!(lex("9223372036854775808").unwrap_err().substr, "parse error");
    assert_eq!(lex("1 & 2").unwrap_err().substr, "Failed to parse `and`");
    assert_eq!(lex("1 | 2").unwrap_err().substr, "Failed to parse `or`");
    assert_eq!(lex("1 = 2").unwrap_err().substr, "Failed to parse `eq`");
    assert_eq!(lex("tru").unwrap_err().substr, "Failed to parse `true`");
    assert_eq!(lex("fals").unwrap_err().substr, "Failed to parse `false`");
    assert_eq!(lex("sn 1").unwrap_err().substr, "Failed to parse `sin`");
    assert_eq!(lex("cs 1").unwrap_err().substr, "Failed to parse `cos`");
}

#[test]
fn operators_and_keywords() {
    assert_eq!(
        lex("<= < >= > != ! == && || * sin cos").unwrap(),
        vec![
            Token::Le,
            Token::Lt,
            Token::Ge,
            Token::Gt,
            Token::Ne,
            Token::Not,
            Token::Eq,
            Token::And,
            Token::Or,
            Token::Mul,
            Token::Sin,
            Token::Cos,
        ]
    );
    assert_eq!(lex("").unwrap(), vec![]);
    assert_eq!(lex("   ").unwrap(), vec![]);
}

#[test]
fn multiline_reports_failing_lines() {
    let err = lex_multiline("1 + 2\n3 # 4").unwrap_err();
    assert!(err.substr.contains("Unexpected character: #"));
    assert_eq!(err.substr, "Unexpected character: #");

    let err = lex_multiline("1 @ 2\n3 + 4\n5 $").unwrap_err();
    assert_eq!(err.substr, "Unexpected character: @\nUnexpected character: $");
}

#[test]
fn multiline_keeps_line_order() {
    let lines = lex_multiline("1\r\n2 + 3\n").unwrap();
    assert_eq!(
        lines,
        vec![
            vec![Token::Term(Term::IntV(1))],
            vec![Token::Term(Term::IntV(2)), Token::Plus, Token::Term(Term::IntV(3))],
        ]
    );
    assert_eq!(lex_multiline("").unwrap().len(), 0);
}

#[test]
fn all_ascii_whitespace_is_skipped() {
    assert_eq!(
        lex("1\t+\r2\x0C*  3").unwrap(),
        vec![
            Token::Term(Term::IntV(1)),
            Token::Plus,
            Token::Term(Term::IntV(2)),
            Token::Mul,
            Token::Term(Term::IntV(3)),
        ]
    );
    assert_eq!(lex("\t").unwrap(), vec![]);
}
