use abac::error::{ParseError, ParseErrorKind};
use abac::expr::{eq_expr, Expr};
use abac::parser::{parse, to_text};

#[test]
fn atoms_parse() {
    assert!(eq_expr(&parse("42").unwrap().unwrap(), &Expr::Int(42)));
    assert!(eq_expr(&parse("-7").unwrap().unwrap(), &Expr::Int(-7)));
    assert!(eq_expr(&parse("true").unwrap().unwrap(), &Expr::Bool(true)));
    assert!(eq_expr(&parse("false").unwrap().unwrap(), &Expr::Bool(false)));
    assert!(eq_expr(
        &parse(r#""hello""#).unwrap().unwrap(),
        &Expr::Str("hello".to_string())
    ));
    assert!(eq_expr(
        &parse("subject.name").unwrap().unwrap(),
        &Expr::Ident("subject.name".to_string())
    ));
}

#[test]
fn whitespace_and_comments_only_give_none() {
    assert!(parse("").unwrap().is_none());
    assert!(parse("   \n\t ").unwrap().is_none());
    assert!(parse("; just a comment\n ; another\n").unwrap().is_none());
}

#[test]
fn applications_parse_with_nested_arguments() {
    let e = parse("(and (= a.b 1) true)").unwrap().unwrap();
    let expected = Expr::List(
        Box::new(Expr::Ident("and".to_string())),
        vec![
            Expr::List(
                Box::new(Expr::Ident("=".to_string())),
                vec![Expr::Ident("a.b".to_string()), Expr::Int(1)],
            ),
            Expr::Bool(true),
        ],
    );
    assert!(eq_expr(&e, &expected));
}

#[test]
fn string_escapes_decode() {
    let e = parse(r#""a\"b\\c\nd""#).unwrap().unwrap();
    assert!(eq_expr(&e, &Expr::Str("a\"b\\c\nd".to_string())));
}

#[test]
fn each_error_kind_has_an_input() {
    assert_eq!(parse("(and").unwrap_err().kind, ParseErrorKind::UnexpectedEof);
    assert_eq!(parse("@").unwrap_err().kind, ParseErrorKind::UnexpectedChar);
    assert_eq!(
        parse(r#""abc"#).unwrap_err().kind,
        ParseErrorKind::UnterminatedString
    );
    assert_eq!(
        parse(r#""a\qb""#).unwrap_err().kind,
        ParseErrorKind::InvalidEscape
    );
    assert_eq!(parse("3.14").unwrap_err().kind, ParseErrorKind::InvalidNumber);
    assert_eq!(parse(")").unwrap_err().kind, ParseErrorKind::Unbalanced);
    assert_eq!(parse("1 2").unwrap_err().kind, ParseErrorKind::Unbalanced);
    assert_eq!(parse("()").unwrap_err().kind, ParseErrorKind::EmptyList);
}

#[test]
fn numbers_at_the_64_bit_edges() {
    assert!(eq_expr(
        &parse("9223372036854775807").unwrap().unwrap(),
        &Expr::Int(i64::MAX)
    ));
    assert!(eq_expr(
        &parse("-9223372036854775808").unwrap().unwrap(),
        &Expr::Int(i64::MIN)
    ));
    assert_eq!(
        parse("9223372036854775808").unwrap_err().kind,
        ParseErrorKind::InvalidNumber
    );
}

#[test]
fn error_positions_are_byte_offsets() {
    assert_eq!(
        parse("   )").unwrap_err(),
        ParseError { kind: ParseErrorKind::Unbalanced, position: 3 }
    );
    // The ellipsis character is three bytes of UTF-8 inside the string.
    let text = "(= \"…\" @)";
    let err = parse(text).unwrap_err();
    assert_eq!(err.kind, ParseErrorKind::UnexpectedChar);
    assert_eq!(&text.as_bytes()[err.position..err.position + 1], b"@");
}

#[test]
fn printing_then_parsing_gives_the_expression_back() {
    let samples = [
        "42",
        "-7",
        "true",
        "false",
        r#""a\"b\\c""#,
        "subject.name",
        r#"(and (= resource.version "1.0.0") (member? "John" resource.admins) (or) (not false))"#,
        "(if (< a.b 10) (+ a.b 1) (- a.b 1))",
    ];
    for text in samples {
        let e = parse(text).unwrap().unwrap();
        let printed = to_text(&e);
        let again = parse(&printed).unwrap().unwrap();
        assert!(eq_expr(&e, &again), "round trip failed for {text}: {printed}");
    }
}

#[test]
fn printed_sequences_read_back_as_list_applications() {
    let seq = Expr::Sequence(vec![Expr::Int(1), Expr::Int(2)]);
    let printed = to_text(&seq);
    assert_eq!(printed, "(list 1 2)");
    let again = parse(&printed).unwrap().unwrap();
    let expected = Expr::List(
        Box::new(Expr::Ident("list".to_string())),
        vec![Expr::Int(1), Expr::Int(2)],
    );
    assert!(eq_expr(&again, &expected));
}
