//! Lexer, parser and validator behaviour over whole query texts.

use tsk::ast::{Expression, InfixExpression, AST};
use tsk::lexer::Lexer;
use tsk::parser::{parse, Parser, Validator};
use tsk::token::{Decimal, Token};

fn s(text: &str) -> String {
    text.to_string()
}

fn num(mantissa: u64, scale: u32) -> Decimal {
    Decimal { mantissa, scale }
}

fn infix(left: Expression, operator: Token, right: Expression) -> Expression {
    Expression::Infix(Box::new(InfixExpression { left, operator, right }))
}

struct LexerTest<'a> {
    input: &'a str,
    name: &'a str,
    expected: Vec<Token>,
}

#[test]
fn test_lexer() {
    let tests = vec![
        LexerTest {
            input: "this is a simple query",
            name: "all unquoted strings",
            expected: vec![
                Token::Str(s("this")),
                Token::Str(s("is")),
                Token::Str(s("a")),
                Token::Str(s("simple")),
                Token::Str(s("query")),
            ],
        },
        LexerTest {
            input: "unquoted_string = \"this is a string\"",
            name: "unquoted string op quoted string",
            expected: vec![
                Token::Str(s("unquoted_string")),
                Token::EQ,
                Token::Str(s("this is a string")),
            ],
        },
        LexerTest {
            input: "5",
            name: "one number",
            expected: vec![Token::Float(num(5, 0))],
        },
        LexerTest {
            input: "(priority > 5)",
            name: "grouped priority greater than 5",
            expected: vec![
                Token::LP,
                Token::Str(s("priority")),
                Token::GT,
                Token::Float(num(5, 0)),
                Token::RP,
            ],
        },
        LexerTest {
            input: "(priority > 5.0)",
            name: "grouped priority greater than 5.0",
            expected: vec![
                Token::LP,
                Token::Str(s("priority")),
                Token::GT,
                Token::Float(num(5, 0)),
                Token::RP,
            ],
        },
        LexerTest {
            input: "(unquoted_string >= 5.0 and other = \"other string\") or (mighty morphin power rangers)",
            name: "complex expression",
            expected: vec![
                Token::LP,
                Token::Str(s("unquoted_string")),
                Token::GTE,
                Token::Float(num(5, 0)),
                Token::AND,
                Token::Str(s("other")),
                Token::EQ,
                Token::Str(s("other string")),
                Token::RP,
                Token::OR,
                Token::LP,
                Token::Str(s("mighty")),
                Token::Str(s("morphin")),
                Token::Str(s("power")),
                Token::Str(s("rangers")),
                Token::RP,
            ],
        },
        LexerTest {
            input: "milk -and cookies",
            name: "escaped keyword",
            expected: vec![
                Token::Str(s("milk")),
                Token::Str(s("and")),
                Token::Str(s("cookies")),
            ],
        },
        LexerTest {
            input: "title ^ \"take out the trash\"",
            name: "title like take out the trash",
            expected: vec![
                Token::Str(s("title")),
                Token::LIKE,
                Token::Str(s("take out the trash")),
            ],
        },
        LexerTest {
            input: "(\"milk and sugar\") and priority > 5",
            name: "grouped string query and priority greater than 5",
            expected: vec![
                Token::LP,
                Token::Str(s("milk and sugar")),
                Token::RP,
                Token::AND,
                Token::Str(s("priority")),
                Token::GT,
                Token::Float(num(5, 0)),
            ],
        },
        LexerTest {
            input: "(priority > 5 and title ^ \"take out the trash\") or (context = \"work\" and (priority >= 2 or (\"my little pony\")))",
            name: "very complex expression",
            expected: vec![
                Token::LP,
                Token::Str(s("priority")),
                Token::GT,
                Token::Float(num(5, 0)),
                Token::AND,
                Token::Str(s("title")),
                Token::LIKE,
                Token::Str(s("take out the trash")),
                Token::RP,
                Token::OR,
                Token::LP,
                Token::Str(s("context")),
                Token::EQ,
                Token::Str(s("work")),
                Token::AND,
                Token::LP,
                Token::Str(s("priority")),
                Token::GTE,
                Token::Float(num(2, 0)),
                Token::OR,
                Token::LP,
                Token::Str(s("my little pony")),
                Token::RP,
                Token::RP,
                Token::RP,
            ],
        },
    ];

    for test in tests.iter() {
        println!("Running Test: {}", test.name);

        let tokens: Vec<Token> = Lexer::tokens(test.input);

        for ind in 0..test.expected.len() {
            let lexed_token = &tokens[ind];
            let expected_token = &test.expected[ind];
            assert_eq!(lexed_token, expected_token);
        }

        assert_eq!(tokens.len(), test.expected.len());
    }
}

#[test]
fn test_all_fields() {
    let input = "some more fields";
    let tokens: Vec<Token> = Lexer::tokens(input);
    assert_eq!(tokens[0], Token::Str(s("some")));
    assert_eq!(tokens[1], Token::Str(s("more")));
    assert_eq!(tokens[2], Token::Str(s("fields")));
    assert_eq!(tokens.len(), 3);
}

#[test]
fn test_field_op_string() {
    let input = "field = \"this is a string\"";
    let tokens: Vec<Token> = Lexer::tokens(input);
    assert_eq!(tokens[0], Token::Str(s("field")));
    assert_eq!(tokens[1], Token::EQ);
    assert_eq!(tokens[2], Token::Str(s("this is a string")));
    assert_eq!(tokens.len(), 3);
}

#[test]
fn test_field_complex_op_string() {
    let input = "field >= \"this is a string\"";
    let tokens: Vec<Token> = Lexer::tokens(input);
    assert_eq!(tokens[0], Token::Str(s("field")));
    assert_eq!(tokens[1], Token::GTE);
    assert_eq!(tokens[2], Token::Str(s("this is a string")));
    assert_eq!(tokens.len(), 3);
}

#[test]
fn test_complex_exp() {
    let input = "(field >= 5.0 and other = \"other string\") or (mighty morphin power rangers)";
    let tokens: Vec<Token> = Lexer::tokens(input);
    assert_eq!(tokens[0], Token::LP);
    assert_eq!(tokens[1], Token::Str(s("field")));
    assert_eq!(tokens[2], Token::GTE);
    assert_eq!(tokens[3], Token::Float(num(5, 0)));
    assert_eq!(tokens[4], Token::AND);
    assert_eq!(tokens[5], Token::Str(s("other")));
    assert_eq!(tokens[6], Token::EQ);
    assert_eq!(tokens[7], Token::Str(s("other string")));
    assert_eq!(tokens.len(), 16);
}

#[test]
fn test_from_char() {
    assert_eq!(Token::from_char('('), Token::LP);
    assert_eq!(Token::from_char(')'), Token::RP);
    assert_eq!(Token::from_char('>'), Token::GT);
    assert_eq!(Token::from_char('<'), Token::LT);
    assert_eq!(Token::from_char('='), Token::EQ);
    assert_eq!(Token::from_char('*'), Token::Unexpected(s("*")));
}

struct ParserValidTest<'a> {
    name: &'a str,
    input: &'a str,
    expected: AST,
}

#[test]
fn test_valid_expressions() {
    let tests = vec![
        ParserValidTest {
            input: "this is a simple query",
            name: "simple query expression",
            expected: AST {
                expression: Expression::StrLiteral(s("this is a simple query")),
            },
        },
        ParserValidTest {
            input: "title = something",
            name: "simple comparison",
            expected: AST {
                expression: infix(
                    Expression::StrLiteral(s("title")),
                    Token::EQ,
                    Expression::StrLiteral(s("something")),
                ),
            },
        },
        ParserValidTest {
            input: "title = something and priority > 5",
            name: "logical expression",
            expected: AST {
                expression: infix(
                    infix(
                        Expression::StrLiteral(s("title")),
                        Token::EQ,
                        Expression::StrLiteral(s("something")),
                    ),
                    Token::AND,
                    infix(
                        Expression::StrLiteral(s("priority")),
                        Token::GT,
                        Expression::NumLiteral(num(5, 0)),
                    ),
                ),
            },
        },
        ParserValidTest {
            input: "(title = something and priority > 5) or notes = \"what I want in notes\"",
            name: "complex expression",
            expected: AST {
                expression: infix(
                    infix(
                        infix(
                            Expression::StrLiteral(s("title")),
                            Token::EQ,
                            Expression::StrLiteral(s("something")),
                        ),
                        Token::AND,
                        infix(
                            Expression::StrLiteral(s("priority")),
                            Token::GT,
                            Expression::NumLiteral(num(5, 0)),
                        ),
                    ),
                    Token::OR,
                    infix(
                        Expression::StrLiteral(s("notes")),
                        Token::EQ,
                        Expression::StrLiteral(s("what I want in notes")),
                    ),
                ),
            },
        },
        ParserValidTest {
            input: "milk -and cookies",
            name: "milk and cookies",
            expected: AST {
                expression: Expression::StrLiteral(s("milk and cookies")),
            },
        },
        ParserValidTest {
            input: "title ^ \"take out the trash\"",
            name: "title like take out the trash",
            expected: AST {
                expression: infix(
                    Expression::StrLiteral(s("title")),
                    Token::LIKE,
                    Expression::StrLiteral(s("take out the trash")),
                ),
            },
        },
        ParserValidTest {
            input: "(\"milk and sugar\") and priority > 5",
            name: "str literal and priority greater than 5.0",
            expected: AST {
                expression: infix(
                    Expression::StrLiteral(s("milk and sugar")),
                    Token::AND,
                    infix(
                        Expression::StrLiteral(s("priority")),
                        Token::GT,
                        Expression::NumLiteral(num(5, 0)),
                    ),
                ),
            },
        },
        ParserValidTest {
            input: "(priority > 5 and title ^ \"take out the trash\") or (context = \"work\" and (priority >= 2 or (\"my little pony\")))",
            name: "very complex expression",
            expected: AST {
                expression: infix(
                    infix(
                        infix(
                            Expression::StrLiteral(s("priority")),
                            Token::GT,
                            Expression::NumLiteral(num(5, 0)),
                        ),
                        Token::AND,
                        infix(
                            Expression::StrLiteral(s("title")),
                            Token::LIKE,
                            Expression::StrLiteral(s("take out the trash")),
                        ),
                    ),
                    Token::OR,
                    infix(
                        infix(
                            Expression::StrLiteral(s("context")),
                            Token::EQ,
                            Expression::StrLiteral(s("work")),
                        ),
                        Token::AND,
                        infix(
                            infix(
                                Expression::StrLiteral(s("priority")),
                                Token::GTE,
                                Expression::NumLiteral(num(2, 0)),
                            ),
                            Token::OR,
                            Expression::StrLiteral(s("my little pony")),
                        ),
                    ),
                ),
            },
        },
    ];

    for test in tests.iter() {
        println!("Running Test: {}", test.name);
        match Parser::new(test.input).parse() {
            Ok(ast) => assert_eq!(ast, test.expected),
            Err(e) => {
                println!("{}", e.message());
                assert!(false)
            },
        }
    }
}

#[test]
fn test_validator_invalid() {
    let exp = InfixExpression {
        left: Expression::StrLiteral(s("title")),
        operator: Token::EQ,
        right: Expression::NumLiteral(num(1, 0)),
    };

    match Validator::validate(&exp) {
        Ok(()) => {
            println!("{:?}", exp);
            assert!(false)
        },
        Err(_) => (),
    }
}

#[test]
fn whitespace_runs_normalise_to_single_spaces() {
    let ast = parse("mighty   morphin \t power  rangers").unwrap();
    assert_eq!(
        ast,
        AST { expression: Expression::StrLiteral(s("mighty morphin power rangers")) }
    );
}

#[test]
fn known_string_field_comparison_shape() {
    let ast = parse("context = work").unwrap();
    assert_eq!(
        ast,
        AST {
            expression: infix(
                Expression::StrLiteral(s("context")),
                Token::EQ,
                Expression::StrLiteral(s("work")),
            )
        }
    );
}

#[test]
fn priority_number_comparison_shape() {
    let ast = parse("priority > 5").unwrap();
    assert_eq!(
        ast,
        AST {
            expression: infix(
                Expression::StrLiteral(s("priority")),
                Token::GT,
                Expression::NumLiteral(num(5, 0)),
            )
        }
    );
    assert!(parse("priority > five").is_err());
}

#[test]
fn string_field_rejects_number_value() {
    assert!(parse("title = 1.0").is_err());
}

#[test]
fn grouping_is_left_to_right() {
    let explicit = parse("(a and b) or c").unwrap();
    let implicit = parse("a and b or c").unwrap();
    assert_eq!(explicit, implicit);
    let right_grouped = parse("a and (b or c)").unwrap();
    assert_ne!(implicit, right_grouped);
    assert_eq!(
        implicit,
        AST {
            expression: infix(
                infix(
                    Expression::StrLiteral(s("a")),
                    Token::AND,
                    Expression::StrLiteral(s("b")),
                ),
                Token::OR,
                Expression::StrLiteral(s("c")),
            )
        }
    );
}

#[test]
fn escaped_keyword_stays_text() {
    let ast = parse("milk -and cookies").unwrap();
    assert_eq!(
        ast,
        AST { expression: Expression::StrLiteral(s("milk and cookies")) }
    );
}

#[test]
fn date_literals_parse_to_timestamps() {
    let ast = parse("created_date > 2020-01-01").unwrap();
    assert_eq!(
        ast,
        AST {
            expression: infix(
                Expression::StrLiteral(s("created_date")),
                Token::GT,
                Expression::DateLiteral(1577836800),
            )
        }
    );
    let epoch = parse("completed_date = 1970-01-01").unwrap();
    assert_eq!(
        epoch,
        AST {
            expression: infix(
                Expression::StrLiteral(s("completed_date")),
                Token::EQ,
                Expression::DateLiteral(0),
            )
        }
    );
}

#[test]
fn parse_error_cases() {
    assert!(parse("").is_err());
    assert!(parse("(a and b").is_err());
    assert!(parse("( ").is_err());
    assert!(parse("somefield = bar").is_err());
    assert!(parse("created_date > 2020-13-01").is_err());
    assert!(parse("priority > 12:30").is_err());
    assert!(parse("5 and title = x").is_err());
    assert_eq!(
        parse("").err().map(|e| e.message().to_string()),
        Some("unexpected end of input".to_string())
    );
}

#[test]
fn decimal_literals_are_canonical() {
    let five = parse("priority = 5").unwrap();
    let five_dot = parse("priority = 5.00").unwrap();
    assert_eq!(five, five_dot);
    let half = parse("priority = 0.50").unwrap();
    assert_eq!(
        half,
        AST {
            expression: infix(
                Expression::StrLiteral(s("priority")),
                Token::EQ,
                Expression::NumLiteral(num(5, 1)),
            )
        }
    );
}

#[test]
fn render_round_trips() {
    let inputs = vec![
        "this is a simple query",
        "title = something",
        "title = something and priority > 5",
        "(title = something and priority > 5) or notes = \"what I want in notes\"",
        "milk -and cookies",
        "title ^ \"take out the trash\"",
        "priority >= 2.5 or priority <= 0.125",
        "(priority > 5 and title ^ \"take out the trash\") or (context = \"work\" and (priority >= 2 or (\"my little pony\")))",
    ];
    for input in inputs {
        let ast = parse(input).unwrap();
        let rendered = ast.render().unwrap();
        let reparsed = parse(&rendered).unwrap();
        assert_eq!(reparsed, ast);
    }
}

#[test]
fn render_canonical_text() {
    let ast = parse("priority > 5 and milk").unwrap();
    assert_eq!(
        ast.render().unwrap(),
        "((\"priority\" > 5) AND \"milk\")".to_string()
    );
    let fraction = parse("priority = 0.50").unwrap();
    assert_eq!(fraction.render().unwrap(), "(\"priority\" = 0.5)".to_string());
    // A date literal keeps no text form, so it has no canonical rendering.
    let dated = parse("created_date > 2020-01-01").unwrap();
    assert!(dated.render().is_none());
}
