use monkey::ast::{Expression, Program, Statement};
use monkey::grammar::ErrorKind;
use monkey::{parse, Lexer, ParseError, Parser, TokenType};

fn parse_str(input: &str) -> (Program, Vec<ParseError>) {
    parse(String::from(input))
}

fn source_of(input: &str) -> String {
    let (program, errors) = parse_str(input);
    assert!(errors.is_empty(), "unexpected errors for {:?}: {:?}", input, errors);
    program.string()
}

#[test]
fn let_statement_tree() {
    let (program, errors) = parse_str("let x = 5;");
    assert!(errors.is_empty());
    assert_eq!(program.statements.len(), 1);
    match &program.statements[0] {
        Statement::Let(l) => {
            assert_eq!(l.name.value, "x");
            assert_eq!(l.token_literal(), "let");
            match &l.value {
                Expression::IntegerLiteral(i) => assert_eq!(i.value, 5),
                other => panic!("not an integer: {:?}", other),
            }
        },
        other => panic!("not a let statement: {:?}", other),
    }
    assert_eq!(program.string(), "let x = 5;");
}

#[test]
fn precedence_and_grouping() {
    assert_eq!(source_of("1 + 2 * 3;"), "(1 + (2 * 3))");
    assert_eq!(source_of("-a * b;"), "((-a) * b)");
    assert_eq!(source_of("1 - 2 - 3;"), "((1 - 2) - 3)");
    assert_eq!(source_of("!-a"), "(!(-a))");
    assert_eq!(source_of("a + b * c + d / e - f"), "(((a + (b * c)) + (d / e)) - f)");
    assert_eq!(source_of("5 > 4 == 3 < 4"), "((5 > 4) == (3 < 4))");
    assert_eq!(source_of("3 + 4 * 5 == 3 * 1 + 4 * 5"), "((3 + (4 * 5)) == ((3 * 1) + (4 * 5)))");
    assert_eq!(source_of("(5 + 5) * 2"), "((5 + 5) * 2)");
    assert_eq!(source_of("-(5 + 5)"), "(-(5 + 5))");
    assert_eq!(source_of("!(true == true)"), "(!(true == true))");
    assert_eq!(source_of("a != b"), "(a != b)");
}

#[test]
fn calls_and_functions() {
    assert_eq!(source_of("add(1, 2 * 3, 4 + 5)"), "add(1,(2 * 3),(4 + 5))");
    assert_eq!(source_of("a + add(b * c) + d"), "((a + add((b * c))) + d)");
    assert_eq!(source_of("add()"), "add()");
    assert_eq!(source_of("fn(x, y) { x + y; }"), "fn(x, y)(x + y)");
    assert_eq!(source_of("fn() { 1 }"), "fn()1");
    assert_eq!(source_of("fn(a) { a }(2)"), "fn(a)a(2)");
    assert_eq!(source_of("return add(1);"), "return add(1);");
}

#[test]
fn if_else_tree() {
    let (program, errors) = parse_str("if (x < y) { x } else { y }");
    assert!(errors.is_empty());
    assert_eq!(program.statements.len(), 1);
    match &program.statements[0] {
        Statement::Expression(s) => match &s.expression {
            Expression::If(i) => {
                assert_eq!(i.condition.string(), "(x < y)");
                assert_eq!(i.consequence.statements.len(), 1);
                assert_eq!(i.consequence.string(), "x");
                let alt = i.alternative.as_ref().expect("an alternative");
                assert_eq!(alt.statements.len(), 1);
                assert_eq!(alt.string(), "y");
                assert_eq!(i.token_literal(), "if");
            },
            other => panic!("not an if expression: {:?}", other),
        },
        other => panic!("not an expression statement: {:?}", other),
    }
    assert_eq!(program.string(), "if(x < y) xelse y");
}

#[test]
fn if_without_else() {
    let (program, errors) = parse_str("if (a) { b; c }");
    assert!(errors.is_empty());
    match &program.statements[0] {
        Statement::Expression(s) => match &s.expression {
            Expression::If(i) => {
                assert_eq!(i.consequence.statements.len(), 2);
                assert!(i.alternative.is_none());
            },
            other => panic!("not an if expression: {:?}", other),
        },
        other => panic!("not an expression statement: {:?}", other),
    }
}

#[test]
fn missing_identifier_is_reported_and_parsing_goes_on() {
    let (program, errors) = parse_str("let = 5;");
    assert!(errors.len() >= 1);
    assert_eq!(errors[0].kind, ErrorKind::Expected(TokenType::Ident));
    assert_eq!(errors[0].token.token_type, TokenType::Assign);
    assert_eq!(program.statements.len(), 0);

    let (program, errors) = parse_str("let = 5; let y = 7; y;");
    assert_eq!(errors.len(), 1);
    assert_eq!(program.statements.len(), 2);
    assert_eq!(program.string(), "let y = 7;y");
}

#[test]
fn several_errors_in_one_run() {
    let (program, errors) = parse_str("let x 5; let = 10; let 838383; z;");
    assert_eq!(errors.len(), 3);
    assert_eq!(errors[0].kind, ErrorKind::Expected(TokenType::Assign));
    assert_eq!(errors[1].kind, ErrorKind::Expected(TokenType::Ident));
    assert_eq!(errors[2].kind, ErrorKind::Expected(TokenType::Ident));
    assert_eq!(program.statements.len(), 1);
    assert_eq!(program.string(), "z");
}

#[test]
fn each_error_kind() {
    let (_, errors) = parse_str("+;");
    assert_eq!(errors.len(), 1);
    assert_eq!(errors[0].kind, ErrorKind::NoPrefixParse);
    assert_eq!(errors[0].token.token_type, TokenType::Plus);

    let (_, errors) = parse_str("@;");
    assert_eq!(errors[0].kind, ErrorKind::IllegalCharacter);

    let (_, errors) = parse_str("99999999999999999999;");
    assert_eq!(errors[0].kind, ErrorKind::IntegerOutOfRange);

    let (program, errors) = parse_str("9223372036854775807;");
    assert!(errors.is_empty());
    assert_eq!(program.string(), "9223372036854775807");

    let (_, errors) = parse_str("(1 + 2;");
    assert_eq!(errors[0].kind, ErrorKind::Expected(TokenType::Rparen));

    let (_, errors) = parse_str("if (x) { y");
    assert_eq!(errors[0].kind, ErrorKind::Expected(TokenType::Rbrace));
    assert_eq!(errors[0].token.token_type, TokenType::Eof);

    let (_, errors) = parse_str("fn(x, 1) { x }");
    assert_eq!(errors[0].kind, ErrorKind::Expected(TokenType::Ident));

    let (_, errors) = parse_str("add(1 2)");
    assert_eq!(errors[0].kind, ErrorKind::Expected(TokenType::Rparen));
}

#[test]
fn empty_program() {
    let (program, errors) = parse_str("");
    assert!(errors.is_empty());
    assert!(program.statements.is_empty());
    assert_eq!(program.token_literal(), "");
    assert_eq!(program.string(), "");
}

#[test]
fn round_trip_is_stable() {
    for input in ["let x = 1 + 2 * 3; return -x;", "a * (b + c) - d / e;", "add(1, f(2), !x);"] {
        let first = source_of(input);
        let second = source_of(&first);
        assert_eq!(first, second);
    }
}

#[test]
fn parser_from_lexer() {
    let mut p = Parser::new(Lexer::new(String::from("let a = b; return a;")));
    let program = p.parse_program();
    assert!(p.errors().is_empty());
    assert_eq!(program.statements.len(), 2);
    assert_eq!(program.token_literal(), "let");
    assert_eq!(program.string(), "let a = b;return a;");
}

#[test]
fn parser_next_token_skips_a_token() {
    let mut p = Parser::new(Lexer::new(String::from("1 2")));
    p.next_token();
    let program = p.parse_program();
    assert_eq!(program.string(), "2");
}

#[test]
fn error_messages() {
    let (_, errors) = parse_str("let = 5;");
    assert_eq!(errors[0].message(), "expected next token to be IDENT, got = instead");
    let (_, errors) = parse_str("};");
    assert_eq!(errors[0].message(), "no prefix parse function for } found");
    let (_, errors) = parse_str("#");
    assert_eq!(errors[0].message(), "unexpected character #");
    let (_, errors) = parse_str("123456789012345678901234567890");
    assert_eq!(errors[0].message(), "could not parse 123456789012345678901234567890 as integer");
    assert_eq!(TokenType::Function.name(), "FUNCTION");
    assert_eq!(TokenType::NotEq.name(), "!=");
}

#[test]
fn token_literals_of_nodes() {
    let (program, _) = parse_str("add(-1, true) + 2;");
    assert_eq!(program.statements[0].token_literal(), "add");
    match &program.statements[0] {
        Statement::Expression(s) => {
            assert_eq!(s.expression.token_literal(), "+");
            assert_eq!(s.expression.string(), "(add((-1),true) + 2)");
        },
        other => panic!("not an expression statement: {:?}", other),
    }
}

#[test]
fn nodes_hold_their_anchoring_tokens() {
    let (program, errors) = parse_str("add(1, 2 * 3)");
    assert!(errors.is_empty());
    match &program.statements[0] {
        Statement::Expression(s) => {
            assert_eq!(s.token_literal(), "add");
            match &s.expression {
                Expression::Call(c) => {
                    assert_eq!(c.token_literal(), "(");
                    match &c.arguments[1] {
                        Expression::Infix(x) => assert_eq!(x.token_literal(), "*"),
                        other => panic!("not an infix expression: {:?}", other),
                    }
                },
                other => panic!("not a call: {:?}", other),
            }
        },
        other => panic!("not an expression statement: {:?}", other),
    }
    let (program, _) = parse_str("1 + 2");
    match &program.statements[0] {
        Statement::Expression(s) => assert_eq!(s.expression.token_literal(), "+"),
        other => panic!("not an expression statement: {:?}", other),
    }
    let (program, _) = parse_str("let x = 5;");
    assert_eq!(program.token_literal(), "let");
    let (program, _) = parse_str("return fn(a) { a };");
    assert_eq!(program.token_literal(), "return");
    match &program.statements[0] {
        Statement::Return(r) => match &r.return_value {
            Expression::Function(f) => {
                assert_eq!(f.token_literal(), "fn");
                assert_eq!(f.parameters[0].token_literal(), "a");
                assert_eq!(f.body.token_literal(), "{");
            },
            other => panic!("not a function literal: {:?}", other),
        },
        other => panic!("not a return statement: {:?}", other),
    }
}

#[test]
fn semicolons_separate_statements() {
    let (program, errors) = parse_str("let x = 5 let y = 6");
    assert_eq!(errors.len(), 1);
    assert_eq!(errors[0].kind, ErrorKind::Expected(TokenType::Semicolon));
    assert_eq!(errors[0].token.token_type, TokenType::Let);
    assert_eq!(program.statements.len(), 2);

    let (program, errors) = parse_str("let x = 5; x");
    assert!(errors.is_empty());
    assert_eq!(program.statements.len(), 2);

    let (_, errors) = parse_str("if (a) { b }");
    assert!(errors.is_empty());
}

#[test]
fn missing_initializer_message() {
    let (_, errors) = parse_str("let x 5;");
    assert_eq!(
        errors[0].message(),
        "expected next token to be =, got INT instead; a let statement needs an initializer"
    );
}

#[test]
fn errors_carry_the_position_of_their_token() {
    let (_, errors) = parse_str("let = 5;");
    assert_eq!(errors[0].position, 4);
    let (_, errors) = parse_str("x;\n  @");
    assert_eq!(errors[0].kind, ErrorKind::IllegalCharacter);
    assert_eq!(errors[0].position, 5);
    let (_, errors) = parse_str("if (x) { y");
    assert_eq!(errors[0].position, 10);
}

#[test]
fn statement_runs_print_as_a_fixed_point() {
    let first = source_of("let x = 1 + 2 * 3; let a = f(1, -b) * 2; return add(a, !x);");
    assert_eq!(first, "let x = (1 + (2 * 3));let a = (f(1,(-b)) * 2);return add(a,(!x));");
    assert_eq!(source_of(&first), first);
}
