use std::collections::VecDeque;

use minipl::parser::parse;
use minipl::parser::BinaryOperator;
use minipl::parser::Expression;
use minipl::parser::Operand;
use minipl::parser::ParseErrorKind;
use minipl::parser::Parser;
use minipl::parser::Statement;
use minipl::parser::Type;
use minipl::parser::UnaryOperator;
use minipl::scanner::Digits;
use minipl::scanner::Scanner;
use minipl::scanner::Token;

fn scan(source: &str) -> Vec<Token> {
    let mut scanner = Scanner::new();
    scanner.scan(source).unwrap()
}

fn run(source: &str) -> Vec<Statement> {
    let mut tokens = scan(source);
    let mut statements: Vec<Statement> = Vec::new();
    parse(&mut tokens, &mut statements).unwrap();
    statements
}

fn run_err(source: &str) -> ParseErrorKind {
    let mut tokens = scan(source);
    let mut statements: Vec<Statement> = Vec::new();
    parse(&mut tokens, &mut statements).unwrap_err().kind
}

fn num(digits: &[u8]) -> Operand {
    let chars: Vec<char> = digits.iter().map(|d| (b'0' + d) as char).collect();
    Operand::Int(Digits::from_chars(&chars))
}

fn var(name: &str) -> Operand {
    Operand::Variable(name.to_string())
}

#[test]
fn empty_input_produces_no_statements() {
    assert_eq!(run(""), vec![]);
}

#[test]
fn single_semicolon_produces_no_statements() {
    assert_eq!(run(";"), vec![]);
}

#[test]
fn declaration_with_initializer() {
    assert_eq!(
        run("var x : int := 1 + 2;"),
        vec![Statement::Declaration(
            "x".to_string(),
            Type::Int,
            Some(Expression::Binary(num(&[1]), BinaryOperator::Plus, num(&[2]))),
        )]
    );
}

#[test]
fn declaration_without_initializer() {
    assert_eq!(
        run("var s : string;"),
        vec![Statement::Declaration("s".to_string(), Type::Str, None)]
    );
    assert_eq!(
        run("var b : bool;"),
        vec![Statement::Declaration("b".to_string(), Type::Bool, None)]
    );
}

#[test]
fn assignment_of_a_singleton() {
    assert_eq!(
        run("x := 5;"),
        vec![Statement::Assignment(
            "x".to_string(),
            Expression::Singleton(num(&[5])),
        )]
    );
}

#[test]
fn for_loop_with_print_body() {
    assert_eq!(
        run("for i in 1 .. 3 do print i; end for;"),
        vec![Statement::For(
            "i".to_string(),
            Expression::Singleton(num(&[1])),
            Expression::Singleton(num(&[3])),
            vec![Statement::Print(Expression::Singleton(var("i")))],
        )]
    );
}

#[test]
fn nested_for_loops_build_nested_bodies() {
    assert_eq!(
        run("for i in 1 .. 2 do for j in 3 .. 4 do read z; end for; end for;"),
        vec![Statement::For(
            "i".to_string(),
            Expression::Singleton(num(&[1])),
            Expression::Singleton(num(&[2])),
            vec![Statement::For(
                "j".to_string(),
                Expression::Singleton(num(&[3])),
                Expression::Singleton(num(&[4])),
                vec![Statement::Read("z".to_string())],
            )],
        )]
    );
}

#[test]
fn statements_around_a_loop_stay_in_order() {
    assert_eq!(
        run("read a; for i in 1 .. 2 do read b; read c; end for; read d;"),
        vec![
            Statement::Read("a".to_string()),
            Statement::For(
                "i".to_string(),
                Expression::Singleton(num(&[1])),
                Expression::Singleton(num(&[2])),
                vec![
                    Statement::Read("b".to_string()),
                    Statement::Read("c".to_string()),
                ],
            ),
            Statement::Read("d".to_string()),
        ]
    );
}

#[test]
fn read_statement() {
    assert_eq!(run("read y;"), vec![Statement::Read("y".to_string())]);
}

#[test]
fn assert_statement_strips_its_brackets() {
    assert_eq!(
        run("assert (!x);"),
        vec![Statement::Assert(Expression::Unary(
            UnaryOperator::Not,
            var("x"),
        ))]
    );
}

#[test]
fn comment_before_declaration_is_fully_consumed() {
    assert_eq!(
        run("/* outer /* inner */ still outer */ var a : int;"),
        vec![Statement::Declaration("a".to_string(), Type::Int, None)]
    );
}

#[test]
fn parenthesized_operands_nest() {
    assert_eq!(
        run("x := (1 + 2) * 3;"),
        vec![Statement::Assignment(
            "x".to_string(),
            Expression::Binary(
                Operand::Expr(Box::new(Expression::Binary(
                    num(&[1]),
                    BinaryOperator::Plus,
                    num(&[2]),
                ))),
                BinaryOperator::Multiply,
                num(&[3]),
            ),
        )]
    );
}

#[test]
fn expression_parser_handles_the_three_shapes() {
    let singleton = scan("x");
    assert_eq!(
        Parser::parse_expression(&singleton).unwrap(),
        Expression::Singleton(var("x"))
    );
    let unary = scan("!x");
    assert_eq!(
        Parser::parse_expression(&unary).unwrap(),
        Expression::Unary(UnaryOperator::Not, var("x"))
    );
    let binary = scan("x < y");
    assert_eq!(
        Parser::parse_expression(&binary).unwrap(),
        Expression::Binary(var("x"), BinaryOperator::LessThan, var("y"))
    );
}

#[test]
fn expression_with_no_precedence_is_rejected() {
    let tokens = scan("1 + 2 + 3");
    assert_eq!(
        Parser::parse_expression(&tokens).unwrap_err().kind,
        ParseErrorKind::MalformedExpression
    );
}

#[test]
fn statement_cannot_start_with_a_number() {
    assert_eq!(run_err("1;"), ParseErrorKind::BadStatementStart);
}

#[test]
fn declaration_needs_an_identifier() {
    assert_eq!(run_err("var ;"), ParseErrorKind::UnexpectedToken);
}

#[test]
fn for_header_allows_only_one_range() {
    assert_eq!(
        run_err("for i in 1 .. 2 .. 3 do end for;"),
        ParseErrorKind::DuplicateRange
    );
}

#[test]
fn for_header_needs_a_range() {
    assert_eq!(run_err("for i in 1 do end for;"), ParseErrorKind::BadForRange);
}

#[test]
fn end_must_be_followed_by_for() {
    assert_eq!(run_err("end ;"), ParseErrorKind::EndWithoutFor);
}

#[test]
fn end_for_needs_an_open_loop() {
    assert_eq!(run_err("end for;"), ParseErrorKind::UnmatchedEndFor);
}

#[test]
fn input_may_not_end_inside_a_statement() {
    assert_eq!(run_err("var x : int"), ParseErrorKind::UnexpectedEndOfInput);
}

#[test]
fn input_may_not_end_inside_a_loop() {
    assert_eq!(
        run_err("for i in 1 .. 2 do read x;"),
        ParseErrorKind::UnexpectedEndOfInput
    );
}

#[test]
fn print_needs_an_expression() {
    assert_eq!(run_err("print ;"), ParseErrorKind::MalformedExpression);
}

#[test]
fn vector_and_queue_transport_agree() {
    let source = "var x : int := 1 + 2; for i in 1 .. 3 do print i; end for;";
    let mut vec_tokens = scan(source);
    let mut vec_out: Vec<Statement> = Vec::new();
    parse(&mut vec_tokens, &mut vec_out).unwrap();

    let mut queue_tokens: VecDeque<Token> = scan(source).into_iter().collect();
    let mut queue_out: VecDeque<Statement> = VecDeque::new();
    parse(&mut queue_tokens, &mut queue_out).unwrap();

    let queue_as_vec: Vec<Statement> = queue_out.into_iter().collect();
    assert_eq!(vec_out, queue_as_vec);
}

#[test]
fn parsing_twice_yields_identical_statement_sequences() {
    let source = "read a; x := 1; print x;";
    let first = run(source);
    let second = run(source);
    assert_eq!(first, second);
}

#[test]
fn feeding_tokens_one_by_one_matches_parse() {
    let source = "x := 1; read y;";
    let whole = run(source);

    let tokens = scan(source);
    let mut parser = Parser::new();
    let mut out: Vec<Statement> = Vec::new();
    for t in tokens {
        parser.feed(t, &mut out).unwrap();
    }
    parser.finish().unwrap();
    assert_eq!(whole, out);
}
