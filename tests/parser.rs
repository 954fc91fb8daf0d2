use lambda_syntax::ast::Ast;
use lambda_syntax::lexer::tokenise;
use lambda_syntax::parser::{parse_file, parse_line, ParserState};
use lambda_syntax::parser_error::{ParserError, ParserErrorVec};
use lambda_syntax::source::Source;
use lambda_syntax::span::Span;

fn var(name: &str) -> Box<Ast> {
    Box::new(Ast::Var(String::from(name)))
}

fn num(n: u64) -> Box<Ast> {
    Box::new(Ast::Num(n))
}

fn statements(text: &str) -> Vec<Ast> {
    let source = Source::from_string(String::from(text));
    let tokens = tokenise(&source).unwrap();
    match *parse_file(&tokens).unwrap() {
        Ast::Source(stmts) => stmts,
        other => panic!("not a program: {:?}", other),
    }
}

fn errors(text: &str) -> Vec<(String, usize, usize)> {
    let source = Source::from_string(String::from(text));
    let tokens = tokenise(&source).unwrap();
    let error = parse_file(&tokens).unwrap_err();
    error.errors.iter().map(|e| (e.message.clone(), e.span.start, e.span.end)).collect()
}

#[test]
fn parses_addition_of_numbers() {
    assert_eq!(
        statements("x = 5 + 3"),
        vec![Ast::Assign(String::from("x"), Box::new(Ast::Add(num(5), num(3))))]
    );
}

#[test]
fn both_binder_spellings_parse_alike() {
    let expected = vec![Ast::Assign(
        String::from("f"),
        Box::new(Ast::Abs(String::from("x"), var("x"))),
    )];
    assert_eq!(statements("f = \\x.x"), expected);
    assert_eq!(statements("f = λx.x"), expected);
    assert_eq!(statements("f = λx->x"), expected);
}

#[test]
fn unexpected_parenthesis_is_one_error() {
    assert_eq!(errors("bad = )"), vec![(String::from("expected expression, found ')'"), 6, 7)]);
}

#[test]
fn product_binds_tighter_than_sum() {
    assert_eq!(
        statements("y = 1 + 2 * 3"),
        vec![Ast::Assign(
            String::from("y"),
            Box::new(Ast::Add(num(1), Box::new(Ast::Mul(num(2), num(3))))),
        )]
    );
}

#[test]
fn application_binds_tighter_than_sum() {
    assert_eq!(
        statements("z = f a + b"),
        vec![Ast::Assign(
            String::from("z"),
            Box::new(Ast::Add(Box::new(Ast::App(var("f"), var("a"))), var("b"))),
        )]
    );
}

#[test]
fn precedence_ladder_from_comparison_to_product() {
    assert_eq!(
        statements("r = a == b || c && d - e / f"),
        vec![Ast::Assign(
            String::from("r"),
            Box::new(Ast::Eq(
                var("a"),
                Box::new(Ast::Or(
                    var("b"),
                    Box::new(Ast::And(
                        var("c"),
                        Box::new(Ast::Sub(var("d"), Box::new(Ast::Div(var("e"), var("f"))))),
                    )),
                )),
            )),
        )]
    );
}

#[test]
fn chains_are_left_associative() {
    assert_eq!(
        statements("s = a - b - c != d != e"),
        vec![Ast::Assign(
            String::from("s"),
            Box::new(Ast::Neq(
                Box::new(Ast::Neq(
                    Box::new(Ast::Sub(Box::new(Ast::Sub(var("a"), var("b"))), var("c"))),
                    var("d"),
                )),
                var("e"),
            )),
        )]
    );
    assert_eq!(
        statements("t = f a b"),
        vec![Ast::Assign(
            String::from("t"),
            Box::new(Ast::App(Box::new(Ast::App(var("f"), var("a"))), var("b"))),
        )]
    );
}

#[test]
fn abstraction_is_right_associative_and_loosest() {
    assert_eq!(
        statements("k = \\x.\\y.x + y"),
        vec![Ast::Assign(
            String::from("k"),
            Box::new(Ast::Abs(
                String::from("x"),
                Box::new(Ast::Abs(String::from("y"), Box::new(Ast::Add(var("x"), var("y"))))),
            )),
        )]
    );
}

#[test]
fn not_and_parentheses_are_unary() {
    assert_eq!(
        statements("n = !(a || b) c"),
        vec![Ast::Assign(
            String::from("n"),
            Box::new(Ast::App(Box::new(Ast::Not(Box::new(Ast::Or(var("a"), var("b"))))), var("c"))),
        )]
    );
}

#[test]
fn statements_come_in_source_order() {
    let stmts = statements("\n// header\na = 1\n\nb = 2 // two\nc = 3\n");
    assert_eq!(
        stmts,
        vec![
            Ast::Assign(String::from("a"), num(1)),
            Ast::Assign(String::from("b"), num(2)),
            Ast::Assign(String::from("c"), num(3)),
        ]
    );
}

#[test]
fn empty_file_is_an_empty_program() {
    assert_eq!(statements(""), vec![]);
    assert_eq!(statements("\n\n// only a comment\n"), vec![]);
}

#[test]
fn parentheses_may_span_lines() {
    assert_eq!(
        statements("x = (1 +\n 2)\n"),
        vec![Ast::Assign(String::from("x"), Box::new(Ast::Add(num(1), num(2))))]
    );
}

#[test]
fn bare_statements_end_at_the_line_break() {
    assert_eq!(
        errors("x = 1 +\n 2"),
        vec![
            (String::from("expected expression, found end of line"), 7, 8),
            (String::from("expected identifier, found number literal '2'"), 9, 10),
        ]
    );
}

#[test]
fn every_bad_statement_is_reported() {
    let text = "a = )\nb = 2\nc = (";
    let source = Source::from_string(String::from(text));
    let tokens = tokenise(&source).unwrap();
    let error = parse_file(&tokens).unwrap_err();
    assert_eq!(error.errors.len(), 2);
    assert_eq!(source.get_line(error.errors[0].span.start), 0);
    assert_eq!(source.get_line(error.errors[1].span.start), 2);
    assert_eq!(error.errors[0].message, "expected expression, found ')'");
    assert_eq!(error.errors[1].message, "expected expression, found end of input");
    assert_eq!(error.errors[1].span, Span { start: text.len(), end: text.len() });
}

#[test]
fn missing_assignment_sign_is_reported() {
    assert_eq!(errors("x 5"), vec![(String::from("expected token '=', found number literal '5'"), 2, 3)]);
}

#[test]
fn unclosed_parenthesis_is_reported() {
    assert_eq!(errors("x = (1 2"), vec![(String::from("expected token ')', found end of input"), 8, 8)]);
}

#[test]
fn line_parses_a_bare_expression() {
    let source = Source::from_string(String::from("1 + 2"));
    let tokens = tokenise(&source).unwrap();
    assert_eq!(*parse_line(&tokens).unwrap(), Ast::Add(num(1), num(2)));
    let source = Source::from_string(String::from("v = !w"));
    let tokens = tokenise(&source).unwrap();
    assert_eq!(*parse_line(&tokens).unwrap(), Ast::Assign(String::from("v"), Box::new(Ast::Not(var("w")))));
}

#[test]
fn line_reports_the_later_of_two_failures() {
    let source = Source::from_string(String::from("(1 = 2"));
    let tokens = tokenise(&source).unwrap();
    let error = ParserState::new(&tokens).parse_line().unwrap_err();
    assert_eq!(error.errors.len(), 1);
    assert_eq!(error.errors[0].message, "expected token ')', found '='");
    assert_eq!(error.errors[0].span, Span { start: 3, end: 4 });
}

#[test]
fn line_keeps_the_assignment_error_on_a_tie() {
    let source = Source::from_string(String::from("= 1"));
    let tokens = tokenise(&source).unwrap();
    let error = parse_line(&tokens).unwrap_err();
    assert_eq!(error.errors[0].message, "expected identifier, found '='");
    assert_eq!(error.errors[0].span, Span { start: 0, end: 1 });
}

#[test]
fn longer_error_set_is_chosen() {
    let source = Source::from_string(String::from("a b c"));
    let tokens = tokenise(&source).unwrap();
    let early = ParserErrorVec::single(String::from("early"), &tokens, 0, 1);
    let late = ParserErrorVec::single(String::from("late"), &tokens, 2, 3);
    assert_eq!(early.get_longer_of(late).errors[0].message, "late");
    let early = ParserErrorVec::single(String::from("early"), &tokens, 0, 1);
    let late = ParserErrorVec::single(String::from("late"), &tokens, 2, 3);
    assert_eq!(late.get_longer_of(early).errors[0].message, "late");
    let mut two = ParserErrorVec::single(String::from("one"), &tokens, 0, 1);
    two.combine(ParserErrorVec::single(String::from("two"), &tokens, 4, 5));
    let one = ParserErrorVec::single(String::from("three"), &tokens, 2, 3);
    assert_eq!(one.get_longer_of(two).errors.len(), 2);
    let empty = ParserErrorVec::new(&tokens);
    assert_eq!(empty.errors.len(), 0);
}

#[test]
fn end_error_points_past_the_text() {
    let source = Source::from_string(String::from("abc"));
    let tokens = tokenise(&source).unwrap();
    let error = ParserError::new_end(String::from("m"), &tokens);
    assert_eq!(error.span, Span { start: 3, end: 3 });
    let single = ParserErrorVec::single_end(String::from("m"), &tokens);
    assert_eq!(single.errors[0].span, Span { start: 3, end: 3 });
}

#[test]
fn last_statement_needs_no_line_break() {
    assert_eq!(
        statements("// intro\n\na = 1\n\n\n// middle\nb = 2"),
        vec![Ast::Assign(String::from("a"), num(1)), Ast::Assign(String::from("b"), num(2))]
    );
}

#[test]
fn bad_statements_between_blank_and_comment_lines_are_all_reported() {
    let text = "a = )\n\n// note\nb = 2\n\nc = *\nd = 4";
    let source = Source::from_string(String::from(text));
    let tokens = tokenise(&source).unwrap();
    let error = parse_file(&tokens).unwrap_err();
    assert_eq!(error.errors.len(), 2);
    assert_eq!(source.get_line(error.errors[0].span.start), 0);
    assert_eq!(source.get_line(error.errors[1].span.start), 5);
    assert_eq!(error.errors[1].message, "expected expression, found '*'");
}
