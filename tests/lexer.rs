use lambda_syntax::lexer::{tokenise, TokenStream};
use lambda_syntax::source::Source;
use lambda_syntax::span::Span;
use lambda_syntax::token::{Token, TokenType};

fn kinds(tokens: &[Token]) -> Vec<&TokenType> {
    tokens.iter().map(|t| &t.token_type).collect()
}

fn spans(tokens: &[Token]) -> Vec<(usize, usize)> {
    tokens.iter().map(|t| (t.span.start, t.span.end)).collect()
}

#[test]
fn tokenises_an_assignment() {
    let source = Source::from_string(String::from("x = 5 + 3"));
    let tokens = tokenise(&source).unwrap();
    assert_eq!(
        kinds(&tokens.tokens),
        vec![
            &TokenType::Ident(String::from("x")),
            &TokenType::Assign,
            &TokenType::Num(5),
            &TokenType::Add,
            &TokenType::Num(3),
        ]
    );
    assert_eq!(spans(&tokens.tokens), vec![(0, 1), (2, 3), (4, 5), (6, 7), (8, 9)]);
}

#[test]
fn both_binders_are_lambda_tokens() {
    let source = Source::from_string(String::from("f = λx.x"));
    let tokens = tokenise(&source).unwrap();
    assert_eq!(tokens.tokens[2].token_type, TokenType::Lambda);
    assert_eq!((tokens.tokens[2].span.start, tokens.tokens[2].span.end), (4, 6));
    assert_eq!(tokens.tokens[4].token_type, TokenType::Dot);
    let source = Source::from_string(String::from("f = \\x.x"));
    let tokens = tokenise(&source).unwrap();
    assert_eq!(tokens.tokens[2].token_type, TokenType::Lambda);
    assert_eq!((tokens.tokens[2].span.start, tokens.tokens[2].span.end), (4, 5));
}

#[test]
fn longest_symbols_win() {
    let source = Source::from_string(String::from("a->b == c != !d && e || f = g - h"));
    let tokens = tokenise(&source).unwrap();
    assert_eq!(
        kinds(&tokens.tokens),
        vec![
            &TokenType::Ident(String::from("a")),
            &TokenType::Dot,
            &TokenType::Ident(String::from("b")),
            &TokenType::Eq,
            &TokenType::Ident(String::from("c")),
            &TokenType::Neq,
            &TokenType::Not,
            &TokenType::Ident(String::from("d")),
            &TokenType::And,
            &TokenType::Ident(String::from("e")),
            &TokenType::Or,
            &TokenType::Ident(String::from("f")),
            &TokenType::Assign,
            &TokenType::Ident(String::from("g")),
            &TokenType::Sub,
            &TokenType::Ident(String::from("h")),
        ]
    );
    assert_eq!((tokens.tokens[1].span.start, tokens.tokens[1].span.end), (1, 3));
}

#[test]
fn comments_run_to_the_end_of_the_line() {
    let source = Source::from_string(String::from("x = 1 // note\ny"));
    let tokens = tokenise(&source).unwrap();
    assert_eq!(tokens.tokens[3].token_type, TokenType::Comment(String::from("// note")));
    assert_eq!((tokens.tokens[3].span.start, tokens.tokens[3].span.end), (6, 13));
    assert_eq!(tokens.tokens[4].token_type, TokenType::Eol);
    assert_eq!(tokens.tokens[5].token_type, TokenType::Ident(String::from("y")));
}

#[test]
fn line_break_forms_are_one_token_each() {
    let source = Source::from_string(String::from("a\r\nb\rc\nd"));
    let tokens = tokenise(&source).unwrap();
    assert_eq!(
        kinds(&tokens.tokens),
        vec![
            &TokenType::Ident(String::from("a")),
            &TokenType::Eol,
            &TokenType::Ident(String::from("b")),
            &TokenType::Eol,
            &TokenType::Ident(String::from("c")),
            &TokenType::Eol,
            &TokenType::Ident(String::from("d")),
        ]
    );
    assert_eq!(spans(&tokens.tokens)[1], (1, 3));
}

#[test]
fn identifiers_take_letters_digits_and_underscores() {
    let source = Source::from_string(String::from("foo_bar9 x"));
    let tokens = tokenise(&source).unwrap();
    assert_eq!(tokens.tokens[0].token_type, TokenType::Ident(String::from("foo_bar9")));
    assert_eq!(tokens.tokens[1].token_type, TokenType::Ident(String::from("x")));
}

#[test]
fn number_overflow_is_an_invalid_literal() {
    let source = Source::from_string(String::from("n = 99999999999999999999"));
    let error = tokenise(&source).unwrap_err();
    assert_eq!(error.errors.len(), 1);
    assert_eq!(
        error.errors[0].message,
        "invalid number literal `99999999999999999999` (number too large to fit in target type)"
    );
    assert_eq!(error.errors[0].span, Span { start: 4, end: 24 });
    assert_eq!(error.tokens.tokens.len(), 2);
}

#[test]
fn largest_number_is_accepted() {
    let source = Source::from_string(String::from("18446744073709551615"));
    let tokens = tokenise(&source).unwrap();
    assert_eq!(tokens.tokens[0].token_type, TokenType::Num(u64::MAX));
}

#[test]
fn letters_after_digits_make_an_invalid_literal() {
    let source = Source::from_string(String::from("5abc + 1"));
    let error = tokenise(&source).unwrap_err();
    assert_eq!(error.errors[0].message, "invalid number literal `5abc` (invalid digit found in string)");
    assert_eq!(error.errors[0].span, Span { start: 0, end: 4 });
    assert_eq!(kinds(&error.tokens.tokens), vec![&TokenType::Add, &TokenType::Num(1)]);
}

#[test]
fn invalid_tokens_are_reported_and_skipped() {
    let source = Source::from_string(String::from("x = 1 & 2 #$ y"));
    let error = tokenise(&source).unwrap_err();
    assert_eq!(error.errors.len(), 2);
    assert_eq!(error.errors[0].message, "invalid token `&`");
    assert_eq!(error.errors[0].span, Span { start: 6, end: 7 });
    assert_eq!(error.errors[1].message, "invalid token `#$`");
    assert_eq!(error.errors[1].span, Span { start: 10, end: 12 });
    assert_eq!(error.tokens.tokens.len(), 5);
}

#[test]
fn tokenising_twice_gives_identical_tokens() {
    let source = Source::from_string(String::from("f = λx.x + 1 // id\ng = f 2"));
    let first = tokenise(&source).unwrap();
    let second = TokenStream::new(&source).tokenise().unwrap();
    assert_eq!(first.tokens, second.tokens);
}

#[test]
fn token_spans_read_back_their_text() {
    let source = Source::from_string(String::from("foo = bär_1 + 42 // c"));
    let tokens = tokenise(&source).unwrap();
    for token in &tokens.tokens {
        let text = token.span.get_text(&source);
        match &token.token_type {
            TokenType::Ident(name) => assert_eq!(&text, name),
            TokenType::Comment(comment) => assert_eq!(&text, comment),
            TokenType::Num(n) => assert_eq!(text, n.to_string()),
            _ => assert!(!text.is_empty()),
        }
        assert_eq!(text, source.text[token.span.start..token.span.end]);
    }
}

#[test]
fn tokens_describe_themselves() {
    assert_eq!(TokenType::Num(42).describe(), "number literal '42'");
    assert_eq!(TokenType::Ident(String::from("x")).describe(), "identifier 'x'");
    assert_eq!(TokenType::RPar.describe(), "')'");
    assert_eq!(TokenType::Eol.describe(), "end of line");
}

#[test]
fn token_iterator_walks_in_order() {
    let source = Source::from_string(String::from("a b"));
    let tokens = tokenise(&source).unwrap();
    let names: Vec<&TokenType> = tokens.iter().map(|t| &t.token_type).collect();
    assert_eq!(names, vec![&TokenType::Ident(String::from("a")), &TokenType::Ident(String::from("b"))]);
}

#[test]
fn non_ascii_digits_are_invalid_digits() {
    let source = Source::from_string(String::from("x = ٣"));
    let error = tokenise(&source).unwrap_err();
    assert_eq!(error.errors[0].message, "invalid number literal `٣` (invalid digit found in string)");
    assert_eq!(error.errors[0].span, Span { start: 4, end: 6 });
}

#[test]
fn unicode_whitespace_is_skipped() {
    let source = Source::from_string(String::from("x\t=\u{A0}1"));
    let tokens = tokenise(&source).unwrap();
    assert_eq!(
        kinds(&tokens.tokens),
        vec![&TokenType::Ident(String::from("x")), &TokenType::Assign, &TokenType::Num(1)]
    );
    assert_eq!(spans(&tokens.tokens), vec![(0, 1), (2, 3), (5, 6)]);
}

#[test]
fn lone_bar_is_an_invalid_token() {
    let source = Source::from_string(String::from("a | b"));
    let error = tokenise(&source).unwrap_err();
    assert_eq!(error.errors.len(), 1);
    assert_eq!(error.errors[0].message, "invalid token `|`");
    assert_eq!(error.errors[0].span, Span { start: 2, end: 3 });
}

#[test]
fn token_spans_are_ordered_and_disjoint() {
    let source = Source::from_string(String::from("f = λx.(x + 1) // c\r\ng = f 2 != 3"));
    let tokens = tokenise(&source).unwrap();
    for pair in tokens.tokens.windows(2) {
        assert!(pair[0].span.start < pair[0].span.end);
        assert!(pair[0].span.end <= pair[1].span.start);
    }
}

#[test]
fn whitespace_agrees_with_std() {
    for code in 0u32..0x11000 {
        let c = match char::from_u32(code) {
            Some(c) => c,
            None => continue,
        };
        if !c.is_whitespace() || c == '\n' || c == '\r' {
            continue;
        }
        let source = Source::from_string(format!("a{}b", c));
        let tokens = tokenise(&source).unwrap();
        assert_eq!(tokens.tokens.len(), 2, "character U+{:04X}", code);
    }
    let source = Source::from_string(String::from("a\u{200B}b"));
    let error = tokenise(&source).unwrap_err();
    assert_eq!(error.errors[0].message, "invalid token `\u{200B}`");
}
