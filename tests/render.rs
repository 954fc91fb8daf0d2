use lambda_syntax::error::Errors;
use lambda_syntax::lexer::tokenise;
use lambda_syntax::parser::parse_file;
use lambda_syntax::source::Source;
use lambda_syntax::span::Span;

#[test]
fn lexer_error_renders_header_location_line_and_carets() {
    let source = Source::from_string(String::from("x = &"));
    let error = tokenise(&source).unwrap_err();
    let expected = [
        "\x1B[1;31mLexer error:\x1B[39m invalid token `&`\x1B[m\n",
        "   \x1B[1;34m-->\x1B[m <input>:1:5:\n",
        "    \x1B[1;34m|\x1B[m\n",
        "\x1B[1;34m  1 |\x1B[m  \x1B[;38;5;153mx\x1B[m \x1B[;38;5;133m=\x1B[m \x1B[;1;31m&\x1B[m\n",
        "\x1B[1;34m    |\x1B[m      \x1B[1;31m^\x1B[m\n",
        "\n",
    ]
    .concat();
    assert_eq!(error.errors[0].print(&error.tokens), expected);
    assert_eq!(error.render(), expected);
}

#[test]
fn end_of_input_gets_one_caret_after_the_text() {
    let source = Source::from_named_string(String::from("f.lc"), String::from("x = "));
    let tokens = tokenise(&source).unwrap();
    let error = parse_file(&tokens).unwrap_err();
    let expected = [
        "\x1B[1;31mParser error:\x1B[39m expected expression, found end of input\x1B[m\n",
        "   \x1B[1;34m-->\x1B[m f.lc:1:5:\n",
        "    \x1B[1;34m|\x1B[m\n",
        "\x1B[1;34m  1 |\x1B[m  \x1B[;38;5;153mx\x1B[m \x1B[;38;5;133m=\x1B[m\n",
        "\x1B[1;34m    |\x1B[m     \x1B[1;31m^\x1B[m\n",
        "\n",
    ]
    .concat();
    assert_eq!(error.render(), expected);
    assert_eq!(error.errors[0].print(&tokens), expected);
}

#[test]
fn span_across_lines_renders_each_line() {
    let source = Source::from_string(String::from("ab\ncd"));
    let tokens = tokenise(&source).unwrap();
    let span = Span::new(&source.text, 1, 4);
    let expected = [
        "\x1B[1;34m  1 |\x1B[m  \x1B[;38;5;153ma\x1B[;1;31mb\x1B[m\n",
        "\x1B[1;34m    |\x1B[m   \x1B[1;31m^\x1B[m\n",
        "\x1B[1;34m  2 |\x1B[m  \x1B[;1;31mc\x1B[;38;5;153md\x1B[m\n",
        "\x1B[1;34m    |\x1B[m  \x1B[1;31m^\x1B[m\n",
    ]
    .concat();
    assert_eq!(span.print(&tokens), expected);
}

#[test]
fn location_counts_lines_and_characters_from_one() {
    let source = Source::from_string(String::from("a = 1\nλb = 2"));
    let span = Span::new(&source.text, 8, 9);
    assert_eq!(span.get_location_str(&source), "<input>:2:2:");
    assert!(span.is_valid_in(&source));
    assert!(!Span::new(&source.text, 7, 9).is_valid_in(&source));
    assert_eq!(span.get_text(&source), "b");
}

#[test]
fn line_numbers_are_right_aligned() {
    let mut text = String::new();
    for _ in 0..11 {
        text.push('\n');
    }
    text.push('&');
    let source = Source::from_string(text);
    let error = tokenise(&source).unwrap_err();
    let rendered = error.render();
    assert!(rendered.contains("\x1B[1;34m 12 |\x1B[m  "));
    assert!(rendered.contains("<input>:12:1:"));
}

#[test]
fn collector_reports_with_the_plain_header() {
    let source = Source::from_string(String::from("a 12x"));
    let tokens = tokenise(&source).unwrap_err().tokens;
    let mut errors = Errors::new(tokens);
    errors.invalid_token(Span::new(&source.text, 0, 1));
    errors.invalid_number(Span::new(&source.text, 2, 5), "invalid digit found in string");
    assert_eq!(errors.errors.len(), 2);
    assert_eq!(errors.errors[0].message, "invalid token `a`");
    assert_eq!(errors.errors[1].message, "invalid number literal `12x` (invalid digit found in string)");
    let rendered = errors.render();
    assert!(rendered.starts_with("\x1B[1;31mError:\x1B[39m invalid token `a`\x1B[m\n"));
    assert_eq!(rendered, [errors.errors[0].print(&errors.tokens), errors.errors[1].print(&errors.tokens)].concat());
}

#[test]
fn carets_align_on_characters() {
    let source = Source::from_string(String::from("é = )"));
    let tokens = tokenise(&source).unwrap();
    let error = parse_file(&tokens).unwrap_err();
    assert_eq!(error.errors[0].span, Span { start: 5, end: 6 });
    assert_eq!(error.errors[0].span.get_location_str(&source), "<input>:1:5:");
    let rendered = error.render();
    assert!(rendered.contains("\x1B[1;34m    |\x1B[m      \x1B[1;31m^\x1B[m\n"));
}
