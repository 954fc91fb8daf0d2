use lambda_syntax::source::Source;

#[test]
fn line_table_starts_after_each_newline() {
    let source = Source::from_string(String::from("a\nbc\n"));
    assert_eq!(source.lines, vec![0, 2, 5]);
    assert_eq!(source.get_line(0), 0);
    assert_eq!(source.get_line(1), 0);
    assert_eq!(source.get_line(2), 1);
    assert_eq!(source.get_line(4), 1);
    assert_eq!(source.get_line(5), 2);
    assert_eq!(source.get_line_offset(0), (0, 2));
    assert_eq!(source.get_line_offset(1), (2, 5));
    assert_eq!(source.get_line_offset(2), (5, 5));
}

#[test]
fn empty_text_has_one_line() {
    let source = Source::from_string(String::new());
    assert_eq!(source.lines, vec![0]);
    assert_eq!(source.get_line(0), 0);
    assert_eq!(source.get_line_offset(0), (0, 0));
    assert_eq!(source.get_line_column(0), (0, 0));
}

#[test]
fn columns_count_characters_not_bytes() {
    let source = Source::from_string(String::from("λx = 1\nαβ = 2"));
    assert_eq!(source.lines, vec![0, 8]);
    assert_eq!(source.get_line_column(2), (0, 1));
    assert_eq!(source.get_line_column(13), (1, 3));
    assert_eq!(source.get_line_column(8), (1, 0));
}

#[test]
fn every_offset_lies_in_its_line_range() {
    let text = "x = 1\n\nλy.y\r\nlast";
    let source = Source::from_string(String::from(text));
    let len = text.len();
    for offset in 0..=len {
        let line = source.get_line(offset);
        let (start, end) = source.get_line_offset(line);
        assert!(start <= offset);
        assert!(offset < end || offset == len);
    }
}

#[test]
fn char_boundaries_are_recognised() {
    let source = Source::from_string(String::from("aλb"));
    assert!(source.is_char_boundary(0));
    assert!(source.is_char_boundary(1));
    assert!(!source.is_char_boundary(2));
    assert!(source.is_char_boundary(3));
    assert!(source.is_char_boundary(4));
    assert!(!source.is_char_boundary(5));
}

#[test]
fn named_source_keeps_its_label() {
    let source = Source::from_named_string(String::from("main.lc"), String::from("x = 1"));
    assert_eq!(source.file_name, Some(String::from("main.lc")));
}
