use diff_engine::lines::split_lines;

#[test]
fn split_empty_text_has_no_lines() {
    assert_eq!(split_lines(""), Vec::<String>::new());
}

#[test]
fn split_trailing_newline_closes_last_line() {
    assert_eq!(split_lines("a\nb\nc\n"), vec!["a", "b", "c"]);
}

#[test]
fn split_unterminated_tail_is_a_line() {
    assert_eq!(split_lines("a\nb"), vec!["a", "b"]);
}

#[test]
fn split_single_line_without_newline() {
    assert_eq!(split_lines("abc"), vec!["abc"]);
}

#[test]
fn split_lone_newline_is_one_empty_line() {
    assert_eq!(split_lines("\n"), vec![""]);
}

#[test]
fn split_keeps_empty_interior_lines() {
    assert_eq!(split_lines("a\n\nb\n"), vec!["a", "", "b"]);
}
