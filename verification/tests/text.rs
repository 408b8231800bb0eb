use hermes_tui::text::{
    checked_line_display_width, completion_request_for_input, display_width, line_display_width,
    looks_like_slash_command, truncate_safe, truncate_to_cells, wrap_display_cells, Line,
};

#[test]
fn test_display_width_cjk() {
    assert_eq!(display_width("你好世界"), 8);
    assert_eq!(display_width("hello"), 5);
    assert_eq!(display_width(""), 0);
}

#[test]
fn test_line_display_width_sums_spans() {
    let line = Line { spans: vec!["你".to_string(), "好".to_string()] };
    assert_eq!(line_display_width(&line), 4);
}

#[test]
fn test_display_width_empty() {
    assert_eq!(display_width(""), 0);
}

#[test]
fn test_line_display_width_handles_empty_line() {
    let empty = Line { spans: Vec::new() };
    assert_eq!(line_display_width(&empty), 0);
}

#[test]
fn test_wrap_display_cells_basic() {
    let input = "Hello world this is a test";
    let lines = wrap_display_cells(input, 10);
    assert!(!lines.is_empty());
    for line in &lines {
        assert!(display_width(line) <= 10);
    }
}

#[test]
fn test_wrap_display_cells_respects_hard_newline() {
    let input = "Hello\nworld";
    let lines = wrap_display_cells(input, 100);
    assert_eq!(lines.len(), 2);
    assert_eq!(lines[0], "Hello");
    assert_eq!(lines[1], "world");
}

#[test]
fn test_truncate_to_cells_short() {
    assert_eq!(truncate_to_cells("hi", 10, "…"), "hi");
}

#[test]
fn test_truncate_to_cells_truncates() {
    let result = truncate_to_cells("hello world", 8, "…");
    assert!(display_width(&result) <= 8);
    assert!(result.ends_with('…'));
}

#[test]
fn test_truncate_to_cells_zero_max() {
    assert_eq!(truncate_to_cells("hello", 0, "…"), "");
}

#[test]
fn test_truncate_safe_ansi() {
    let input = "\x1b[31mHello\x1b[0m";
    // 5 visible chars; trailing ANSI reset is not reached
    let result = truncate_safe(input, 5);
    assert_eq!(result, "\x1b[31mHello");
}

#[test]
fn test_truncate_safe_limits_chars() {
    let result = truncate_safe("Hello World", 5);
    assert_eq!(result, "Hello");
}

#[test]
fn test_looks_like_slash_command() {
    assert!(looks_like_slash_command("/help"));
    assert!(!looks_like_slash_command("/help\nmore"));
    assert!(!looks_like_slash_command("help"));
}

#[test]
fn test_completion_request_slash() {
    let req = completion_request_for_input("/he").unwrap();
    assert_eq!(req.method, "complete.slash");
    assert_eq!(req.query, "/he");
    assert_eq!(req.replace_from, 1);
}

#[test]
fn test_completion_request_skips_model() {
    assert!(completion_request_for_input("/model").is_none());
    assert!(completion_request_for_input("/model ").is_none());
}

#[test]
fn test_completion_request_path() {
    let req = completion_request_for_input("read ./src").unwrap();
    assert_eq!(req.method, "complete.path");
    assert_eq!(req.query, "./src");
    assert_eq!(req.replace_from, 5);
}

#[test]
fn test_completion_request_no_trigger() {
    assert!(completion_request_for_input("hello").is_none());
    assert!(completion_request_for_input("").is_none());
}

#[test]
fn test_wrap_display_cells_long_word_hard_break() {
    let input = "superlongword";
    let lines = wrap_display_cells(input, 5);
    assert!(!lines.is_empty());
    for line in &lines {
        assert!(display_width(line) <= 5, "{line:?} width {} > 5", display_width(line));
    }
}

#[test]
fn test_wrap_display_cells_empty_input() {
    let lines = wrap_display_cells("", 10);
    assert!(!lines.is_empty());
    assert_eq!(lines[0], "");
}

#[test]
fn test_wrap_display_cells_zero_max() {
    let lines = wrap_display_cells("test", 0);
    assert_eq!(lines, vec!["test"]);
}

// ----- further cases -----

#[test]
fn wrap_breaks_at_last_space_and_keeps_words_apart() {
    assert_eq!(wrap_display_cells("Hello world this is a test", 10), vec!["Hello", "world this", "is a test"]);
}

#[test]
fn wrap_a_space_that_does_not_fit_ends_the_line() {
    assert_eq!(wrap_display_cells("abc def", 3), vec!["abc", "def"]);
    assert_eq!(wrap_display_cells("ab cd ef", 5), vec!["ab cd", "ef"]);
    assert_eq!(wrap_display_cells("ab cd", 4), vec!["ab", "cd"]);
}

#[test]
fn wrap_never_exceeds_the_width_after_a_soft_break() {
    // U+17D8 takes three cells.
    let lines = wrap_display_cells("a b\u{17D8}", 3);
    assert_eq!(lines, vec!["a", "b", "\u{17D8}"]);
}

#[test]
fn wrap_keeps_a_joined_emoji_together() {
    // Man, zero width joiner, woman: one grapheme.
    let family = "\u{1F468}\u{200D}\u{1F469}";
    let lines = wrap_display_cells(family, 2);
    assert_eq!(lines, vec![family]);
    let lines = wrap_display_cells("ab\u{1F468}\u{200D}\u{1F469}", 2);
    assert_eq!(lines, vec!["ab", family]);
}

#[test]
fn wrap_counts_letters_after_a_joiner() {
    // A joiner between letters joins no grapheme: the letters after it
    // take their cells and may start a new line.
    assert_eq!(wrap_display_cells("aaa\u{200D}bbb", 3), vec!["aaa\u{200D}", "bbb"]);
}

#[test]
fn wrap_keeps_leading_space_of_an_unbroken_line() {
    assert_eq!(wrap_display_cells("  x", 1), vec![" ", "x"]);
}

#[test]
fn wrap_hard_breaks_a_long_word() {
    assert_eq!(wrap_display_cells("superlongword", 5), vec!["super", "longw", "ord"]);
}

#[test]
fn wrap_counts_wide_characters_as_two_cells() {
    assert_eq!(wrap_display_cells("你好世界", 4), vec!["你好", "世界"]);
}

#[test]
fn wrap_keeps_an_empty_line_between_newlines() {
    assert_eq!(wrap_display_cells("a\n\nb", 10), vec!["a", "", "b"]);
}

#[test]
fn wrap_drops_the_trailing_empty_line() {
    assert_eq!(wrap_display_cells("a\n", 10), vec!["a"]);
}

#[test]
fn wrap_a_character_wider_than_the_line_stands_alone() {
    assert_eq!(wrap_display_cells("中", 1), vec!["中"]);
    assert_eq!(wrap_display_cells("a中b", 1), vec!["a", "中", "b"]);
}

#[test]
fn wrap_lines_never_hold_a_newline() {
    for line in wrap_display_cells("one two\nthree four five\nsix", 4) {
        assert!(!line.contains('\n'));
    }
}

#[test]
fn truncate_keeps_a_fitting_prefix_and_the_ellipsis() {
    assert_eq!(truncate_to_cells("hello world", 8, "…"), "hello w…");
}

#[test]
fn truncate_with_a_wide_ellipsis_keeps_its_first_characters() {
    assert_eq!(truncate_to_cells("hello world", 2, "..."), "..");
}

#[test]
fn truncate_keeps_of_a_wide_ellipsis_what_fits() {
    assert_eq!(truncate_to_cells("hello", 3, "省略"), "省");
    assert_eq!(truncate_to_cells("hello", 1, "省略"), "");
}

#[test]
fn truncate_counts_wide_characters() {
    assert_eq!(truncate_to_cells("你好世界", 5, "…"), "你好…");
}

#[test]
fn truncate_returns_a_fitting_string_unchanged() {
    assert_eq!(truncate_to_cells("你好", 4, "…"), "你好");
}

#[test]
fn truncate_safe_keeps_escape_sequences_uncounted() {
    assert_eq!(truncate_safe("\x1b[1mab\x1b[0mcd", 3), "\x1b[1mab\x1b[0mc");
}

#[test]
fn truncate_safe_copies_a_lone_escape() {
    assert_eq!(truncate_safe("\x1bxyz", 2), "\x1bxy");
}

#[test]
fn truncate_safe_copies_whole_characters_inside_an_escape() {
    assert_eq!(truncate_safe("\x1b[é", 1), "\x1b[é");
    assert_eq!(truncate_safe("\x1b[é中mab", 1), "\x1b[é中ma");
    let text = "x\x1b[9éz";
    assert!(text.starts_with(&truncate_safe(text, 2)));
}

#[test]
fn truncate_safe_zero_keeps_nothing() {
    assert_eq!(truncate_safe("\x1b[31mHello", 0), "");
}

#[test]
fn truncate_safe_counts_characters_not_bytes() {
    assert_eq!(truncate_safe("héllo", 2), "hé");
}

#[test]
fn completion_path_from_a_tilde_token() {
    let req = completion_request_for_input("open ~/notes").unwrap();
    assert_eq!(req.method, "complete.path");
    assert_eq!(req.query, "~/notes");
    assert_eq!(req.replace_from, 5);
}

#[test]
fn completion_path_after_a_quote() {
    let req = completion_request_for_input("cat \"@docs").unwrap();
    assert_eq!(req.query, "@docs");
    assert_eq!(req.replace_from, 5);
}

#[test]
fn completion_path_offset_counts_characters() {
    let req = completion_request_for_input("é src/x").unwrap();
    assert_eq!(req.query, "src/x");
    assert_eq!(req.replace_from, 2);
    let req = completion_request_for_input("é ./a").unwrap();
    assert_eq!(req.query, "./a");
    assert_eq!(req.replace_from, 2);
}

#[test]
fn completion_path_after_a_wide_space() {
    let req = completion_request_for_input("ls\u{3000}./a").unwrap();
    assert_eq!(req.query, "./a");
    assert_eq!(req.replace_from, 3);
}

#[test]
fn completion_windows_drive_path() {
    let req = completion_request_for_input("C:\\Users").unwrap();
    assert_eq!(req.query, "C:\\Users");
    assert_eq!(req.replace_from, 0);
}

#[test]
fn completion_model_prefix_of_longer_command_is_slash() {
    let req = completion_request_for_input("/models").unwrap();
    assert_eq!(req.method, "complete.slash");
    assert_eq!(req.query, "/models");
}

#[test]
fn completion_model_with_argument_is_skipped() {
    assert!(completion_request_for_input("/model gpt").is_none());
}

#[test]
fn completion_multiline_slash_text_uses_path_rules() {
    assert!(completion_request_for_input("/help\nmore").is_none());
    let req = completion_request_for_input("/help\n./a").unwrap();
    assert_eq!(req.method, "complete.path");
    assert_eq!(req.query, "./a");
    assert_eq!(req.replace_from, 6);
}

#[test]
fn checked_line_width_agrees() {
    let line = Line { spans: vec!["ab".to_string(), "你".to_string()] };
    assert_eq!(checked_line_display_width(&line), Some(4));
}
