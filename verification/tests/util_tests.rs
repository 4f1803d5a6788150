use classname_wrap::configuration::{Configuration, NewLineKind};
use classname_wrap::format_text::{config_to_print_options, resolve_new_line_kind, strip_bom};
use classname_wrap::position::{
    calculate_column_number, calculate_indent_level, calculate_line_number, get_column_number,
    get_indent_level, get_line_number, saturate_to_u32,
};
use classname_wrap::tokens::{str_eq, tokenize};

#[test]
fn line_numbers_are_zero_indexed() {
    assert_eq!(get_line_number("testing", 3), 0);
    assert_eq!(get_line_number("t\ntest\nt", 2), 1);
    assert_eq!(get_line_number("t\ntest\nt", 6), 1);
    assert_eq!(get_line_number("t\ntest\nt", 7), 2);
    assert_eq!(calculate_line_number("t\ntest\nt", 7), 2);
}

#[test]
fn column_numbers_are_zero_indexed() {
    assert_eq!(get_column_number("testing\nthis", 3), 3);
    assert_eq!(get_column_number("test\nthis", 6), 1);
    assert_eq!(get_column_number("test\nthis", 0), 0);
    assert_eq!(get_column_number("test\nthis", 5), 0);
    assert_eq!(calculate_column_number("test\nthis", 6), 1);
}

#[test]
fn indent_level_divides_truncating() {
    assert_eq!(calculate_indent_level(7, 2), 3);
    assert_eq!(calculate_indent_level(8, 2), 4);
    assert_eq!(get_indent_level(5, 4), 1);
}

#[test]
fn indent_level_with_zero_width_is_zero() {
    assert_eq!(calculate_indent_level(42, 0), 0);
    assert_eq!(get_indent_level(42, 0), 0);
}

#[test]
fn saturation_clamps_to_u32() {
    assert_eq!(saturate_to_u32(7), 7);
    assert_eq!(saturate_to_u32(usize::MAX), u32::MAX);
}

#[test]
fn tokenize_splits_on_whitespace_runs() {
    assert_eq!(tokenize("a  b\t\nc", true), vec!["a", "b", "c"]);
    assert_eq!(tokenize("  leading and trailing  ", true), vec![
        "leading", "and", "trailing"
    ]);
    assert_eq!(tokenize("", true), Vec::<String>::new());
    assert_eq!(tokenize(" \t ", true), Vec::<String>::new());
}

#[test]
fn tokenize_drops_lone_backslashes_when_asked() {
    assert_eq!(tokenize("a \\ b", true), vec!["a", "b"]);
    assert_eq!(tokenize("a \\ b", false), vec!["a", "\\", "b"]);
    // Only a lone backslash is a continuation artifact.
    assert_eq!(tokenize("a \\\\ b", true), vec!["a", "\\\\", "b"]);
}

#[test]
fn str_eq_compares_characters() {
    assert!(str_eq("abc", "abc"));
    assert!(!str_eq("abc", "abd"));
    assert!(!str_eq("abc", "ab"));
    assert!(str_eq("", ""));
}

#[test]
fn strip_bom_removes_leading_byte_order_mark() {
    assert_eq!(strip_bom("\u{FEFF}hello"), "hello");
    assert_eq!(strip_bom("hello"), "hello");
    assert_eq!(strip_bom(""), "");
}

#[test]
fn newline_kind_resolves_fixed_kinds() {
    assert_eq!(resolve_new_line_kind("whatever", NewLineKind::LineFeed), "\n");
    assert_eq!(
        resolve_new_line_kind("whatever", NewLineKind::CarriageReturnLineFeed),
        "\r\n"
    );
}

#[test]
fn newline_kind_auto_follows_last_newline() {
    assert_eq!(resolve_new_line_kind("a\r\nb\nc", NewLineKind::Auto), "\n");
    assert_eq!(resolve_new_line_kind("a\nb\r\nc", NewLineKind::Auto), "\r\n");
    assert_eq!(resolve_new_line_kind("no newline", NewLineKind::Auto), "\n");
    assert_eq!(resolve_new_line_kind("", NewLineKind::Auto), "\n");
}

#[test]
fn default_configuration_matches_documented_knobs() {
    let config = Configuration::default();
    assert!(!config.use_tabs);
    assert_eq!(config.new_line_kind, NewLineKind::Auto);
    assert_eq!(config.classname_attributes, vec!["class", "className"]);
    assert!(config.enable_wrap);
    assert!(!config.allow_line_overflow);
    assert!(config.indent_to_quote);
    assert_eq!(config.indent_width, 2);
    assert!(!config.line_width_includes_indent);
    assert_eq!(config.line_width, 120);
}

#[test]
fn configuration_builders_set_each_knob() {
    let config = Configuration::default()
        .with_classname_attributes(vec![String::from("cls")])
        .with_enable_wrap(false)
        .with_allow_line_overflow(true)
        .with_indent_to_quote(false)
        .with_indent_width(4)
        .with_line_width_includes_indent(true)
        .with_line_width(80);
    assert_eq!(config.classname_attributes, vec!["cls"]);
    assert!(!config.enable_wrap);
    assert!(config.allow_line_overflow);
    assert!(!config.indent_to_quote);
    assert_eq!(config.indent_width, 4);
    assert!(config.line_width_includes_indent);
    assert_eq!(config.line_width, 80);
}

#[test]
fn print_options_carry_resolved_layout() {
    let config = Configuration::default().with_line_width(80);
    let options = config_to_print_options("a\r\n", &config);
    assert_eq!(options.indent_width, 2);
    assert_eq!(options.max_width, 80);
    assert!(!options.use_tabs);
    assert_eq!(options.new_line_text, "\r\n");
}
