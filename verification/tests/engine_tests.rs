use classname_wrap::commands::Command;
use classname_wrap::configuration::Configuration;
use classname_wrap::tw_wrapper::{TailwindWrapper, TailwindWrapperOption};
use classname_wrap::visitor::{AttributeValue, DocEvent, Visitor};
use classname_wrap::wrapper::{Wrapper, WrapperOption};

fn text(s: &str) -> Command {
    Command::Text(s.to_string())
}

fn spaces(n: usize, out: &mut Vec<Command>) {
    for _ in 0..n {
        out.push(Command::Space);
    }
}

/// Render a command sequence the way the layout engine would, with newlines
/// as line feeds and indent scopes contributing nothing.
fn render(cmds: &[Command]) -> String {
    let mut out = String::new();
    for c in cmds {
        match c {
            Command::Text(s) => out.push_str(s),
            Command::Space => out.push(' '),
            Command::NewLine => out.push('\n'),
            Command::StartIndent | Command::FinishIndent => {}
        }
    }
    out
}

/// Collapse a text to its single-space-joined tokens, dropping lone
/// backslash continuation artifacts.
fn collapse(s: &str) -> String {
    s.split_whitespace()
        .filter(|t| *t != "\\")
        .collect::<Vec<_>>()
        .join(" ")
}

fn config_width_10() -> Configuration {
    Configuration::default()
        .with_line_width(10)
        .with_allow_line_overflow(false)
        .with_indent_to_quote(true)
}

const P7_SOURCE: &str = "<div className=\"a b c d e f g h\" />";

fn p7_events() -> Vec<DocEvent> {
    vec![
        DocEvent::EnterElement { span_start: 0 },
        DocEvent::Attribute {
            name: String::from("className"),
            name_span_start: 5,
            value: Some(AttributeValue::StringLiteral {
                span_start: 15,
                span_end: 32,
            }),
        },
    ]
}

#[test]
fn wraps_quote_aligned_at_width_10() {
    let config = config_width_10();
    let items = classname_wrap::visitor::process_document(P7_SOURCE, &config, &p7_events());

    let mut expected = vec![text("<div className=")];
    // The value starts at column 15, past the width of 10, so a break comes
    // first; continuation lines align to the quote column with explicit
    // spaces.
    expected.push(Command::NewLine);
    spaces(15, &mut expected);
    expected.push(text("\"a"));
    for t in ["b", "c", "d", "e"] {
        expected.push(Command::Space);
        expected.push(text(t));
    }
    expected.push(Command::NewLine);
    spaces(15, &mut expected);
    expected.push(text("f"));
    for t in ["g", "h\""] {
        expected.push(Command::Space);
        expected.push(text(t));
    }
    expected.push(text(" />"));
    assert_eq!(items, expected);
}

#[test]
fn wrapped_value_collapses_back_to_its_tokens() {
    let raw = "\"a b c d e f g h\"";
    let wrapper = Wrapper::new(WrapperOption {
        allow_line_overflow: false,
        indent_to_quote: true,
        indent_width: 2,
        line_width_includes_indent: false,
        line_width: 10,
    });
    let pos = classname_wrap::visitor::AttributePos::new(P7_SOURCE, 5, 15);
    let items = wrapper.format(
        raw,
        pos,
        classname_wrap::visitor::AttributeContext::StringLiteral,
    );
    assert_eq!(collapse(&render(&items)), collapse(raw));
}

#[test]
fn reformatting_wrapped_output_is_stable() {
    // The first token fits its line, so after one pass the value's opening
    // quote keeps its column and a second pass reproduces the output.
    let source = "<i c=\"aaa bbb ccc ddd\" />";
    let config = Configuration::default()
        .with_line_width(12)
        .with_indent_to_quote(true)
        .with_classname_attributes(vec![String::from("c")]);
    let events_for = |span_end: usize| {
        vec![
            DocEvent::EnterElement { span_start: 0 },
            DocEvent::Attribute {
                name: String::from("c"),
                name_span_start: 3,
                value: Some(AttributeValue::StringLiteral {
                    span_start: 5,
                    span_end,
                }),
            },
        ]
    };
    let items = classname_wrap::visitor::process_document(source, &config, &events_for(22));
    let rendered = render(&items);
    assert_ne!(rendered, source);
    let len = rendered.chars().count();
    let second =
        classname_wrap::visitor::process_document(&rendered, &config, &events_for(len - 3));
    assert_eq!(render(&second), rendered);
}

#[test]
fn empty_value_emits_no_breaks_and_keeps_output() {
    // className="" has the two quote characters as its only token; under the
    // default width nothing wraps and the rendering reproduces the input.
    let source = "<div className=\"\" />";
    let config = Configuration::default();
    let events = vec![
        DocEvent::EnterElement { span_start: 0 },
        DocEvent::Attribute {
            name: String::from("className"),
            name_span_start: 5,
            value: Some(AttributeValue::StringLiteral {
                span_start: 15,
                span_end: 17,
            }),
        },
    ];
    let items = classname_wrap::visitor::process_document(source, &config, &events);
    assert!(items
        .iter()
        .all(|c| !matches!(c, Command::NewLine | Command::StartIndent | Command::FinishIndent)));
    assert_eq!(render(&items), source);
}

#[test]
fn unconfigured_attribute_passes_through_verbatim() {
    let source = "<div data-x=\"a b c d e f g h i j k l m n o p\" />";
    let config = config_width_10();
    let events = vec![
        DocEvent::EnterElement { span_start: 0 },
        DocEvent::Attribute {
            name: String::from("data-x"),
            name_span_start: 5,
            value: Some(AttributeValue::StringLiteral {
                span_start: 12,
                span_end: 46,
            }),
        },
    ];
    let items = classname_wrap::visitor::process_document(source, &config, &events);
    assert_eq!(items, vec![text(source)]);
}

#[test]
fn document_without_attributes_is_one_verbatim_command() {
    let source = "const x = 1;\n";
    let config = Configuration::default();
    let events = vec![DocEvent::EnterElement { span_start: 0 }];
    let items = classname_wrap::visitor::process_document(source, &config, &events);
    assert_eq!(items, vec![text(source)]);
}

#[test]
fn overlong_token_stands_alone_unsplit() {
    let source = "<i className=\"abcdefghijklmnop\" />";
    let config = config_width_10();
    let events = vec![
        DocEvent::EnterElement { span_start: 0 },
        DocEvent::Attribute {
            name: String::from("className"),
            name_span_start: 3,
            value: Some(AttributeValue::StringLiteral {
                span_start: 13,
                span_end: 31,
            }),
        },
    ];
    let items = classname_wrap::visitor::process_document(source, &config, &events);
    let mut expected = vec![text("<i className=")];
    expected.push(Command::NewLine);
    spaces(13, &mut expected);
    expected.push(text("\"abcdefghijklmnop\""));
    expected.push(text(" />"));
    assert_eq!(items, expected);
}

#[test]
fn overflow_mode_breaks_only_after_overflowing_token() {
    // Width account starts at the value's column (10); the first token
    // overflows immediately but is still emitted, with the break after it.
    let source = "<section c=\"aa bb cc\" />";
    let config = Configuration::default()
        .with_line_width(10)
        .with_allow_line_overflow(true)
        .with_indent_to_quote(true)
        .with_classname_attributes(vec![String::from("c")]);
    let events = vec![
        DocEvent::EnterElement { span_start: 0 },
        DocEvent::Attribute {
            name: String::from("c"),
            name_span_start: 9,
            value: Some(AttributeValue::StringLiteral {
                span_start: 11,
                span_end: 21,
            }),
        },
    ];
    let items = classname_wrap::visitor::process_document(source, &config, &events);
    let mut expected = vec![text("<section c=")];
    // "aa: 11 + 3 + 1 > 10, emitted anyway (the running width is positive,
    // so it gets a joining space), then the break.
    expected.push(Command::Space);
    expected.push(text("\"aa"));
    expected.push(Command::NewLine);
    spaces(11, &mut expected);
    // bb: 0 + 2 + 1 <= 10, joins with a leading space.
    expected.push(Command::Space);
    expected.push(text("bb"));
    // cc": 3 + 3 + 1 <= 10, joins.
    expected.push(Command::Space);
    expected.push(text("cc\""));
    expected.push(text(" />"));
    assert_eq!(items, expected);
}

#[test]
fn expression_container_breaks_carry_backslash_escape() {
    let source = "<div className={\"a b c d e f\"} />";
    let config = config_width_10();
    let events = vec![
        DocEvent::EnterElement { span_start: 0 },
        DocEvent::Attribute {
            name: String::from("className"),
            name_span_start: 5,
            value: Some(AttributeValue::ExpressionStringLiteral {
                span_start: 16,
                span_end: 29,
            }),
        },
    ];
    let items = classname_wrap::visitor::process_document(source, &config, &events);
    // Every newline is preceded by exactly one space and one backslash.
    for (i, c) in items.iter().enumerate() {
        if matches!(c, Command::NewLine) {
            assert!(i >= 2);
            assert_eq!(items[i - 1], text("\\"));
            assert_eq!(items[i - 2], Command::Space);
        }
    }
    assert!(items.iter().any(|c| matches!(c, Command::NewLine)));
    // Collapsing the wrapped value alone recovers its tokens: the inserted
    // backslashes collapse away.
    let raw = "\"a b c d e f\"";
    let wrapper = Wrapper::new(WrapperOption {
        allow_line_overflow: false,
        indent_to_quote: true,
        indent_width: 2,
        line_width_includes_indent: false,
        line_width: 10,
    });
    let pos = classname_wrap::visitor::AttributePos::new(source, 5, 16);
    let fragment = wrapper.format(
        raw,
        pos,
        classname_wrap::visitor::AttributeContext::JSXExpression,
    );
    assert_eq!(collapse(&render(&fragment)), collapse(raw));
}

#[test]
fn string_literal_breaks_carry_no_backslash() {
    let config = config_width_10();
    let items = classname_wrap::visitor::process_document(P7_SOURCE, &config, &p7_events());
    for (i, c) in items.iter().enumerate() {
        if matches!(c, Command::NewLine) {
            assert!(i == 0 || items[i - 1] != text("\\"));
        }
    }
}

#[test]
fn element_aligned_indent_wraps_fragment_in_indent_scopes() {
    // Without quote alignment, the fragment is wrapped in one indent scope
    // per level: the value shares the element's line, so one level past the
    // element's column 0 with indent width 2 gives level 1.
    let source = "<div className=\"a b c d e f g h\" />";
    let config = config_width_10().with_indent_to_quote(false).with_indent_width(2);
    let items = classname_wrap::visitor::process_document(source, &config, &p7_events());
    let mut expected = vec![text("<div className=")];
    expected.push(Command::StartIndent);
    expected.push(Command::NewLine);
    expected.push(text("\"a"));
    for t in ["b", "c", "d", "e"] {
        expected.push(Command::Space);
        expected.push(text(t));
    }
    expected.push(Command::NewLine);
    expected.push(text("f"));
    for t in ["g", "h\""] {
        expected.push(Command::Space);
        expected.push(text(t));
    }
    expected.push(Command::FinishIndent);
    expected.push(text(" />"));
    assert_eq!(items, expected);
}

#[test]
fn wrapper_format_accounts_width_from_value_column() {
    let source = "<div className=\"a b c d e f g h\" />";
    let wrapper = Wrapper::new(WrapperOption {
        allow_line_overflow: false,
        indent_to_quote: true,
        indent_width: 2,
        line_width_includes_indent: false,
        line_width: 10,
    });
    let pos = classname_wrap::visitor::AttributePos::new(source, 5, 15);
    let items = wrapper.format(
        "\"a b c d e f g h\"",
        pos,
        classname_wrap::visitor::AttributeContext::StringLiteral,
    );
    let mut expected = vec![Command::NewLine];
    spaces(15, &mut expected);
    expected.push(text("\"a"));
    for t in ["b", "c", "d", "e"] {
        expected.push(Command::Space);
        expected.push(text(t));
    }
    expected.push(Command::NewLine);
    spaces(15, &mut expected);
    expected.push(text("f"));
    for t in ["g", "h\""] {
        expected.push(Command::Space);
        expected.push(text(t));
    }
    assert_eq!(items, expected);
}

#[test]
fn line_width_includes_indent_shrinks_budget() {
    // With the indent counted against the width, the budget is
    // line_width - indent = 10 - 8 = 2, so every token breaks.
    let source = "ab <i c=\"xx yy\" />";
    let wrapper = Wrapper::new(WrapperOption {
        allow_line_overflow: false,
        indent_to_quote: true,
        indent_width: 2,
        line_width_includes_indent: true,
        line_width: 10,
    });
    let pos = classname_wrap::visitor::AttributePos::new(source, 6, 8);
    let items = wrapper.format(
        "\"xx yy\"",
        pos,
        classname_wrap::visitor::AttributeContext::StringLiteral,
    );
    let mut expected = vec![Command::NewLine];
    spaces(8, &mut expected);
    expected.push(text("\"xx"));
    expected.push(Command::NewLine);
    spaces(8, &mut expected);
    expected.push(text("yy\""));
    assert_eq!(items, expected);
}

#[test]
fn legacy_engine_starts_width_account_at_zero() {
    // The legacy engine counts the first line from zero, so "aa (3 wide,
    // +1 reserve) fits a width of 10 even at column 11.
    let source = "<section c=\"aa bb cc\" />";
    let wrapper = TailwindWrapper::new(TailwindWrapperOption {
        line_width: 10,
        indent_to_quote: true,
        allow_line_overflow: false,
        indent_width: 2,
    });
    let items = wrapper.format("\"aa bb cc\"", source, 9, 11);
    let mut expected = vec![text("\"aa")];
    expected.push(Command::Space);
    expected.push(text("bb"));
    expected.push(Command::NewLine);
    spaces(11, &mut expected);
    expected.push(text("cc\""));
    assert_eq!(items, expected);
}

#[test]
fn legacy_engine_keeps_lone_backslash_tokens() {
    let source = "x=\"a \\ b\"";
    let wrapper = TailwindWrapper::new(TailwindWrapperOption {
        line_width: 100,
        indent_to_quote: true,
        allow_line_overflow: false,
        indent_width: 2,
    });
    let items = wrapper.format("\"a \\ b\"", source, 0, 2);
    assert_eq!(
        items,
        vec![
            text("\"a"),
            Command::Space,
            text("\\"),
            Command::Space,
            text("b\"")
        ]
    );
}

#[test]
fn visitor_without_wrapper_passes_values_through() {
    let source = "<div className=\"a b\" />";
    let config = Configuration::default().with_enable_wrap(false);
    let events = vec![
        DocEvent::EnterElement { span_start: 0 },
        DocEvent::Attribute {
            name: String::from("className"),
            name_span_start: 5,
            value: Some(AttributeValue::StringLiteral {
                span_start: 15,
                span_end: 20,
            }),
        },
    ];
    let items = classname_wrap::visitor::process_document(source, &config, &events);
    assert_eq!(
        items,
        vec![text("<div className="), text("\"a b\""), text(" />")]
    );
    assert_eq!(render(&items), source);
}

#[test]
fn malformed_event_offsets_fall_back_to_pass_through() {
    // A value span that lies before the cursor or past the end of the
    // document is left entirely to verbatim pass-through.
    let source = "<div className=\"a b\" />";
    let config = config_width_10();
    let events = vec![DocEvent::Attribute {
        name: String::from("className"),
        name_span_start: 5,
        value: Some(AttributeValue::StringLiteral {
            span_start: 15,
            span_end: 999,
        }),
    }];
    let items = classname_wrap::visitor::process_document(source, &config, &events);
    assert_eq!(items, vec![text(source)]);
}

#[test]
fn legacy_visitor_wraps_matched_value() {
    let source = P7_SOURCE;
    let config = config_width_10();
    let wrapper = TailwindWrapper::new(TailwindWrapperOption {
        line_width: 10,
        indent_to_quote: true,
        allow_line_overflow: false,
        indent_width: 2,
    });
    let mut visitor = classname_wrap::tw_visitor::TailwindVisitor::new(source, &config)
        .with_wrapper(Some(wrapper));
    visitor.visit_jsx_element(0);
    visitor.visit_jsx_attribute(
        "className",
        5,
        &Some(AttributeValue::StringLiteral {
            span_start: 15,
            span_end: 32,
        }),
    );
    visitor.print_post_text();
    let items = visitor.print_items();

    // The legacy engine counts the first line from zero, so four tokens fit
    // before the first break.
    let mut expected = vec![text("<div className=")];
    expected.push(text("\"a"));
    for t in ["b", "c", "d"] {
        expected.push(Command::Space);
        expected.push(text(t));
    }
    expected.push(Command::NewLine);
    spaces(15, &mut expected);
    expected.push(text("e"));
    for t in ["f", "g", "h\""] {
        expected.push(Command::Space);
        expected.push(text(t));
    }
    expected.push(text(" />"));
    assert_eq!(items, expected);
}

#[test]
fn visitor_builder_installs_wrapper() {
    let source = "<div className=\"a b\" />";
    let config = Configuration::default();
    let visitor = Visitor::new(source, &config).with_wrapper(Some(Wrapper::new(WrapperOption {
        allow_line_overflow: false,
        indent_to_quote: true,
        indent_width: 2,
        line_width_includes_indent: false,
        line_width: 120,
    })));
    let items = visitor.print_items();
    assert!(items.is_empty());
}
