//! Resolved configuration: the eligible attribute names and the wrap options.

use vstd::prelude::*;
use vstd::string::StringExecFns;

verus! {

/// How the layout engine should terminate lines.
#[derive(Debug, Clone, Copy, PartialEq, Eq, Structural)]
pub enum NewLineKind {
    /// Follow the kind of the last newline already in the file.
    Auto,
    /// Line feed.
    LineFeed,
    /// Carriage return, line feed.
    CarriageReturnLineFeed,
}

/// Resolved, validated knobs controlling matching and wrapping.
#[derive(Debug, Clone)]
pub struct Configuration {
    pub use_tabs: bool,
    pub new_line_kind: NewLineKind,
    pub classname_attributes: Vec<String>,
    pub enable_wrap: bool,
    pub allow_line_overflow: bool,
    pub indent_to_quote: bool,
    pub indent_width: u8,
    pub line_width_includes_indent: bool,
    pub line_width: u32,
}

/// Whether `name` is one of the configured attribute names.
pub open spec fn contains_name(attrs: Seq<Seq<char>>, name: Seq<char>) -> bool {
    exists|i: int| 0 <= i < attrs.len() && attrs[i] == name
}

impl Default for Configuration {
    /// Wrapping on; quote-aligned; two-space indent; a width of 120 that does
    /// not count indentation; `class` and `className` eligible.
    fn default() -> (c: Self)
        ensures
            c.use_tabs == false,
            c.new_line_kind == NewLineKind::Auto,
            c.classname_attributes.deep_view() =~= seq!["class"@, "className"@],
            c.enable_wrap == true,
            c.allow_line_overflow == false,
            c.indent_to_quote == true,
            c.indent_width == 2,
            c.line_width_includes_indent == false,
            c.line_width == 120,
    {
        let mut attrs: Vec<String> = Vec::new();
        attrs.push(String::from_str("class"));
        attrs.push(String::from_str("className"));
        proof {
            assert(attrs.deep_view() =~= seq!["class"@, "className"@]);
        }
        Configuration {
            use_tabs: false,
            new_line_kind: NewLineKind::Auto,
            classname_attributes: attrs,
            enable_wrap: true,
            allow_line_overflow: false,
            indent_to_quote: true,
            indent_width: 2,
            line_width_includes_indent: false,
            line_width: 120,
        }
    }
}

impl Configuration {
    pub fn with_classname_attributes(self, patterns: Vec<String>) -> (c: Self)
        ensures
            c == (Configuration { classname_attributes: patterns, ..self }),
    {
        Configuration { classname_attributes: patterns, ..self }
    }

    pub fn with_enable_wrap(self, enabled: bool) -> (c: Self)
        ensures
            c == (Configuration { enable_wrap: enabled, ..self }),
    {
        Configuration { enable_wrap: enabled, ..self }
    }

    pub fn with_allow_line_overflow(self, enabled: bool) -> (c: Self)
        ensures
            c == (Configuration { allow_line_overflow: enabled, ..self }),
    {
        Configuration { allow_line_overflow: enabled, ..self }
    }

    pub fn with_indent_to_quote(self, value: bool) -> (c: Self)
        ensures
            c == (Configuration { indent_to_quote: value, ..self }),
    {
        Configuration { indent_to_quote: value, ..self }
    }

    pub fn with_indent_width(self, width: u8) -> (c: Self)
        ensures
            c == (Configuration { indent_width: width, ..self }),
    {
        Configuration { indent_width: width, ..self }
    }

    pub fn with_line_width_includes_indent(self, enabled: bool) -> (c: Self)
        ensures
            c == (Configuration { line_width_includes_indent: enabled, ..self }),
    {
        Configuration { line_width_includes_indent: enabled, ..self }
    }

    pub fn with_line_width(self, width: u32) -> (c: Self)
        ensures
            c == (Configuration { line_width: width, ..self }),
    {
        Configuration { line_width: width, ..self }
    }
}

} // verus!
