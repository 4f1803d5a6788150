//! The earlier generation of the reflow engine. It differs from the current
//! one in four ways: the width budget never subtracts the indent, the width
//! account of the first line starts at zero rather than at the value's
//! column, lone-backslash tokens are kept rather than discarded, and the
//! expression-container flag lives on the engine itself rather than being
//! passed per call. It refuses values without a single token.

use vstd::prelude::*;
use vstd::string::StrSliceExecFns;

use crate::commands::{cmd_seq, Cmd, Command};
use crate::position::{
    column_number_at, get_column_number, get_indent_level, get_line_number, indent_level_of,
    line_number_at, sat_u32,
};
use crate::tokens::{raw_tokens_of, tokenize};
use crate::visitor::AttributeContext;
use crate::wrapper::{
    append_break_line, append_text, break_cmds, indent_scope, sat_add_u32, spec_budget,
    spec_next_width, text_cmds, with_indent_times, wrap_cmds, wrap_from, IndentCount,
    WrapperOption,
};

verus! {

/// The wrap options this engine consults.
#[derive(Debug, Clone, Copy)]
pub struct TailwindWrapperOption {
    pub line_width: u32,
    pub indent_to_quote: bool,
    pub allow_line_overflow: bool,
    pub indent_width: u8,
}

impl TailwindWrapperOption {
    /// The equivalent general wrap options: this engine's width budget never
    /// subtracts the indent.
    pub open spec fn as_wrapper_option(self) -> WrapperOption {
        WrapperOption {
            allow_line_overflow: self.allow_line_overflow,
            indent_to_quote: self.indent_to_quote,
            indent_width: self.indent_width,
            line_width_includes_indent: false,
            line_width: self.line_width,
        }
    }
}

/// The legacy reflow engine. Its anchor fields always reflect the most
/// recently entered element; the expression-container flag is set around
/// each value that lives inside an expression container.
#[derive(Debug, Clone, Copy)]
pub struct TailwindWrapper {
    pub option: TailwindWrapperOption,
    pub pre_jsx_element_line: usize,
    pub pre_indent_level: u32,
    pub jsxexpression: bool,
}

impl TailwindWrapper {
    pub fn new(option: TailwindWrapperOption) -> (w: Self)
        ensures
            w.option == option,
            w.pre_jsx_element_line == 0,
            w.pre_indent_level == 0,
            w.jsxexpression == false,
    {
        Self { option, pre_jsx_element_line: 0, pre_indent_level: 0, jsxexpression: false }
    }

    /// Record the 0-indexed line of the most recently entered element's
    /// opening tag.
    pub fn set_pre_jsx_element_line(&mut self, source_text: &str, node_span_start: usize)
        requires
            node_span_start <= source_text@.len(),
        ensures
            final(self).pre_jsx_element_line == line_number_at(
                source_text@,
                node_span_start as int,
            ),
            final(self).pre_indent_level == old(self).pre_indent_level,
            final(self).option == old(self).option,
            final(self).jsxexpression == old(self).jsxexpression,
    {
        self.pre_jsx_element_line = get_line_number(source_text, node_span_start);
    }

    /// Record the indent level of the most recently entered element's
    /// opening tag: its starting column divided into indent levels.
    pub fn set_pre_indent_level(&mut self, source_text: &str, node_span_start: usize)
        requires
            node_span_start <= source_text@.len(),
        ensures
            final(self).pre_indent_level == indent_level_of(
                column_number_at(source_text@, node_span_start as int),
                old(self).option.indent_width as int,
            ),
            final(self).pre_jsx_element_line == old(self).pre_jsx_element_line,
            final(self).option == old(self).option,
            final(self).jsxexpression == old(self).jsxexpression,
    {
        let column = get_column_number(source_text, node_span_start);
        self.pre_indent_level = get_indent_level(column, self.option.indent_width);
    }

    /// Mark that the next value lives inside an expression container.
    pub fn enter_jsxexpression(&mut self)
        ensures
            *final(self) == (TailwindWrapper { jsxexpression: true, ..*old(self) }),
    {
        self.jsxexpression = true
    }

    /// Mark that the expression container has been left.
    pub fn leave_jsxexpression(&mut self)
        ensures
            *final(self) == (TailwindWrapper { jsxexpression: false, ..*old(self) }),
    {
        self.jsxexpression = false
    }

    /// The value context the expression flag stands for.
    pub open spec fn spec_context(self) -> AttributeContext {
        if self.jsxexpression {
            AttributeContext::JSXExpression
        } else {
            AttributeContext::StringLiteral
        }
    }

    /// The indent for a matched value: the quote column under quote
    /// alignment; otherwise no explicit alignment (the fragment is wrapped
    /// in indent scopes afterwards).
    pub open spec fn spec_indent(self, source: Seq<char>, value_start: int) -> IndentCount {
        if self.option.indent_to_quote {
            IndentCount::IndentToQuote(sat_u32(column_number_at(source, value_start)))
        } else {
            IndentCount::IndentToPre(0u32)
        }
    }

    /// The wrapped fragment for one value, the width account starting at
    /// zero.
    pub open spec fn spec_wrap_text(self, node_text: Seq<char>, source: Seq<char>, value_start: int) -> Seq<Cmd> {
        wrap_cmds(
            self.option.as_wrapper_option(),
            self.spec_indent(source, value_start),
            self.spec_context(),
            raw_tokens_of(node_text),
            0u32,
        )
    }

    #[verifier::rlimit(60)]
    fn wrap_text(&self, node_text: &str, source_text: &str, attr_value_span_start: usize) -> (items:
        Vec<Command>)
        requires
            attr_value_span_start <= source_text@.len(),
            raw_tokens_of(node_text@).len() > 0,
        ensures
            cmd_seq(items@) == self.spec_wrap_text(
                node_text@,
                source_text@,
                attr_value_span_start as int,
            ),
    {
        let indent_count = if self.option.indent_to_quote {
            IndentCount::IndentToQuote(
                crate::position::calculate_column_number(source_text, attr_value_span_start),
            )
        } else {
            IndentCount::IndentToPre(0)
        };
        let ghost opt = self.option.as_wrapper_option();
        let ghost indent = self.spec_indent(source_text@, attr_value_span_start as int);
        let ghost context_spec = self.spec_context();
        let context = if self.jsxexpression {
            AttributeContext::JSXExpression
        } else {
            AttributeContext::StringLiteral
        };
        let parts = tokenize(node_text, false);
        let ghost toks = raw_tokens_of(node_text@);
        let n = parts.len();
        let last_index = n - 1;
        let mut current_width: u32 = 0;
        let mut items: Vec<Command> = Vec::new();
        let mut i: usize = 0;
        while i < n
            invariant
                i <= n,
                n == toks.len(),
                parts.deep_view() == toks,
                n == parts@.len(),
                opt == self.option.as_wrapper_option(),
                indent == indent_count,
                context == context_spec,
                cmd_seq(items@) + wrap_from(opt, indent, context, toks, i as int, current_width)
                    == wrap_from(opt, indent, context, toks, 0, 0u32),
                last_index == n - 1,
            decreases n - i,
        {
            let ghost items_before = cmd_seq(items@);
            let ghost tok = toks[i as int];
            let ghost rest = wrap_from(opt, indent, context, toks, i as int, current_width);
            proof {
                assert(parts@[i as int]@ == toks[i as int]);
            }
            let text = parts[i].as_str();
            let text_width = crate::position::saturate_to_u32(text.unicode_len());
            let next_width = sat_add_u32(sat_add_u32(current_width, text_width), 1);
            proof {
                assert(next_width == spec_next_width(current_width, tok));
            }
            let exceeds = next_width > self.option.line_width;
            proof {
                assert(self.option.line_width == spec_budget(opt, indent.spec_value()));
            }
            let not_first = i > 0;
            match (exceeds, self.option.allow_line_overflow) {
                (true, true) => {
                    append_text(&mut items, text, current_width > 0);
                    let had_more = i < last_index;
                    if had_more {
                        append_break_line(&mut items, context, &indent_count);
                    }
                    proof {
                        let brk = if i + 1 < toks.len() {
                            break_cmds(context, indent)
                        } else {
                            Seq::<Cmd>::empty()
                        };
                        assert(rest == text_cmds(tok, current_width > 0) + brk + wrap_from(
                            opt,
                            indent,
                            context,
                            toks,
                            i + 1,
                            0u32,
                        ));
                        if !had_more {
                            assert(cmd_seq(items@) =~= items_before + (text_cmds(
                                tok,
                                current_width > 0,
                            ) + brk));
                        }
                        assert(cmd_seq(items@) + wrap_from(opt, indent, context, toks, i + 1, 0u32)
                            =~= items_before + rest);
                    }
                    current_width = 0;
                },
                (true, false) => {
                    append_break_line(&mut items, context, &indent_count);
                    append_text(&mut items, text, false);
                    proof {
                        assert(rest == break_cmds(context, indent) + text_cmds(tok, false)
                            + wrap_from(
                            opt,
                            indent,
                            context,
                            toks,
                            i + 1,
                            sat_u32(tok.len() as int),
                        ));
                        assert(cmd_seq(items@) + wrap_from(
                            opt,
                            indent,
                            context,
                            toks,
                            i + 1,
                            sat_u32(tok.len() as int),
                        ) =~= items_before + rest);
                    }
                    current_width = text_width;
                },
                (false, _) => {
                    append_text(&mut items, text, not_first);
                    proof {
                        assert(rest == text_cmds(tok, i > 0) + wrap_from(
                            opt,
                            indent,
                            context,
                            toks,
                            i + 1,
                            spec_next_width(current_width, tok),
                        ));
                        assert(cmd_seq(items@) + wrap_from(
                            opt,
                            indent,
                            context,
                            toks,
                            i + 1,
                            spec_next_width(current_width, tok),
                        ) =~= items_before + rest);
                    }
                    current_width = next_width;
                },
            }
            i = i + 1;
        }
        proof {
            assert(wrap_from(opt, indent, context, toks, n as int, current_width)
                == Seq::<Cmd>::empty());
            assert(cmd_seq(items@) + Seq::<Cmd>::empty() =~= cmd_seq(items@));
        }
        items
    }

    /// The full command sequence for one matched attribute value: the
    /// wrapped fragment, and for element-aligned indentation one indent
    /// scope per level, one level past the element's own level when the
    /// value shares the element's first line, or one past the attribute
    /// name's level when it does not.
    pub open spec fn spec_format(
        self,
        node_text: Seq<char>,
        source: Seq<char>,
        name_start: int,
        value_start: int,
    ) -> Seq<Cmd> {
        let wrapped = self.spec_wrap_text(node_text, source, value_start);
        if self.option.indent_to_quote {
            wrapped
        } else {
            let line = line_number_at(source, value_start);
            let level = if line == self.pre_jsx_element_line as int {
                sat_u32(self.pre_indent_level as int + 1)
            } else {
                sat_u32(
                    indent_level_of(
                        column_number_at(source, name_start),
                        self.option.indent_width as int,
                    ) + 1,
                )
            };
            indent_scope(wrapped, level as nat)
        }
    }

    /// Wrap one matched attribute value.
    pub fn format(
        &self,
        node_text: &str,
        source_text: &str,
        attr_name_span_start: usize,
        attr_value_span_start: usize,
    ) -> (items: Vec<Command>)
        requires
            attr_name_span_start <= source_text@.len(),
            attr_value_span_start <= source_text@.len(),
            raw_tokens_of(node_text@).len() > 0,
        ensures
            cmd_seq(items@) == self.spec_format(
                node_text@,
                source_text@,
                attr_name_span_start as int,
                attr_value_span_start as int,
            ),
    {
        let wrapped_items = self.wrap_text(node_text, source_text, attr_value_span_start);
        if self.option.indent_to_quote {
            return wrapped_items;
        }
        let line = get_line_number(source_text, attr_value_span_start);
        let indent = if line == self.pre_jsx_element_line {
            sat_add_u32(self.pre_indent_level, 1)
        } else {
            let column = get_column_number(source_text, attr_name_span_start);
            sat_add_u32(get_indent_level(column, self.option.indent_width), 1)
        };
        with_indent_times(wrapped_items, indent)
    }
}

} // verus!
