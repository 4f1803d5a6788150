//! The reflow engine: given the raw text of a matched attribute value, an
//! anchor context, and the wrap options, produce the command sequence that
//! wraps the value's tokens to the configured width.

use vstd::prelude::*;
use vstd::string::StrSliceExecFns;

use crate::commands::{cmd_seq, lemma_cmd_seq_push, Cmd, Command};
use crate::position::{
    calculate_column_number, calculate_indent_level, calculate_line_number, column_number_at,
    indent_level_of, line_number_at, sat_u32, saturate_to_u32,
};
use crate::tokens::{tokenize, tokens_of};
use crate::visitor::{AttributeContext, AttributePos};

verus! {

/// How continuation lines are indented: aligned to the column of the value's
/// opening quote by explicit spaces, or aligned to the element or attribute
/// context by whole indent levels.
#[derive(Debug, Clone, Copy)]
pub enum IndentCount {
    IndentToQuote(u32),
    IndentToPre(u32),
}

impl IndentCount {
    /// The numeric column payload, whichever variant carries it.
    pub open spec fn spec_value(&self) -> u32 {
        match *self {
            IndentCount::IndentToQuote(n) => n,
            IndentCount::IndentToPre(n) => n,
        }
    }

    /// The numeric column payload, whichever variant carries it.
    pub fn value(&self) -> (v: u32)
        ensures
            v == self.spec_value(),
    {
        match *self {
            IndentCount::IndentToQuote(n) => n,
            IndentCount::IndentToPre(n) => n,
        }
    }

    /// The indent level this count stands for under the given indent width.
    pub fn level(&self, indent_width: u8) -> (level: u32)
        ensures
            level == indent_level_of(self.spec_value() as int, indent_width as int),
    {
        calculate_indent_level(self.value() as usize, indent_width)
    }
}

/// The wrap options the reflow engine consults.
#[derive(Debug, Clone, Copy)]
pub struct WrapperOption {
    pub allow_line_overflow: bool,
    pub indent_to_quote: bool,
    pub indent_width: u8,
    pub line_width_includes_indent: bool,
    pub line_width: u32,
}

/// The reflow engine. Its anchor fields always reflect the most recently
/// entered element: the 0-indexed line and starting column of that element's
/// opening tag.
#[derive(Debug, Clone, Copy)]
pub struct Wrapper {
    pub option: WrapperOption,
    pub pre_jsx_element_line: u32,
    pub pre_indent_count: u32,
}

/// The width budget a line must fit in: the configured line width, less the
/// indent when the options say the width includes indentation.
pub open spec fn spec_budget(option: WrapperOption, indent_value: u32) -> u32 {
    if option.line_width_includes_indent {
        if indent_value > option.line_width {
            0u32
        } else {
            (option.line_width - indent_value) as u32
        }
    } else {
        option.line_width
    }
}

/// The commands of one line break: inside a JSX expression, a space and a
/// backslash continuation escape come first; then the newline signal; then,
/// for quote-aligned indentation only, explicit spaces up to the quote column.
pub open spec fn break_cmds(context: AttributeContext, indent: IndentCount) -> Seq<Cmd> {
    let escape = if context == AttributeContext::JSXExpression {
        seq![Cmd::Space, Cmd::Text(seq!['\\'])]
    } else {
        Seq::<Cmd>::empty()
    };
    let alignment = match indent {
        IndentCount::IndentToQuote(column) => Seq::new(column as nat, |j: int| Cmd::Space),
        IndentCount::IndentToPre(_) => Seq::<Cmd>::empty(),
    };
    escape + seq![Cmd::NewLine] + alignment
}

/// The commands of one token: its text, preceded by a single space when it
/// continues a line.
pub open spec fn text_cmds(token: Seq<char>, leading_space: bool) -> Seq<Cmd> {
    if leading_space {
        seq![Cmd::Space, Cmd::Text(token)]
    } else {
        seq![Cmd::Text(token)]
    }
}

/// The accumulated width if `token` joins the current line: the running
/// width, plus the token's width, plus one reserved separating space.
/// Widths saturate at `u32::MAX`, which exceeds every configurable budget.
pub open spec fn spec_next_width(cur: u32, token: Seq<char>) -> u32 {
    sat_u32(cur as int + token.len() as int + 1)
}

/// The commands emitted for `tokens[i..]` when the running width is `cur`.
/// For each token in order: if it fits the budget, it joins the current line;
/// if it does not and overflow is allowed, it still joins and a break follows
/// it (unless it is last); otherwise a break comes first and the token starts
/// the new line.
pub open spec fn wrap_from(
    option: WrapperOption,
    indent: IndentCount,
    context: AttributeContext,
    tokens: Seq<Seq<char>>,
    i: int,
    cur: u32,
) -> Seq<Cmd>
    decreases tokens.len() - i,
{
    if i < 0 || i >= tokens.len() {
        Seq::<Cmd>::empty()
    } else {
        let next = spec_next_width(cur, tokens[i]);
        let exceeds = next > spec_budget(option, indent.spec_value());
        if !exceeds {
            text_cmds(tokens[i], i > 0) + wrap_from(option, indent, context, tokens, i + 1, next)
        } else if option.allow_line_overflow {
            text_cmds(tokens[i], cur > 0) + (if i + 1 < tokens.len() {
                break_cmds(context, indent)
            } else {
                Seq::<Cmd>::empty()
            }) + wrap_from(option, indent, context, tokens, i + 1, 0u32)
        } else {
            break_cmds(context, indent) + text_cmds(tokens[i], false) + wrap_from(
                option,
                indent,
                context,
                tokens,
                i + 1,
                sat_u32(tokens[i].len() as int),
            )
        }
    }
}

/// All commands for wrapping `tokens`, the width account starting at the
/// column where the value's first character already stands.
pub open spec fn wrap_cmds(
    option: WrapperOption,
    indent: IndentCount,
    context: AttributeContext,
    tokens: Seq<Seq<char>>,
    first_line_column: u32,
) -> Seq<Cmd> {
    wrap_from(option, indent, context, tokens, 0, first_line_column)
}

/// `level` nested indent scopes around a fragment; an empty fragment stays
/// empty.
pub open spec fn indent_scope(cmds: Seq<Cmd>, level: nat) -> Seq<Cmd> {
    if cmds.len() == 0 {
        cmds
    } else {
        Seq::new(level, |j: int| Cmd::StartIndent) + cmds + Seq::new(
            level,
            |j: int| Cmd::FinishIndent,
        )
    }
}

/// Saturating addition on `u32`.
pub fn sat_add_u32(a: u32, b: u32) -> (r: u32)
    ensures
        r == sat_u32(a as int + b as int),
{
    if a > u32::MAX - b {
        u32::MAX
    } else {
        a + b
    }
}

/// Append `count` explicit single-space commands.
pub fn append_spaces(items: &mut Vec<Command>, count: u32)
    ensures
        cmd_seq(final(items)@) == cmd_seq(old(items)@) + Seq::new(count as nat, |j: int| Cmd::Space),
{
    let mut k: u32 = 0;
    while k < count
        invariant
            k <= count,
            cmd_seq(items@) == cmd_seq(old(items)@) + Seq::new(k as nat, |j: int| Cmd::Space),
        decreases count - k,
    {
        let ghost before = items@;
        items.push(Command::Space);
        proof {
            lemma_cmd_seq_push(before, Command::Space);
            assert(cmd_seq(old(items)@) + Seq::new((k + 1) as nat, |j: int| Cmd::Space)
                =~= (cmd_seq(old(items)@) + Seq::new(k as nat, |j: int| Cmd::Space)).push(
                Cmd::Space,
            ));
        }
        k = k + 1;
    }
    proof {
        assert(cmd_seq(old(items)@) + Seq::new(0nat, |j: int| Cmd::Space) =~= cmd_seq(
            old(items)@,
        ));
    }
}

/// Append one token's text, preceded by a single space when asked.
pub fn append_text(items: &mut Vec<Command>, text: &str, leading_space: bool)
    ensures
        cmd_seq(final(items)@) == cmd_seq(old(items)@) + text_cmds(text@, leading_space),
{
    let ghost before = items@;
    if leading_space {
        items.push(Command::Space);
    }
    let ghost mid = items@;
    let cmd = Command::Text(text.to_owned());
    let ghost cmd_snap = cmd;
    items.push(cmd);
    proof {
        if leading_space {
            lemma_cmd_seq_push(before, Command::Space);
        }
        lemma_cmd_seq_push(mid, cmd_snap);
        assert(cmd_seq(items@) =~= cmd_seq(before) + text_cmds(text@, leading_space));
    }
}

/// Append one line break: the continuation escape inside a JSX expression,
/// the newline signal, and explicit alignment spaces for quote-aligned
/// indentation.
pub fn append_break_line(
    items: &mut Vec<Command>,
    context: AttributeContext,
    indent_count: &IndentCount,
)
    ensures
        cmd_seq(final(items)@) == cmd_seq(old(items)@) + break_cmds(context, *indent_count),
{
    let ghost before = items@;
    if context == AttributeContext::JSXExpression {
        items.push(Command::Space);
        let ghost mid = items@;
        let escape = Command::Text("\\".to_owned());
        let ghost escape_snap = escape;
        items.push(escape);
        proof {
            lemma_cmd_seq_push(before, Command::Space);
            lemma_cmd_seq_push(mid, escape_snap);
            reveal_strlit("\\");
            assert("\\"@ =~= seq!['\\']);
        }
    }
    let ghost mid2 = items@;
    items.push(Command::NewLine);
    proof {
        lemma_cmd_seq_push(mid2, Command::NewLine);
    }
    match indent_count {
        IndentCount::IndentToQuote(column) => {
            append_spaces(items, *column);
        },
        IndentCount::IndentToPre(_) => {},
    }
    proof {
        assert(cmd_seq(items@) =~= cmd_seq(before) + break_cmds(context, *indent_count));
    }
}

/// Wrap a fragment in `times` nested indent scopes; an empty fragment is
/// returned unchanged.
pub fn with_indent_times(items: Vec<Command>, times: u32) -> (wrapped: Vec<Command>)
    ensures
        cmd_seq(wrapped@) == indent_scope(cmd_seq(items@), times as nat),
{
    if items.is_empty() {
        return items;
    }
    let mut wrapped: Vec<Command> = Vec::new();
    let mut k: u32 = 0;
    while k < times
        invariant
            k <= times,
            cmd_seq(wrapped@) == Seq::new(k as nat, |j: int| Cmd::StartIndent),
        decreases times - k,
    {
        let ghost before = wrapped@;
        wrapped.push(Command::StartIndent);
        proof {
            lemma_cmd_seq_push(before, Command::StartIndent);
            assert(Seq::new((k + 1) as nat, |j: int| Cmd::StartIndent) =~= Seq::new(
                k as nat,
                |j: int| Cmd::StartIndent,
            ).push(Cmd::StartIndent));
        }
        k = k + 1;
    }
    let ghost inner = items@;
    let mut items = items;
    wrapped.append(&mut items);
    proof {
        assert(cmd_seq(wrapped@) =~= Seq::new(times as nat, |j: int| Cmd::StartIndent) + cmd_seq(
            inner,
        ));
    }
    let mut k2: u32 = 0;
    while k2 < times
        invariant
            k2 <= times,
            cmd_seq(wrapped@) == Seq::new(times as nat, |j: int| Cmd::StartIndent) + cmd_seq(inner)
                + Seq::new(k2 as nat, |j: int| Cmd::FinishIndent),
        decreases times - k2,
    {
        let ghost before = wrapped@;
        wrapped.push(Command::FinishIndent);
        proof {
            lemma_cmd_seq_push(before, Command::FinishIndent);
            assert(Seq::new(times as nat, |j: int| Cmd::StartIndent) + cmd_seq(inner) + Seq::new(
                (k2 + 1) as nat,
                |j: int| Cmd::FinishIndent,
            ) =~= (Seq::new(times as nat, |j: int| Cmd::StartIndent) + cmd_seq(inner) + Seq::new(
                k2 as nat,
                |j: int| Cmd::FinishIndent,
            )).push(Cmd::FinishIndent));
        }
        k2 = k2 + 1;
    }
    proof {
        assert(cmd_seq(wrapped@) =~= indent_scope(cmd_seq(inner), times as nat));
    }
    wrapped
}

impl Wrapper {
    pub fn new(option: WrapperOption) -> (w: Self)
        ensures
            w.option == option,
            w.pre_jsx_element_line == 0,
            w.pre_indent_count == 0,
    {
        Self { option, pre_jsx_element_line: 0, pre_indent_count: 0 }
    }

    /// Record the 0-indexed line of the most recently entered element's
    /// opening tag.
    pub fn set_pre_jsx_element_line(&mut self, source_text: &str, node_span_start: usize)
        requires
            node_span_start <= source_text@.len(),
        ensures
            final(self).pre_jsx_element_line == sat_u32(
                line_number_at(source_text@, node_span_start as int),
            ),
            final(self).pre_indent_count == old(self).pre_indent_count,
            final(self).option == old(self).option,
    {
        self.pre_jsx_element_line = calculate_line_number(source_text, node_span_start);
    }

    /// Record the 0-indexed starting column of the most recently entered
    /// element's opening tag.
    pub fn set_pre_indent_count(&mut self, source_text: &str, node_span_start: usize)
        requires
            node_span_start <= source_text@.len(),
        ensures
            final(self).pre_indent_count == sat_u32(
                column_number_at(source_text@, node_span_start as int),
            ),
            final(self).pre_jsx_element_line == old(self).pre_jsx_element_line,
            final(self).option == old(self).option,
    {
        self.pre_indent_count = calculate_column_number(source_text, node_span_start);
    }

    /// The indent for a matched value: the quote column when quote alignment
    /// is configured; otherwise one indent width past the element's column
    /// when the value shares the element's first line, or one indent width
    /// past the attribute name's own column when it does not.
    pub open spec fn spec_parse_indent(self, source: Seq<char>, name_start: int, value_start: int) -> IndentCount {
        if self.option.indent_to_quote {
            IndentCount::IndentToQuote(sat_u32(column_number_at(source, value_start)))
        } else {
            let line = sat_u32(line_number_at(source, value_start));
            if line == self.pre_jsx_element_line {
                IndentCount::IndentToPre(
                    sat_u32(self.pre_indent_count as int + self.option.indent_width as int),
                )
            } else {
                IndentCount::IndentToPre(
                    sat_u32(
                        sat_u32(column_number_at(source, name_start)) as int
                            + self.option.indent_width as int,
                    ),
                )
            }
        }
    }

    fn parse_indent(&self, attr_pos: AttributePos<'_>) -> (indent: IndentCount)
        requires
            attr_pos.wf(),
        ensures
            indent == self.spec_parse_indent(
                attr_pos.source_text@,
                attr_pos.attr_name_span_start as int,
                attr_pos.attr_value_span_start as int,
            ),
    {
        if self.option.indent_to_quote {
            return IndentCount::IndentToQuote(
                calculate_column_number(attr_pos.source_text(), attr_pos.attr_value_span_start()),
            );
        }
        let line = calculate_line_number(attr_pos.source_text(), attr_pos.attr_value_span_start());
        let indent_width = self.option.indent_width as u32;
        let indent_count = if line == self.pre_jsx_element_line {
            sat_add_u32(self.pre_indent_count, indent_width)
        } else {
            sat_add_u32(
                calculate_column_number(attr_pos.source_text(), attr_pos.attr_name_span_start()),
                indent_width,
            )
        };
        IndentCount::IndentToPre(indent_count)
    }

    /// Reflow the raw value text into wrapped commands, width accounting
    /// starting at the column where the value's first character stands.
    #[verifier::rlimit(60)]
    fn wrap_text(
        &self,
        node_text: &str,
        indent_count: &IndentCount,
        first_line_column: u32,
        context: AttributeContext,
    ) -> (items: Vec<Command>)
        ensures
            cmd_seq(items@) == wrap_cmds(
                self.option,
                *indent_count,
                context,
                tokens_of(node_text@),
                first_line_column,
            ),
    {
        let parts = tokenize(node_text, true);
        let ghost toks = tokens_of(node_text@);
        let ghost opt = self.option;
        let ghost indent = *indent_count;
        let n = parts.len();
        let mut items: Vec<Command> = Vec::new();
        if n == 0 {
            proof {
                assert(cmd_seq(items@) =~= wrap_cmds(opt, indent, context, toks, first_line_column));
            }
            return items;
        }
        let last_index = n - 1;
        let mut current_width: u32 = first_line_column;
        let mut i: usize = 0;
        while i < n
            invariant
                i <= n,
                n == toks.len(),
                parts.deep_view() == toks,
                n == parts@.len(),
                opt == self.option,
                indent == *indent_count,
                cmd_seq(items@) + wrap_from(opt, indent, context, toks, i as int, current_width)
                    == wrap_from(opt, indent, context, toks, 0, first_line_column),
                last_index == n - 1,
            decreases n - i,
        {
            let ghost items_before = cmd_seq(items@);
            let ghost tok = toks[i as int];
            let ghost rest = wrap_from(opt, indent, context, toks, i as int, current_width);
            proof {
                assert(parts@[i as int]@ == toks[i as int]);
            }
            let text = parts[i].as_str();
            let text_width = saturate_to_u32(text.unicode_len());
            let next_width = sat_add_u32(sat_add_u32(current_width, text_width), 1);
            proof {
                assert(next_width == spec_next_width(current_width, tok));
            }
            let budget = if self.option.line_width_includes_indent {
                let v = indent_count.value();
                if v > self.option.line_width {
                    0
                } else {
                    self.option.line_width - v
                }
            } else {
                self.option.line_width
            };
            proof {
                assert(budget == spec_budget(opt, indent.spec_value()));
            }
            let exceeds_width = next_width > budget;
            match (exceeds_width, self.option.allow_line_overflow) {
                (true, true) => {
                    append_text(&mut items, text, current_width > 0);
                    let had_more = i < last_index;
                    if had_more {
                        append_break_line(&mut items, context, indent_count);
                    }
                    proof {
                        let brk = if i + 1 < toks.len() {
                            break_cmds(context, indent)
                        } else {
                            Seq::<Cmd>::empty()
                        };
                        assert(rest == text_cmds(tok, current_width > 0) + brk + wrap_from(
                            opt,
                            indent,
                            context,
                            toks,
                            i + 1,
                            0u32,
                        ));
                        if !had_more {
                            assert(cmd_seq(items@) =~= items_before + (text_cmds(
                                tok,
                                current_width > 0,
                            ) + brk));
                        }
                        assert(cmd_seq(items@) + wrap_from(opt, indent, context, toks, i + 1, 0u32)
                            =~= items_before + rest);
                    }
                    current_width = 0;
                },
                (true, false) => {
                    append_break_line(&mut items, context, indent_count);
                    append_text(&mut items, text, false);
                    proof {
                        assert(rest == break_cmds(context, indent) + text_cmds(tok, false)
                            + wrap_from(
                            opt,
                            indent,
                            context,
                            toks,
                            i + 1,
                            sat_u32(tok.len() as int),
                        ));
                        assert(cmd_seq(items@) + wrap_from(
                            opt,
                            indent,
                            context,
                            toks,
                            i + 1,
                            sat_u32(tok.len() as int),
                        ) =~= items_before + rest);
                    }
                    current_width = text_width;
                },
                (false, _) => {
                    append_text(&mut items, text, i > 0);
                    proof {
                        assert(rest == text_cmds(tok, i > 0) + wrap_from(
                            opt,
                            indent,
                            context,
                            toks,
                            i + 1,
                            spec_next_width(current_width, tok),
                        ));
                        assert(cmd_seq(items@) + wrap_from(
                            opt,
                            indent,
                            context,
                            toks,
                            i + 1,
                            spec_next_width(current_width, tok),
                        ) =~= items_before + rest);
                    }
                    current_width = next_width;
                },
            }
            i = i + 1;
        }
        proof {
            assert(wrap_from(opt, indent, context, toks, n as int, current_width)
                == Seq::<Cmd>::empty());
            assert(cmd_seq(items@) + Seq::<Cmd>::empty() =~= cmd_seq(items@));
        }
        items
    }

    /// The full command sequence for one matched attribute value.
    pub open spec fn spec_format(
        self,
        node_text: Seq<char>,
        source: Seq<char>,
        name_start: int,
        value_start: int,
        context: AttributeContext,
    ) -> Seq<Cmd> {
        let indent = self.spec_parse_indent(source, name_start, value_start);
        let column = sat_u32(column_number_at(source, value_start));
        let wrapped = wrap_cmds(self.option, indent, context, tokens_of(node_text), column);
        if self.option.indent_to_quote {
            wrapped
        } else {
            indent_scope(
                wrapped,
                indent_level_of(indent.spec_value() as int, self.option.indent_width as int) as nat,
            )
        }
    }

    /// Wrap one matched attribute value. Quote-aligned output already carries
    /// its alignment as explicit spaces; element-aligned output is wrapped in
    /// one indent scope per indent level.
    pub fn format(
        &self,
        node_text: &str,
        attr_pos: AttributePos<'_>,
        context: AttributeContext,
    ) -> (items: Vec<Command>)
        requires
            attr_pos.wf(),
        ensures
            cmd_seq(items@) == self.spec_format(
                node_text@,
                attr_pos.source_text@,
                attr_pos.attr_name_span_start as int,
                attr_pos.attr_value_span_start as int,
                context,
            ),
    {
        let indent_count = self.parse_indent(attr_pos);
        let attr_value_column = calculate_column_number(
            attr_pos.source_text(),
            attr_pos.attr_value_span_start(),
        );
        let wrapped_items = self.wrap_text(node_text, &indent_count, attr_value_column, context);
        if self.option.indent_to_quote {
            wrapped_items
        } else {
            with_indent_times(wrapped_items, indent_count.level(self.option.indent_width))
        }
    }
}

} // verus!
