//! The earlier generation of the attribute locator, paired with the legacy
//! reflow engine. Unlike the current locator it keeps a value-context flag on
//! the engine itself, and it demands well-formed, document-ordered events
//! rather than skipping malformed ones.

use vstd::prelude::*;
use vstd::string::StrSliceExecFns;

use crate::commands::{cmd_seq, lemma_cmd_seq_push, Cmd, Command};
use crate::configuration::{contains_name, Configuration};
use crate::position::{column_number_at, indent_level_of, line_number_at};
use crate::tokens::{raw_tokens_of, str_eq};
use crate::tw_wrapper::TailwindWrapper;
use crate::visitor::{clip, value_span_of, AttributeContext, AttributeValue};

verus! {

/// The value context of the attribute currently being printed.
#[derive(Debug, Clone, Copy, PartialEq, Eq, Structural)]
pub enum PrintKind {
    StringLiteral,
    JSXExpression,
    Inactive,
}

/// Whether the legacy locator treats an attribute event as matched: its name
/// is configured and its value is a supported string-literal shape.
pub open spec fn tw_attr_matched(
    config: Configuration,
    name: Seq<char>,
    value: Option<AttributeValue>,
) -> bool {
    &&& contains_name(config.classname_attributes.deep_view(), name)
    &&& value_span_of(value) is Some
}

/// What the legacy locator demands of an attribute event: a matched name
/// comes with a value; a supported value lies in document order within the
/// source and, when a reflow engine is installed, holds at least one token.
pub open spec fn tw_attr_req(
    config: Configuration,
    wrapper: Option<TailwindWrapper>,
    source: Seq<char>,
    last_offset: int,
    name: Seq<char>,
    name_start: int,
    value: Option<AttributeValue>,
) -> bool {
    contains_name(config.classname_attributes.deep_view(), name) ==> {
        &&& value is Some
        &&& match value_span_of(value) {
            Some((value_start, value_end, _)) => {
                &&& last_offset <= value_start <= value_end <= source.len()
                &&& name_start <= source.len()
                &&& (wrapper is Some ==> raw_tokens_of(
                    source.subrange(value_start, value_end),
                ).len() > 0)
            },
            None => true,
        }
    }
}

/// The engine state a matched value is wrapped under: the expression flag
/// raised inside an expression container.
pub open spec fn tw_effective(w: TailwindWrapper, context: AttributeContext) -> TailwindWrapper {
    if context == AttributeContext::JSXExpression {
        TailwindWrapper { jsxexpression: true, ..w }
    } else {
        w
    }
}

/// The commands an attribute event appends under the legacy locator.
pub open spec fn tw_attr_cmds(
    config: Configuration,
    wrapper: Option<TailwindWrapper>,
    source: Seq<char>,
    last_offset: int,
    name: Seq<char>,
    name_start: int,
    value: Option<AttributeValue>,
) -> Seq<Cmd> {
    if tw_attr_matched(config, name, value) {
        match value_span_of(value) {
            Some((value_start, value_end, context)) => {
                let pre = seq![Cmd::Text(source.subrange(last_offset, value_start))];
                let raw = source.subrange(value_start, value_end);
                let wrapped = match wrapper {
                    Some(w) => tw_effective(w, context).spec_format(
                        raw,
                        source,
                        name_start,
                        value_start,
                    ),
                    None => seq![Cmd::Text(raw)],
                };
                pre + wrapped
            },
            None => Seq::<Cmd>::empty(),
        }
    } else {
        Seq::<Cmd>::empty()
    }
}

/// The pass-through cursor after an attribute event under the legacy
/// locator.
pub open spec fn tw_attr_offset(
    config: Configuration,
    source: Seq<char>,
    last_offset: int,
    name: Seq<char>,
    value: Option<AttributeValue>,
) -> int {
    if tw_attr_matched(config, name, value) {
        match value_span_of(value) {
            Some((value_start, value_end, _)) => value_end,
            None => last_offset,
        }
    } else {
        last_offset
    }
}

/// The engine state after an attribute event: the expression flag is lowered
/// again after a value inside an expression container.
pub open spec fn tw_attr_wrapper(
    config: Configuration,
    wrapper: Option<TailwindWrapper>,
    name: Seq<char>,
    value: Option<AttributeValue>,
) -> Option<TailwindWrapper> {
    if tw_attr_matched(config, name, value) {
        match (value_span_of(value), wrapper) {
            (Some((_, _, AttributeContext::JSXExpression)), Some(w)) => Some(
                TailwindWrapper { jsxexpression: false, ..w },
            ),
            _ => wrapper,
        }
    } else {
        wrapper
    }
}

/// The print kind after an attribute event.
pub open spec fn tw_attr_kind(
    config: Configuration,
    kind: PrintKind,
    name: Seq<char>,
    value: Option<AttributeValue>,
) -> PrintKind {
    if tw_attr_matched(config, name, value) {
        match value_span_of(value) {
            Some((_, _, AttributeContext::JSXExpression)) => PrintKind::JSXExpression,
            Some(_) => PrintKind::StringLiteral,
            None => kind,
        }
    } else {
        kind
    }
}

/// The legacy engine's anchor state after entering an element.
pub open spec fn tw_element_step(
    wrapper: Option<TailwindWrapper>,
    source: Seq<char>,
    span_start: int,
) -> Option<TailwindWrapper> {
    match wrapper {
        Some(w) => Some(
            TailwindWrapper {
                pre_jsx_element_line: line_number_at(
                    source,
                    clip(span_start, source.len() as int),
                ) as usize,
                pre_indent_level: indent_level_of(
                    column_number_at(source, clip(span_start, source.len() as int)),
                    w.option.indent_width as int,
                ) as u32,
                ..w
            },
        ),
        None => None,
    }
}

/// The legacy attribute locator.
pub struct TailwindVisitor<'a> {
    pub source_text: &'a str,
    pub print_items: Vec<Command>,
    pub wrapper: Option<TailwindWrapper>,
    pub last_offset: usize,
    pub config: &'a Configuration,
    pub print_kind: PrintKind,
}

impl<'a> TailwindVisitor<'a> {
    /// The cursor lies within the source.
    pub open spec fn wf(&self) -> bool {
        self.last_offset <= self.source_text@.len()
    }

    pub fn new(source_text: &'a str, config: &'a Configuration) -> (v: Self)
        ensures
            v.source_text == source_text,
            v.print_items@ == Seq::<Command>::empty(),
            v.wrapper is None,
            v.last_offset == 0,
            v.config == config,
            v.print_kind == PrintKind::Inactive,
            v.wf(),
    {
        Self {
            source_text,
            print_items: Vec::new(),
            wrapper: None,
            last_offset: 0,
            config,
            print_kind: PrintKind::Inactive,
        }
    }

    #[must_use]
    pub fn with_wrapper(self, wrapper: Option<TailwindWrapper>) -> (v: Self)
        ensures
            v == (TailwindVisitor { wrapper, ..self }),
    {
        TailwindVisitor { wrapper, ..self }
    }

    /// Hand over the commands produced so far.
    #[must_use]
    pub fn print_items(self) -> (items: Vec<Command>)
        ensures
            items == self.print_items,
    {
        self.print_items
    }

    /// Whether the attribute name is one of the configured eligible names.
    fn match_attr(&self, target: &str) -> (r: bool)
        ensures
            r == contains_name(self.config.classname_attributes.deep_view(), target@),
    {
        let n = self.config.classname_attributes.len();
        let mut i: usize = 0;
        while i < n
            invariant
                i <= n,
                n == self.config.classname_attributes@.len(),
                forall|j: int|
                    0 <= j < i ==> self.config.classname_attributes.deep_view()[j] != target@,
            decreases n - i,
        {
            if str_eq(self.config.classname_attributes[i].as_str(), target) {
                proof {
                    assert(self.config.classname_attributes.deep_view()[i as int] == target@);
                }
                return true;
            }
            i = i + 1;
        }
        false
    }

    /// Emit the verbatim text between the cursor and a matched value, and
    /// advance the cursor past the value.
    fn print_pre_text(&mut self, span_start: usize, span_end: usize)
        requires
            old(self).wf(),
            old(self).last_offset <= span_start <= old(self).source_text@.len(),
            span_end <= old(self).source_text@.len(),
        ensures
            cmd_seq(final(self).print_items@) == cmd_seq(old(self).print_items@).push(
                Cmd::Text(
                    old(self).source_text@.subrange(
                        old(self).last_offset as int,
                        span_start as int,
                    ),
                ),
            ),
            final(self).last_offset == span_end,
            final(self).source_text == old(self).source_text,
            final(self).wrapper == old(self).wrapper,
            final(self).config == old(self).config,
            final(self).print_kind == old(self).print_kind,
            final(self).wf(),
    {
        let ghost before = self.print_items@;
        let pre_text = self.source_text.substring_char(self.last_offset, span_start);
        let cmd = Command::Text(pre_text.to_owned());
        let ghost cmd_snap = cmd;
        self.print_items.push(cmd);
        self.last_offset = span_end;
        proof {
            lemma_cmd_seq_push(before, cmd_snap);
        }
    }

    /// Emit the wrapped form of a matched value, raising the engine's
    /// expression flag around a value inside an expression container.
    fn print_current_text(
        &mut self,
        text: &str,
        attr_name_span_start: usize,
        attr_value_span_start: usize,
    )
        requires
            attr_name_span_start <= old(self).source_text@.len(),
            attr_value_span_start <= old(self).source_text@.len(),
            old(self).wrapper is Some ==> raw_tokens_of(text@).len() > 0,
        ensures
            cmd_seq(final(self).print_items@) == cmd_seq(old(self).print_items@) + (match old(
                self,
            ).wrapper {
                Some(w) => (if old(self).print_kind == PrintKind::JSXExpression {
                    TailwindWrapper { jsxexpression: true, ..w }
                } else {
                    w
                }).spec_format(
                    text@,
                    old(self).source_text@,
                    attr_name_span_start as int,
                    attr_value_span_start as int,
                ),
                None => seq![Cmd::Text(text@)],
            }),
            final(self).wrapper == (match old(self).wrapper {
                Some(w) => if old(self).print_kind == PrintKind::JSXExpression {
                    Some(TailwindWrapper { jsxexpression: false, ..w })
                } else {
                    Some(w)
                },
                None => None,
            }),
            final(self).last_offset == old(self).last_offset,
            final(self).source_text == old(self).source_text,
            final(self).config == old(self).config,
            final(self).print_kind == old(self).print_kind,
    {
        let ghost before = self.print_items@;
        let source = self.source_text;
        match self.wrapper {
            Some(mut wrapper) => {
                if self.print_kind == PrintKind::JSXExpression {
                    wrapper.enter_jsxexpression();
                }
                let mut cmds = wrapper.format(
                    text,
                    source,
                    attr_name_span_start,
                    attr_value_span_start,
                );
                let ghost produced = cmds@;
                if self.print_kind == PrintKind::JSXExpression {
                    wrapper.leave_jsxexpression();
                }
                self.wrapper = Some(wrapper);
                self.print_items.append(&mut cmds);
                proof {
                    assert(cmd_seq(self.print_items@) =~= cmd_seq(before) + cmd_seq(produced));
                }
            },
            None => {
                let cmd = Command::Text(text.to_owned());
                let ghost cmd_snap = cmd;
                self.print_items.push(cmd);
                proof {
                    lemma_cmd_seq_push(before, cmd_snap);
                    assert(cmd_seq(before).push(cmd_snap@) =~= cmd_seq(before) + seq![
                        Cmd::Text(text@),
                    ]);
                }
            },
        }
    }

    /// Emit everything from the cursor to the end of the source, verbatim.
    /// Call once, after the last event of the traversal.
    pub fn print_post_text(&mut self)
        requires
            old(self).wf(),
        ensures
            cmd_seq(final(self).print_items@) == cmd_seq(old(self).print_items@).push(
                Cmd::Text(
                    old(self).source_text@.subrange(
                        old(self).last_offset as int,
                        old(self).source_text@.len() as int,
                    ),
                ),
            ),
            final(self).last_offset == old(self).last_offset,
            final(self).source_text == old(self).source_text,
            final(self).wrapper == old(self).wrapper,
            final(self).config == old(self).config,
            final(self).print_kind == old(self).print_kind,
    {
        let ghost before = self.print_items@;
        let end = self.source_text.unicode_len();
        let post_text = self.source_text.substring_char(self.last_offset, end);
        let cmd = Command::Text(post_text.to_owned());
        let ghost cmd_snap = cmd;
        self.print_items.push(cmd);
        proof {
            lemma_cmd_seq_push(before, cmd_snap);
        }
    }

    /// Re-capture the legacy engine's anchors at an element's opening tag.
    /// An offset past the end of the document is clamped to the end.
    pub fn visit_jsx_element(&mut self, node_span_start: usize)
        ensures
            final(self).wrapper == tw_element_step(
                old(self).wrapper,
                old(self).source_text@,
                node_span_start as int,
            ),
            final(self).print_items == old(self).print_items,
            final(self).last_offset == old(self).last_offset,
            final(self).source_text == old(self).source_text,
            final(self).config == old(self).config,
            final(self).print_kind == old(self).print_kind,
    {
        let source = self.source_text;
        let len = source.unicode_len();
        let pos = if node_span_start > len {
            len
        } else {
            node_span_start
        };
        match self.wrapper {
            Some(mut w) => {
                w.set_pre_jsx_element_line(source, pos);
                w.set_pre_indent_level(source, pos);
                self.wrapper = Some(w);
            },
            None => {},
        }
    }

    /// Visit one attribute: wrap its value when its name is configured and
    /// its value is a supported string-literal shape.
    pub fn visit_jsx_attribute(
        &mut self,
        name: &str,
        name_span_start: usize,
        value: &Option<AttributeValue>,
    )
        requires
            old(self).wf(),
            tw_attr_req(
                *old(self).config,
                old(self).wrapper,
                old(self).source_text@,
                old(self).last_offset as int,
                name@,
                name_span_start as int,
                *value,
            ),
        ensures
            cmd_seq(final(self).print_items@) == cmd_seq(old(self).print_items@) + tw_attr_cmds(
                *old(self).config,
                old(self).wrapper,
                old(self).source_text@,
                old(self).last_offset as int,
                name@,
                name_span_start as int,
                *value,
            ),
            final(self).last_offset == tw_attr_offset(
                *old(self).config,
                old(self).source_text@,
                old(self).last_offset as int,
                name@,
                *value,
            ),
            final(self).wrapper == tw_attr_wrapper(
                *old(self).config,
                old(self).wrapper,
                name@,
                *value,
            ),
            final(self).print_kind == tw_attr_kind(
                *old(self).config,
                old(self).print_kind,
                name@,
                *value,
            ),
            final(self).source_text == old(self).source_text,
            final(self).config == old(self).config,
            final(self).wf(),
    {
        let ghost before = cmd_seq(self.print_items@);
        let matched = self.match_attr(name);
        if matched {
            match value {
                Some(AttributeValue::StringLiteral { span_start, span_end }) => {
                    self.print_kind = PrintKind::StringLiteral;
                    let source = self.source_text;
                    let raw_text = source.substring_char(*span_start, *span_end);
                    self.print_pre_text(*span_start, *span_end);
                    self.print_current_text(raw_text, name_span_start, *span_start);
                },
                Some(AttributeValue::ExpressionStringLiteral { span_start, span_end }) => {
                    self.print_kind = PrintKind::JSXExpression;
                    let source = self.source_text;
                    let raw_text = source.substring_char(*span_start, *span_end);
                    self.print_pre_text(*span_start, *span_end);
                    self.print_current_text(raw_text, name_span_start, *span_start);
                },
                Some(AttributeValue::Unsupported) => {
                    proof {
                        assert(before + Seq::<Cmd>::empty() =~= before);
                    }
                },
                None => {
                    proof {
                        assert(before + Seq::<Cmd>::empty() =~= before);
                    }
                },
            }
        } else {
            proof {
                assert(before + Seq::<Cmd>::empty() =~= before);
            }
        }
    }
}

} // verus!
