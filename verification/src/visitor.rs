//! The attribute locator: walks a document in source order, matches eligible
//! attributes, hands matched values to the reflow engine, and reproduces all
//! other text verbatim.

use vstd::prelude::*;
use vstd::string::StrSliceExecFns;

use crate::commands::{cmd_seq, lemma_cmd_seq_push, Cmd, Command};
use crate::configuration::{contains_name, Configuration};
use crate::position::{column_number_at, line_number_at, sat_u32};
use crate::tokens::str_eq;
use crate::wrapper::{Wrapper, WrapperOption};

verus! {

/// Where a matched attribute value lives: a bare string literal, or a string
/// literal inside a `{ ... }` expression container (which needs a backslash
/// continuation escape before each inserted newline).
#[derive(Debug, Clone, Copy, PartialEq, Eq, Structural)]
pub enum AttributeContext {
    StringLiteral,
    JSXExpression,
}

/// Positional context for one matched attribute: the source text and the
/// character offsets where the attribute's name and value begin.
#[derive(Debug, Clone, Copy)]
pub struct AttributePos<'a> {
    pub source_text: &'a str,
    pub attr_name_span_start: usize,
    pub attr_value_span_start: usize,
}

impl<'a> AttributePos<'a> {
    /// Both offsets lie within the source text.
    pub open spec fn wf(&self) -> bool {
        &&& self.attr_name_span_start <= self.source_text@.len()
        &&& self.attr_value_span_start <= self.source_text@.len()
    }

    pub fn new(
        source_text: &'a str,
        attr_name_span_start: usize,
        attr_value_span_start: usize,
    ) -> (r: Self)
        ensures
            r.source_text == source_text,
            r.attr_name_span_start == attr_name_span_start,
            r.attr_value_span_start == attr_value_span_start,
    {
        Self { source_text, attr_name_span_start, attr_value_span_start }
    }

    pub fn source_text(&self) -> (r: &'a str)
        ensures
            r == self.source_text,
    {
        self.source_text
    }

    pub fn attr_name_span_start(&self) -> (r: usize)
        ensures
            r == self.attr_name_span_start,
    {
        self.attr_name_span_start
    }

    pub fn attr_value_span_start(&self) -> (r: usize)
        ensures
            r == self.attr_value_span_start,
    {
        self.attr_value_span_start
    }
}

/// The shape of an attribute's value, as the parser reports it: a plain
/// string literal, a string literal that is the sole expression of an
/// expression container, or anything else. Spans are character offsets and
/// cover the literal including its quotes.
#[derive(Debug, Clone, Copy, PartialEq, Eq, Structural)]
pub enum AttributeValue {
    StringLiteral { span_start: usize, span_end: usize },
    ExpressionStringLiteral { span_start: usize, span_end: usize },
    Unsupported,
}

/// One step of a depth-first, document-order traversal: entering a markup
/// element, or visiting one of its attributes.
#[derive(Debug, Clone)]
pub enum DocEvent {
    EnterElement { span_start: usize },
    Attribute { name: String, name_span_start: usize, value: Option<AttributeValue> },
}

/// The value span and context of a supported attribute value shape.
pub open spec fn value_span_of(value: Option<AttributeValue>) -> Option<(int, int, AttributeContext)> {
    match value {
        Some(AttributeValue::StringLiteral { span_start, span_end }) => Some(
            (span_start as int, span_end as int, AttributeContext::StringLiteral),
        ),
        Some(AttributeValue::ExpressionStringLiteral { span_start, span_end }) => Some(
            (span_start as int, span_end as int, AttributeContext::JSXExpression),
        ),
        _ => None,
    }
}

/// Whether an attribute event is matched: its name is configured, its value
/// is a supported string-literal shape, and its offsets lie in document
/// order within the source. An event whose offsets do not is left entirely
/// to verbatim pass-through.
pub open spec fn attr_is_match(
    config: Configuration,
    source: Seq<char>,
    last_offset: int,
    name: Seq<char>,
    name_start: int,
    value: Option<AttributeValue>,
) -> bool {
    &&& contains_name(config.classname_attributes.deep_view(), name)
    &&& match value_span_of(value) {
        Some((value_start, value_end, _)) => {
            &&& last_offset <= value_start <= value_end <= source.len()
            &&& name_start <= source.len()
        },
        None => false,
    }
}

/// The commands an attribute event appends: nothing for an unmatched one;
/// for a matched one, the verbatim text from the cursor up to the value,
/// then the wrapped value (or, with no reflow engine, the raw value
/// verbatim).
/// The commands a matched value's wrapped form consists of: the reflow
/// engine's output, or the raw value verbatim when no engine is installed.
pub open spec fn attr_wrapped_cmds(
    wrapper: Option<Wrapper>,
    source: Seq<char>,
    name_start: int,
    value_start: int,
    value_end: int,
    context: AttributeContext,
) -> Seq<Cmd> {
    let raw = source.subrange(value_start, value_end);
    match wrapper {
        Some(w) => w.spec_format(raw, source, name_start, value_start, context),
        None => seq![Cmd::Text(raw)],
    }
}

pub open spec fn attr_cmds(
    config: Configuration,
    wrapper: Option<Wrapper>,
    source: Seq<char>,
    last_offset: int,
    name: Seq<char>,
    name_start: int,
    value: Option<AttributeValue>,
) -> Seq<Cmd> {
    if attr_is_match(config, source, last_offset, name, name_start, value) {
        match value_span_of(value) {
            Some((value_start, value_end, context)) => seq![
                Cmd::Text(source.subrange(last_offset, value_start)),
            ] + attr_wrapped_cmds(wrapper, source, name_start, value_start, value_end, context),
            None => Seq::<Cmd>::empty(),
        }
    } else {
        Seq::<Cmd>::empty()
    }
}

/// The pass-through cursor after an attribute event: the end of a matched
/// value's span, or unchanged.
pub open spec fn attr_new_offset(
    config: Configuration,
    source: Seq<char>,
    last_offset: int,
    name: Seq<char>,
    name_start: int,
    value: Option<AttributeValue>,
) -> int {
    if attr_is_match(config, source, last_offset, name, name_start, value) {
        match value_span_of(value) {
            Some((value_start, value_end, _)) => value_end,
            None => last_offset,
        }
    } else {
        last_offset
    }
}

/// Clamp an offset into the document.
pub open spec fn clip(pos: int, len: int) -> int {
    if pos > len {
        len
    } else {
        pos
    }
}

/// The reflow engine's anchor state after entering an element: both anchors
/// re-captured at the element's opening tag (most-recent-wins).
pub open spec fn element_step_wrapper(
    wrapper: Option<Wrapper>,
    source: Seq<char>,
    span_start: int,
) -> Option<Wrapper> {
    match wrapper {
        Some(w) => Some(
            Wrapper {
                option: w.option,
                pre_jsx_element_line: sat_u32(
                    line_number_at(source, clip(span_start, source.len() as int)),
                ),
                pre_indent_count: sat_u32(
                    column_number_at(source, clip(span_start, source.len() as int)),
                ),
            },
        ),
        None => None,
    }
}

/// The locator's state, as a model of a traversal in progress: the commands
/// emitted so far, the pass-through cursor, and the reflow engine's anchors.
pub struct VisitorState {
    pub cmds: Seq<Cmd>,
    pub last_offset: int,
    pub wrapper: Option<Wrapper>,
}

/// One traversal event applied to the model.
pub open spec fn event_step(
    config: Configuration,
    source: Seq<char>,
    st: VisitorState,
    event: DocEvent,
) -> VisitorState {
    match event {
        DocEvent::EnterElement { span_start } => VisitorState {
            wrapper: element_step_wrapper(st.wrapper, source, span_start as int),
            ..st
        },
        DocEvent::Attribute { name, name_span_start, value } => VisitorState {
            cmds: st.cmds + attr_cmds(
                config,
                st.wrapper,
                source,
                st.last_offset,
                name@,
                name_span_start as int,
                value,
            ),
            last_offset: attr_new_offset(
                config,
                source,
                st.last_offset,
                name@,
                name_span_start as int,
                value,
            ),
            ..st
        },
    }
}

/// All traversal events applied in order.
pub open spec fn run_events(
    config: Configuration,
    source: Seq<char>,
    st: VisitorState,
    events: Seq<DocEvent>,
) -> VisitorState
    decreases events.len(),
{
    if events.len() == 0 {
        st
    } else {
        run_events(config, source, event_step(config, source, st, events[0]), events.drop_first())
    }
}

/// The wrap options the configuration stands for.
pub open spec fn wrap_option_of(config: Configuration) -> WrapperOption {
    WrapperOption {
        allow_line_overflow: config.allow_line_overflow,
        indent_to_quote: config.indent_to_quote,
        indent_width: config.indent_width,
        line_width_includes_indent: config.line_width_includes_indent,
        line_width: config.line_width,
    }
}

/// The reflow engine a traversal starts with: present exactly when wrapping
/// is enabled, anchors zeroed.
pub open spec fn initial_wrapper(config: Configuration) -> Option<Wrapper> {
    if config.enable_wrap {
        Some(
            Wrapper {
                option: wrap_option_of(config),
                pre_jsx_element_line: 0,
                pre_indent_count: 0,
            },
        )
    } else {
        None
    }
}

/// The model of a traversal about to begin.
pub open spec fn initial_state(config: Configuration) -> VisitorState {
    VisitorState { cmds: Seq::<Cmd>::empty(), last_offset: 0, wrapper: initial_wrapper(config) }
}

/// The full command sequence for a document: the traversal's commands,
/// closed by one verbatim command for everything after the last matched
/// value.
pub open spec fn doc_cmds(config: Configuration, source: Seq<char>, events: Seq<DocEvent>) -> Seq<
    Cmd,
> {
    let st = run_events(config, source, initial_state(config), events);
    st.cmds + seq![Cmd::Text(source.subrange(st.last_offset, source.len() as int))]
}

/// Running one more event steps the model once.
pub proof fn lemma_run_snoc(
    config: Configuration,
    source: Seq<char>,
    st: VisitorState,
    events: Seq<DocEvent>,
    event: DocEvent,
)
    ensures
        run_events(config, source, st, events.push(event)) == event_step(
            config,
            source,
            run_events(config, source, st, events),
            event,
        ),
    decreases events.len(),
{
    if events.len() == 0 {
        assert(events.push(event)[0] == event);
        assert(events.push(event).drop_first() =~= Seq::<DocEvent>::empty());
        assert(run_events(
            config,
            source,
            event_step(config, source, st, event),
            Seq::<DocEvent>::empty(),
        ) == event_step(config, source, st, event));
        assert(run_events(config, source, st, events) == st);
    } else {
        assert(events.push(event)[0] == events[0]);
        assert(events.push(event).drop_first() =~= events.drop_first().push(event));
        lemma_run_snoc(
            config,
            source,
            event_step(config, source, st, events[0]),
            events.drop_first(),
            event,
        );
        assert(run_events(config, source, st, events.push(event)) == run_events(
            config,
            source,
            event_step(config, source, st, events[0]),
            events.drop_first().push(event),
        ));
        assert(run_events(config, source, st, events) == run_events(
            config,
            source,
            event_step(config, source, st, events[0]),
            events.drop_first(),
        ));
    }
}

/// The pass-through cursor never leaves the document.
pub proof fn lemma_run_offset_bounds(
    config: Configuration,
    source: Seq<char>,
    st: VisitorState,
    events: Seq<DocEvent>,
)
    requires
        0 <= st.last_offset <= source.len(),
    ensures
        0 <= run_events(config, source, st, events).last_offset <= source.len(),
    decreases events.len(),
{
    if events.len() > 0 {
        lemma_run_offset_bounds(
            config,
            source,
            event_step(config, source, st, events[0]),
            events.drop_first(),
        );
    }
}

/// The attribute locator. It owns the commands produced so far and a cursor
/// over the source; everything between matched values passes through it
/// verbatim.
pub struct Visitor<'a> {
    pub source_text: &'a str,
    pub print_items: Vec<Command>,
    pub wrapper: Option<Wrapper>,
    pub last_offset: usize,
    pub config: &'a Configuration,
}

impl<'a> Visitor<'a> {
    /// The cursor lies within the source.
    pub open spec fn wf(&self) -> bool {
        self.last_offset <= self.source_text@.len()
    }

    pub fn new(source_text: &'a str, config: &'a Configuration) -> (v: Self)
        ensures
            v.source_text == source_text,
            v.print_items@ == Seq::<Command>::empty(),
            v.wrapper is None,
            v.last_offset == 0,
            v.config == config,
            v.wf(),
    {
        Self { source_text, print_items: Vec::new(), wrapper: None, last_offset: 0, config }
    }

    #[must_use]
    pub fn with_wrapper(self, wrapper: Option<Wrapper>) -> (v: Self)
        ensures
            v == (Visitor { wrapper, ..self }),
    {
        Visitor { wrapper, ..self }
    }

    /// Hand over the commands produced so far.
    #[must_use]
    pub fn print_items(self) -> (items: Vec<Command>)
        ensures
            items == self.print_items,
    {
        self.print_items
    }

    /// Whether the attribute name is one of the configured eligible names.
    fn match_attr(&self, target: &str) -> (r: bool)
        ensures
            r == contains_name(self.config.classname_attributes.deep_view(), target@),
    {
        let n = self.config.classname_attributes.len();
        let mut i: usize = 0;
        while i < n
            invariant
                i <= n,
                n == self.config.classname_attributes@.len(),
                forall|j: int|
                    0 <= j < i ==> self.config.classname_attributes.deep_view()[j] != target@,
            decreases n - i,
        {
            if str_eq(self.config.classname_attributes[i].as_str(), target) {
                proof {
                    assert(self.config.classname_attributes.deep_view()[i as int] == target@);
                }
                return true;
            }
            i = i + 1;
        }
        false
    }

    /// Emit the verbatim text between the cursor and a matched value, and
    /// advance the cursor past the value.
    fn print_pre_text(&mut self, span_start: usize, span_end: usize)
        requires
            old(self).wf(),
            old(self).last_offset <= span_start <= span_end <= old(self).source_text@.len(),
        ensures
            cmd_seq(final(self).print_items@) == cmd_seq(old(self).print_items@).push(
                Cmd::Text(
                    old(self).source_text@.subrange(
                        old(self).last_offset as int,
                        span_start as int,
                    ),
                ),
            ),
            final(self).last_offset == span_end,
            final(self).source_text == old(self).source_text,
            final(self).wrapper == old(self).wrapper,
            final(self).config == old(self).config,
            final(self).wf(),
    {
        let ghost before = self.print_items@;
        let pre_text = self.source_text.substring_char(self.last_offset, span_start);
        let cmd = Command::Text(pre_text.to_owned());
        let ghost cmd_snap = cmd;
        self.print_items.push(cmd);
        self.last_offset = span_end;
        proof {
            lemma_cmd_seq_push(before, cmd_snap);
        }
    }

    /// Emit the wrapped form of a matched value (or the raw value verbatim
    /// when no reflow engine is installed).
    fn print_current_text(
        &mut self,
        text: &str,
        attr_name_span_start: usize,
        attr_value_span_start: usize,
        context: AttributeContext,
    )
        requires
            attr_name_span_start <= old(self).source_text@.len(),
            attr_value_span_start <= old(self).source_text@.len(),
        ensures
            cmd_seq(final(self).print_items@) == cmd_seq(old(self).print_items@) + (match old(
                self,
            ).wrapper {
                Some(w) => w.spec_format(
                    text@,
                    old(self).source_text@,
                    attr_name_span_start as int,
                    attr_value_span_start as int,
                    context,
                ),
                None => seq![Cmd::Text(text@)],
            }),
            final(self).last_offset == old(self).last_offset,
            final(self).source_text == old(self).source_text,
            final(self).wrapper == old(self).wrapper,
            final(self).config == old(self).config,
    {
        let ghost before = self.print_items@;
        let source = self.source_text;
        match self.wrapper {
            Some(wrapper) => {
                let attr_pos = AttributePos::new(
                    source,
                    attr_name_span_start,
                    attr_value_span_start,
                );
                let mut cmds = wrapper.format(text, attr_pos, context);
                let ghost produced = cmds@;
                self.print_items.append(&mut cmds);
                proof {
                    assert(cmd_seq(self.print_items@) =~= cmd_seq(before) + cmd_seq(produced));
                }
            },
            None => {
                let cmd = Command::Text(text.to_owned());
                let ghost cmd_snap = cmd;
                self.print_items.push(cmd);
                proof {
                    lemma_cmd_seq_push(before, cmd_snap);
                    assert(cmd_seq(before).push(cmd_snap@) =~= cmd_seq(before) + seq![
                        Cmd::Text(text@),
                    ]);
                }
            },
        }
    }

    /// Emit everything from the cursor to the end of the source, verbatim.
    fn print_post_text(&mut self)
        requires
            old(self).wf(),
        ensures
            cmd_seq(final(self).print_items@) == cmd_seq(old(self).print_items@).push(
                Cmd::Text(
                    old(self).source_text@.subrange(
                        old(self).last_offset as int,
                        old(self).source_text@.len() as int,
                    ),
                ),
            ),
            final(self).last_offset == old(self).last_offset,
            final(self).source_text == old(self).source_text,
            final(self).wrapper == old(self).wrapper,
            final(self).config == old(self).config,
    {
        let ghost before = self.print_items@;
        let end = self.source_text.unicode_len();
        let post_text = self.source_text.substring_char(self.last_offset, end);
        let cmd = Command::Text(post_text.to_owned());
        let ghost cmd_snap = cmd;
        self.print_items.push(cmd);
        proof {
            lemma_cmd_seq_push(before, cmd_snap);
        }
    }

    /// Pass a matched value to the reflow engine: the verbatim text before
    /// it first, then its wrapped form.
    fn handle_string_literal(
        &mut self,
        span_start: usize,
        span_end: usize,
        attr_name_span_start: usize,
        context: AttributeContext,
    )
        requires
            old(self).wf(),
            old(self).last_offset <= span_start <= span_end <= old(self).source_text@.len(),
            attr_name_span_start <= old(self).source_text@.len(),
        ensures
            cmd_seq(final(self).print_items@) == cmd_seq(old(self).print_items@) + seq![
                Cmd::Text(
                    old(self).source_text@.subrange(
                        old(self).last_offset as int,
                        span_start as int,
                    ),
                ),
            ] + (match old(self).wrapper {
                Some(w) => w.spec_format(
                    old(self).source_text@.subrange(span_start as int, span_end as int),
                    old(self).source_text@,
                    attr_name_span_start as int,
                    span_start as int,
                    context,
                ),
                None => seq![
                    Cmd::Text(old(self).source_text@.subrange(span_start as int, span_end as int)),
                ],
            }),
            final(self).last_offset == span_end,
            final(self).source_text == old(self).source_text,
            final(self).wrapper == old(self).wrapper,
            final(self).config == old(self).config,
            final(self).wf(),
    {
        let ghost before = cmd_seq(self.print_items@);
        let source = self.source_text;
        let raw_text = source.substring_char(span_start, span_end);
        self.print_pre_text(span_start, span_end);
        self.print_current_text(raw_text, attr_name_span_start, span_start, context);
        proof {
            assert(cmd_seq(self.print_items@) =~= before + seq![
                Cmd::Text(
                    source@.subrange(old(self).last_offset as int, span_start as int),
                ),
            ] + (match old(self).wrapper {
                Some(w) => w.spec_format(
                    source@.subrange(span_start as int, span_end as int),
                    source@,
                    attr_name_span_start as int,
                    span_start as int,
                    context,
                ),
                None => seq![
                    Cmd::Text(source@.subrange(span_start as int, span_end as int)),
                ],
            }));
        }
    }

    /// Re-capture the reflow engine's anchors at an element's opening tag.
    /// An offset past the end of the document is clamped to the end.
    pub fn visit_jsx_element(&mut self, node_span_start: usize)
        ensures
            final(self).wrapper == element_step_wrapper(
                old(self).wrapper,
                old(self).source_text@,
                node_span_start as int,
            ),
            final(self).print_items == old(self).print_items,
            final(self).last_offset == old(self).last_offset,
            final(self).source_text == old(self).source_text,
            final(self).config == old(self).config,
    {
        let source = self.source_text;
        let len = source.unicode_len();
        let pos = if node_span_start > len {
            len
        } else {
            node_span_start
        };
        match self.wrapper {
            Some(mut w) => {
                w.set_pre_jsx_element_line(source, pos);
                w.set_pre_indent_count(source, pos);
                self.wrapper = Some(w);
            },
            None => {},
        }
    }

    /// Visit one attribute: wrap its value when its name is configured, its
    /// value is a supported string-literal shape, and its offsets lie in
    /// document order; otherwise leave it to verbatim pass-through.
    pub fn visit_jsx_attribute(
        &mut self,
        name: &str,
        name_span_start: usize,
        value: &Option<AttributeValue>,
    )
        requires
            old(self).wf(),
        ensures
            cmd_seq(final(self).print_items@) == cmd_seq(old(self).print_items@) + attr_cmds(
                *old(self).config,
                old(self).wrapper,
                old(self).source_text@,
                old(self).last_offset as int,
                name@,
                name_span_start as int,
                *value,
            ),
            final(self).last_offset == attr_new_offset(
                *old(self).config,
                old(self).source_text@,
                old(self).last_offset as int,
                name@,
                name_span_start as int,
                *value,
            ),
            final(self).source_text == old(self).source_text,
            final(self).wrapper == old(self).wrapper,
            final(self).config == old(self).config,
            final(self).wf(),
    {
        let ghost before = cmd_seq(self.print_items@);
        let matched = self.match_attr(name);
        if matched {
            let len = self.source_text.unicode_len();
            match value {
                Some(AttributeValue::StringLiteral { span_start, span_end }) => {
                    if self.last_offset <= *span_start && *span_start <= *span_end && *span_end
                        <= len && name_span_start <= len {
                        self.handle_string_literal(
                            *span_start,
                            *span_end,
                            name_span_start,
                            AttributeContext::StringLiteral,
                        );
                    }
                },
                Some(AttributeValue::ExpressionStringLiteral { span_start, span_end }) => {
                    if self.last_offset <= *span_start && *span_start <= *span_end && *span_end
                        <= len && name_span_start <= len {
                        self.handle_string_literal(
                            *span_start,
                            *span_end,
                            name_span_start,
                            AttributeContext::JSXExpression,
                        );
                    }
                },
                _ => {},
            }
        }
        proof {
            if cmd_seq(self.print_items@) == before {
                assert(before + Seq::<Cmd>::empty() =~= before);
            }
        }
    }
}

/// Drive a traversal over a document's events in order, and return the full
/// command sequence: verbatim pass-through with each matched attribute value
/// wrapped (when wrapping is enabled).
pub fn process_document(
    source_text: &str,
    config: &Configuration,
    events: &Vec<DocEvent>,
) -> (items: Vec<Command>)
    ensures
        cmd_seq(items@) == doc_cmds(*config, source_text@, events@),
{
    let wrapper = if config.enable_wrap {
        Some(
            Wrapper::new(
                WrapperOption {
                    allow_line_overflow: config.allow_line_overflow,
                    indent_to_quote: config.indent_to_quote,
                    indent_width: config.indent_width,
                    line_width_includes_indent: config.line_width_includes_indent,
                    line_width: config.line_width,
                },
            ),
        )
    } else {
        None
    };
    let mut visitor = Visitor::new(source_text, config).with_wrapper(wrapper);
    proof {
        assert(cmd_seq(visitor.print_items@) =~= Seq::<Cmd>::empty());
        assert(VisitorState {
            cmds: cmd_seq(visitor.print_items@),
            last_offset: visitor.last_offset as int,
            wrapper: visitor.wrapper,
        } == initial_state(*config));
        assert(events@.take(0) =~= Seq::<DocEvent>::empty());
    }
    let n = events.len();
    let mut i: usize = 0;
    while i < n
        invariant
            i <= n,
            n == events@.len(),
            visitor.wf(),
            visitor.source_text == source_text,
            visitor.config == config,
            (VisitorState {
                cmds: cmd_seq(visitor.print_items@),
                last_offset: visitor.last_offset as int,
                wrapper: visitor.wrapper,
            }) == run_events(*config, source_text@, initial_state(*config), events@.take(i as int)),
        decreases n - i,
    {
        proof {
            assert(events@.take(i + 1) =~= events@.take(i as int).push(events@[i as int]));
            lemma_run_snoc(
                *config,
                source_text@,
                initial_state(*config),
                events@.take(i as int),
                events@[i as int],
            );
        }
        let event = &events[i];
        match event {
            DocEvent::EnterElement { span_start } => {
                visitor.visit_jsx_element(*span_start);
            },
            DocEvent::Attribute { name, name_span_start, value } => {
                visitor.visit_jsx_attribute(name.as_str(), *name_span_start, value);
            },
        }
        i = i + 1;
    }
    proof {
        assert(events@.take(n as int) =~= events@);
    }
    visitor.print_post_text();
    let ghost st = run_events(*config, source_text@, initial_state(*config), events@);
    proof {
        assert(cmd_seq(visitor.print_items@) =~= st.cmds + seq![
            Cmd::Text(source_text@.subrange(st.last_offset, source_text@.len() as int)),
        ]);
    }
    visitor.print_items()
}

} // verus!
