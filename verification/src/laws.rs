//! The engine's laws: properties that relate several functions, stated over
//! the same spec models the executable functions are proved against.

use vstd::prelude::*;

use crate::commands::{cmd_text, lemma_rendered_text_add, rendered_text, Cmd};
use crate::configuration::{contains_name, Configuration};
use crate::tokens::{
    commit_token, is_space_char, lemma_scan_all_space, lemma_scan_concat, lemma_scan_no_space,
    lemma_tokens_of_wf, pending_token, scan_tokens, token_wf, tokens_of,
};
use crate::visitor::{
    attr_is_match, attr_wrapped_cmds, doc_cmds, element_step_wrapper, event_step, initial_state,
    initial_wrapper, run_events, value_span_of, AttributeContext, DocEvent, VisitorState,
};
use crate::wrapper::{
    break_cmds, indent_scope, spec_budget, spec_next_width, text_cmds, wrap_cmds, wrap_from,
    IndentCount, Wrapper, WrapperOption,
};
use crate::position::sat_u32;

verus! {

/// Whether a traversal event is an attribute whose name is configured.
pub open spec fn event_eligible(config: Configuration, event: DocEvent) -> bool {
    match event {
        DocEvent::Attribute { name, .. } => contains_name(
            config.classname_attributes.deep_view(),
            name@,
        ),
        _ => false,
    }
}

proof fn lemma_run_no_match(
    config: Configuration,
    source: Seq<char>,
    st: VisitorState,
    events: Seq<DocEvent>,
)
    requires
        forall|i: int| 0 <= i < events.len() ==> !event_eligible(config, #[trigger] events[i]),
    ensures
        run_events(config, source, st, events).cmds == st.cmds,
        run_events(config, source, st, events).last_offset == st.last_offset,
    decreases events.len(),
{
    if events.len() > 0 {
        let st1 = event_step(config, source, st, events[0]);
        assert(!event_eligible(config, events[0]));
        match events[0] {
            DocEvent::EnterElement { .. } => {},
            DocEvent::Attribute { name, name_span_start, value } => {
                assert(!attr_is_match(
                    config,
                    source,
                    st.last_offset,
                    name@,
                    name_span_start as int,
                    value,
                ));
                assert(st.cmds + Seq::<Cmd>::empty() =~= st.cmds);
            },
        }
        assert(forall|i: int|
            0 <= i < events.drop_first().len() ==> !event_eligible(
                config,
                #[trigger] events.drop_first()[i],
            ));
        lemma_run_no_match(config, source, st1, events.drop_first());
    }
}

/// PASS-THROUGH COMPLETENESS. A document none of whose attributes carries a
/// configured name produces exactly one command: the whole source, verbatim.
pub proof fn lemma_pass_through_completeness(
    config: Configuration,
    source: Seq<char>,
    events: Seq<DocEvent>,
)
    requires
        forall|i: int| 0 <= i < events.len() ==> !event_eligible(config, #[trigger] events[i]),
    ensures
        doc_cmds(config, source, events) == seq![Cmd::Text(source)],
{
    lemma_run_no_match(config, source, initial_state(config), events);
    let st = run_events(config, source, initial_state(config), events);
    assert(source.subrange(0, source.len() as int) =~= source);
    assert(st.cmds + seq![Cmd::Text(source)] =~= seq![Cmd::Text(source)]);
}

proof fn lemma_rendered_single_text(s: Seq<char>)
    ensures
        rendered_text(seq![Cmd::Text(s)]) == s,
{
    let cmds = seq![Cmd::Text(s)];
    assert(cmds[0] == Cmd::Text(s));
    assert(cmds.drop_first() =~= Seq::<Cmd>::empty());
    assert(rendered_text(Seq::<Cmd>::empty()) == Seq::<char>::empty());
    assert(cmd_text(Cmd::Text(s)) == s);
    assert(s + Seq::<char>::empty() =~= s);
}

proof fn lemma_run_verbatim(
    config: Configuration,
    source: Seq<char>,
    st: VisitorState,
    events: Seq<DocEvent>,
)
    requires
        st.wrapper is None,
        0 <= st.last_offset <= source.len(),
    ensures
        run_events(config, source, st, events).wrapper is None,
        st.last_offset <= run_events(config, source, st, events).last_offset <= source.len(),
        rendered_text(run_events(config, source, st, events).cmds) == rendered_text(st.cmds)
            + source.subrange(st.last_offset, run_events(config, source, st, events).last_offset),
    decreases events.len(),
{
    let result = run_events(config, source, st, events);
    if events.len() == 0 {
        assert(source.subrange(st.last_offset, st.last_offset) =~= Seq::<char>::empty());
        assert(rendered_text(st.cmds) + Seq::<char>::empty() =~= rendered_text(st.cmds));
    } else {
        let st1 = event_step(config, source, st, events[0]);
        match events[0] {
            DocEvent::EnterElement { .. } => {
                lemma_run_verbatim(config, source, st1, events.drop_first());
            },
            DocEvent::Attribute { name, name_span_start, value } => {
                let matched = attr_is_match(
                    config,
                    source,
                    st.last_offset,
                    name@,
                    name_span_start as int,
                    value,
                );
                if matched {
                    match value_span_of(value) {
                        Some((value_start, value_end, _)) => {
                            let pre = source.subrange(st.last_offset, value_start);
                            let raw = source.subrange(value_start, value_end);
                            assert(st1.cmds =~= st.cmds + seq![Cmd::Text(pre), Cmd::Text(raw)]);
                            lemma_rendered_text_add(st.cmds, seq![Cmd::Text(pre), Cmd::Text(raw)]);
                            assert(seq![Cmd::Text(pre), Cmd::Text(raw)].drop_first() =~= seq![
                                Cmd::Text(raw),
                            ]);
                            lemma_rendered_single_text(raw);
                            assert(rendered_text(seq![Cmd::Text(pre), Cmd::Text(raw)]) == pre
                                + raw);
                            assert(pre + raw =~= source.subrange(st.last_offset, value_end));
                            lemma_run_verbatim(config, source, st1, events.drop_first());
                            assert(rendered_text(result.cmds) == (rendered_text(st.cmds) + (pre
                                + raw)) + source.subrange(st1.last_offset, result.last_offset));
                            assert(source.subrange(st.last_offset, value_end) + source.subrange(
                                value_end,
                                result.last_offset,
                            ) =~= source.subrange(st.last_offset, result.last_offset));
                            assert((rendered_text(st.cmds) + (pre + raw)) + source.subrange(
                                st1.last_offset,
                                result.last_offset,
                            ) =~= rendered_text(st.cmds) + source.subrange(
                                st.last_offset,
                                result.last_offset,
                            ));
                        },
                        None => {
                            assert(false);
                        },
                    }
                } else {
                    assert(st1.cmds =~= st.cmds + Seq::<Cmd>::empty());
                    assert(st1.cmds =~= st.cmds);
                    lemma_run_verbatim(config, source, st1, events.drop_first());
                }
            },
        }
    }
}

/// VERBATIM OUTSIDE MATCHES, locator half. With wrapping disabled the
/// locator's whole output renders back to the source, byte for byte: the
/// pass-through cursor spans the document exactly once, with no gap and no
/// overlap, and matched values pass through unchanged.
pub proof fn lemma_locator_reproduces_source(
    config: Configuration,
    source: Seq<char>,
    events: Seq<DocEvent>,
)
    requires
        !config.enable_wrap,
    ensures
        rendered_text(doc_cmds(config, source, events)) == source,
{
    let st0 = initial_state(config);
    let st = run_events(config, source, st0, events);
    assert(rendered_text(st0.cmds) =~= Seq::<char>::empty());
    lemma_run_verbatim(config, source, st0, events);
    lemma_rendered_text_add(st.cmds, seq![
        Cmd::Text(source.subrange(st.last_offset, source.len() as int)),
    ]);
    lemma_rendered_single_text(source.subrange(st.last_offset, source.len() as int));
    assert(Seq::<char>::empty() + source.subrange(0, st.last_offset) =~= source.subrange(
        0,
        st.last_offset,
    ));
    assert(source.subrange(0, st.last_offset) + source.subrange(
        st.last_offset,
        source.len() as int,
    ) =~= source);
}

/// The running width after token `i` joins or breaks, as the decision table
/// updates it: the accumulated width of the line being filled, counting the
/// column already occupied when wrapping began and one reserved separating
/// space per joined token.
pub open spec fn next_cur(
    option: WrapperOption,
    indent: IndentCount,
    tokens: Seq<Seq<char>>,
    i: int,
    cur: u32,
) -> u32 {
    let next = spec_next_width(cur, tokens[i]);
    let exceeds = next > spec_budget(option, indent.spec_value());
    if !exceeds {
        next
    } else if option.allow_line_overflow {
        0u32
    } else {
        sat_u32(tokens[i].len() as int)
    }
}

/// The commands token `i` contributes when the running width is `cur`.
pub open spec fn step_cmds(
    option: WrapperOption,
    indent: IndentCount,
    context: AttributeContext,
    tokens: Seq<Seq<char>>,
    i: int,
    cur: u32,
) -> Seq<Cmd> {
    let next = spec_next_width(cur, tokens[i]);
    let exceeds = next > spec_budget(option, indent.spec_value());
    if !exceeds {
        text_cmds(tokens[i], i > 0)
    } else if option.allow_line_overflow {
        text_cmds(tokens[i], cur > 0) + (if i + 1 < tokens.len() {
            break_cmds(context, indent)
        } else {
            Seq::<Cmd>::empty()
        })
    } else {
        break_cmds(context, indent) + text_cmds(tokens[i], false)
    }
}

/// The wrapped output processes one token, then the rest from the updated
/// width.
pub proof fn lemma_wrap_from_unfold(
    option: WrapperOption,
    indent: IndentCount,
    context: AttributeContext,
    tokens: Seq<Seq<char>>,
    i: int,
    cur: u32,
)
    requires
        0 <= i < tokens.len(),
    ensures
        wrap_from(option, indent, context, tokens, i, cur) == step_cmds(
            option,
            indent,
            context,
            tokens,
            i,
            cur,
        ) + wrap_from(option, indent, context, tokens, i + 1, next_cur(option, indent, tokens, i, cur)),
{
    let next = spec_next_width(cur, tokens[i]);
    let exceeds = next > spec_budget(option, indent.spec_value());
    if !exceeds {
    } else if option.allow_line_overflow {
        let brk = if i + 1 < tokens.len() {
            break_cmds(context, indent)
        } else {
            Seq::<Cmd>::empty()
        };
        assert(text_cmds(tokens[i], cur > 0) + brk + wrap_from(
            option,
            indent,
            context,
            tokens,
            i + 1,
            0u32,
        ) =~= (text_cmds(tokens[i], cur > 0) + brk) + wrap_from(
            option,
            indent,
            context,
            tokens,
            i + 1,
            0u32,
        ));
    } else {
        assert(break_cmds(context, indent) + text_cmds(tokens[i], false) + wrap_from(
            option,
            indent,
            context,
            tokens,
            i + 1,
            sat_u32(tokens[i].len() as int),
        ) =~= (break_cmds(context, indent) + text_cmds(tokens[i], false)) + wrap_from(
            option,
            indent,
            context,
            tokens,
            i + 1,
            sat_u32(tokens[i].len() as int),
        ));
    }
}

/// The running width before token `i`, when wrapping starts at `cur0`.
pub open spec fn cur_at(
    option: WrapperOption,
    indent: IndentCount,
    tokens: Seq<Seq<char>>,
    i: int,
    cur0: u32,
) -> u32
    decreases i,
{
    if i <= 0 {
        cur0
    } else {
        next_cur(option, indent, tokens, i - 1, cur_at(option, indent, tokens, i - 1, cur0))
    }
}

/// The wrapped output is exactly each token's step commands in order, taken
/// at the running widths that the width-bound and overflow laws speak of.
pub proof fn lemma_wrap_cmds_steps(
    option: WrapperOption,
    indent: IndentCount,
    context: AttributeContext,
    tokens: Seq<Seq<char>>,
    i: int,
    cur0: u32,
)
    requires
        0 <= i < tokens.len(),
    ensures
        wrap_from(option, indent, context, tokens, i, cur_at(option, indent, tokens, i, cur0))
            == step_cmds(option, indent, context, tokens, i, cur_at(option, indent, tokens, i, cur0))
            + wrap_from(
            option,
            indent,
            context,
            tokens,
            i + 1,
            cur_at(option, indent, tokens, i + 1, cur0),
        ),
{
    lemma_wrap_from_unfold(
        option,
        indent,
        context,
        tokens,
        i,
        cur_at(option, indent, tokens, i, cur0),
    );
}

/// WIDTH BOUND. With overflow disallowed, after each token either the
/// accumulated width of its line fits the effective budget, or the token was
/// placed alone on a fresh line: a break comes first, the token follows with
/// no leading space, and the line holds exactly that token's own width.
pub proof fn lemma_width_bound(
    option: WrapperOption,
    indent: IndentCount,
    context: AttributeContext,
    tokens: Seq<Seq<char>>,
    i: int,
    cur0: u32,
)
    requires
        !option.allow_line_overflow,
        0 <= i < tokens.len(),
    ensures
        cur_at(option, indent, tokens, i + 1, cur0) <= spec_budget(option, indent.spec_value())
            || {
            &&& cur_at(option, indent, tokens, i + 1, cur0) == sat_u32(tokens[i].len() as int)
            &&& step_cmds(
                option,
                indent,
                context,
                tokens,
                i,
                cur_at(option, indent, tokens, i, cur0),
            ) == break_cmds(context, indent) + text_cmds(tokens[i], false)
        },
{
}

/// OVERFLOW-TOLERANT MODE. With overflow allowed, no break ever precedes a
/// token: a token that fits joins its line, and a token that overflows is
/// still emitted on that line, with a break after it exactly when more
/// tokens remain.
pub proof fn lemma_overflow_breaks_follow(
    option: WrapperOption,
    indent: IndentCount,
    context: AttributeContext,
    tokens: Seq<Seq<char>>,
    i: int,
    cur0: u32,
)
    requires
        option.allow_line_overflow,
        0 <= i < tokens.len(),
    ensures
        ({
            let cur = cur_at(option, indent, tokens, i, cur0);
            let exceeds = spec_next_width(cur, tokens[i]) > spec_budget(
                option,
                indent.spec_value(),
            );
            &&& (exceeds ==> step_cmds(option, indent, context, tokens, i, cur) == text_cmds(
                tokens[i],
                cur > 0,
            ) + (if i + 1 < tokens.len() {
                break_cmds(context, indent)
            } else {
                Seq::<Cmd>::empty()
            }))
            &&& (!exceeds ==> step_cmds(option, indent, context, tokens, i, cur) == text_cmds(
                tokens[i],
                i > 0,
            ))
        }),
{
}

/// In an expression container every newline signal is immediately preceded
/// by exactly one space and one backslash text command; in a bare string
/// literal no backslash text command ever precedes a newline signal.
pub open spec fn escape_ok(context: AttributeContext, cmds: Seq<Cmd>) -> bool {
    forall|p: int|
        0 <= p < cmds.len() && #[trigger] cmds[p] == Cmd::NewLine ==> {
            if context == AttributeContext::JSXExpression {
                &&& p >= 2
                &&& cmds[p - 1] == Cmd::Text(seq!['\\'])
                &&& cmds[p - 2] == Cmd::Space
            } else {
                p == 0 || cmds[p - 1] != Cmd::Text(seq!['\\'])
            }
        }
}

/// The last command, if any, is not a backslash text command.
pub open spec fn no_backslash_tail(cmds: Seq<Cmd>) -> bool {
    cmds.len() == 0 || cmds.last() != Cmd::Text(seq!['\\'])
}

proof fn lemma_escape_ok_concat(context: AttributeContext, x: Seq<Cmd>, y: Seq<Cmd>)
    requires
        escape_ok(context, x),
        escape_ok(context, y),
        context != AttributeContext::JSXExpression ==> no_backslash_tail(x),
    ensures
        escape_ok(context, x + y),
{
    assert forall|p: int|
        0 <= p < (x + y).len() && #[trigger] (x + y)[p] == Cmd::NewLine implies {
        if context == AttributeContext::JSXExpression {
            &&& p >= 2
            &&& (x + y)[p - 1] == Cmd::Text(seq!['\\'])
            &&& (x + y)[p - 2] == Cmd::Space
        } else {
            p == 0 || (x + y)[p - 1] != Cmd::Text(seq!['\\'])
        }
    } by {
        if p < x.len() {
            assert(x[p] == Cmd::NewLine);
        } else {
            let q = p - x.len();
            assert(y[q] == Cmd::NewLine);
            if context == AttributeContext::JSXExpression {
                assert(q >= 2);
                assert((x + y)[p - 1] == y[q - 1]);
                assert((x + y)[p - 2] == y[q - 2]);
            } else {
                if q == 0 {
                    if p > 0 {
                        assert((x + y)[p - 1] == x[x.len() - 1]);
                    }
                } else {
                    assert((x + y)[p - 1] == y[q - 1]);
                }
            }
        }
    }
}

proof fn lemma_escape_ok_text(context: AttributeContext, token: Seq<char>, leading_space: bool)
    ensures
        escape_ok(context, text_cmds(token, leading_space)),
        token != seq!['\\'] ==> no_backslash_tail(text_cmds(token, leading_space)),
{
    let cmds = text_cmds(token, leading_space);
    assert forall|p: int|
        0 <= p < cmds.len() implies #[trigger] cmds[p] != Cmd::NewLine by {
        if leading_space {
            assert(cmds =~= seq![Cmd::Space, Cmd::Text(token)]);
        } else {
            assert(cmds =~= seq![Cmd::Text(token)]);
        }
    }
}

proof fn lemma_escape_ok_break(context: AttributeContext, indent: IndentCount)
    ensures
        escape_ok(context, break_cmds(context, indent)),
        no_backslash_tail(break_cmds(context, indent)),
{
    let cmds = break_cmds(context, indent);
    let escape: Seq<Cmd> = if context == AttributeContext::JSXExpression {
        seq![Cmd::Space, Cmd::Text(seq!['\\'])]
    } else {
        Seq::<Cmd>::empty()
    };
    let alignment: Seq<Cmd> = match indent {
        IndentCount::IndentToQuote(column) => Seq::new(column as nat, |j: int| Cmd::Space),
        IndentCount::IndentToPre(_) => Seq::<Cmd>::empty(),
    };
    let newline_at = escape.len() as int;
    assert forall|p: int|
        0 <= p < cmds.len() && #[trigger] cmds[p] == Cmd::NewLine implies {
        if context == AttributeContext::JSXExpression {
            &&& p >= 2
            &&& cmds[p - 1] == Cmd::Text(seq!['\\'])
            &&& cmds[p - 2] == Cmd::Space
        } else {
            p == 0 || cmds[p - 1] != Cmd::Text(seq!['\\'])
        }
    } by {
        if p < newline_at {
            assert(cmds[p] == escape[p]);
            assert(escape[p] != Cmd::NewLine);
            assert(false);
        } else if p > newline_at {
            assert(cmds[p] == alignment[p - newline_at - 1]);
            assert(alignment[p - newline_at - 1] == Cmd::Space);
            assert(false);
        } else {
            if context == AttributeContext::JSXExpression {
                assert(cmds[p - 1] == escape[1]);
                assert(cmds[p - 2] == escape[0]);
            }
        }
    }
    if cmds.last() != Cmd::NewLine {
        assert(cmds.last() == alignment[alignment.len() - 1]);
        assert(cmds.last() == Cmd::Space);
    }
}

proof fn lemma_wrap_from_escape_ok(
    option: WrapperOption,
    indent: IndentCount,
    context: AttributeContext,
    tokens: Seq<Seq<char>>,
    i: int,
    cur: u32,
)
    requires
        forall|k: int| 0 <= k < tokens.len() ==> #[trigger] tokens[k] != seq!['\\'],
    ensures
        escape_ok(context, wrap_from(option, indent, context, tokens, i, cur)),
    decreases tokens.len() - i,
{
    if i < 0 || i >= tokens.len() {
    } else {
        lemma_wrap_from_unfold(option, indent, context, tokens, i, cur);
        let rest = wrap_from(option, indent, context, tokens, i + 1, next_cur(
            option,
            indent,
            tokens,
            i,
            cur,
        ));
        lemma_wrap_from_escape_ok(option, indent, context, tokens, i + 1, next_cur(
            option,
            indent,
            tokens,
            i,
            cur,
        ));
        let next = spec_next_width(cur, tokens[i]);
        let exceeds = next > spec_budget(option, indent.spec_value());
        if !exceeds {
            lemma_escape_ok_text(context, tokens[i], i > 0);
            lemma_escape_ok_concat(context, text_cmds(tokens[i], i > 0), rest);
        } else if option.allow_line_overflow {
            let brk = if i + 1 < tokens.len() {
                break_cmds(context, indent)
            } else {
                Seq::<Cmd>::empty()
            };
            lemma_escape_ok_text(context, tokens[i], cur > 0);
            if i + 1 < tokens.len() {
                lemma_escape_ok_break(context, indent);
            }
            lemma_escape_ok_concat(context, text_cmds(tokens[i], cur > 0), brk);
            if brk.len() > 0 {
                assert((text_cmds(tokens[i], cur > 0) + brk).last() == brk.last());
            } else {
                assert(text_cmds(tokens[i], cur > 0) + brk =~= text_cmds(tokens[i], cur > 0));
            }
            lemma_escape_ok_concat(context, text_cmds(tokens[i], cur > 0) + brk, rest);
        } else {
            lemma_escape_ok_break(context, indent);
            lemma_escape_ok_text(context, tokens[i], false);
            lemma_escape_ok_concat(context, break_cmds(context, indent), text_cmds(
                tokens[i],
                false,
            ));
            assert((break_cmds(context, indent) + text_cmds(tokens[i], false)).last()
                == text_cmds(tokens[i], false).last());
            lemma_escape_ok_concat(
                context,
                break_cmds(context, indent) + text_cmds(tokens[i], false),
                rest,
            );
        }
    }
}

/// EXPRESSION-CONTAINER ESCAPING. In the wrapped output of any attribute
/// value, every inserted newline inside an expression container is preceded
/// by exactly one space and one backslash; no newline in a bare string
/// literal ever carries a backslash.
pub proof fn lemma_expression_container_escaping(
    option: WrapperOption,
    indent: IndentCount,
    context: AttributeContext,
    raw: Seq<char>,
    first_line_column: u32,
)
    ensures
        escape_ok(context, wrap_cmds(option, indent, context, tokens_of(raw), first_line_column)),
{
    lemma_tokens_of_wf(raw);
    assert(forall|k: int|
        0 <= k < tokens_of(raw).len() ==> #[trigger] tokens_of(raw)[k] != seq!['\\']);
    lemma_wrap_from_escape_ok(option, indent, context, tokens_of(raw), 0, first_line_column);
}

/// The text one break renders as.
pub open spec fn break_text(context: AttributeContext, indent: IndentCount) -> Seq<char> {
    (if context == AttributeContext::JSXExpression {
        seq![' ', '\\']
    } else {
        Seq::<char>::empty()
    }) + seq!['\n'] + (match indent {
        IndentCount::IndentToQuote(column) => Seq::new(column as nat, |j: int| ' '),
        IndentCount::IndentToPre(_) => Seq::<char>::empty(),
    })
}

proof fn lemma_rendered_empty()
    ensures
        rendered_text(Seq::<Cmd>::empty()) == Seq::<char>::empty(),
{
}

proof fn lemma_rendered_single(c: Cmd)
    ensures
        rendered_text(seq![c]) == cmd_text(c),
{
    let cmds = seq![c];
    assert(cmds[0] == c);
    assert(cmds.drop_first() =~= Seq::<Cmd>::empty());
    assert(rendered_text(Seq::<Cmd>::empty()) == Seq::<char>::empty());
    assert(cmd_text(c) + Seq::<char>::empty() =~= cmd_text(c));
}

proof fn lemma_rendered_text_cmds(token: Seq<char>, leading_space: bool)
    ensures
        leading_space ==> rendered_text(text_cmds(token, leading_space)) == seq![' '] + token,
        !leading_space ==> rendered_text(text_cmds(token, leading_space)) == token,
{
    if leading_space {
        let cmds = seq![Cmd::Space, Cmd::Text(token)];
        assert(cmds.drop_first() =~= seq![Cmd::Text(token)]);
        lemma_rendered_single_text(token);
        assert(rendered_text(cmds) == seq![' '] + token);
    } else {
        lemma_rendered_single_text(token);
    }
}

proof fn lemma_rendered_spaces(n: nat)
    ensures
        rendered_text(Seq::new(n, |j: int| Cmd::Space)) == Seq::new(n, |j: int| ' '),
    decreases n,
{
    let cmds = Seq::new(n, |j: int| Cmd::Space);
    if n == 0 {
        assert(cmds =~= Seq::<Cmd>::empty());
        assert(Seq::new(0nat, |j: int| ' ') =~= Seq::<char>::empty());
    } else {
        lemma_rendered_spaces((n - 1) as nat);
        assert(cmds[0] == Cmd::Space);
        assert(cmds.drop_first() =~= Seq::new((n - 1) as nat, |j: int| Cmd::Space));
        assert(seq![' '] + Seq::new((n - 1) as nat, |j: int| ' ') =~= Seq::new(n, |j: int| ' '));
    }
}

proof fn lemma_rendered_break(context: AttributeContext, indent: IndentCount)
    ensures
        rendered_text(break_cmds(context, indent)) == break_text(context, indent),
{
    let alignment_cmds: Seq<Cmd> = match indent {
        IndentCount::IndentToQuote(column) => Seq::new(column as nat, |j: int| Cmd::Space),
        IndentCount::IndentToPre(_) => Seq::<Cmd>::empty(),
    };
    let alignment_text: Seq<char> = match indent {
        IndentCount::IndentToQuote(column) => Seq::new(column as nat, |j: int| ' '),
        IndentCount::IndentToPre(_) => Seq::<char>::empty(),
    };
    match indent {
        IndentCount::IndentToQuote(column) => {
            lemma_rendered_spaces(column as nat);
        },
        IndentCount::IndentToPre(_) => {
            assert(alignment_text =~= Seq::<char>::empty());
        },
    }
    if context == AttributeContext::JSXExpression {
        let head = seq![Cmd::Space, Cmd::Text(seq!['\\']), Cmd::NewLine];
        assert(break_cmds(context, indent) =~= head + alignment_cmds);
        lemma_rendered_text_add(head, alignment_cmds);
        lemma_rendered_single(Cmd::Space);
        lemma_rendered_single(Cmd::Text(seq!['\\']));
        lemma_rendered_single(Cmd::NewLine);
        assert(head =~= seq![Cmd::Space] + (seq![Cmd::Text(seq!['\\'])] + seq![Cmd::NewLine]));
        lemma_rendered_text_add(seq![Cmd::Space], seq![Cmd::Text(seq!['\\'])] + seq![Cmd::NewLine]);
        lemma_rendered_text_add(seq![Cmd::Text(seq!['\\'])], seq![Cmd::NewLine]);
        assert(rendered_text(head) =~= seq![' ', '\\', '\n']);
        assert(break_text(context, indent) =~= seq![' ', '\\', '\n'] + alignment_text);
    } else {
        let head = seq![Cmd::NewLine];
        assert(break_cmds(context, indent) =~= head + alignment_cmds);
        lemma_rendered_text_add(head, alignment_cmds);
        lemma_rendered_single(Cmd::NewLine);
        assert(rendered_text(head) =~= seq!['\n']);
        assert(break_text(context, indent) =~= seq!['\n'] + alignment_text);
    }
}

/// Scanning one rendered break commits the in-progress token and leaves
/// nothing pending: a break is only whitespace and, inside an expression
/// container, one lone backslash, which re-splitting discards.
proof fn lemma_scan_break_text(context: AttributeContext, indent: IndentCount, q: Seq<char>)
    requires
        forall|j: int| 0 <= j < q.len() ==> !is_space_char(q[j]),
    ensures
        scan_tokens(break_text(context, indent), q, true) == commit_token(q, true),
        pending_token(break_text(context, indent), q) == Seq::<char>::empty(),
{
    let alignment_text: Seq<char> = match indent {
        IndentCount::IndentToQuote(column) => Seq::new(column as nat, |j: int| ' '),
        IndentCount::IndentToPre(_) => Seq::<char>::empty(),
    };
    let tail = seq!['\n'] + alignment_text;
    assert(forall|j: int| 0 <= j < alignment_text.len() ==> alignment_text[j] == ' ');
    assert(tail[0] == '\n');
    assert(forall|j: int| 0 <= j < tail.len() ==> is_space_char(#[trigger] tail[j]));
    if context == AttributeContext::JSXExpression {
        let sp = seq![' '];
        let bs = seq!['\\'];
        assert(break_text(context, indent) =~= sp + (bs + tail));
        lemma_scan_concat(sp, bs + tail, q, true);
        assert(forall|j: int| 0 <= j < sp.len() ==> is_space_char(#[trigger] sp[j]));
        lemma_scan_all_space(sp, q, true);
        lemma_scan_concat(bs, tail, Seq::<char>::empty(), true);
        assert(!is_space_char('\\'));
        assert(forall|j: int| 0 <= j < bs.len() ==> !is_space_char(#[trigger] bs[j]));
        lemma_scan_no_space(bs, Seq::<char>::empty(), true);
        assert(pending_token(bs, Seq::<char>::empty()) =~= seq!['\\']);
        lemma_scan_all_space(tail, seq!['\\'], true);
        assert(commit_token(seq!['\\'], true) =~= Seq::<Seq<char>>::empty());
        assert(scan_tokens(bs + tail, Seq::<char>::empty(), true) =~= Seq::<Seq<char>>::empty());
        assert(scan_tokens(break_text(context, indent), q, true) =~= commit_token(q, true));
    } else {
        assert(break_text(context, indent) =~= tail);
        lemma_scan_all_space(tail, q, true);
    }
}

/// After rendering, re-splitting recovers exactly the remaining tokens: the
/// wrapped output inserts only whitespace and lone-backslash continuation
/// artifacts around them.
#[verifier::rlimit(80)]
proof fn lemma_wrap_from_round_trip(
    option: WrapperOption,
    indent: IndentCount,
    context: AttributeContext,
    tokens: Seq<Seq<char>>,
    i: int,
    cur: u32,
    p: Seq<char>,
)
    requires
        forall|k: int| 0 <= k < tokens.len() ==> token_wf(#[trigger] tokens[k], true),
        0 <= i <= tokens.len(),
        forall|j: int| 0 <= j < p.len() ==> !is_space_char(p[j]),
        p != seq!['\\'],
        i < tokens.len() && p.len() > 0 ==> cur > 0,
        i == 0 ==> p.len() == 0,
    ensures
        scan_tokens(rendered_text(wrap_from(option, indent, context, tokens, i, cur)), p, true)
            + commit_token(
            pending_token(rendered_text(wrap_from(option, indent, context, tokens, i, cur)), p),
            true,
        ) == commit_token(p, true) + tokens.skip(i),
    decreases tokens.len() - i,
{
    let out = wrap_from(option, indent, context, tokens, i, cur);
    if i >= tokens.len() {
        assert(out =~= Seq::<Cmd>::empty());
        lemma_rendered_empty();
        let r = rendered_text(out);
        assert(scan_tokens(r, p, true) == Seq::<Seq<char>>::empty());
        assert(pending_token(r, p) == p);
        assert(tokens.skip(i) =~= Seq::<Seq<char>>::empty());
        assert(Seq::<Seq<char>>::empty() + commit_token(p, true) =~= commit_token(p, true)
            + Seq::<Seq<char>>::empty());
    } else {
        let tok = tokens[i];
        assert(token_wf(tok, true));
        let next = spec_next_width(cur, tok);
        let exceeds = next > spec_budget(option, indent.spec_value());
        let ncur = next_cur(option, indent, tokens, i, cur);
        lemma_wrap_from_unfold(option, indent, context, tokens, i, cur);
        let step = step_cmds(option, indent, context, tokens, i, cur);
        let rest = wrap_from(option, indent, context, tokens, i + 1, ncur);
        lemma_rendered_text_add(step, rest);
        let rstep = rendered_text(step);
        let rrest = rendered_text(rest);
        assert(rendered_text(out) == rstep + rrest);
        assert(tokens.skip(i) =~= seq![tok] + tokens.skip(i + 1));
        assert(commit_token(tok, true) =~= seq![tok]);
        if !exceeds {
            // The token joins the line, with a space when it is not first.
            assert(ncur == next);
            assert(next >= 1) by {
                assert(cur as int + tok.len() as int + 1 >= 1);
            }
            lemma_rendered_text_cmds(tok, i > 0);
            lemma_wrap_from_round_trip(option, indent, context, tokens, i + 1, ncur, tok);
            if i > 0 {
                let sp = seq![' '];
                assert(rstep =~= sp + tok);
                assert(rstep + rrest =~= sp + (tok + rrest));
                lemma_scan_concat(sp, tok + rrest, p, true);
                lemma_scan_all_space(sp, p, true);
                lemma_scan_concat(tok, rrest, Seq::<char>::empty(), true);
                lemma_scan_no_space(tok, Seq::<char>::empty(), true);
                assert(pending_token(tok, Seq::<char>::empty()) =~= tok);
                assert(scan_tokens(rendered_text(out), p, true) =~= commit_token(p, true)
                    + scan_tokens(rrest, tok, true));
                assert(pending_token(rendered_text(out), p) == pending_token(rrest, tok));
                assert(commit_token(p, true) + (scan_tokens(rrest, tok, true) + commit_token(
                    pending_token(rrest, tok),
                    true,
                )) =~= (commit_token(p, true) + scan_tokens(rrest, tok, true)) + commit_token(
                    pending_token(rrest, tok),
                    true,
                ));
                assert(commit_token(p, true) + (commit_token(tok, true) + tokens.skip(i + 1))
                    =~= commit_token(p, true) + tokens.skip(i));
            } else {
                assert(p =~= Seq::<char>::empty());
                assert(rstep =~= tok);
                assert(rstep + rrest =~= tok + rrest);
                lemma_scan_concat(tok, rrest, p, true);
                lemma_scan_no_space(tok, p, true);
                assert(pending_token(tok, p) =~= tok);
                assert(scan_tokens(rendered_text(out), p, true) =~= scan_tokens(rrest, tok, true));
                assert(commit_token(p, true) =~= Seq::<Seq<char>>::empty());
                assert(scan_tokens(rrest, tok, true) + commit_token(
                    pending_token(rrest, tok),
                    true,
                ) =~= commit_token(tok, true) + tokens.skip(i + 1));
                assert(commit_token(p, true) + tokens.skip(i) =~= tokens.skip(i));
                assert(seq![tok] + tokens.skip(i + 1) =~= tokens.skip(i));
            }
        } else if option.allow_line_overflow {
            // The token still joins the line; a break follows unless it is
            // last.
            assert(ncur == 0);
            let has_break = i + 1 < tokens.len();
            let brk: Seq<Cmd> = if has_break {
                break_cmds(context, indent)
            } else {
                Seq::<Cmd>::empty()
            };
            lemma_rendered_text_add(text_cmds(tok, cur > 0), brk);
            lemma_rendered_text_cmds(tok, cur > 0);
            if has_break {
                lemma_rendered_break(context, indent);
            } else {
                lemma_rendered_empty();
            }
            let lead: Seq<char> = if cur > 0 {
                seq![' ']
            } else {
                Seq::<char>::empty()
            };
            let btxt: Seq<char> = if has_break {
                break_text(context, indent)
            } else {
                Seq::<char>::empty()
            };
            assert(rstep =~= lead + tok + btxt);
            if cur == 0 {
                assert(p =~= Seq::<char>::empty());
                assert(lead + tok =~= tok);
            }
            // Scan the lead, the token, the break, then the rest.
            assert(rstep + rrest =~= lead + (tok + (btxt + rrest)));
            lemma_scan_concat(lead, tok + (btxt + rrest), p, true);
            if cur > 0 {
                lemma_scan_all_space(lead, p, true);
            } else {
                assert(lead =~= Seq::<char>::empty());
                assert(lead + (tok + (btxt + rrest)) =~= tok + (btxt + rrest));
                assert(scan_tokens(lead, p, true) =~= Seq::<Seq<char>>::empty());
                assert(pending_token(lead, p) == p);
                assert(commit_token(p, true) =~= Seq::<Seq<char>>::empty());
            }
            lemma_scan_concat(tok, btxt + rrest, Seq::<char>::empty(), true);
            lemma_scan_no_space(tok, Seq::<char>::empty(), true);
            assert(pending_token(tok, Seq::<char>::empty()) =~= tok);
            lemma_scan_concat(btxt, rrest, tok, true);
            if has_break {
                lemma_scan_break_text(context, indent, tok);
                lemma_wrap_from_round_trip(
                    option,
                    indent,
                    context,
                    tokens,
                    i + 1,
                    ncur,
                    Seq::<char>::empty(),
                );
                assert(scan_tokens(rendered_text(out), p, true) =~= commit_token(p, true) + (
                seq![tok] + scan_tokens(rrest, Seq::<char>::empty(), true)));
                assert(pending_token(rendered_text(out), p) == pending_token(
                    rrest,
                    Seq::<char>::empty(),
                ));
                assert(commit_token(Seq::<char>::empty(), true) =~= Seq::<Seq<char>>::empty());
                assert(scan_tokens(rrest, Seq::<char>::empty(), true) + commit_token(
                    pending_token(rrest, Seq::<char>::empty()),
                    true,
                ) =~= tokens.skip(i + 1));
                assert((commit_token(p, true) + (seq![tok] + scan_tokens(
                    rrest,
                    Seq::<char>::empty(),
                    true,
                ))) + commit_token(pending_token(rrest, Seq::<char>::empty()), true)
                    =~= commit_token(p, true) + (seq![tok] + tokens.skip(i + 1)));
                assert(commit_token(p, true) + (seq![tok] + tokens.skip(i + 1)) =~= commit_token(
                    p,
                    true,
                ) + tokens.skip(i));
            } else {
                assert(btxt =~= Seq::<char>::empty());
                assert(btxt + rrest =~= rrest);
                lemma_wrap_from_round_trip(option, indent, context, tokens, i + 1, ncur, tok);
                assert(scan_tokens(rendered_text(out), p, true) =~= commit_token(p, true)
                    + scan_tokens(rrest, tok, true));
                assert(pending_token(rendered_text(out), p) == pending_token(rrest, tok));
                assert((commit_token(p, true) + scan_tokens(rrest, tok, true)) + commit_token(
                    pending_token(rrest, tok),
                    true,
                ) =~= commit_token(p, true) + (scan_tokens(rrest, tok, true) + commit_token(
                    pending_token(rrest, tok),
                    true,
                )));
                assert(commit_token(p, true) + (commit_token(tok, true) + tokens.skip(i + 1))
                    =~= commit_token(p, true) + tokens.skip(i));
            }
        } else {
            // A break comes first; the token starts the new line.
            assert(ncur == sat_u32(tok.len() as int));
            assert(ncur >= 1) by {
                assert(tok.len() >= 1);
            }
            lemma_rendered_text_add(break_cmds(context, indent), text_cmds(tok, false));
            lemma_rendered_break(context, indent);
            lemma_rendered_text_cmds(tok, false);
            let btxt = break_text(context, indent);
            assert(rstep =~= btxt + tok);
            assert(rstep + rrest =~= btxt + (tok + rrest));
            lemma_scan_concat(btxt, tok + rrest, p, true);
            lemma_scan_break_text(context, indent, p);
            lemma_scan_concat(tok, rrest, Seq::<char>::empty(), true);
            lemma_scan_no_space(tok, Seq::<char>::empty(), true);
            assert(pending_token(tok, Seq::<char>::empty()) =~= tok);
            lemma_wrap_from_round_trip(option, indent, context, tokens, i + 1, ncur, tok);
            assert(scan_tokens(rendered_text(out), p, true) =~= commit_token(p, true)
                + scan_tokens(rrest, tok, true));
            assert(pending_token(rendered_text(out), p) == pending_token(rrest, tok));
            assert((commit_token(p, true) + scan_tokens(rrest, tok, true)) + commit_token(
                pending_token(rrest, tok),
                true,
            ) =~= commit_token(p, true) + (scan_tokens(rrest, tok, true) + commit_token(
                pending_token(rrest, tok),
                true,
            )));
            assert(commit_token(p, true) + (commit_token(tok, true) + tokens.skip(i + 1))
                =~= commit_token(p, true) + tokens.skip(i));
        }
    }
}

/// VERBATIM OUTSIDE MATCHES, reflow half. Re-splitting the rendered wrapped
/// output recovers exactly the raw value's tokens: wrapping inserts only
/// whitespace and lone-backslash continuation escapes, and loses no token.
pub proof fn lemma_wrap_preserves_tokens(
    option: WrapperOption,
    indent: IndentCount,
    context: AttributeContext,
    raw: Seq<char>,
    first_line_column: u32,
)
    ensures
        tokens_of(
            rendered_text(
                wrap_cmds(option, indent, context, tokens_of(raw), first_line_column),
            ),
        ) == tokens_of(raw),
{
    lemma_tokens_of_wf(raw);
    lemma_wrap_from_round_trip(
        option,
        indent,
        context,
        tokens_of(raw),
        0,
        first_line_column,
        Seq::<char>::empty(),
    );
    assert(commit_token(Seq::<char>::empty(), true) =~= Seq::<Seq<char>>::empty());
    assert(tokens_of(raw).skip(0) =~= tokens_of(raw));
    assert(Seq::<Seq<char>>::empty() + tokens_of(raw) =~= tokens_of(raw));
}

/// An attribute text in normal form: its tokens joined by single spaces.
pub open spec fn join_tokens(tokens: Seq<Seq<char>>) -> Seq<char>
    decreases tokens.len(),
{
    if tokens.len() == 0 {
        Seq::<char>::empty()
    } else if tokens.len() == 1 {
        tokens[0]
    } else {
        tokens[0] + seq![' '] + join_tokens(tokens.drop_first())
    }
}

/// A text collapsed back to single-space-joined tokens, inserted breaks and
/// continuation backslashes removed.
pub open spec fn collapsed(s: Seq<char>) -> Seq<char> {
    join_tokens(tokens_of(s))
}

/// VERBATIM OUTSIDE MATCHES, collapse form. The rendered wrapped output,
/// collapsed, is character-identical to the raw value collapsed the same
/// way.
pub proof fn lemma_wrap_collapse_round_trip(
    option: WrapperOption,
    indent: IndentCount,
    context: AttributeContext,
    raw: Seq<char>,
    first_line_column: u32,
)
    ensures
        collapsed(
            rendered_text(
                wrap_cmds(option, indent, context, tokens_of(raw), first_line_column),
            ),
        ) == collapsed(raw),
{
    lemma_wrap_preserves_tokens(option, indent, context, raw, first_line_column);
}

/// IDEMPOTENCE. Wrapping the rendered wrapped output again, under the same
/// options, the same resolved indent, and the same starting column, emits
/// the same commands: a second pass changes nothing.
pub proof fn lemma_wrap_idempotent(
    option: WrapperOption,
    indent: IndentCount,
    context: AttributeContext,
    raw: Seq<char>,
    first_line_column: u32,
)
    ensures
        wrap_cmds(
            option,
            indent,
            context,
            tokens_of(
                rendered_text(
                    wrap_cmds(option, indent, context, tokens_of(raw), first_line_column),
                ),
            ),
            first_line_column,
        ) == wrap_cmds(option, indent, context, tokens_of(raw), first_line_column),
{
    lemma_wrap_preserves_tokens(option, indent, context, raw, first_line_column);
}

proof fn lemma_rendered_silent_cmds(n: nat, c: Cmd)
    requires
        cmd_text(c) == Seq::<char>::empty(),
    ensures
        rendered_text(Seq::new(n, |j: int| c)) == Seq::<char>::empty(),
    decreases n,
{
    let cmds = Seq::new(n, |j: int| c);
    if n == 0 {
        assert(cmds =~= Seq::<Cmd>::empty());
    } else {
        lemma_rendered_silent_cmds((n - 1) as nat, c);
        assert(cmds[0] == c);
        assert(cmds.drop_first() =~= Seq::new((n - 1) as nat, |j: int| c));
        assert(Seq::<char>::empty() + Seq::<char>::empty() =~= Seq::<char>::empty());
    }
}

/// Indent scopes render no text of their own.
proof fn lemma_rendered_indent_scope(cmds: Seq<Cmd>, level: nat)
    ensures
        rendered_text(indent_scope(cmds, level)) == rendered_text(cmds),
{
    if cmds.len() == 0 {
    } else {
        let starts = Seq::new(level, |j: int| Cmd::StartIndent);
        let finishes = Seq::new(level, |j: int| Cmd::FinishIndent);
        assert(indent_scope(cmds, level) =~= starts + (cmds + finishes));
        lemma_rendered_text_add(starts, cmds + finishes);
        lemma_rendered_text_add(cmds, finishes);
        lemma_rendered_silent_cmds(level, Cmd::StartIndent);
        lemma_rendered_silent_cmds(level, Cmd::FinishIndent);
        assert(Seq::<char>::empty() + (rendered_text(cmds) + Seq::<char>::empty())
            =~= rendered_text(cmds));
    }
}

/// One matched value's wrapped fragment, rendered and collapsed, equals the
/// raw value collapsed.
proof fn lemma_wrapped_cmds_collapse(
    wrapper: Option<Wrapper>,
    source: Seq<char>,
    name_start: int,
    value_start: int,
    value_end: int,
    context: AttributeContext,
)
    ensures
        collapsed(
            rendered_text(
                attr_wrapped_cmds(wrapper, source, name_start, value_start, value_end, context),
            ),
        ) == collapsed(source.subrange(value_start, value_end)),
{
    let raw = source.subrange(value_start, value_end);
    match wrapper {
        Some(w) => {
            let indent = w.spec_parse_indent(source, name_start, value_start);
            let column = sat_u32(crate::position::column_number_at(source, value_start));
            let wrapped = wrap_cmds(w.option, indent, context, tokens_of(raw), column);
            lemma_wrap_collapse_round_trip(w.option, indent, context, raw, column);
            if !w.option.indent_to_quote {
                lemma_rendered_indent_scope(
                    wrapped,
                    crate::position::indent_level_of(
                        indent.spec_value() as int,
                        w.option.indent_width as int,
                    ) as nat,
                );
            }
        },
        None => {
            lemma_rendered_single_text(raw);
        },
    }
}

/// The output's normal form from a cursor position over the remaining
/// events: pass-through text untouched, each wrapped fragment rendered and
/// collapsed back to single-space-joined tokens.
pub open spec fn normalized_output(
    config: Configuration,
    source: Seq<char>,
    last_offset: int,
    wrapper: Option<Wrapper>,
    events: Seq<DocEvent>,
) -> Seq<char>
    decreases events.len(),
{
    if events.len() == 0 {
        source.subrange(last_offset, source.len() as int)
    } else {
        match events[0] {
            DocEvent::EnterElement { span_start } => normalized_output(
                config,
                source,
                last_offset,
                element_step_wrapper(wrapper, source, span_start as int),
                events.drop_first(),
            ),
            DocEvent::Attribute { name, name_span_start, value } => {
                if attr_is_match(config, source, last_offset, name@, name_span_start as int, value) {
                    match value_span_of(value) {
                        Some((value_start, value_end, context)) => source.subrange(
                            last_offset,
                            value_start,
                        ) + collapsed(
                            rendered_text(
                                attr_wrapped_cmds(
                                    wrapper,
                                    source,
                                    name_span_start as int,
                                    value_start,
                                    value_end,
                                    context,
                                ),
                            ),
                        ) + normalized_output(
                            config,
                            source,
                            value_end,
                            wrapper,
                            events.drop_first(),
                        ),
                        None => Seq::<char>::empty(),
                    }
                } else {
                    normalized_output(config, source, last_offset, wrapper, events.drop_first())
                }
            },
        }
    }
}

/// The source's normal form from a cursor position over the remaining
/// events: the source itself, with each matched attribute value collapsed.
pub open spec fn normalized_source(
    config: Configuration,
    source: Seq<char>,
    last_offset: int,
    events: Seq<DocEvent>,
) -> Seq<char>
    decreases events.len(),
{
    if events.len() == 0 {
        source.subrange(last_offset, source.len() as int)
    } else {
        match events[0] {
            DocEvent::EnterElement { .. } => normalized_source(
                config,
                source,
                last_offset,
                events.drop_first(),
            ),
            DocEvent::Attribute { name, name_span_start, value } => {
                if attr_is_match(config, source, last_offset, name@, name_span_start as int, value) {
                    match value_span_of(value) {
                        Some((value_start, value_end, _)) => source.subrange(
                            last_offset,
                            value_start,
                        ) + collapsed(source.subrange(value_start, value_end))
                            + normalized_source(config, source, value_end, events.drop_first()),
                        None => Seq::<char>::empty(),
                    }
                } else {
                    normalized_source(config, source, last_offset, events.drop_first())
                }
            },
        }
    }
}

proof fn lemma_run_normalized(
    config: Configuration,
    source: Seq<char>,
    last_offset: int,
    wrapper: Option<Wrapper>,
    events: Seq<DocEvent>,
)
    ensures
        normalized_output(config, source, last_offset, wrapper, events) == normalized_source(
            config,
            source,
            last_offset,
            events,
        ),
    decreases events.len(),
{
    if events.len() > 0 {
        match events[0] {
            DocEvent::EnterElement { span_start } => {
                lemma_run_normalized(
                    config,
                    source,
                    last_offset,
                    element_step_wrapper(wrapper, source, span_start as int),
                    events.drop_first(),
                );
            },
            DocEvent::Attribute { name, name_span_start, value } => {
                if attr_is_match(config, source, last_offset, name@, name_span_start as int, value) {
                    match value_span_of(value) {
                        Some((value_start, value_end, context)) => {
                            lemma_wrapped_cmds_collapse(
                                wrapper,
                                source,
                                name_span_start as int,
                                value_start,
                                value_end,
                                context,
                            );
                            lemma_run_normalized(
                                config,
                                source,
                                value_end,
                                wrapper,
                                events.drop_first(),
                            );
                        },
                        None => {},
                    }
                } else {
                    lemma_run_normalized(config, source, last_offset, wrapper, events.drop_first());
                }
            },
        }
    }
}

/// VERBATIM OUTSIDE MATCHES, whole document. The output, with each wrapped
/// attribute value collapsed back to single-space-joined tokens and all
/// inserted breaks and continuation backslashes removed, is character
/// identical to the source with each matched attribute value collapsed the
/// same way: everything outside matched values passes through verbatim.
pub proof fn lemma_verbatim_outside_match(
    config: Configuration,
    source: Seq<char>,
    events: Seq<DocEvent>,
)
    ensures
        normalized_output(config, source, 0, initial_wrapper(config), events)
            == normalized_source(config, source, 0, events),
{
    lemma_run_normalized(config, source, 0, initial_wrapper(config), events);
}

} // verus!
