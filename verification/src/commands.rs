//! The command sequence: the ordered, declarative output of the engine.
//!
//! The engine never writes final bytes itself. It produces a list of atomic
//! rendering commands; a downstream layout engine resolves indent scopes into
//! tab or space bytes and newline signals into the configured newline style.

use vstd::prelude::*;

verus! {

/// One atomic rendering command.
#[derive(Debug, Clone, PartialEq, Eq)]
pub enum Command {
    /// Emit a substring of the source, or a token, verbatim.
    Text(String),
    /// Emit a single space.
    Space,
    /// Emit a newline; the layout engine picks the final bytes.
    NewLine,
    /// Open one level of indentation scope.
    StartIndent,
    /// Close one level of indentation scope.
    FinishIndent,
}

/// The mathematical value of a command.
pub enum Cmd {
    Text(Seq<char>),
    Space,
    NewLine,
    StartIndent,
    FinishIndent,
}

impl View for Command {
    type V = Cmd;

    open spec fn view(&self) -> Cmd {
        match self {
            Command::Text(s) => Cmd::Text(s@),
            Command::Space => Cmd::Space,
            Command::NewLine => Cmd::NewLine,
            Command::StartIndent => Cmd::StartIndent,
            Command::FinishIndent => Cmd::FinishIndent,
        }
    }
}

/// The values of a sequence of commands.
pub open spec fn cmd_seq(cmds: Seq<Command>) -> Seq<Cmd> {
    cmds.map_values(|c: Command| c@)
}

pub proof fn lemma_cmd_seq_push(cmds: Seq<Command>, c: Command)
    ensures
        cmd_seq(cmds.push(c)) == cmd_seq(cmds).push(c@),
{
    assert(cmd_seq(cmds.push(c)) =~= cmd_seq(cmds).push(c@));
}

/// The text a command renders as, when a newline renders as a single line
/// feed and indent scopes add nothing of their own.
pub open spec fn cmd_text(c: Cmd) -> Seq<char> {
    match c {
        Cmd::Text(s) => s,
        Cmd::Space => seq![' '],
        Cmd::NewLine => seq!['\n'],
        Cmd::StartIndent => Seq::<char>::empty(),
        Cmd::FinishIndent => Seq::<char>::empty(),
    }
}

/// The text a command sequence renders as, commands concatenated in order.
pub open spec fn rendered_text(cmds: Seq<Cmd>) -> Seq<char>
    decreases cmds.len(),
{
    if cmds.len() == 0 {
        Seq::<char>::empty()
    } else {
        cmd_text(cmds[0]) + rendered_text(cmds.drop_first())
    }
}

pub proof fn lemma_rendered_text_add(a: Seq<Cmd>, b: Seq<Cmd>)
    ensures
        rendered_text(a + b) == rendered_text(a) + rendered_text(b),
    decreases a.len(),
{
    if a.len() == 0 {
        assert(a + b =~= b);
        assert(rendered_text(a) + rendered_text(b) =~= rendered_text(b));
    } else {
        assert((a + b).drop_first() =~= a.drop_first() + b);
        lemma_rendered_text_add(a.drop_first(), b);
        assert((a + b)[0] == a[0]);
        assert(cmd_text(a[0]) + (rendered_text(a.drop_first()) + rendered_text(b)) =~= (cmd_text(
            a[0],
        ) + rendered_text(a.drop_first())) + rendered_text(b));
    }
}

} // verus!
