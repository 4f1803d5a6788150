//! The format entry point's verified parts: byte-order-mark stripping,
//! newline-style resolution, and the global layout options handed to the
//! external layout engine together with the command sequence.

use vstd::prelude::*;
use vstd::string::StrSliceExecFns;

use crate::configuration::{Configuration, NewLineKind};

verus! {

/// Whether automatic newline detection picks carriage return line feed: the
/// last newline in the file is preceded by a carriage return.
pub open spec fn auto_newline_is_crlf(s: Seq<char>) -> bool
    decreases s.len(),
{
    if s.len() == 0 {
        false
    } else if s[s.len() - 1] == '\n' {
        s.len() >= 2 && s[s.len() - 2] == '\r'
    } else {
        auto_newline_is_crlf(s.drop_last())
    }
}

/// The newline text a configured kind stands for in a given file.
pub open spec fn spec_resolved_newline(s: Seq<char>, kind: NewLineKind) -> Seq<char> {
    match kind {
        NewLineKind::LineFeed => "\n"@,
        NewLineKind::CarriageReturnLineFeed => "\r\n"@,
        NewLineKind::Auto => if auto_newline_is_crlf(s) {
            "\r\n"@
        } else {
            "\n"@
        },
    }
}

/// Resolve the configured newline kind against the file being formatted; the
/// automatic kind follows the kind of the last newline already in the file.
pub fn resolve_new_line_kind(file_text: &str, new_line_kind: NewLineKind) -> (r: &'static str)
    ensures
        r@ == spec_resolved_newline(file_text@, new_line_kind),
{
    match new_line_kind {
        NewLineKind::LineFeed => "\n",
        NewLineKind::CarriageReturnLineFeed => "\r\n",
        NewLineKind::Auto => {
            let n = file_text.unicode_len();
            let mut i: usize = n;
            proof {
                assert(file_text@.take(n as int) =~= file_text@);
            }
            while i > 0
                invariant
                    i <= n,
                    n == file_text@.len(),
                    new_line_kind == NewLineKind::Auto,
                    auto_newline_is_crlf(file_text@) == auto_newline_is_crlf(
                        file_text@.take(i as int),
                    ),
                decreases i,
            {
                let ghost prefix = file_text@.take(i as int);
                let c = file_text.get_char(i - 1);
                if c == '\n' {
                    proof {
                        assert(prefix[i - 1] == file_text@[i - 1]);
                    }
                    if i >= 2 && file_text.get_char(i - 2) == '\r' {
                        proof {
                            assert(prefix[i - 2] == file_text@[i - 2]);
                            assert(auto_newline_is_crlf(prefix));
                        }
                        return "\r\n";
                    } else {
                        proof {
                            if i >= 2 {
                                assert(prefix[i - 2] == file_text@[i - 2]);
                            }
                            assert(!auto_newline_is_crlf(prefix));
                        }
                        return "\n";
                    }
                }
                proof {
                    assert(prefix[i - 1] == file_text@[i - 1]);
                    assert(prefix.drop_last() =~= file_text@.take(i - 1));
                    assert(auto_newline_is_crlf(prefix) == auto_newline_is_crlf(
                        file_text@.take(i - 1),
                    ));
                }
                i = i - 1;
            }
            proof {
                assert(file_text@.take(0) =~= Seq::<char>::empty());
                assert(!auto_newline_is_crlf(file_text@.take(0)));
            }
            "\n"
        },
    }
}

/// Strip a leading byte-order mark, if one is present; it is not reproduced
/// in the output.
pub fn strip_bom(text: &str) -> (r: &str)
    ensures
        text@.len() > 0 && text@[0] == '\u{feff}' ==> r@ == text@.subrange(
            1,
            text@.len() as int,
        ),
        !(text@.len() > 0 && text@[0] == '\u{feff}') ==> r@ == text@,
{
    let n = text.unicode_len();
    if n > 0 && text.get_char(0) == '\u{feff}' {
        text.substring_char(1, n)
    } else {
        text
    }
}

/// The global layout options the external layout engine consumes: it alone
/// resolves indent scopes into tab or space bytes and newline signals into
/// final newline bytes.
#[derive(Debug, Clone, Copy)]
pub struct PrintOptions {
    pub indent_width: u8,
    pub max_width: u32,
    pub use_tabs: bool,
    pub new_line_text: &'static str,
}

/// The layout options a configuration stands for, with the newline kind
/// resolved against the file being formatted.
pub fn config_to_print_options(file_text: &str, config: &Configuration) -> (options: PrintOptions)
    ensures
        options.indent_width == config.indent_width,
        options.max_width == config.line_width,
        options.use_tabs == config.use_tabs,
        options.new_line_text@ == spec_resolved_newline(file_text@, config.new_line_kind),
{
    PrintOptions {
        indent_width: config.indent_width,
        max_width: config.line_width,
        use_tabs: config.use_tabs,
        new_line_text: resolve_new_line_kind(file_text, config.new_line_kind),
    }
}

} // verus!
