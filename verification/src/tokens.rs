//! Tokenization of attribute values.
//!
//! A token is a whitespace-delimited run of characters in an attribute's raw
//! text. Runs of whitespace collapse to single break opportunities, and a
//! token consisting of a lone backslash can be discarded: it is a
//! pre-existing line-continuation artifact, not reflowable content.

use vstd::prelude::*;
use vstd::string::StrSliceExecFns;

verus! {

/// Whitespace, as Unicode's White_Space property defines it.
pub open spec fn is_space_char(c: char) -> bool {
    ||| c == ' '
    ||| c == '\t'
    ||| c == '\n'
    ||| c == '\r'
    ||| c == '\u{b}'
    ||| c == '\u{c}'
    ||| c == '\u{85}'
    ||| c == '\u{a0}'
    ||| c == '\u{1680}'
    ||| ('\u{2000}' as u32 <= c as u32 && c as u32 <= '\u{200a}' as u32)
    ||| c == '\u{2028}'
    ||| c == '\u{2029}'
    ||| c == '\u{202f}'
    ||| c == '\u{205f}'
    ||| c == '\u{3000}'
}

/// Executable whitespace test.
pub fn is_space(c: char) -> (r: bool)
    ensures
        r == is_space_char(c),
{
    c == ' ' || c == '\t' || c == '\n' || c == '\r' || c == '\u{b}' || c == '\u{c}' || c == '\u{85}'
        || c == '\u{a0}' || c == '\u{1680}' || ('\u{2000}' <= c && c <= '\u{200a}') || c
        == '\u{2028}' || c == '\u{2029}' || c == '\u{202f}' || c == '\u{205f}' || c == '\u{3000}'
}

/// A completed run of non-whitespace characters becomes a token unless it is
/// empty or, when `drop_backslash` is set, a lone backslash.
pub open spec fn commit_token(cur: Seq<char>, drop_backslash: bool) -> Seq<Seq<char>> {
    if cur.len() == 0 {
        Seq::<Seq<char>>::empty()
    } else if drop_backslash && cur == seq!['\\'] {
        Seq::<Seq<char>>::empty()
    } else {
        seq![cur]
    }
}

/// Tokens completed by whitespace boundaries while scanning `s` with an
/// in-progress token `cur`; a final in-progress token is not included.
pub open spec fn scan_tokens(s: Seq<char>, cur: Seq<char>, drop_backslash: bool) -> Seq<Seq<char>>
    decreases s.len(),
{
    if s.len() == 0 {
        Seq::<Seq<char>>::empty()
    } else if is_space_char(s[0]) {
        commit_token(cur, drop_backslash) + scan_tokens(
            s.drop_first(),
            Seq::<char>::empty(),
            drop_backslash,
        )
    } else {
        scan_tokens(s.drop_first(), cur.push(s[0]), drop_backslash)
    }
}

/// The in-progress token left over after scanning `s` starting from `cur`.
pub open spec fn pending_token(s: Seq<char>, cur: Seq<char>) -> Seq<char>
    decreases s.len(),
{
    if s.len() == 0 {
        cur
    } else if is_space_char(s[0]) {
        pending_token(s.drop_first(), Seq::<char>::empty())
    } else {
        pending_token(s.drop_first(), cur.push(s[0]))
    }
}

/// All tokens of `s`: whitespace-delimited runs, with lone backslashes
/// discarded when `drop_backslash` is set.
pub open spec fn split_tokens(s: Seq<char>, drop_backslash: bool) -> Seq<Seq<char>> {
    scan_tokens(s, Seq::<char>::empty(), drop_backslash) + commit_token(
        pending_token(s, Seq::<char>::empty()),
        drop_backslash,
    )
}

/// The reflowable tokens of an attribute value.
pub open spec fn tokens_of(s: Seq<char>) -> Seq<Seq<char>> {
    split_tokens(s, true)
}

/// Whitespace-delimited tokens with lone backslashes kept.
pub open spec fn raw_tokens_of(s: Seq<char>) -> Seq<Seq<char>> {
    split_tokens(s, false)
}

/// Scanning a concatenation scans the first part, then the second part
/// starting from the first part's leftover in-progress token.
pub proof fn lemma_scan_concat(a: Seq<char>, b: Seq<char>, cur: Seq<char>, drop_backslash: bool)
    ensures
        scan_tokens(a + b, cur, drop_backslash) == scan_tokens(a, cur, drop_backslash)
            + scan_tokens(b, pending_token(a, cur), drop_backslash),
        pending_token(a + b, cur) == pending_token(b, pending_token(a, cur)),
    decreases a.len(),
{
    if a.len() == 0 {
        assert(a + b =~= b);
        assert(scan_tokens(a, cur, drop_backslash) + scan_tokens(b, cur, drop_backslash)
            =~= scan_tokens(b, cur, drop_backslash));
    } else {
        assert((a + b).drop_first() =~= a.drop_first() + b);
        assert((a + b)[0] == a[0]);
        if is_space_char(a[0]) {
            lemma_scan_concat(a.drop_first(), b, Seq::<char>::empty(), drop_backslash);
            assert(commit_token(cur, drop_backslash) + (scan_tokens(
                a.drop_first(),
                Seq::<char>::empty(),
                drop_backslash,
            ) + scan_tokens(
                b,
                pending_token(a.drop_first(), Seq::<char>::empty()),
                drop_backslash,
            )) =~= (commit_token(cur, drop_backslash) + scan_tokens(
                a.drop_first(),
                Seq::<char>::empty(),
                drop_backslash,
            )) + scan_tokens(
                b,
                pending_token(a.drop_first(), Seq::<char>::empty()),
                drop_backslash,
            ));
        } else {
            lemma_scan_concat(a.drop_first(), b, cur.push(a[0]), drop_backslash);
        }
    }
}

/// Scanning a nonempty all-whitespace run commits the in-progress token and
/// leaves nothing pending.
pub proof fn lemma_scan_all_space(w: Seq<char>, cur: Seq<char>, drop_backslash: bool)
    requires
        w.len() > 0,
        forall|i: int| 0 <= i < w.len() ==> is_space_char(w[i]),
    ensures
        scan_tokens(w, cur, drop_backslash) == commit_token(cur, drop_backslash),
        pending_token(w, cur) == Seq::<char>::empty(),
    decreases w.len(),
{
    if w.len() == 1 {
        assert(w.drop_first().len() == 0);
        assert(scan_tokens(w.drop_first(), Seq::<char>::empty(), drop_backslash)
            == Seq::<Seq<char>>::empty());
        assert(pending_token(w.drop_first(), Seq::<char>::empty()) == Seq::<char>::empty());
        assert(commit_token(cur, drop_backslash) + Seq::<Seq<char>>::empty() =~= commit_token(
            cur,
            drop_backslash,
        ));
    } else {
        assert(forall|i: int|
            0 <= i < w.drop_first().len() ==> is_space_char(#[trigger] w.drop_first()[i]));
        lemma_scan_all_space(w.drop_first(), Seq::<char>::empty(), drop_backslash);
        assert(commit_token(Seq::<char>::empty(), drop_backslash) =~= Seq::<Seq<char>>::empty());
        assert(scan_tokens(w.drop_first(), Seq::<char>::empty(), drop_backslash)
            == Seq::<Seq<char>>::empty());
        assert(commit_token(cur, drop_backslash) + Seq::<Seq<char>>::empty() =~= commit_token(
            cur,
            drop_backslash,
        ));
    }
}

/// Scanning an all-non-whitespace run commits nothing and extends the
/// in-progress token with the whole run.
pub proof fn lemma_scan_no_space(t: Seq<char>, cur: Seq<char>, drop_backslash: bool)
    requires
        forall|i: int| 0 <= i < t.len() ==> !is_space_char(t[i]),
    ensures
        scan_tokens(t, cur, drop_backslash) == Seq::<Seq<char>>::empty(),
        pending_token(t, cur) == cur + t,
    decreases t.len(),
{
    if t.len() == 0 {
        assert(cur + t =~= cur);
    } else {
        assert(forall|i: int|
            0 <= i < t.drop_first().len() ==> !is_space_char(#[trigger] t.drop_first()[i]));
        lemma_scan_no_space(t.drop_first(), cur.push(t[0]), drop_backslash);
        assert(cur.push(t[0]) + t.drop_first() =~= cur + t);
    }
}

/// Every token that splitting produces is nonempty, contains no whitespace,
/// and, when lone backslashes are dropped, is not a lone backslash.
pub proof fn lemma_scan_tokens_wf(s: Seq<char>, cur: Seq<char>, drop_backslash: bool)
    requires
        forall|i: int| 0 <= i < cur.len() ==> !is_space_char(cur[i]),
    ensures
        forall|k: int|
            0 <= k < scan_tokens(s, cur, drop_backslash).len() ==> token_wf(
                #[trigger] scan_tokens(s, cur, drop_backslash)[k],
                drop_backslash,
            ),
        forall|i: int|
            0 <= i < pending_token(s, cur).len() ==> !is_space_char(pending_token(s, cur)[i]),
    decreases s.len(),
{
    if s.len() == 0 {
        assert(scan_tokens(s, cur, drop_backslash) == Seq::<Seq<char>>::empty());
        assert(pending_token(s, cur) == cur);
    } else if is_space_char(s[0]) {
        lemma_scan_tokens_wf(s.drop_first(), Seq::<char>::empty(), drop_backslash);
        assert(forall|k: int|
            0 <= k < commit_token(cur, drop_backslash).len() ==> token_wf(
                #[trigger] commit_token(cur, drop_backslash)[k],
                drop_backslash,
            ));
        assert(scan_tokens(s, cur, drop_backslash) == commit_token(cur, drop_backslash)
            + scan_tokens(s.drop_first(), Seq::<char>::empty(), drop_backslash));
        assert(pending_token(s, cur) == pending_token(s.drop_first(), Seq::<char>::empty()));
        assert forall|k: int| 0 <= k < scan_tokens(s, cur, drop_backslash).len() implies token_wf(
            #[trigger] scan_tokens(s, cur, drop_backslash)[k],
            drop_backslash,
        ) by {
            let c = commit_token(cur, drop_backslash);
            if k < c.len() {
                assert(scan_tokens(s, cur, drop_backslash)[k] == c[k]);
            } else {
                assert(scan_tokens(s, cur, drop_backslash)[k] == scan_tokens(
                    s.drop_first(),
                    Seq::<char>::empty(),
                    drop_backslash,
                )[k - c.len()]);
            }
        }
    } else {
        assert(forall|i: int|
            0 <= i < cur.push(s[0]).len() ==> !is_space_char(#[trigger] cur.push(s[0])[i]));
        lemma_scan_tokens_wf(s.drop_first(), cur.push(s[0]), drop_backslash);
        assert(scan_tokens(s, cur, drop_backslash) == scan_tokens(
            s.drop_first(),
            cur.push(s[0]),
            drop_backslash,
        ));
        assert(pending_token(s, cur) == pending_token(s.drop_first(), cur.push(s[0])));
    }
}

/// What holds of every token the splitter hands out.
pub open spec fn token_wf(t: Seq<char>, drop_backslash: bool) -> bool {
    &&& t.len() > 0
    &&& forall|i: int| 0 <= i < t.len() ==> !is_space_char(t[i])
    &&& (drop_backslash ==> t != seq!['\\'])
}

/// Every reflowable token is well formed.
pub proof fn lemma_tokens_of_wf(s: Seq<char>)
    ensures
        forall|k: int|
            0 <= k < tokens_of(s).len() ==> token_wf(#[trigger] tokens_of(s)[k], true),
{
    lemma_scan_tokens_wf(s, Seq::<char>::empty(), true);
}

/// Character-for-character string equality.
pub fn str_eq(a: &str, b: &str) -> (r: bool)
    ensures
        r == (a@ == b@),
{
    let na = a.unicode_len();
    let nb = b.unicode_len();
    if na != nb {
        return false;
    }
    let mut i: usize = 0;
    while i < na
        invariant
            i <= na,
            na == a@.len(),
            na == b@.len(),
            forall|j: int| 0 <= j < i ==> a@[j] == b@[j],
        decreases na - i,
    {
        if a.get_char(i) != b.get_char(i) {
            return false;
        }
        i = i + 1;
    }
    proof {
        assert(a@ =~= b@);
    }
    true
}

/// Split text into whitespace-delimited tokens; drop lone backslashes when
/// asked to.
pub fn tokenize(text: &str, drop_backslash: bool) -> (tokens: Vec<String>)
    ensures
        tokens.deep_view() == split_tokens(text@, drop_backslash),
{
    let n = text.unicode_len();
    let mut tokens: Vec<String> = Vec::new();
    let mut start: Option<usize> = None;
    let mut i: usize = 0;
    while i < n
        invariant
            i <= n,
            n == text@.len(),
            tokens.deep_view() == scan_tokens(
                text@.take(i as int),
                Seq::<char>::empty(),
                drop_backslash,
            ),
            match start {
                Some(st) => st < i && pending_token(text@.take(i as int), Seq::<char>::empty())
                    == text@.subrange(st as int, i as int),
                None => pending_token(text@.take(i as int), Seq::<char>::empty())
                    == Seq::<char>::empty(),
            },
        decreases n - i,
    {
        let ghost prefix = text@.take(i as int);
        let ghost pend = pending_token(prefix, Seq::<char>::empty());
        let ghost step = seq![text@[i as int]];
        proof {
            assert(text@.take(i + 1) =~= prefix + step);
            lemma_scan_concat(prefix, step, Seq::<char>::empty(), drop_backslash);
            assert(step[0] == text@[i as int]);
            assert(step.drop_first().len() == 0);
        }
        let c = text.get_char(i);
        if is_space(c) {
            proof {
                assert(scan_tokens(step.drop_first(), Seq::<char>::empty(), drop_backslash)
                    == Seq::<Seq<char>>::empty());
                assert(pending_token(step.drop_first(), Seq::<char>::empty())
                    == Seq::<char>::empty());
                assert(scan_tokens(step, pend, drop_backslash) == commit_token(
                    pend,
                    drop_backslash,
                ) + Seq::<Seq<char>>::empty());
                assert(commit_token(pend, drop_backslash) + Seq::<Seq<char>>::empty()
                    =~= commit_token(pend, drop_backslash));
                assert(pending_token(step, pend) == Seq::<char>::empty());
            }
            match start {
                Some(st) => {
                    let tok = text.substring_char(st, i);
                    let drop_it = drop_backslash && tok.unicode_len() == 1 && tok.get_char(0)
                        == '\\';
                    proof {
                        if drop_it {
                            assert(tok@ =~= seq!['\\']);
                        } else if drop_backslash && pend == seq!['\\'] {
                            assert(tok@.len() == 1 && tok@[0] == '\\');
                        }
                    }
                    if !drop_it {
                        let owned = tok.to_owned();
                        let ghost old_tokens = tokens.deep_view();
                        tokens.push(owned);
                        proof {
                            assert(tokens.deep_view() =~= old_tokens.push(tok@));
                            assert(old_tokens.push(tok@) =~= old_tokens + commit_token(
                                pend,
                                drop_backslash,
                            ));
                        }
                    } else {
                        proof {
                            assert(tokens.deep_view() + commit_token(pend, drop_backslash)
                                =~= tokens.deep_view());
                        }
                    }
                    start = None;
                },
                None => {
                    proof {
                        assert(commit_token(pend, drop_backslash) =~= Seq::<Seq<char>>::empty());
                        assert(tokens.deep_view() + Seq::<Seq<char>>::empty()
                            =~= tokens.deep_view());
                    }
                },
            }
        } else {
            proof {
                assert(scan_tokens(step.drop_first(), pend.push(text@[i as int]), drop_backslash)
                    == Seq::<Seq<char>>::empty());
                assert(pending_token(step.drop_first(), pend.push(text@[i as int])) == pend.push(
                    text@[i as int],
                ));
                assert(scan_tokens(step, pend, drop_backslash) == Seq::<Seq<char>>::empty());
                assert(tokens.deep_view() + Seq::<Seq<char>>::empty() =~= tokens.deep_view());
                assert(pending_token(step, pend) == pend.push(text@[i as int]));
            }
            match start {
                Some(st) => {
                    proof {
                        assert(text@.subrange(st as int, i as int).push(text@[i as int])
                            =~= text@.subrange(st as int, i + 1));
                    }
                },
                None => {
                    proof {
                        assert(Seq::<char>::empty().push(text@[i as int]) =~= text@.subrange(
                            i as int,
                            i + 1,
                        ));
                    }
                    start = Some(i);
                },
            }
        }
        i = i + 1;
    }
    proof {
        assert(text@.take(n as int) =~= text@);
    }
    match start {
        Some(st) => {
            let tok = text.substring_char(st, n);
            let drop_it = drop_backslash && tok.unicode_len() == 1 && tok.get_char(0) == '\\';
            proof {
                let pend = pending_token(text@, Seq::<char>::empty());
                if drop_it {
                    assert(tok@ =~= seq!['\\']);
                } else if drop_backslash && pend == seq!['\\'] {
                    assert(tok@.len() == 1 && tok@[0] == '\\');
                }
            }
            if !drop_it {
                let owned = tok.to_owned();
                let ghost old_tokens = tokens.deep_view();
                tokens.push(owned);
                proof {
                    assert(tokens.deep_view() =~= old_tokens.push(tok@));
                    assert(old_tokens.push(tok@) =~= split_tokens(text@, drop_backslash));
                }
            } else {
                proof {
                    assert(tokens.deep_view() =~= split_tokens(text@, drop_backslash));
                }
            }
        },
        None => {
            proof {
                assert(tokens.deep_view() =~= split_tokens(text@, drop_backslash));
            }
        },
    }
    tokens
}

} // verus!
