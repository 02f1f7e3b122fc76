//! The operator's control surface, reduced to its decision: one line of
//! input parsed into one of the three verbs — `list`, `send <hostname>
//! <payload...>`, `quit` — or rejected as unknown.
use crate::commands::push_char;
use vstd::prelude::*;

verus! {

/// One parsed operator command.
#[derive(Debug, Clone, PartialEq, Eq)]
pub enum ReplCmd {
    /// Enumerate the current registry entries.
    List,
    /// Send the payload to the agent with the given hostname.
    Send { hostname: String, data: String },
    /// Leave the control surface (the process keeps running).
    Quit,
    /// Anything else; the operator is told the known verbs.
    Unknown,
}

/// The mathematical value of a [`ReplCmd`], strings taken as their
/// character sequences.
pub enum ReplCmdView {
    List,
    Send { hostname: Seq<char>, data: Seq<char> },
    Quit,
    Unknown,
}

impl View for ReplCmd {
    type V = ReplCmdView;

    open spec fn view(&self) -> ReplCmdView {
        match self {
            ReplCmd::List => ReplCmdView::List,
            ReplCmd::Send { hostname, data } => ReplCmdView::Send {
                hostname: hostname@,
                data: data@,
            },
            ReplCmd::Quit => ReplCmdView::Quit,
            ReplCmd::Unknown => ReplCmdView::Unknown,
        }
    }
}

/// The characters the operator's line is split on: the Unicode
/// white-space characters.
pub open spec fn is_space(c: char) -> bool {
    ||| c == ' '
    ||| c == '\t'
    ||| c == '\n'
    ||| c == '\u{000B}'
    ||| c == '\u{000C}'
    ||| c == '\r'
    ||| c == '\u{0085}'
    ||| c == '\u{00A0}'
    ||| c == '\u{1680}'
    ||| ('\u{2000}' <= c && c <= '\u{200A}')
    ||| c == '\u{2028}'
    ||| c == '\u{2029}'
    ||| c == '\u{202F}'
    ||| c == '\u{205F}'
    ||| c == '\u{3000}'
}

fn is_space_char(c: char) -> (b: bool)
    ensures
        b == is_space(c),
{
    c == ' ' || c == '\t' || c == '\n' || c == '\u{000B}' || c == '\u{000C}' || c == '\r' || c
        == '\u{0085}' || c == '\u{00A0}' || c == '\u{1680}' || ('\u{2000}' <= c && c
        <= '\u{200A}') || c == '\u{2028}' || c == '\u{2029}' || c == '\u{202F}' || c == '\u{205F}'
        || c == '\u{3000}'
}

/// The position just past the token starting at `i`: the first position
/// at or after `i` holding a space, or the end of the line.
pub open spec fn scan_token(s: Seq<char>, i: int) -> int
    decreases s.len() - i,
{
    if i < 0 || i >= s.len() {
        s.len() as int
    } else if is_space(s[i]) {
        i
    } else {
        scan_token(s, i + 1)
    }
}

pub proof fn lemma_scan_token_bounds(s: Seq<char>, i: int)
    requires
        0 <= i <= s.len(),
    ensures
        i <= scan_token(s, i) <= s.len(),
        i < s.len() && !is_space(s[i]) ==> scan_token(s, i) > i,
    decreases s.len() - i,
{
    if i < s.len() && !is_space(s[i]) {
        lemma_scan_token_bounds(s, i + 1);
    }
}

/// The line's white-space-separated tokens from position `i` on, each a
/// maximal run of non-space characters, in order and never empty.
pub open spec fn tokens_from(s: Seq<char>, i: int) -> Seq<Seq<char>>
    decreases s.len() - i,
    via tokens_from_dec
{
    if i < 0 || i >= s.len() {
        Seq::empty()
    } else if is_space(s[i]) {
        tokens_from(s, i + 1)
    } else {
        seq![s.subrange(i, scan_token(s, i))] + tokens_from(s, scan_token(s, i))
    }
}

#[via_fn]
proof fn tokens_from_dec(s: Seq<char>, i: int) {
    if 0 <= i < s.len() && !is_space(s[i]) {
        lemma_scan_token_bounds(s, i);
    }
}

pub open spec fn rest_with_spaces(ts: Seq<Seq<char>>) -> Seq<char>
    decreases ts.len(),
{
    if ts.len() == 0 {
        Seq::empty()
    } else {
        seq![' '] + ts[0] + rest_with_spaces(ts.drop_first())
    }
}

/// The tokens joined back with one space between each pair: what the
/// `send` verb passes on as its payload.
pub open spec fn join_tokens(ts: Seq<Seq<char>>) -> Seq<char> {
    if ts.len() == 0 {
        Seq::empty()
    } else {
        ts[0] + rest_with_spaces(ts.drop_first())
    }
}

proof fn lemma_rest_with_spaces_snoc(ts: Seq<Seq<char>>, x: Seq<char>)
    ensures
        rest_with_spaces(ts.push(x)) =~= rest_with_spaces(ts) + (seq![' '] + x),
    decreases ts.len(),
{
    reveal_with_fuel(rest_with_spaces, 3);
    if ts.len() == 0 {
        assert(ts.push(x).drop_first() =~= Seq::<Seq<char>>::empty());
        assert(ts.push(x)[0] == x);
        assert(rest_with_spaces(ts.push(x)) =~= seq![' '] + x);
        assert(rest_with_spaces(ts) + (seq![' '] + x) =~= seq![' '] + x);
    } else {
        lemma_rest_with_spaces_snoc(ts.drop_first(), x);
        assert(ts.push(x).drop_first() =~= ts.drop_first().push(x));
        assert(ts.push(x)[0] == ts[0]);
        assert(rest_with_spaces(ts.push(x)) == seq![' '] + ts[0] + rest_with_spaces(
            ts.drop_first().push(x),
        ));
        assert(rest_with_spaces(ts.drop_first().push(x)) =~= rest_with_spaces(ts.drop_first()) + (
        seq![' '] + x));
        assert(seq![' '] + ts[0] + (rest_with_spaces(ts.drop_first()) + (seq![' '] + x)) =~= (
        seq![' '] + ts[0] + rest_with_spaces(ts.drop_first())) + (seq![' '] + x));
    }
}

/// What one operator line means: the first token picks the verb; `send`
/// needs a hostname and at least one payload token, and the payload is
/// the remaining tokens joined with single spaces.
pub open spec fn spec_parse(line: Seq<char>) -> ReplCmdView {
    let ts = tokens_from(line, 0);
    if ts.len() == 0 {
        ReplCmdView::Unknown
    } else if ts[0] == "list"@ {
        ReplCmdView::List
    } else if ts[0] == "send"@ && ts.len() >= 3 {
        ReplCmdView::Send { hostname: ts[1], data: join_tokens(ts.skip(2)) }
    } else if ts[0] == "quit"@ {
        ReplCmdView::Quit
    } else {
        ReplCmdView::Unknown
    }
}

/// Splits the line into its white-space-separated tokens.
fn tokenize(line: &str) -> (r: Vec<String>)
    ensures
        r@.map(|k: int, t: String| t@) =~= tokens_from(line@, 0),
{
    let n = line.unicode_len();
    let mut ts: Vec<String> = Vec::new();
    let mut i: usize = 0;
    proof {
        assert(ts@.map(|k: int, t: String| t@) =~= Seq::<Seq<char>>::empty());
    }
    while i < n
        invariant
            i <= n,
            n == line@.len(),
            tokens_from(line@, 0) =~= ts@.map(|k: int, t: String| t@) + tokens_from(
                line@,
                i as int,
            ),
        decreases n - i,
    {
        let c = line.get_char(i);
        if is_space_char(c) {
            i = i + 1;
        } else {
            let mut tok = String::new();
            let mut j = i;
            proof {
                assert(tok@ =~= line@.subrange(i as int, i as int));
            }
            while j < n && !is_space_char(line.get_char(j))
                invariant
                    i <= j <= n,
                    n == line@.len(),
                    scan_token(line@, i as int) == scan_token(line@, j as int),
                    tok@ =~= line@.subrange(i as int, j as int),
                decreases n - j,
            {
                let cj = line.get_char(j);
                push_char(&mut tok, cj);
                proof {
                    assert(tok@ =~= line@.subrange(i as int, j + 1));
                }
                j = j + 1;
            }
            proof {
                assert(scan_token(line@, j as int) == j);
                let ghost tsm = ts@.map(|k: int, t: String| t@);
                assert(tsm + (seq![line@.subrange(i as int, j as int)] + tokens_from(
                    line@,
                    j as int,
                )) =~= tsm.push(line@.subrange(i as int, j as int)) + tokens_from(
                    line@,
                    j as int,
                ));
            }
            let ghost tsm = ts@.map(|k: int, t: String| t@);
            ts.push(tok);
            proof {
                assert(ts@.map(|k: int, t: String| t@) =~= tsm.push(
                    line@.subrange(i as int, scan_token(line@, i as int)),
                ));
            }
            i = j;
        }
    }
    ts
}

/// Parses one operator line into its command, exactly as the control
/// surface's grammar reads it.
pub fn parse_command(line: &str) -> (r: ReplCmd)
    ensures
        r@ == spec_parse(line@),
{
    let ts = tokenize(line);
    let ghost tsv = tokens_from(line@, 0);
    if ts.len() == 0 {
        return ReplCmd::Unknown;
    }
    if ts[0].eq(&String::from_str("list")) {
        ReplCmd::List
    } else if ts[0].eq(&String::from_str("send")) && ts.len() >= 3 {
        let hostname = ts[1].clone();
        let mut data = ts[2].clone();
        let m = ts.len();
        let mut k: usize = 3;
        proof {
            assert(rest_with_spaces(tsv.subrange(3, 3)) =~= Seq::<char>::empty());
            assert(data@ =~= tsv[2] + rest_with_spaces(tsv.subrange(3, 3)));
        }
        while k < m
            invariant
                3 <= k <= m,
                m == ts@.len(),
                ts@.map(|q: int, t: String| t@) =~= tsv,
                m == tsv.len(),
                data@ =~= tsv[2] + rest_with_spaces(tsv.subrange(3, k as int)),
            decreases m - k,
        {
            push_char(&mut data, ' ');
            data.append(ts[k].as_str());
            proof {
                assert(tsv.subrange(3, k + 1) =~= tsv.subrange(3, k as int).push(tsv[k as int]));
                lemma_rest_with_spaces_snoc(tsv.subrange(3, k as int), tsv[k as int]);
                assert(data@ =~= tsv[2] + rest_with_spaces(tsv.subrange(3, k + 1)));
            }
            k = k + 1;
        }
        proof {
            assert(tsv.skip(2)[0] == tsv[2]);
            assert(tsv.skip(2).drop_first() =~= tsv.subrange(3, m as int));
            assert(data@ =~= join_tokens(tsv.skip(2)));
        }
        ReplCmd::Send { hostname, data }
    } else if ts[0].eq(&String::from_str("quit")) {
        ReplCmd::Quit
    } else {
        ReplCmd::Unknown
    }
}

} // verus!
