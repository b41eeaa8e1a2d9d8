//! Textual pre-processing of interactive input: stripping SQL comments
//! (`/* ... */` blocks and `--` line comments, the line's newline kept),
//! recognizing the exit command, and cleaning a recall-command argument.

use vstd::prelude::*;
use vstd::string::*;

use crate::history::{dedup_key, trim_semis_exec};
use crate::values::{lower_seq, lower_str, str_chars, trim_str, trimmed};

verus! {

/// The text with comments removed, scanning from `i` in the given
/// comment state: `/* ... */` blocks vanish, `--` starts a line comment
/// that ends at (and keeps) the newline.
pub open spec fn strip_comments(s: Seq<char>, i: int, in_block: bool, in_line: bool) -> Seq<char>
    decreases s.len() - i,
{
    if i < 0 || i >= s.len() {
        Seq::empty()
    } else {
        let c = s[i];
        if c == '/' && !in_block && !in_line && i + 1 < s.len() && s[i + 1] == '*' {
            strip_comments(s, i + 2, true, in_line)
        } else if c == '*' && in_block && !in_line && i + 1 < s.len() && s[i + 1] == '/' {
            strip_comments(s, i + 2, false, in_line)
        } else if c == '-' && !in_block && !in_line && i + 1 < s.len() && s[i + 1] == '-' {
            strip_comments(s, i + 2, in_block, true)
        } else if c == '\n' && in_line {
            seq!['\n'] + strip_comments(s, i + 1, in_block, false)
        } else if !in_block && !in_line {
            seq![c] + strip_comments(s, i + 1, in_block, in_line)
        } else {
            strip_comments(s, i + 1, in_block, in_line)
        }
    }
}

/// Removes SQL comments from a statement: block comments vanish, line
/// comments run to the end of their line, the newline itself stays.
pub fn remove_comments(input: &str) -> (r: String)
    ensures
        r@ == strip_comments(input@, 0, false, false),
{
    let v = str_chars(input);
    let n = v.len();
    let mut out: Vec<char> = Vec::new();
    let mut i: usize = 0;
    let mut in_block = false;
    let mut in_line = false;
    while i < n
        invariant
            i <= n,
            n == v@.len(),
            v@ == input@,
            strip_comments(input@, 0, false, false) =~= out@ + strip_comments(
                input@,
                i as int,
                in_block,
                in_line,
            ),
        decreases n - i,
    {
        let ghost out0 = out@;
        let c = v[i];
        if c == '/' && !in_block && !in_line && i + 1 < n && v[i + 1] == '*' {
            in_block = true;
            i += 2;
        } else if c == '*' && in_block && !in_line && i + 1 < n && v[i + 1] == '/' {
            in_block = false;
            i += 2;
        } else if c == '-' && !in_block && !in_line && i + 1 < n && v[i + 1] == '-' {
            in_line = true;
            i += 2;
        } else if c == '\n' && in_line {
            in_line = false;
            out.push('\n');
            proof {
                assert(out@ + strip_comments(input@, i as int, in_block, false) =~= out0 + (seq![
                    '\n',
                ] + strip_comments(input@, i as int, in_block, false)));
            }
            i += 1;
        } else if !in_block && !in_line {
            out.push(c);
            proof {
                assert(out@ + strip_comments(input@, i + 1, in_block, in_line) =~= out0 + (seq![c]
                    + strip_comments(input@, i + 1, in_block, in_line)));
            }
            i += 1;
        } else {
            i += 1;
        }
    }
    proof {
        assert(strip_comments(input@, i as int, in_block, in_line) =~= Seq::<char>::empty());
        assert(out@ + Seq::<char>::empty() =~= out@);
    }
    crate::values::chars_to_string(&out)
}

/// Whether the trimmed, lowercased input spells `exit`, `exit;`, `quit`
/// or `quit;`.
pub open spec fn is_exit_cmd(s: Seq<char>) -> bool {
    let t = lower_seq(trimmed(s));
    t == seq!['e', 'x', 'i', 't'] || t == seq!['e', 'x', 'i', 't', ';'] || t == seq![
        'q',
        'u',
        'i',
        't',
    ] || t == seq!['q', 'u', 'i', 't', ';']
}

/// Whether the input asks to leave the session.
pub fn should_exit(input: &str) -> (r: bool)
    ensures
        r == is_exit_cmd(input@),
{
    let t = trim_str(input);
    let low = lower_str(t.as_str());
    let lc = str_chars(low.as_str());
    let e4 = lc.len() == 4 && lc[0] == 'e' && lc[1] == 'x' && lc[2] == 'i' && lc[3] == 't';
    let e5 = lc.len() == 5 && lc[0] == 'e' && lc[1] == 'x' && lc[2] == 'i' && lc[3] == 't'
        && lc[4] == ';';
    let q4 = lc.len() == 4 && lc[0] == 'q' && lc[1] == 'u' && lc[2] == 'i' && lc[3] == 't';
    let q5 = lc.len() == 5 && lc[0] == 'q' && lc[1] == 'u' && lc[2] == 'i' && lc[3] == 't'
        && lc[4] == ';';
    let r = e4 || e5 || q4 || q5;
    proof {
        let t0 = lower_seq(trimmed(input@));
        assert(lc@ == t0);
        assert(e4 == (t0 == seq!['e', 'x', 'i', 't'])) by {
            if t0 == seq!['e', 'x', 'i', 't'] {
            } else if e4 {
                assert(t0 =~= seq!['e', 'x', 'i', 't']);
            }
        }
        assert(e5 == (t0 == seq!['e', 'x', 'i', 't', ';'])) by {
            if e5 {
                assert(t0 =~= seq!['e', 'x', 'i', 't', ';']);
            }
        }
        assert(q4 == (t0 == seq!['q', 'u', 'i', 't'])) by {
            if q4 {
                assert(t0 =~= seq!['q', 'u', 'i', 't']);
            }
        }
        assert(q5 == (t0 == seq!['q', 'u', 'i', 't', ';'])) by {
            if q5 {
                assert(t0 =~= seq!['q', 'u', 'i', 't', ';']);
            }
        }
    }
    r
}

/// A recall-command argument, cleaned: trimmed, trailing semicolons
/// dropped, trimmed again.
pub fn clean_command_arg(input: &str) -> (r: String)
    ensures
        r@ == dedup_key(input@),
{
    let t = trim_str(input);
    trim_semis_exec(t.as_str())
}

} // verus!
