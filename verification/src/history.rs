//! Command history for the interactive session: a bounded queue of
//! executed commands with a browse cursor. Commands are stored trimmed
//! and terminated with a semicolon (except `exit`), history-recall
//! commands and immediate repeats are not recorded, and the oldest
//! entry falls out when the bound is reached.

use vstd::prelude::*;
use vstd::string::*;
use std::collections::VecDeque;

use crate::values::{
    lower_seq, lower_str, push_char, str_chars, str_eq, to_lower, trim_str, trimmed,
};

verus! {

/// A recorded command list with its browse cursor.
#[derive(Debug)]
pub struct CommandHistory {
    pub commands: VecDeque<String>,
    pub max_size: usize,
    pub current_index: usize,
}

/// The mathematical reading of a history: the stored commands, the
/// bound, and the cursor.
pub ghost struct HistV {
    pub commands: Seq<Seq<char>>,
    pub max_size: int,
    pub index: int,
}

impl View for CommandHistory {
    type V = HistV;

    open spec fn view(&self) -> HistV {
        HistV {
            commands: self.commands.deep_view(),
            max_size: self.max_size as int,
            index: self.current_index as int,
        }
    }
}

/// `s` with trailing semicolons removed.
pub open spec fn trim_semis(s: Seq<char>) -> Seq<char>
    decreases s.len(),
{
    if s.len() > 0 && s[s.len() - 1] == ';' {
        trim_semis(s.drop_last())
    } else {
        s
    }
}

/// The duplicate-detection key of a command: trimmed, trailing
/// semicolons dropped, trimmed again.
pub open spec fn dedup_key(s: Seq<char>) -> Seq<char> {
    trimmed(trim_semis(trimmed(s)))
}

/// The word `exit` in any ASCII case.
pub open spec fn is_exit_word(s: Seq<char>) -> bool {
    s.len() == 4 && to_lower(s[0]) == 'e' && to_lower(s[1]) == 'x' && to_lower(s[2]) == 'i'
        && to_lower(s[3]) == 't'
}

/// The form a command is stored in: the trimmed text, terminated with a
/// semicolon unless it already ends with one or is the word `exit`.
pub open spec fn stored_form(s: Seq<char>) -> Seq<char> {
    let c = trimmed(s);
    if (c.len() > 0 && c[c.len() - 1] == ';') || is_exit_word(c) {
        c
    } else {
        c.push(';')
    }
}

/// A decimal count: optional leading `+`, then digits only, within the
/// machine's word range.
pub open spec fn is_count_literal(s: Seq<char>) -> bool {
    let d = if s.len() > 0 && s[0] == '+' {
        s.drop_first()
    } else {
        s
    };
    d.len() > 0 && crate::values::all_digits(d) && crate::values::digits_value(d) <= usize::MAX
}

/// A history-recall command: `!!` or `!` followed by an entry number.
pub open spec fn is_history_cmd(s: Seq<char>) -> bool {
    let t = trimmed(s);
    (t.len() == 2 && t[0] == '!' && t[1] == '!') || (t.len() >= 1 && t[0] == '!'
        && is_count_literal(trimmed(t.drop_first())))
}

/// A command the history never records: the `HISTORY` word (with or
/// without a terminating semicolon) or a history-recall command.
pub open spec fn skip_cmd(s: Seq<char>) -> bool {
    lower_seq(s) == seq!['h', 'i', 's', 't', 'o', 'r', 'y'] || lower_seq(s) == seq![
        'h',
        'i',
        's',
        't',
        'o',
        'r',
        'y',
        ';',
    ] || is_history_cmd(s)
}

/// What `add` does to the stored commands: nothing for blank, skipped
/// or immediately repeated commands; otherwise the stored form is
/// appended, dropping the oldest entry when the bound is full.
pub open spec fn add_result(commands: Seq<Seq<char>>, max: int, cmd: Seq<char>) -> Seq<Seq<char>> {
    let c = trimmed(cmd);
    if c.len() == 0 || skip_cmd(c) {
        commands
    } else if commands.len() > 0 && dedup_key(commands.last()) == dedup_key(cmd) {
        commands
    } else if commands.len() >= max && commands.len() > 0 {
        commands.drop_first().push(stored_form(cmd))
    } else {
        commands.push(stored_form(cmd))
    }
}

fn parse_count(s: &str) -> (r: bool)
    ensures
        r == is_count_literal(s@),
{
    let v = str_chars(s);
    let n = v.len();
    let start: usize = if n > 0 && v[0] == '+' {
        1
    } else {
        0
    };
    proof {
        if n > 0 && v@[0] == '+' {
            assert(s@.drop_first() =~= v@.skip(1));
        } else {
            assert(s@ =~= v@.skip(0));
        }
        assert(v@.skip(start as int) =~= (if s@.len() > 0 && s@[0] == '+' {
            s@.drop_first()
        } else {
            s@
        }));
    }
    let ghost d = v@.skip(start as int);
    if n == start {
        return false;
    }
    let mut acc: u64 = 0;
    let mut over = false;
    let mut i: usize = start;
    while i < n
        invariant
            start <= i <= n,
            n == v@.len(),
            v@ == s@,
            start < 2,
            d == v@.skip(start as int),
            d == (if s@.len() > 0 && s@[0] == '+' {
                s@.drop_first()
            } else {
                s@
            }),
            n > start,
            crate::values::all_digits(d.take(i - start)),
            over ==> crate::values::digits_value(d.take(i - start)) > usize::MAX,
            !over ==> acc as int == crate::values::digits_value(d.take(i - start)) && acc as int
                <= usize::MAX,
        decreases n - i,
    {
        let c = v[i];
        if !('0' <= c && c <= '9') {
            proof {
                assert(d[i - start] == c);
            }
            return false;
        }
        let dig: u64 = (c as u64) - 48;
        proof {
            let p = d.take(i - start);
            assert(p.push(c) =~= d.take(i + 1 - start));
            assert(d.take(i + 1 - start).drop_last() =~= p);
            crate::values::lemma_all_digits_nonneg(p);
        }
        if over {
        } else {
            let nv: u64 = match acc.checked_mul(10) {
                Some(m) => match m.checked_add(dig) {
                    Some(x) => x,
                    None => {
                        proof {
                            let p = d.take(i - start);
                            assert(crate::values::digits_value(d.take(i + 1 - start))
                                == crate::values::digits_value(p) * 10 + (c as int - '0' as int));
                        }
                        over = true;
                        0
                    },
                },
                None => {
                    proof {
                        let p = d.take(i - start);
                        assert(crate::values::digits_value(d.take(i + 1 - start))
                            == crate::values::digits_value(p) * 10 + (c as int - '0' as int));
                    }
                    over = true;
                    0
                },
            };
            if !over {
                if nv > usize::MAX as u64 {
                    over = true;
                } else {
                    acc = nv;
                }
            }
        }
        i += 1;
    }
    proof {
        assert(d.take(i - start) =~= d);
        if over {
            crate::values::lemma_all_digits_nonneg(d);
        }
    }
    !over
}

impl CommandHistory {
    /// How many commands are recorded.
    pub fn len(&self) -> (r: usize)
        ensures
            r as int == self@.commands.len(),
    {
        self.commands.len()
    }

    /// A fresh history with the given bound and an empty record.
    pub fn new(max_size: usize) -> (r: CommandHistory)
        ensures
            r@.commands =~= Seq::<Seq<char>>::empty(),
            r@.max_size == max_size as int,
            r@.index == 0,
    {
        CommandHistory {
            commands: VecDeque::with_capacity(max_size),
            max_size,
            current_index: 0,
        }
    }

    /// Whether the text is a history-recall command (`!!` or `!n`).
    pub fn is_history_command(cmd: &str) -> (r: bool)
        ensures
            r == is_history_cmd(cmd@),
    {
        let t = trim_str(cmd);
        let tc = str_chars(t.as_str());
        if tc.len() == 2 && tc[0] == '!' && tc[1] == '!' {
            return true;
        }
        if tc.len() >= 1 && tc[0] == '!' {
            let mut rest: Vec<char> = Vec::new();
            let mut i: usize = 1;
            while i < tc.len()
                invariant
                    1 <= i <= tc@.len(),
                    rest@ =~= tc@.subrange(1, i as int),
                decreases tc@.len() - i,
            {
                rest.push(tc[i]);
                proof {
                    assert(rest@ =~= tc@.subrange(1, i + 1));
                }
                i += 1;
            }
            proof {
                assert(rest@ =~= trimmed(cmd@).drop_first());
            }
            let rest_s = crate::values::chars_to_string(&rest);
            let rest_t = trim_str(rest_s.as_str());
            let hit = parse_count(rest_t.as_str());
            proof {
                if tc@.len() == 2 && tc@[0] == '!' && tc@[1] == '!' {
                } else {
                    assert(hit == is_history_cmd(cmd@));
                }
            }
            if tc.len() == 2 && tc[1] == '!' {
                return true;
            }
            return hit;
        }
        false
    }

    fn should_skip_command(cmd: &str) -> (r: bool)
        ensures
            r == skip_cmd(cmd@),
    {
        let low = lower_str(cmd);
        let lc = str_chars(low.as_str());
        let h7 = lc.len() == 7 && lc[0] == 'h' && lc[1] == 'i' && lc[2] == 's' && lc[3] == 't'
            && lc[4] == 'o' && lc[5] == 'r' && lc[6] == 'y';
        let h8 = lc.len() == 8 && lc[0] == 'h' && lc[1] == 'i' && lc[2] == 's' && lc[3] == 't'
            && lc[4] == 'o' && lc[5] == 'r' && lc[6] == 'y' && lc[7] == ';';
        proof {
            assert(h7 == (lower_seq(cmd@) == seq!['h', 'i', 's', 't', 'o', 'r', 'y'])) by {
                if lower_seq(cmd@) == seq!['h', 'i', 's', 't', 'o', 'r', 'y'] {
                    assert(lc@ =~= lower_seq(cmd@));
                } else if h7 {
                    assert(lc@ =~= seq!['h', 'i', 's', 't', 'o', 'r', 'y']);
                }
            }
            assert(h8 == (lower_seq(cmd@) == seq!['h', 'i', 's', 't', 'o', 'r', 'y', ';'])) by {
                if lower_seq(cmd@) == seq!['h', 'i', 's', 't', 'o', 'r', 'y', ';'] {
                    assert(lc@ =~= lower_seq(cmd@));
                } else if h8 {
                    assert(lc@ =~= seq!['h', 'i', 's', 't', 'o', 'r', 'y', ';']);
                }
            }
        }
        h7 || h8 || Self::is_history_command(cmd)
    }

    /// Records a command: trims it, skips blanks, history commands and
    /// immediate repeats, terminates it with a semicolon, drops the
    /// oldest entry at the bound, and resets the cursor past the end.
    pub fn add(&mut self, command: &str)
        ensures
            final(self)@.commands == add_result(
                old(self)@.commands,
                old(self)@.max_size,
                command@,
            ),
            final(self)@.max_size == old(self)@.max_size,
            ({
                let c = trimmed(command@);
                if c.len() == 0 || skip_cmd(c) || (old(self)@.commands.len() > 0 && dedup_key(
                    old(self)@.commands.last(),
                ) == dedup_key(command@)) {
                    final(self)@.index == old(self)@.index
                } else {
                    final(self)@.index == final(self)@.commands.len()
                }
            }),
    {
        let cleaned = trim_str(command);
        let cc = str_chars(cleaned.as_str());
        if cc.len() == 0 || Self::should_skip_command(cleaned.as_str()) {
            return;
        }
        let lowc = lower_str(cleaned.as_str());
        let lcc = str_chars(lowc.as_str());
        let is_exit = lcc.len() == 4 && lcc[0] == 'e' && lcc[1] == 'x' && lcc[2] == 'i'
            && lcc[3] == 't';
        proof {
            assert(is_exit == is_exit_word(trimmed(command@))) by {
                if is_exit_word(trimmed(command@)) {
                    assert(lcc@ =~= lower_seq(trimmed(command@)));
                }
            }
        }
        let ends_semi = cc.len() > 0 && cc[cc.len() - 1] == ';';
        let to_store = if ends_semi || is_exit {
            cleaned.clone()
        } else {
            let mut s = cleaned.clone();
            push_char(&mut s, ';');
            s
        };
        proof {
            assert(to_store@ == stored_form(command@));
        }
        if self.commands.len() > 0 {
            let last = &self.commands[self.commands.len() - 1];
            let last_t = trim_str(last.as_str());
            let last_key = trim_semis_exec(last_t.as_str());
            let cand_key = trim_semis_exec(cleaned.as_str());
            proof {
                assert(self@.commands.last() == self.commands@[self.commands@.len() - 1]@);
            }
            if str_eq(last_key.as_str(), cand_key.as_str()) {
                proof {
                    assert(dedup_key(self@.commands.last()) == dedup_key(command@));
                }
                return;
            }
            proof {
                assert(dedup_key(self@.commands.last()) != dedup_key(command@));
            }
        }
        let ghost cmds0 = self@.commands;
        if self.commands.len() >= self.max_size {
            let ghost before = self@.commands;
            self.commands.pop_front();
            proof {
                if before.len() > 0 {
                    assert(self@.commands =~= before.drop_first());
                }
            }
        }
        let ghost mid = self@.commands;
        self.commands.push_back(to_store);
        proof {
            assert(self@.commands =~= mid.push(stored_form(command@)));
        }
        self.reset_index();
    }

    /// Steps the cursor back and returns the command there, if any.
    pub fn get_previous(&mut self) -> (r: Option<String>)
        requires
            old(self)@.index <= old(self)@.commands.len(),
        ensures
            final(self)@.commands == old(self)@.commands,
            final(self)@.max_size == old(self)@.max_size,
            if old(self)@.index > 0 {
                final(self)@.index == old(self)@.index - 1 && (r matches Some(s) && s@ == old(
                    self,
                )@.commands[old(self)@.index - 1])
            } else {
                final(self)@.index == old(self)@.index && r is None
            },
    {
        if self.current_index > 0 {
            self.current_index = self.current_index - 1;
            let s = self.commands[self.current_index].clone();
            proof {
                assert(self.commands@[self.current_index as int]@ == self@.commands[self@.index]);
            }
            Some(s)
        } else {
            None
        }
    }

    /// Steps the cursor forward and returns the command it passed, if
    /// any.
    pub fn get_next(&mut self) -> (r: Option<String>)
        requires
            old(self)@.index <= old(self)@.commands.len(),
        ensures
            final(self)@.commands == old(self)@.commands,
            final(self)@.max_size == old(self)@.max_size,
            if old(self)@.index < old(self)@.commands.len() {
                final(self)@.index == old(self)@.index + 1 && (r matches Some(s) && s@ == old(
                    self,
                )@.commands[old(self)@.index])
            } else {
                final(self)@.index == old(self)@.index && r is None
            },
    {
        if self.current_index < self.commands.len() {
            self.current_index = self.current_index + 1;
            let s = self.commands[self.current_index - 1].clone();
            proof {
                assert(self.commands@[self.current_index - 1]@ == self@.commands[self@.index - 1]);
            }
            Some(s)
        } else {
            None
        }
    }

    /// Puts the cursor past the newest entry.
    pub fn reset_index(&mut self)
        ensures
            final(self)@.commands == old(self)@.commands,
            final(self)@.max_size == old(self)@.max_size,
            final(self)@.index == final(self)@.commands.len(),
    {
        self.current_index = self.commands.len();
    }

    /// The command at an index, completed with a semicolon so it can be
    /// re-executed (the word `exit` stays bare).
    pub fn get_full_command(&self, index: usize) -> (r: Option<String>)
        ensures
            match r {
                Some(s) => index < self@.commands.len() && s@ == stored_form(
                    self@.commands[index as int],
                ),
                None => index >= self@.commands.len(),
            },
    {
        if index >= self.commands.len() {
            return None;
        }
        let cmd = &self.commands[index];
        proof {
            assert(self.commands@[index as int]@ == self@.commands[index as int]);
        }
        let cleaned = trim_str(cmd.as_str());
        let cc = str_chars(cleaned.as_str());
        let lowc = lower_str(cleaned.as_str());
        let lcc = str_chars(lowc.as_str());
        let is_exit = lcc.len() == 4 && lcc[0] == 'e' && lcc[1] == 'x' && lcc[2] == 'i'
            && lcc[3] == 't';
        proof {
            assert(is_exit == is_exit_word(trimmed(cmd@))) by {
                if is_exit_word(trimmed(cmd@)) {
                    assert(lcc@ =~= lower_seq(trimmed(cmd@)));
                }
            }
        }
        let ends_semi = cc.len() > 0 && cc[cc.len() - 1] == ';';
        if ends_semi || is_exit {
            Some(cleaned)
        } else {
            let mut s = cleaned;
            push_char(&mut s, ';');
            Some(s)
        }
    }

    /// Forgets every recorded command.
    pub fn clear(&mut self)
        ensures
            final(self)@.commands =~= Seq::<Seq<char>>::empty(),
            final(self)@.max_size == old(self)@.max_size,
            final(self)@.index == 0,
    {
        self.commands.clear();
        self.current_index = 0;
    }

    /// The recorded commands, oldest first.
    pub fn iter(&self) -> (r: Vec<String>)
        ensures
            r.deep_view() == self@.commands,
    {
        let mut out: Vec<String> = Vec::new();
        let mut i: usize = 0;
        while i < self.commands.len()
            invariant
                i <= self@.commands.len(),
                out.deep_view() =~= self@.commands.take(i as int),
            decreases self@.commands.len() - i,
        {
            let ghost dv0 = out.deep_view();
            out.push(self.commands[i].clone());
            proof {
                assert(self.commands@[i as int]@ == self@.commands[i as int]);
                assert(out.deep_view() =~= dv0.push(self@.commands[i as int]));
                assert(out.deep_view() =~= self@.commands.take(i + 1));
            }
            i += 1;
        }
        proof {
            assert(out.deep_view() =~= self@.commands);
        }
        out
    }

    /// The recorded commands with their indices, oldest first.
    pub fn enumerate(&self) -> (r: Vec<(usize, String)>)
        ensures
            r.deep_view().len() == self@.commands.len(),
            forall|k: int|
                0 <= k < self@.commands.len() ==> (#[trigger] r.deep_view()[k]).0 as int == k && r.deep_view()[k].1 == self@.commands[k],
    {
        let mut out: Vec<(usize, String)> = Vec::new();
        let mut i: usize = 0;
        while i < self.commands.len()
            invariant
                i <= self@.commands.len(),
                out.deep_view().len() == i,
                forall|k: int|
                    0 <= k < i ==> (#[trigger] out.deep_view()[k]).0 as int == k
                        && out.deep_view()[k].1 == self@.commands[k],
            decreases self@.commands.len() - i,
        {
            let ghost dv0 = out.deep_view();
            out.push((i, self.commands[i].clone()));
            proof {
                assert(self.commands@[i as int]@ == self@.commands[i as int]);
                assert(out.deep_view() =~= dv0.push((i, self@.commands[i as int])));
            }
            i += 1;
        }
        out
    }
}

/// The whitespace-trimmed text with trailing semicolons removed, then
/// trimmed again: the duplicate-detection key.
pub fn trim_semis_exec(s: &str) -> (r: String)
    ensures
        r@ == trimmed(trim_semis(s@)),
{
    let v = str_chars(s);
    let mut hi: usize = v.len();
    proof {
        assert(v@.take(v@.len() as int) =~= v@);
    }
    while hi > 0 && v[hi - 1] == ';'
        invariant
            hi <= v@.len(),
            trim_semis(v@) == trim_semis(v@.take(hi as int)),
        decreases hi,
    {
        proof {
            let t = v@.take(hi as int);
            assert(t[t.len() - 1] == v@[hi - 1]);
            assert(t.drop_last() =~= v@.take(hi - 1));
        }
        hi -= 1;
    }
    proof {
        let t = v@.take(hi as int);
        if hi > 0 {
            assert(t[t.len() - 1] == v@[hi - 1]);
        }
        assert(trim_semis(v@) == t);
    }
    let mut cut: Vec<char> = Vec::new();
    let mut i: usize = 0;
    while i < hi
        invariant
            i <= hi <= v@.len(),
            cut@ =~= v@.subrange(0, i as int),
        decreases hi - i,
    {
        cut.push(v[i]);
        proof {
            assert(cut@ =~= v@.subrange(0, i + 1));
        }
        i += 1;
    }
    proof {
        assert(cut@ =~= v@.take(hi as int));
    }
    let (lo2, hi2) = crate::values::trim_bounds(&cut);
    let mut out: Vec<char> = Vec::new();
    let mut j: usize = lo2;
    while j < hi2
        invariant
            lo2 <= j <= hi2 <= cut@.len(),
            out@ =~= cut@.subrange(lo2 as int, j as int),
        decreases hi2 - j,
    {
        out.push(cut[j]);
        proof {
            assert(out@ =~= cut@.subrange(lo2 as int, j + 1));
        }
        j += 1;
    }
    proof {
        assert(out@ =~= trimmed(trim_semis(s@)));
    }
    crate::values::chars_to_string(&out)
}

} // verus!
