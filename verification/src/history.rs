//! The history-derived value-suggestion index.
//!
//! Historical command lines (already read and ordered newest first by the
//! caller) are filtered to those whose leading words match the document's
//! base words, re-parsed into components, and every adjacent flag/value
//! pair is recorded.  Each flag's recorded values are deduplicated and
//! sorted lexicographically.

use vstd::prelude::*;

use crate::app::ComponentSpec;
use crate::app::CommandComponent;
use crate::command_parser::parse_command;
use crate::command_parser::parse_command_spec;
use crate::strutil::eq_chars;
use crate::strutil::chars_lt;
use crate::strutil::find_char;
use crate::strutil::find_char_at;
use crate::strutil::from_chars;
use crate::strutil::lex_lt;
use crate::strutil::str_eq;
use crate::strutil::subvec;
use crate::strutil::to_chars;
use crate::strutil::trim_chars;
use crate::strutil::trim_spec;
use crate::tokenize::split_words;
use crate::tokenize::split_words_spec;

verus! {

/// The shell whose history format is being read.
#[derive(Clone, Copy, PartialEq, Eq, Structural, Debug)]
pub enum Shell {
    Zsh,
    Bash,
    Fish,
}

/// `needle` occurs somewhere in `hay` as a contiguous run.
pub open spec fn contains_seq(hay: Seq<char>, needle: Seq<char>) -> bool {
    exists|i: int|
        0 <= i && i + needle.len() <= hay.len() && #[trigger] hay.subrange(
            i,
            i + needle.len() as int,
        ) == needle
}

/// Whether `needle` occurs contiguously in `hay`.
pub fn contains_chars(hay: &Vec<char>, needle: &Vec<char>) -> (r: bool)
    ensures
        r == contains_seq(hay@, needle@),
{
    let hn: usize = hay.len();
    let nn: usize = needle.len();
    if nn == 0 {
        proof {
            assert(hay@.subrange(0, 0 + needle@.len() as int) =~= needle@);
            assert(contains_seq(hay@, needle@));
        }
        return true;
    }
    if nn > hn {
        proof {
            if contains_seq(hay@, needle@) {
                let i = choose|i: int|
                    0 <= i && i + needle@.len() <= hay@.len() && #[trigger] hay@.subrange(
                        i,
                        i + needle@.len() as int,
                    ) == needle@;
                assert(false);
            }
        }
        return false;
    }
    let mut i: usize = 0;
    while i <= hn - nn
        invariant
            1 <= nn <= hn,
            hn == hay@.len(),
            nn == needle@.len(),
            i <= hn - nn + 1,
            forall|w: int|
                0 <= w < i ==> #[trigger] hay@.subrange(w, w + needle@.len() as int) != needle@,
        decreases hn - nn + 1 - i,
    {
        let piece = crate::strutil::subvec(hay, i, i + nn);
        if eq_chars(&piece, needle) {
            proof {
                assert(hay@.subrange(i as int, i as int + needle@.len() as int) == needle@);
            }
            return true;
        }
        i = i + 1;
    }
    proof {
        if contains_seq(hay@, needle@) {
            let w = choose|w: int|
                0 <= w && w + needle@.len() <= hay@.len() && #[trigger] hay@.subrange(
                    w,
                    w + needle@.len() as int,
                ) == needle@;
            assert(w < i);
            assert(false);
        }
    }
    false
}

/// Which shell a `$SHELL` path names: anything mentioning `zsh` is zsh,
/// else anything mentioning `fish` is fish, else bash.
pub open spec fn classify_shell_spec(path: Seq<char>) -> Shell {
    if contains_seq(path, "zsh"@) {
        Shell::Zsh
    } else if contains_seq(path, "fish"@) {
        Shell::Fish
    } else {
        Shell::Bash
    }
}

/// Classifies a shell path, per [`classify_shell_spec`].
pub fn classify_shell(shell_path: &str) -> (r: Shell)
    ensures
        r == classify_shell_spec(shell_path@),
{
    let v = to_chars(shell_path);
    let zsh = to_chars("zsh");
    let fish = to_chars("fish");
    if contains_chars(&v, &zsh) {
        Shell::Zsh
    } else if contains_chars(&v, &fish) {
        Shell::Fish
    } else {
        Shell::Bash
    }
}

/// The plain command a raw history line holds, if any: bash lines are
/// taken whole, zsh lines lose an extended-format `: time:dur;` prefix,
/// fish lines count only when they carry a `cmd:` entry.
pub open spec fn parse_history_line_spec(shell: Shell, s: Seq<char>) -> Option<Seq<char>> {
    let t = trim_spec(s);
    match shell {
        Shell::Bash => if t.len() == 0 {
            None
        } else {
            Some(s)
        },
        Shell::Zsh => if t.len() == 0 {
            None
        } else if t[0] == ':' && find_char(t.drop_first(), ';') < t.drop_first().len() {
            Some(t.drop_first().skip(find_char(t.drop_first(), ';') + 1))
        } else {
            Some(t)
        },
        Shell::Fish => if t.len() >= 7 && t[0] == '-' && t[1] == ' ' && t[2] == 'c' && t[3] == 'm'
            && t[4] == 'd' && t[5] == ':' && t[6] == ' ' {
            Some(t.skip(7))
        } else if t.len() >= 5 && t[0] == 'c' && t[1] == 'm' && t[2] == 'd' && t[3] == ':' && t[4]
            == ' ' {
            Some(t.skip(5))
        } else {
            None
        },
    }
}

/// Extracts the command from one raw history line, per
/// [`parse_history_line_spec`].
pub fn parse_history_line(shell: Shell, line: &str) -> (r: Option<String>)
    ensures
        match r {
            None => parse_history_line_spec(shell, line@) is None,
            Some(cmd) => parse_history_line_spec(shell, line@) == Some(cmd@),
        },
{
    let v = to_chars(line);
    let t = trim_chars(&v);
    let tn: usize = t.len();
    match shell {
        Shell::Bash => {
            if tn == 0 {
                None
            } else {
                Some(line.to_owned())
            }
        },
        Shell::Zsh => {
            if tn == 0 {
                None
            } else if t[0] == ':' {
                let rest = subvec(&t, 1, tn);
                proof {
                    assert(rest@ =~= t@.drop_first());
                }
                let semi = find_char_at(&rest, ';');
                if semi < rest.len() {
                    let tail = subvec(&rest, semi + 1, rest.len());
                    proof {
                        assert(tail@ =~= rest@.skip(semi as int + 1));
                    }
                    Some(from_chars(&tail))
                } else {
                    Some(from_chars(&t))
                }
            } else {
                Some(from_chars(&t))
            }
        },
        Shell::Fish => {
            if tn >= 7 && t[0] == '-' && t[1] == ' ' && t[2] == 'c' && t[3] == 'm' && t[4] == 'd'
                && t[5] == ':' && t[6] == ' ' {
                let tail = subvec(&t, 7, tn);
                proof {
                    assert(tail@ =~= t@.skip(7));
                }
                Some(from_chars(&tail))
            } else if tn >= 5 && t[0] == 'c' && t[1] == 'm' && t[2] == 'd' && t[3] == ':' && t[4]
                == ' ' {
                let tail = subvec(&t, 5, tn);
                proof {
                    assert(tail@ =~= t@.skip(5));
                }
                Some(from_chars(&tail))
            } else {
                None
            }
        },
    }
}

/// The commands held by a whole list of raw history lines, in order.
pub open spec fn parse_history_lines_spec(shell: Shell, lines: Seq<Seq<char>>) -> Seq<Seq<char>>
    decreases lines.len(),
{
    if lines.len() == 0 {
        Seq::empty()
    } else {
        match parse_history_line_spec(shell, lines[0]) {
            None => parse_history_lines_spec(shell, lines.drop_first()),
            Some(cmd) => seq![cmd] + parse_history_lines_spec(shell, lines.drop_first()),
        }
    }
}

/// Extracts the commands from raw history lines, per
/// [`parse_history_lines_spec`].
pub fn parse_history_lines(shell: Shell, lines: &Vec<String>) -> (r: Vec<String>)
    ensures
        r.deep_view() == parse_history_lines_spec(shell, lines.deep_view()),
{
    let ghost all = lines.deep_view();
    let n: usize = lines.len();
    let mut out: Vec<String> = Vec::new();
    let mut i: usize = 0;
    proof {
        assert(all.skip(0) =~= all);
        assert(out.deep_view() =~= Seq::<Seq<char>>::empty());
        assert(out.deep_view() + parse_history_lines_spec(shell, all) =~= parse_history_lines_spec(
            shell,
            all,
        ));
    }
    while i < n
        invariant
            i <= n,
            n == lines@.len(),
            all == lines.deep_view(),
            parse_history_lines_spec(shell, all) == out.deep_view() + parse_history_lines_spec(
                shell,
                all.skip(i as int),
            ),
        decreases n - i,
    {
        proof {
            assert(all.skip(i as int)[0] == lines@[i as int]@);
            assert(all.skip(i as int).drop_first() =~= all.skip(i as int + 1));
        }
        let ghost pre = out.deep_view();
        match parse_history_line(shell, lines[i].as_str()) {
            None => {},
            Some(cmd) => {
                let ghost cv = cmd@;
                out.push(cmd);
                proof {
                    assert(out.deep_view() =~= pre.push(cv));
                    assert(pre + (seq![cv] + parse_history_lines_spec(
                        shell,
                        all.skip(i as int + 1),
                    )) =~= pre.push(cv) + parse_history_lines_spec(shell, all.skip(i as int + 1)));
                }
            },
        }
        i = i + 1;
    }
    proof {
        assert(all.skip(n as int) =~= Seq::<Seq<char>>::empty());
        assert(out.deep_view() + Seq::<Seq<char>>::empty() =~= out.deep_view());
    }
    out
}

/// Whether a historical command's leading words equal the base words,
/// same length and order; a command that does not split matches nothing.
pub open spec fn matches_base_spec(cmd: Seq<char>, base: Seq<Seq<char>>) -> bool {
    match split_words_spec(cmd) {
        None => false,
        Some(toks) => toks.len() >= base.len() && (forall|j: int|
            0 <= j < base.len() ==> toks[j] == #[trigger] base[j]),
    }
}

/// Whether `command` starts with exactly the words of `base_command`.
pub fn matches_base_command(command: &str, base_command: &Vec<String>) -> (r: bool)
    ensures
        r == matches_base_spec(command@, base_command.deep_view()),
{
    let v = to_chars(command);
    match split_words(&v) {
        None => false,
        Some(toks) => {
            let nb: usize = base_command.len();
            if toks.len() < nb {
                return false;
            }
            let mut j: usize = 0;
            while j < nb
                invariant
                    j <= nb,
                    nb == base_command@.len(),
                    toks@.len() >= nb,
                    split_words_spec(command@) == Some(toks.deep_view()),
                    toks.deep_view().len() == toks@.len(),
                    forall|m: int|
                        0 <= m < j ==> toks.deep_view()[m] == #[trigger] base_command.deep_view()[m],
                decreases nb - j,
            {
                let b = to_chars(base_command[j].as_str());
                if !eq_chars(&toks[j], &b) {
                    proof {
                        crate::strutil::lemma_vec_chars_deep_view();
                        assert(toks.deep_view()[j as int] != base_command.deep_view()[j as int]);
                    }
                    return false;
                }
                proof {
                    crate::strutil::lemma_vec_chars_deep_view();
                }
                j = j + 1;
            }
            true
        },
    }
}

/// Whether the components hold `Flag(f)` directly followed by `Value(v)`.
pub open spec fn pair_in(comps: Seq<ComponentSpec>, f: Seq<char>, v: Seq<char>) -> bool {
    exists|m: int|
        0 <= m && m + 1 < comps.len() && comps[m] == ComponentSpec::Flag(f) && #[trigger] comps[m
            + 1] == ComponentSpec::Value(v)
}

/// Whether the value `v` is recorded for the flag `f` while scanning
/// `cmds` in order: a command that matches the base words spends one unit
/// of `budget` and contributes every adjacent flag/value pair of its
/// parse; a command that fails to parse contributes nothing.
pub open spec fn recorded(
    base: Seq<Seq<char>>,
    cmds: Seq<Seq<char>>,
    budget: int,
    f: Seq<char>,
    v: Seq<char>,
) -> bool
    decreases cmds.len(),
{
    if cmds.len() == 0 || budget <= 0 {
        false
    } else {
        let c = cmds[0];
        if matches_base_spec(c, base) {
            (match parse_command_spec(c) {
                Ok(comps) => pair_in(comps, f, v),
                Err(_) => false,
            }) || recorded(base, cmds.drop_first(), budget - 1, f, v)
        } else {
            recorded(base, cmds.drop_first(), budget, f, v)
        }
    }
}

/// Each flag's values are pairwise distinct.
pub open spec fn nodup_values(vs: Seq<Seq<char>>) -> bool {
    forall|i: int, j: int| 0 <= i < j < vs.len() ==> vs[i] != vs[j]
}

/// The values are in strictly increasing lexicographic order.
pub open spec fn sorted_strict(vs: Seq<Seq<char>>) -> bool {
    forall|i: int, j: int| 0 <= i < j < vs.len() ==> lex_lt(#[trigger] vs[i], #[trigger] vs[j])
}

/// The map from flag text to the deduplicated, sorted list of values seen
/// for it in the matching history.
pub struct HistoryIndex {
    entries: Vec<(String, Vec<String>)>,
}

/// The entry list as character sequences.
pub open spec fn entry_views(es: Seq<(String, Vec<String>)>) -> Seq<(Seq<char>, Seq<Seq<char>>)> {
    es.map_values(|e: (String, Vec<String>)| (e.0@, e.1.deep_view()))
}

/// Whether some entry records `v` under `f`.
pub open spec fn in_entries(es: Seq<(Seq<char>, Seq<Seq<char>>)>, f: Seq<char>, v: Seq<char>) -> bool {
    exists|k: int| 0 <= k < es.len() && (#[trigger] es[k]).0 == f && es[k].1.contains(v)
}

impl HistoryIndex {
    /// The entries as character sequences.
    pub closed spec fn entries_view(&self) -> Seq<(Seq<char>, Seq<Seq<char>>)> {
        entry_views(self.entries@)
    }

    /// Whether the index records `v` under `f`.
    pub open spec fn contains_value(&self, f: Seq<char>, v: Seq<char>) -> bool {
        in_entries(self.entries_view(), f, v)
    }

    /// Whether any value is recorded under `f`.
    pub open spec fn has_flag(&self, f: Seq<char>) -> bool {
        exists|k: int| 0 <= k < self.entries_view().len() && (#[trigger] self.entries_view()[k]).0
            == f
    }

    /// The value list recorded under `f`; meaningful only when
    /// `has_flag(f)` holds, where the entry is unique.
    pub open spec fn list_for(&self, f: Seq<char>) -> Seq<Seq<char>> {
        self.entries_view()[choose|k: int|
            0 <= k < self.entries_view().len() && (#[trigger] self.entries_view()[k]).0 == f].1
    }

    /// Keys occur once each, and every value list is non-empty and
    /// strictly sorted.
    pub open spec fn wf(&self) -> bool {
        &&& forall|i: int, j: int|
            0 <= i < j < self.entries_view().len() ==> (#[trigger] self.entries_view()[i]).0 != (
            #[trigger] self.entries_view()[j]).0
        &&& forall|k: int|
            0 <= k < self.entries_view().len() ==> sorted_strict(
                (#[trigger] self.entries_view()[k]).1,
            ) && self.entries_view()[k].1.len() > 0
    }

    /// An index with nothing recorded.
    pub fn empty() -> (r: HistoryIndex)
        ensures
            r.wf(),
            forall|f: Seq<char>, v: Seq<char>| !r.contains_value(f, v),
            r.entries_view().len() == 0,
    {
        let r = HistoryIndex { entries: Vec::new() };
        proof {
            assert(r.entries_view() =~= Seq::<(Seq<char>, Seq<Seq<char>>)>::empty());
        }
        r
    }

    /// The sorted values recorded for `flag`, if any.
    pub fn get(&self, flag: &str) -> (r: Option<&Vec<String>>)
        requires
            self.wf(),
        ensures
            match r {
                None => !self.has_flag(flag@) && (forall|v: Seq<char>|
                    !self.contains_value(flag@, v)),
                Some(vs) => {
                    &&& self.has_flag(flag@)
                    &&& vs.deep_view() == self.list_for(flag@)
                    &&& sorted_strict(vs.deep_view())
                    &&& vs.deep_view().len() > 0
                    &&& forall|v: Seq<char>|
                        self.contains_value(flag@, v) <==> vs.deep_view().contains(v)
                },
            },
    {
        let n: usize = self.entries.len();
        let mut k: usize = 0;
        while k < n
            invariant
                k <= n,
                n == self.entries@.len(),
                self.wf(),
                forall|m: int| 0 <= m < k ==> (#[trigger] self.entries_view()[m]).0 != flag@,
            decreases n - k,
        {
            if str_eq(self.entries[k].0.as_str(), flag) {
                proof {
                    assert(self.entries_view()[k as int].0 == flag@);
                    let kk = choose|kk: int|
                        0 <= kk < self.entries_view().len() && (#[trigger] self.entries_view()[kk]).0
                            == flag@;
                    if kk != k as int {
                        assert(false);
                    }
                    assert(self.list_for(flag@) == self.entries_view()[k as int].1);
                    assert(self.entries@[k as int].1.deep_view() == self.entries_view()[k as int].1);
                    assert forall|v: Seq<char>|
                        self.contains_value(flag@, v) <==> self.entries@[k as int].1.deep_view()
                            .contains(v) by {
                        if self.entries@[k as int].1.deep_view().contains(v) {
                            assert(self.entries_view()[k as int].1.contains(v));
                            assert(in_entries(self.entries_view(), flag@, v));
                        }
                        if self.contains_value(flag@, v) {
                            let m = choose|m: int|
                                0 <= m < self.entries_view().len() && (#[trigger] self.entries_view()[m]).0
                                    == flag@ && self.entries_view()[m].1.contains(v);
                            if m != k as int {
                                assert(false);
                            }
                        }
                    }
                }
                return Some(&self.entries[k].1);
            }
            k = k + 1;
        }
        proof {
            assert forall|v: Seq<char>| !self.contains_value(flag@, v) by {
                if self.contains_value(flag@, v) {
                    let m = choose|m: int|
                        0 <= m < self.entries_view().len() && (#[trigger] self.entries_view()[m]).0
                            == flag@ && self.entries_view()[m].1.contains(v);
                    assert(false);
                }
            }
            if self.has_flag(flag@) {
                let m = choose|m: int|
                    0 <= m < self.entries_view().len() && (#[trigger] self.entries_view()[m]).0
                        == flag@;
                assert(false);
            }
        }
        None
    }
}

/// Keys occur once each.
pub open spec fn keys_unique(es: Seq<(Seq<char>, Seq<Seq<char>>)>) -> bool {
    forall|i: int, j: int| 0 <= i < j < es.len() ==> (#[trigger] es[i]).0 != (#[trigger] es[j]).0
}

/// Every value list is free of duplicates.
pub open spec fn lists_nodup(es: Seq<(Seq<char>, Seq<Seq<char>>)>) -> bool {
    forall|k: int| 0 <= k < es.len() ==> nodup_values((#[trigger] es[k]).1)
}

/// Every value list is non-empty.
pub open spec fn lists_nonempty(es: Seq<(Seq<char>, Seq<Seq<char>>)>) -> bool {
    forall|k: int| 0 <= k < es.len() ==> (#[trigger] es[k]).1.len() > 0
}

/// Compares two strings in lexicographic code point order.
fn string_lt(a: &String, b: &String) -> (r: bool)
    ensures
        r == lex_lt(a@, b@),
{
    let va = to_chars(a.as_str());
    let vb = to_chars(b.as_str());
    chars_lt(&va, &vb)
}

proof fn lemma_insert_contains(s: Seq<Seq<char>>, p: int, x: Seq<char>)
    requires
        0 <= p <= s.len(),
    ensures
        forall|v: Seq<char>|
            #[trigger] s.insert(p, x).contains(v) <==> (s.contains(v) || v == x),
{
    let t = s.insert(p, x);
    assert forall|v: Seq<char>| #[trigger] t.contains(v) implies (s.contains(v) || v == x) by {
        let idx = choose|idx: int| 0 <= idx < t.len() && t[idx] == v;
        if idx < p {
            assert(s[idx] == v);
        } else if idx == p {
        } else {
            assert(s[idx - 1] == v);
        }
    }
    assert forall|v: Seq<char>| (s.contains(v) || v == x) implies #[trigger] t.contains(v) by {
        if v == x {
            assert(t[p] == v);
        } else {
            let idx = choose|idx: int| 0 <= idx < s.len() && s[idx] == v;
            if idx < p {
                assert(t[idx] == v);
            } else {
                assert(t[idx + 1] == v);
            }
        }
    }
}

/// Inserts a new value into a strictly sorted list, keeping it strictly
/// sorted.
fn insert_sorted(out: &mut Vec<String>, x: String)
    requires
        sorted_strict(old(out).deep_view()),
        !old(out).deep_view().contains(x@),
    ensures
        sorted_strict(final(out).deep_view()),
        forall|v: Seq<char>|
            final(out).deep_view().contains(v) <==> (old(out).deep_view().contains(v) || v == x@),
        final(out).deep_view().len() == old(out).deep_view().len() + 1,
{
    let ghost pre = out.deep_view();
    let ghost xv = x@;
    let n: usize = out.len();
    let mut p: usize = 0;
    while p < n && string_lt(&out[p], &x)
        invariant
            p <= n,
            n == out@.len(),
            out.deep_view() == pre,
            sorted_strict(pre),
            !pre.contains(xv),
            xv == x@,
            forall|m: int| 0 <= m < p ==> lex_lt(#[trigger] pre[m], xv),
        decreases n - p,
    {
        proof {
            assert(out@[p as int]@ == pre[p as int]);
        }
        p = p + 1;
    }
    proof {
        if p < n {
            assert(out@[p as int]@ == pre[p as int]);
            assert(!lex_lt(pre[p as int], xv));
            assert(pre[p as int] != xv) by {
                if pre[p as int] == xv {
                    assert(pre.contains(xv));
                }
            }
            crate::strutil::lemma_lex_lt_connected(pre[p as int], xv);
            assert(lex_lt(xv, pre[p as int]));
        }
    }
    out.insert(p, x);
    proof {
        assert(out.deep_view() =~= pre.insert(p as int, xv));
        let t = pre.insert(p as int, xv);
        assert forall|i: int, j: int| 0 <= i < j < t.len() implies lex_lt(
            #[trigger] t[i],
            #[trigger] t[j],
        ) by {
            if j < p {
            } else if i < p && j == p {
            } else if i < p && j > p {
                assert(t[i] == pre[i] && t[j] == pre[j - 1]);
                if j - 1 == p as int {
                    if p < n {
                        crate::strutil::lemma_lex_lt_transitive(pre[i], xv, pre[p as int]);
                    }
                } else {
                }
            } else if i == p && j > p {
                assert(t[j] == pre[j - 1]);
                if j - 1 == p as int {
                } else {
                    crate::strutil::lemma_lex_lt_transitive(xv, pre[p as int], pre[j - 1]);
                }
            } else {
            }
        }
        lemma_insert_contains(pre, p as int, xv);
    }
}

/// Sorts a duplicate-free list of strings into strictly increasing
/// lexicographic order.
fn sort_strings(input: &Vec<String>) -> (r: Vec<String>)
    requires
        nodup_values(input.deep_view()),
    ensures
        sorted_strict(r.deep_view()),
        forall|v: Seq<char>| r.deep_view().contains(v) <==> input.deep_view().contains(v),
        r.deep_view().len() == input.deep_view().len(),
{
    let ghost iv = input.deep_view();
    let n: usize = input.len();
    let mut out: Vec<String> = Vec::new();
    let mut i: usize = 0;
    proof {
        assert(out.deep_view() =~= Seq::<Seq<char>>::empty());
    }
    while i < n
        invariant
            i <= n,
            n == input@.len(),
            iv == input.deep_view(),
            iv.len() == n,
            nodup_values(iv),
            sorted_strict(out.deep_view()),
            out.deep_view().len() == i,
            forall|v: Seq<char>|
                out.deep_view().contains(v) <==> exists|m: int| 0 <= m < i && iv[m] == v,
        decreases n - i,
    {
        let x = input[i].as_str().to_owned();
        proof {
            assert(input@[i as int]@ == iv[i as int]);
            if out.deep_view().contains(x@) {
                let m = choose|m: int| 0 <= m < i && iv[m] == x@;
                assert(iv[m] == iv[i as int]);
                assert(false);
            }
        }
        insert_sorted(&mut out, x);
        i = i + 1;
        proof {
            assert forall|v: Seq<char>|
                out.deep_view().contains(v) <==> exists|m: int| 0 <= m < i && iv[m] == v by {
                if out.deep_view().contains(v) {
                    if v == iv[i - 1] {
                        assert(exists|m: int| 0 <= m < i && iv[m] == v);
                    } else {
                        let m = choose|m: int| 0 <= m < i - 1 && iv[m] == v;
                        assert(0 <= m < i && iv[m] == v);
                    }
                } else {
                    assert(!(exists|m: int| 0 <= m < i - 1 && iv[m] == v) && v != iv[i - 1]);
                }
            }
        }
    }
    proof {
        assert forall|v: Seq<char>| out.deep_view().contains(v) <==> iv.contains(v) by {
            if iv.contains(v) {
                let m = choose|m: int| 0 <= m < iv.len() && iv[m] == v;
                assert(exists|m2: int| 0 <= m2 < n && iv[m2] == v);
            }
        }
    }
    out
}

/// Records `v` under `f`, creating the entry when the flag is new and
/// skipping duplicates.
fn add_value(entries: &mut Vec<(String, Vec<String>)>, f: String, v: String)
    requires
        keys_unique(entry_views(old(entries)@)),
        lists_nodup(entry_views(old(entries)@)),
        lists_nonempty(entry_views(old(entries)@)),
    ensures
        keys_unique(entry_views(final(entries)@)),
        lists_nodup(entry_views(final(entries)@)),
        lists_nonempty(entry_views(final(entries)@)),
        forall|f2: Seq<char>, v2: Seq<char>|
            in_entries(entry_views(final(entries)@), f2, v2) <==> (in_entries(
                entry_views(old(entries)@),
                f2,
                v2,
            ) || (f2 == f@ && v2 == v@)),
{
    let ghost pre = entry_views(entries@);
    let ghost fv = f@;
    let ghost vv = v@;
    let n: usize = entries.len();
    let mut k: usize = 0;
    while k < n
        invariant
            k <= n,
            n == entries@.len(),
            entries@ == old(entries)@,
            entry_views(entries@) == pre,
            keys_unique(pre),
            lists_nodup(pre),
            lists_nonempty(pre),
            fv == f@,
            vv == v@,
            forall|m: int| 0 <= m < k ==> (#[trigger] pre[m]).0 != fv,
        decreases n - k,
    {
        proof {
            assert(pre[k as int] == (entries@[k as int].0@, entries@[k as int].1.deep_view()));
        }
        if str_eq(entries[k].0.as_str(), f.as_str()) {
            let mut entry = entries.remove(k);
            let ghost evs = entry.1.deep_view();
            let nv: usize = entry.1.len();
            let mut j: usize = 0;
            let mut present = false;
            while j < nv
                invariant
                    j <= nv,
                    nv == entry.1@.len(),
                    entry.1.deep_view() == evs,
                    vv == v@,
                    present == exists|m: int| 0 <= m < j && evs[m] == vv,
                decreases nv - j,
            {
                proof {
                    assert(entry.1@[j as int]@ == evs[j as int]);
                }
                if str_eq(entry.1[j].as_str(), v.as_str()) {
                    present = true;
                }
                j = j + 1;
            }
            proof {
                assert(present == evs.contains(vv));
            }
            if !present {
                entry.1.push(v);
                proof {
                    assert(entry.1.deep_view() =~= evs.push(vv));
                }
            }
            let ghost newlist = entry.1.deep_view();
            let ghost eg = entry;
            entries.insert(k, entry);
            proof {
                assert(entries@ =~= old(entries)@.update(k as int, eg));
                let post = entry_views(entries@);
                assert(post.len() == pre.len());
                assert forall|m: int| 0 <= m < pre.len() && m != k implies #[trigger] post[m]
                    == pre[m] by {
                    assert(entries@[m] == old(entries)@[m]);
                }
                assert(post[k as int].0 == fv);
                assert(post[k as int].1 == newlist);
                assert forall|f2: Seq<char>, v2: Seq<char>|
                    in_entries(post, f2, v2) <==> (in_entries(pre, f2, v2) || (f2 == fv && v2
                        == vv)) by {
                    if in_entries(post, f2, v2) {
                        let m = choose|m: int|
                            0 <= m < post.len() && (#[trigger] post[m]).0 == f2
                                && post[m].1.contains(v2);
                        if m == k as int {
                            if evs.contains(v2) {
                                assert(pre[k as int].0 == f2 && pre[k as int].1.contains(v2));
                                assert(in_entries(pre, f2, v2));
                            } else {
                                let w = choose|w: int|
                                    0 <= w < newlist.len() && newlist[w] == v2;
                                assert(w == evs.len());
                                assert(v2 == vv && f2 == fv);
                            }
                        } else {
                            assert(pre[m].0 == f2 && pre[m].1.contains(v2));
                            assert(in_entries(pre, f2, v2));
                        }
                    }
                    if in_entries(pre, f2, v2) {
                        let m = choose|m: int|
                            0 <= m < pre.len() && (#[trigger] pre[m]).0 == f2 && pre[m].1.contains(
                                v2,
                            );
                        if m == k as int {
                            let w = choose|w: int| 0 <= w < evs.len() && evs[w] == v2;
                            assert(newlist[w] == v2);
                            assert(post[m].1.contains(v2));
                        } else {
                            assert(post[m].0 == f2 && post[m].1.contains(v2));
                        }
                        assert(in_entries(post, f2, v2));
                    }
                    if f2 == fv && v2 == vv {
                        if present {
                            let w = choose|w: int| 0 <= w < evs.len() && evs[w] == vv;
                            assert(newlist[w] == vv);
                        } else {
                            assert(newlist[newlist.len() - 1] == vv);
                        }
                        assert(post[k as int].1.contains(vv));
                        assert(in_entries(post, f2, v2));
                    }
                }
                assert forall|kk: int| 0 <= kk < post.len() implies nodup_values(
                    (#[trigger] post[kk]).1,
                ) && post[kk].1.len() > 0 by {
                    if kk == k as int {
                        assert(pre[k as int].1 == evs);
                        assert(nodup_values(evs));
                        assert(pre[k as int].1.len() > 0);
                        if !present {
                            assert(newlist.len() == evs.len() + 1);
                            assert forall|a: int, b: int|
                                0 <= a < b < newlist.len() implies newlist[a] != newlist[b] by {
                                if b == newlist.len() - 1 {
                                    assert(newlist[a] == evs[a]);
                                    if newlist[a] == vv {
                                        assert(evs.contains(vv));
                                    }
                                } else {
                                    assert(newlist[a] == evs[a] && newlist[b] == evs[b]);
                                }
                            }
                        } else {
                            assert(newlist == evs);
                            assert(pre[k as int].1 == evs);
                            assert(nodup_values(evs));
                            assert(evs.len() > 0);
                        }
                    } else {
                        assert(post[kk] == pre[kk]);
                        assert(nodup_values(pre[kk].1) && pre[kk].1.len() > 0);
                    }
                }
            }
            return ;
        }
        k = k + 1;
    }
    let ghost prelen = pre.len();
    let mut fresh: Vec<String> = Vec::new();
    fresh.push(v);
    entries.push((f, fresh));
    proof {
        let post = entry_views(entries@);
        assert(post.len() == prelen + 1);
        assert forall|m: int| 0 <= m < prelen implies #[trigger] post[m] == pre[m] by {
            assert(entries@[m] == old(entries)@[m]);
        }
        assert(post[prelen as int].0 == fv);
        assert(post[prelen as int].1 =~= seq![vv]);
        assert(post[prelen as int].1.contains(vv)) by {
            assert(post[prelen as int].1 =~= seq![vv]);
            assert(post[prelen as int].1[0] == vv);
        }
        assert forall|f2: Seq<char>, v2: Seq<char>|
            in_entries(post, f2, v2) <==> (in_entries(pre, f2, v2) || (f2 == fv && v2 == vv)) by {
            if in_entries(post, f2, v2) {
                let m = choose|m: int|
                    0 <= m < post.len() && (#[trigger] post[m]).0 == f2 && post[m].1.contains(v2);
                if m == prelen as int {
                    assert(f2 == fv);
                    let w = choose|w: int| 0 <= w < post[m].1.len() && post[m].1[w] == v2;
                    assert(v2 == vv);
                } else {
                    assert(in_entries(pre, f2, v2));
                }
            }
            if in_entries(pre, f2, v2) {
                let m = choose|m: int|
                    0 <= m < pre.len() && (#[trigger] pre[m]).0 == f2 && pre[m].1.contains(v2);
                assert(post[m] == pre[m]);
                assert(in_entries(post, f2, v2));
            }
            if f2 == fv && v2 == vv {
                assert(in_entries(post, f2, v2));
            }
        }
        assert forall|kk: int| 0 <= kk < post.len() implies nodup_values((#[trigger] post[kk]).1)
            && post[kk].1.len() > 0 by {
            if kk < prelen {
                assert(post[kk] == pre[kk]);
                assert(nodup_values(pre[kk].1) && pre[kk].1.len() > 0);
            } else {
                assert(post[kk].1 =~= seq![vv]);
            }
        }
        assert forall|a: int, b: int| 0 <= a < b < post.len() implies (#[trigger] post[a]).0 != (
        #[trigger] post[b]).0 by {
            if b == prelen as int {
                assert(post[a] == pre[a]);
                assert(pre[a].0 != fv);
            } else {
                assert(post[a] == pre[a] && post[b] == pre[b]);
            }
        }
    }
}

/// Whether a flag/value pair stands among the first `upto` component
/// positions.
pub open spec fn pair_in_prefix(
    comps: Seq<ComponentSpec>,
    upto: int,
    f: Seq<char>,
    v: Seq<char>,
) -> bool {
    exists|m: int|
        0 <= m < upto && m + 1 < comps.len() && comps[m] == ComponentSpec::Flag(f)
            && #[trigger] comps[m + 1] == ComponentSpec::Value(v)
}

/// Builds the suggestion index: scans `commands` (newest first, at most
/// the first hundred thousand that match the base words), records every
/// adjacent flag/value pair of each matching command's parse, and sorts
/// each flag's deduplicated values.  The result holds a value `v` for a
/// flag `f` exactly when [`recorded`] says so.
pub fn build_history_index(base_command: &Vec<String>, commands: &Vec<String>) -> (r: HistoryIndex)
    ensures
        r.wf(),
        forall|f: Seq<char>, v: Seq<char>|
            r.contains_value(f, v) <==> recorded(
                base_command.deep_view(),
                commands.deep_view(),
                100000,
                f,
                v,
            ),
{
    let ghost basev = base_command.deep_view();
    let ghost cmdsv = commands.deep_view();
    let n: usize = commands.len();
    let mut entries: Vec<(String, Vec<String>)> = Vec::new();
    let mut count: usize = 0;
    let mut i: usize = 0;
    proof {
        assert(entry_views(entries@) =~= Seq::<(Seq<char>, Seq<Seq<char>>)>::empty());
        assert(cmdsv.skip(0) =~= cmdsv);
        assert forall|f: Seq<char>, v: Seq<char>|
            !in_entries(entry_views(entries@), f, v) by {}
    }
    while i < n && count < 100000
        invariant
            i <= n,
            n == commands@.len(),
            basev == base_command.deep_view(),
            cmdsv == commands.deep_view(),
            cmdsv.len() == n,
            count <= 100000,
            keys_unique(entry_views(entries@)),
            lists_nodup(entry_views(entries@)),
            lists_nonempty(entry_views(entries@)),
            forall|f: Seq<char>, v: Seq<char>|
                recorded(basev, cmdsv, 100000, f, v) <==> (in_entries(
                    entry_views(entries@),
                    f,
                    v,
                ) || recorded(basev, cmdsv.skip(i as int), 100000 - count, f, v)),
        decreases n - i,
    {
        let ghost s = cmdsv.skip(i as int);
        let ghost count0 = count as int;
        let ghost pre_cmd = entry_views(entries@);
        proof {
            assert(s.len() > 0);
            assert(s[0] == commands@[i as int]@);
            assert(s.drop_first() =~= cmdsv.skip(i as int + 1));
        }
        if matches_base_command(commands[i].as_str(), base_command) {
            match parse_command(commands[i].as_str()) {
                Err(_) => {
                    proof {
                        assert forall|f: Seq<char>, v: Seq<char>|
                            #[trigger] recorded(basev, cmdsv, 100000, f, v) <==> (in_entries(
                                entry_views(entries@),
                                f,
                                v,
                            ) || recorded(
                                basev,
                                cmdsv.skip(i as int + 1),
                                100000 - count0 - 1,
                                f,
                                v,
                            )) by {
                            assert(parse_command_spec(s[0]) is Err);
                            assert(recorded(basev, s, 100000 - count0, f, v) == recorded(
                                basev,
                                s.drop_first(),
                                100000 - count0 - 1,
                                f,
                                v,
                            ));
                            assert(recorded(basev, cmdsv, 100000, f, v) <==> (in_entries(
                                pre_cmd,
                                f,
                                v,
                            ) || recorded(basev, s, 100000 - count0, f, v)));
                        }
                    }
                },
                Ok(comps) => {
                    let ghost compsv = comps.deep_view();
                    let nc: usize = comps.len();
                    let mut j: usize = 0;
                    proof {
                        assert(compsv.len() == nc);
                        assert forall|f: Seq<char>, v: Seq<char>|
                            !pair_in_prefix(compsv, 0, f, v) by {}
                    }
                    while j < nc && j + 1 < nc
                        invariant
                            j <= nc,
                            nc == comps@.len(),
                            compsv == comps.deep_view(),
                            compsv.len() == nc,
                            keys_unique(entry_views(entries@)),
                            lists_nodup(entry_views(entries@)),
                            lists_nonempty(entry_views(entries@)),
                            forall|f: Seq<char>, v: Seq<char>|
                                in_entries(entry_views(entries@), f, v) <==> (in_entries(
                                    pre_cmd,
                                    f,
                                    v,
                                ) || pair_in_prefix(compsv, j as int, f, v)),
                        decreases nc - j,
                    {
                        proof {
                            assert(compsv[j as int] == comps@[j as int]@);
                            assert(compsv[j as int + 1] == comps@[j as int + 1]@);
                        }
                        let ghost before = entry_views(entries@);
                        proof {
                            assert forall|f: Seq<char>, v: Seq<char>|
                                #[trigger] in_entries(before, f, v) <==> (in_entries(
                                    pre_cmd,
                                    f,
                                    v,
                                ) || pair_in_prefix(compsv, j as int, f, v)) by {}
                        }
                        match (&comps[j], &comps[j + 1]) {
                            (CommandComponent::Flag(fs), CommandComponent::Value(vs)) => {
                                let ghost gf = fs@;
                                let ghost gv = vs@;
                                proof {
                                    assert(compsv[j as int] == ComponentSpec::Flag(gf));
                                    assert(compsv[j as int + 1] == ComponentSpec::Value(gv));
                                }
                                add_value(
                                    &mut entries,
                                    fs.as_str().to_owned(),
                                    vs.as_str().to_owned(),
                                );
                                proof {
                                    assert forall|f: Seq<char>, v: Seq<char>|
                                        #[trigger] in_entries(entry_views(entries@), f, v) <==> (
                                        in_entries(pre_cmd, f, v) || pair_in_prefix(
                                            compsv,
                                            j as int + 1,
                                            f,
                                            v,
                                        )) by {
                                        assert(in_entries(entry_views(entries@), f, v) <==> (
                                        in_entries(before, f, v) || (f == gf && v == gv)));
                                        assert(in_entries(before, f, v) <==> (in_entries(
                                            pre_cmd,
                                            f,
                                            v,
                                        ) || pair_in_prefix(compsv, j as int, f, v)));
                                        if f == gf && v == gv {
                                            assert(compsv[j as int] == ComponentSpec::Flag(f)
                                                && compsv[j as int + 1] == ComponentSpec::Value(
                                                v,
                                            ));
                                            assert(pair_in_prefix(compsv, j as int + 1, f, v));
                                        }
                                        if pair_in_prefix(compsv, j as int + 1, f, v)
                                            && !pair_in_prefix(compsv, j as int, f, v) {
                                            let m = choose|m: int|
                                                0 <= m < j + 1 && m + 1 < compsv.len() && compsv[m]
                                                    == ComponentSpec::Flag(f)
                                                    && #[trigger] compsv[m + 1]
                                                    == ComponentSpec::Value(v);
                                            assert(m == j as int);
                                            assert(f == gf && v == gv);
                                        }
                                        if pair_in_prefix(compsv, j as int, f, v) {
                                            assert(pair_in_prefix(compsv, j as int + 1, f, v));
                                        }
                                    }
                                }
                            },
                            _ => {
                                proof {
                                    assert forall|f: Seq<char>, v: Seq<char>|
                                        #[trigger] pair_in_prefix(compsv, j as int + 1, f, v)
                                            == pair_in_prefix(compsv, j as int, f, v) by {
                                        if pair_in_prefix(compsv, j as int + 1, f, v)
                                            && !pair_in_prefix(compsv, j as int, f, v) {
                                            let m = choose|m: int|
                                                0 <= m < j + 1 && m + 1 < compsv.len() && compsv[m]
                                                    == ComponentSpec::Flag(f)
                                                    && #[trigger] compsv[m + 1]
                                                    == ComponentSpec::Value(v);
                                            assert(m == j as int);
                                            assert(comps@[j as int]@ is Flag && comps@[j as int
                                                + 1]@ is Value);
                                            assert(false);
                                        }
                                        if pair_in_prefix(compsv, j as int, f, v) {
                                            assert(pair_in_prefix(compsv, j as int + 1, f, v));
                                        }
                                    }
                                }
                            },
                        }
                        j = j + 1;
                    }
                    proof {
                        assert forall|f: Seq<char>, v: Seq<char>|
                            #[trigger] pair_in_prefix(compsv, j as int, f, v) == pair_in(
                                compsv,
                                f,
                                v,
                            ) by {
                            if pair_in(compsv, f, v) {
                                let m = choose|m: int|
                                    0 <= m && m + 1 < compsv.len() && compsv[m]
                                        == ComponentSpec::Flag(f) && #[trigger] compsv[m + 1]
                                        == ComponentSpec::Value(v);
                                assert(m < j);
                                assert(pair_in_prefix(compsv, j as int, f, v));
                            }
                        }
                        assert forall|f: Seq<char>, v: Seq<char>|
                            #[trigger] recorded(basev, s, 100000 - count0, f, v) == (pair_in(
                                compsv,
                                f,
                                v,
                            ) || recorded(basev, s.drop_first(), 100000 - count0 - 1, f, v)) by {
                            assert(parse_command_spec(s[0]) == Ok::<
                                Seq<ComponentSpec>,
                                crate::command::CommandError,
                            >(compsv));
                        }
                        assert forall|f: Seq<char>, v: Seq<char>|
                            #[trigger] recorded(basev, cmdsv, 100000, f, v) <==> (in_entries(
                                entry_views(entries@),
                                f,
                                v,
                            ) || recorded(
                                basev,
                                cmdsv.skip(i as int + 1),
                                100000 - count0 - 1,
                                f,
                                v,
                            )) by {
                            assert(in_entries(entry_views(entries@), f, v) <==> (in_entries(
                                pre_cmd,
                                f,
                                v,
                            ) || pair_in_prefix(compsv, j as int, f, v)));
                            assert(pair_in_prefix(compsv, j as int, f, v) == pair_in(
                                compsv,
                                f,
                                v,
                            ));
                            assert(recorded(basev, s, 100000 - count0, f, v) == (pair_in(
                                compsv,
                                f,
                                v,
                            ) || recorded(basev, s.drop_first(), 100000 - count0 - 1, f, v)));
                            assert(recorded(basev, cmdsv, 100000, f, v) <==> (in_entries(
                                pre_cmd,
                                f,
                                v,
                            ) || recorded(basev, s, 100000 - count0, f, v)));
                        }
                    }
                },
            }
            count = count + 1;
        } else {
            proof {
                assert forall|f: Seq<char>, v: Seq<char>|
                    #[trigger] recorded(basev, s, 100000 - count0, f, v) == recorded(
                        basev,
                        s.drop_first(),
                        100000 - count0,
                        f,
                        v,
                    ) by {}
            }
        }
        i = i + 1;
    }
    proof {
        assert forall|f: Seq<char>, v: Seq<char>|
            recorded(basev, cmdsv, 100000, f, v) <==> in_entries(entry_views(entries@), f, v) by {
            if i == n {
                assert(cmdsv.skip(n as int) =~= Seq::<Seq<char>>::empty());
                assert(!recorded(basev, cmdsv.skip(i as int), 100000 - count, f, v));
            } else {
                assert(count == 100000);
                assert(!recorded(basev, cmdsv.skip(i as int), 0, f, v));
            }
        }
    }

    let ghost gathered = entry_views(entries@);
    let ne: usize = entries.len();
    let mut out: Vec<(String, Vec<String>)> = Vec::new();
    let mut k: usize = 0;
    proof {
        assert(entry_views(out@) =~= Seq::<(Seq<char>, Seq<Seq<char>>)>::empty());
    }
    while k < ne
        invariant
            k <= ne,
            ne == entries@.len(),
            gathered == entry_views(entries@),
            gathered.len() == ne,
            keys_unique(gathered),
            lists_nodup(gathered),
            lists_nonempty(gathered),
            entry_views(out@).len() == k,
            forall|m: int|
                0 <= m < k ==> {
                    &&& (#[trigger] entry_views(out@)[m]).0 == gathered[m].0
                    &&& sorted_strict(entry_views(out@)[m].1)
                    &&& entry_views(out@)[m].1.len() > 0
                    &&& forall|v: Seq<char>|
                        entry_views(out@)[m].1.contains(v) <==> gathered[m].1.contains(v)
                },
        decreases ne - k,
    {
        proof {
            assert(gathered[k as int] == (entries@[k as int].0@, entries@[k as int].1.deep_view()));
            assert(nodup_values(gathered[k as int].1));
        }
        let key = entries[k].0.as_str().to_owned();
        let vals = sort_strings(&entries[k].1);
        let ghost keyv = key@;
        let ghost valsv = vals.deep_view();
        let ghost pre_out = entry_views(out@);
        let ghost pre_vec = out@;
        out.push((key, vals));
        k = k + 1;
        proof {
            let post = entry_views(out@);
            assert(post.len() == k);
            assert forall|m: int| 0 <= m < k - 1 implies #[trigger] post[m] == pre_out[m] by {
                assert(out@[m] == pre_vec[m]);
            }
            assert(post[k - 1] == (keyv, valsv));
            assert(gathered[k - 1].1.len() > 0);
            assert(valsv.len() > 0) by {
                assert(valsv.len() == gathered[k - 1].1.len());
            }
        }
    }
    let r = HistoryIndex { entries: out };
    proof {
        let sv = entry_views(out@);
        assert(sv.len() == gathered.len());
        assert forall|a: int, b: int| 0 <= a < b < sv.len() implies (#[trigger] sv[a]).0 != (
        #[trigger] sv[b]).0 by {
            assert(sv[a].0 == gathered[a].0 && sv[b].0 == gathered[b].0);
        }
        assert forall|f: Seq<char>, v: Seq<char>|
            in_entries(sv, f, v) <==> in_entries(gathered, f, v) by {
            if in_entries(sv, f, v) {
                let m = choose|m: int|
                    0 <= m < sv.len() && (#[trigger] sv[m]).0 == f && sv[m].1.contains(v);
                assert(gathered[m].0 == f && gathered[m].1.contains(v));
                assert(in_entries(gathered, f, v));
            }
            if in_entries(gathered, f, v) {
                let m = choose|m: int|
                    0 <= m < gathered.len() && (#[trigger] gathered[m]).0 == f && gathered[
                    m].1.contains(v);
                assert(sv[m].0 == f && sv[m].1.contains(v));
                assert(in_entries(sv, f, v));
            }
        }
    }
    r
}

} // verus!
