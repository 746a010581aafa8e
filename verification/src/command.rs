//! The command document: an ordered sequence of component strings, parsed
//! from a raw command line and serialized back to a shell-safe string.
//!
//! Serialization quotes each component just enough to re-parse exactly,
//! while leaving `$` and backtick alone so expansion and substitution
//! remain available.  [`lemma_quote_round_trip`] proves the load-bearing
//! invariant: tokenizing a quoted component as one shell word reproduces
//! the component exactly.

use vstd::prelude::*;

use crate::strutil::from_chars;
use crate::strutil::push_char;
use crate::strutil::is_space;
use crate::strutil::join_spaced;
use crate::strutil::to_chars;
use crate::strutil::trim_chars;
use crate::strutil::trim_spec;
use crate::tokenize::LexMode;
use crate::tokenize::lex;
use crate::tokenize::split_words;
use crate::tokenize::split_words_spec;

verus! {

/// Why a raw command line was rejected.
#[derive(Clone, Copy, PartialEq, Eq, Structural, Debug)]
pub enum CommandError {
    /// A segment's quoting was unbalanced (or it ended in a lone backslash).
    ParseError,
    /// The line held no tokens at all.
    EmptyCommandError,
}

/// A character that needs no protection from the tokenizer: not whitespace,
/// not a quote, not a backslash.
pub open spec fn is_plain(c: char) -> bool {
    !is_space(c) && c != '"' && c != '\'' && c != '\\'
}

/// A string must be quoted exactly when it holds whitespace, a quote of
/// either kind, or a backslash.
pub open spec fn needs_quoting(s: Seq<char>) -> bool {
    exists|i: int| 0 <= i < s.len() && !is_plain(#[trigger] s[i])
}

/// How many times `c` occurs in `s`.
pub open spec fn count_char(s: Seq<char>, c: char) -> int
    decreases s.len(),
{
    if s.len() == 0 {
        0
    } else {
        (if s[0] == c {
            1int
        } else {
            0int
        }) + count_char(s.drop_first(), c)
    }
}

/// How one character is written inside a single-quoted wrapping: a literal
/// single quote closes the quote, adds an escaped quote, and reopens it;
/// everything else (backslashes included) stays as it is.
pub open spec fn sq_rep_char(c: char) -> Seq<char> {
    if c == '\'' {
        seq!['\'', '\\', '\'', '\'']
    } else {
        seq![c]
    }
}

/// The body of the single-quoted form of `s`.
pub open spec fn sq_rep(s: Seq<char>) -> Seq<char>
    decreases s.len(),
{
    if s.len() == 0 {
        Seq::empty()
    } else {
        sq_rep_char(s[0]) + sq_rep(s.drop_first())
    }
}

/// How one character is written inside a double-quoted wrapping: backslash
/// and double quote get a backslash before them; everything else stays.
pub open spec fn dq_esc_char(c: char) -> Seq<char> {
    if c == '\\' || c == '"' {
        seq!['\\', c]
    } else {
        seq![c]
    }
}

/// The body of the double-quoted form of `s`.
pub open spec fn dq_esc(s: Seq<char>) -> Seq<char>
    decreases s.len(),
{
    if s.len() == 0 {
        Seq::empty()
    } else {
        dq_esc_char(s[0]) + dq_esc(s.drop_first())
    }
}

/// The shell-safe form of one component: unchanged when nothing in it needs
/// protection; single-quoted when it holds more double quotes than single
/// quotes; double-quoted otherwise.
pub open spec fn spec_quote(s: Seq<char>) -> Seq<char> {
    if !needs_quoting(s) {
        s
    } else if count_char(s, '"') > count_char(s, '\'') {
        seq!['\''] + sq_rep(s) + seq!['\'']
    } else {
        seq!['"'] + dq_esc(s) + seq!['"']
    }
}

/// Executable twin of [`is_plain`].
fn char_is_plain(c: char) -> (r: bool)
    ensures
        r == is_plain(c),
{
    !crate::strutil::char_is_space(c) && c != '"' && c != '\'' && c != '\\'
}

/// Quotes `s` so that it can be passed as a single shell argument and
/// re-parses to exactly `s`; `$` and backtick are left unescaped so that
/// expansion and substitution still work.
pub fn quote_if_needed(s: &str) -> (r: String)
    ensures
        r@ == spec_quote(s@),
{
    let v = to_chars(s);
    let n: usize = v.len();

    let mut needs = false;
    let mut i: usize = 0;
    while i < n
        invariant
            i <= n,
            n == v@.len(),
            v@ == s@,
            needs == exists|j: int| 0 <= j < i && !is_plain(#[trigger] v@[j]),
        decreases n - i,
    {
        if !char_is_plain(v[i]) {
            needs = true;
        }
        i = i + 1;
    }
    if !needs {
        return s.to_owned();
    }

    let mut dq: usize = 0;
    let mut sq: usize = 0;
    let mut i: usize = 0;
    proof {
        assert(v@.skip(0) =~= v@);
    }
    while i < n
        invariant
            i <= n,
            n == v@.len(),
            dq <= i,
            sq <= i,
            count_char(v@, '"') == dq + count_char(v@.skip(i as int), '"'),
            count_char(v@, '\'') == sq + count_char(v@.skip(i as int), '\''),
        decreases n - i,
    {
        proof {
            assert(v@.skip(i as int)[0] == v@[i as int]);
            assert(v@.skip(i as int).drop_first() =~= v@.skip(i as int + 1));
        }
        if v[i] == '"' {
            dq = dq + 1;
        } else if v[i] == '\'' {
            sq = sq + 1;
        }
        i = i + 1;
    }
    proof {
        assert(v@.skip(n as int) =~= Seq::<char>::empty());
    }

    let mut out: Vec<char> = Vec::new();
    if dq > sq {
        out.push('\'');
        let mut i: usize = 0;
        proof {
            assert(out@ =~= seq!['\''] + sq_rep(v@.take(0)));
        }
        while i < n
            invariant
                i <= n,
                n == v@.len(),
                out@ == seq!['\''] + sq_rep(v@.take(i as int)),
            decreases n - i,
        {
            let ghost pre = out@;
            let c = v[i];
            if c == '\'' {
                out.push('\'');
                out.push('\\');
                out.push('\'');
                out.push('\'');
            } else {
                out.push(c);
            }
            i = i + 1;
            proof {
                lemma_sq_rep_take_succ(v@, i as int - 1);
                assert(out@ =~= pre + sq_rep_char(c));
            }
        }
        out.push('\'');
        proof {
            assert(v@.take(n as int) =~= v@);
            assert(out@ =~= seq!['\''] + sq_rep(v@) + seq!['\'']);
        }
    } else {
        out.push('"');
        let mut i: usize = 0;
        proof {
            assert(out@ =~= seq!['"'] + dq_esc(v@.take(0)));
        }
        while i < n
            invariant
                i <= n,
                n == v@.len(),
                out@ == seq!['"'] + dq_esc(v@.take(i as int)),
            decreases n - i,
        {
            let ghost pre = out@;
            let c = v[i];
            if c == '\\' || c == '"' {
                out.push('\\');
                out.push(c);
            } else {
                out.push(c);
            }
            i = i + 1;
            proof {
                lemma_dq_esc_take_succ(v@, i as int - 1);
                assert(out@ =~= pre + dq_esc_char(c));
            }
        }
        out.push('"');
        proof {
            assert(v@.take(n as int) =~= v@);
            assert(out@ =~= seq!['"'] + dq_esc(v@) + seq!['"']);
        }
    }
    from_chars(&out)
}

proof fn lemma_sq_rep_concat(a: Seq<char>, b: Seq<char>)
    ensures
        sq_rep(a + b) == sq_rep(a) + sq_rep(b),
    decreases a.len(),
{
    if a.len() == 0 {
        assert(a + b =~= b);
        assert(sq_rep(a) + sq_rep(b) =~= sq_rep(b));
    } else {
        assert((a + b)[0] == a[0]);
        assert((a + b).drop_first() =~= a.drop_first() + b);
        lemma_sq_rep_concat(a.drop_first(), b);
        assert(sq_rep_char(a[0]) + (sq_rep(a.drop_first()) + sq_rep(b)) =~= (sq_rep_char(a[0])
            + sq_rep(a.drop_first())) + sq_rep(b));
    }
}

proof fn lemma_sq_rep_take_succ(s: Seq<char>, i: int)
    requires
        0 <= i < s.len(),
    ensures
        sq_rep(s.take(i + 1)) == sq_rep(s.take(i)) + sq_rep_char(s[i]),
{
    assert(s.take(i + 1) =~= s.take(i) + seq![s[i]]);
    lemma_sq_rep_concat(s.take(i), seq![s[i]]);
    assert(seq![s[i]].drop_first() =~= Seq::<char>::empty());
    assert(sq_rep(Seq::<char>::empty()) == Seq::<char>::empty());
    assert(sq_rep(seq![s[i]]) == sq_rep_char(s[i]) + sq_rep(Seq::<char>::empty()));
    assert(sq_rep(seq![s[i]]) =~= sq_rep_char(s[i]));
}

proof fn lemma_dq_esc_concat(a: Seq<char>, b: Seq<char>)
    ensures
        dq_esc(a + b) == dq_esc(a) + dq_esc(b),
    decreases a.len(),
{
    if a.len() == 0 {
        assert(a + b =~= b);
        assert(dq_esc(a) + dq_esc(b) =~= dq_esc(b));
    } else {
        assert((a + b)[0] == a[0]);
        assert((a + b).drop_first() =~= a.drop_first() + b);
        lemma_dq_esc_concat(a.drop_first(), b);
        assert(dq_esc_char(a[0]) + (dq_esc(a.drop_first()) + dq_esc(b)) =~= (dq_esc_char(a[0])
            + dq_esc(a.drop_first())) + dq_esc(b));
    }
}

proof fn lemma_dq_esc_take_succ(s: Seq<char>, i: int)
    requires
        0 <= i < s.len(),
    ensures
        dq_esc(s.take(i + 1)) == dq_esc(s.take(i)) + dq_esc_char(s[i]),
{
    assert(s.take(i + 1) =~= s.take(i) + seq![s[i]]);
    lemma_dq_esc_concat(s.take(i), seq![s[i]]);
    assert(seq![s[i]].drop_first() =~= Seq::<char>::empty());
    assert(dq_esc(Seq::<char>::empty()) == Seq::<char>::empty());
    assert(dq_esc(seq![s[i]]) == dq_esc_char(s[i]) + dq_esc(Seq::<char>::empty()));
    assert(dq_esc(seq![s[i]]) =~= dq_esc_char(s[i]));
}

/// Running the lexer inside a word over characters that need no protection
/// simply appends them to the current word.
proof fn lemma_lex_plain(t: Seq<char>, rest: Seq<char>, cur: Seq<char>, acc: Seq<Seq<char>>)
    requires
        forall|i: int| 0 <= i < t.len() ==> is_plain(#[trigger] t[i]),
    ensures
        lex(t + rest, LexMode::Word, cur, acc) == lex(rest, LexMode::Word, cur + t, acc),
    decreases t.len(),
{
    if t.len() == 0 {
        assert(t + rest =~= rest);
        assert(cur + t =~= cur);
    } else {
        let c = t[0];
        let u = t + rest;
        assert(u[0] == c);
        assert(u.drop_first() =~= t.drop_first() + rest);
        assert(lex(u, LexMode::Word, cur, acc) == lex(
            t.drop_first() + rest,
            LexMode::Word,
            cur.push(c),
            acc,
        ));
        lemma_lex_plain(t.drop_first(), rest, cur.push(c), acc);
        assert(cur.push(c) + t.drop_first() =~= cur + t);
    }
}

/// Running the lexer inside single quotes over the single-quoted form of
/// `t` appends exactly `t` to the current word and returns to the
/// single-quoted state.
proof fn lemma_lex_single(t: Seq<char>, rest: Seq<char>, cur: Seq<char>, acc: Seq<Seq<char>>)
    ensures
        lex(sq_rep(t) + rest, LexMode::Single, cur, acc) == lex(
            rest,
            LexMode::Single,
            cur + t,
            acc,
        ),
    decreases t.len(),
{
    if t.len() == 0 {
        assert(sq_rep(t) + rest =~= rest);
        assert(cur + t =~= cur);
    } else {
        let c = t[0];
        let t1 = t.drop_first();
        assert(sq_rep(t) == sq_rep_char(c) + sq_rep(t1));
        if c == '\'' {
            let u0 = sq_rep(t) + rest;
            let u1 = seq!['\\', '\'', '\''] + sq_rep(t1) + rest;
            let u2 = seq!['\'', '\''] + sq_rep(t1) + rest;
            let u3 = seq!['\''] + sq_rep(t1) + rest;
            let u4 = sq_rep(t1) + rest;
            assert(u0[0] == '\'' && u0.drop_first() =~= u1);
            assert(lex(u0, LexMode::Single, cur, acc) == lex(u1, LexMode::Word, cur, acc));
            assert(u1[0] == '\\' && u1.drop_first() =~= u2);
            assert(lex(u1, LexMode::Word, cur, acc) == lex(u2, LexMode::EscWord, cur, acc));
            assert(u2[0] == '\'' && u2.drop_first() =~= u3);
            assert(lex(u2, LexMode::EscWord, cur, acc) == lex(
                u3,
                LexMode::Word,
                cur.push('\''),
                acc,
            ));
            assert(u3[0] == '\'' && u3.drop_first() =~= u4);
            assert(lex(u3, LexMode::Word, cur.push('\''), acc) == lex(
                u4,
                LexMode::Single,
                cur.push('\''),
                acc,
            ));
            lemma_lex_single(t1, rest, cur.push(c), acc);
            assert(cur.push(c) + t1 =~= cur + t);
        } else {
            let u = sq_rep(t) + rest;
            assert(u[0] == c);
            assert(u.drop_first() =~= sq_rep(t1) + rest);
            assert(lex(u, LexMode::Single, cur, acc) == lex(
                sq_rep(t1) + rest,
                LexMode::Single,
                cur.push(c),
                acc,
            ));
            lemma_lex_single(t1, rest, cur.push(c), acc);
            assert(cur.push(c) + t1 =~= cur + t);
        }
    }
}

/// Running the lexer inside double quotes over the double-quoted form of
/// `t` appends exactly `t` to the current word and returns to the
/// double-quoted state.
proof fn lemma_lex_double(t: Seq<char>, rest: Seq<char>, cur: Seq<char>, acc: Seq<Seq<char>>)
    ensures
        lex(dq_esc(t) + rest, LexMode::Double, cur, acc) == lex(
            rest,
            LexMode::Double,
            cur + t,
            acc,
        ),
    decreases t.len(),
{
    if t.len() == 0 {
        assert(dq_esc(t) + rest =~= rest);
        assert(cur + t =~= cur);
    } else {
        let c = t[0];
        let t1 = t.drop_first();
        assert(dq_esc(t) == dq_esc_char(c) + dq_esc(t1));
        if c == '\\' || c == '"' {
            let u0 = dq_esc(t) + rest;
            let u1 = seq![c] + dq_esc(t1) + rest;
            let u2 = dq_esc(t1) + rest;
            assert(u0[0] == '\\' && u0.drop_first() =~= u1);
            assert(lex(u0, LexMode::Double, cur, acc) == lex(u1, LexMode::EscDouble, cur, acc));
            assert(u1[0] == c && u1.drop_first() =~= u2);
            assert(lex(u1, LexMode::EscDouble, cur, acc) == lex(
                u2,
                LexMode::Double,
                cur.push(c),
                acc,
            ));
            lemma_lex_double(t1, rest, cur.push(c), acc);
            assert(cur.push(c) + t1 =~= cur + t);
        } else {
            let u = dq_esc(t) + rest;
            assert(u[0] == c);
            assert(u.drop_first() =~= dq_esc(t1) + rest);
            assert(lex(u, LexMode::Double, cur, acc) == lex(
                dq_esc(t1) + rest,
                LexMode::Double,
                cur.push(c),
                acc,
            ));
            lemma_lex_double(t1, rest, cur.push(c), acc);
            assert(cur.push(c) + t1 =~= cur + t);
        }
    }
}

/// Scanning the quoted form of a non-empty string from between words
/// consumes it entirely, leaves exactly that string as the word in
/// progress, and goes on with whatever follows.
proof fn lemma_quote_word(s: Seq<char>, rest: Seq<char>, acc: Seq<Seq<char>>)
    requires
        s.len() > 0,
    ensures
        lex(spec_quote(s) + rest, LexMode::Delim, Seq::empty(), acc) == lex(
            rest,
            LexMode::Word,
            s,
            acc,
        ),
{
    let e = Seq::<char>::empty();
    let q = spec_quote(s);
    if !needs_quoting(s) {
        assert(q == s);
        assert(is_plain(s[0]));
        let u = s + rest;
        assert(u[0] == s[0]);
        assert(u.drop_first() =~= s.drop_first() + rest);
        assert(lex(u, LexMode::Delim, e, acc) == lex(
            s.drop_first() + rest,
            LexMode::Word,
            seq![s[0]],
            acc,
        ));
        assert forall|i: int| 0 <= i < s.drop_first().len() implies is_plain(
            #[trigger] s.drop_first()[i],
        ) by {
            assert(s.drop_first()[i] == s[i + 1]);
        }
        lemma_lex_plain(s.drop_first(), rest, seq![s[0]], acc);
        assert(seq![s[0]] + s.drop_first() =~= s);
    } else if count_char(s, '"') > count_char(s, '\'') {
        let u0 = q + rest;
        let u1 = sq_rep(s) + (seq!['\''] + rest);
        assert(u0[0] == '\'');
        assert(u0.drop_first() =~= u1);
        assert(lex(u0, LexMode::Delim, e, acc) == lex(u1, LexMode::Single, e, acc));
        lemma_lex_single(s, seq!['\''] + rest, e, acc);
        assert(e + s =~= s);
        let u2 = seq!['\''] + rest;
        assert(u2[0] == '\'' && u2.drop_first() =~= rest);
        assert(lex(u2, LexMode::Single, s, acc) == lex(rest, LexMode::Word, s, acc));
    } else {
        let u0 = q + rest;
        let u1 = dq_esc(s) + (seq!['"'] + rest);
        assert(u0[0] == '"');
        assert(u0.drop_first() =~= u1);
        assert(lex(u0, LexMode::Delim, e, acc) == lex(u1, LexMode::Double, e, acc));
        lemma_lex_double(s, seq!['"'] + rest, e, acc);
        assert(e + s =~= s);
        let u2 = seq!['"'] + rest;
        assert(u2[0] == '"' && u2.drop_first() =~= rest);
        assert(lex(u2, LexMode::Double, s, acc) == lex(rest, LexMode::Word, s, acc));
    }
}

/// The quoting round trip: for every non-empty string, splitting its quoted
/// form into shell words yields exactly that one string back.  (The empty
/// string is the one exception: it is left unquoted and so splits into no
/// words at all.)
pub proof fn lemma_quote_round_trip(s: Seq<char>)
    requires
        s.len() > 0,
    ensures
        split_words_spec(spec_quote(s)) == Some(seq![s]),
{
    let e = Seq::<char>::empty();
    let ea = Seq::<Seq<char>>::empty();
    assert(spec_quote(s) + e =~= spec_quote(s));
    lemma_quote_word(s, e, ea);
    assert(lex(e, LexMode::Word, s, ea) == Some(ea.push(s)));
    assert(ea.push(s) =~= seq![s]);
}

/// Joining the quoted forms of non-empty components with single spaces
/// and word-splitting the result appends exactly those components.
proof fn lemma_join_quoted(doc: Seq<Seq<char>>, acc: Seq<Seq<char>>)
    requires
        forall|i: int| 0 <= i < doc.len() ==> (#[trigger] doc[i]).len() > 0,
    ensures
        lex(
            join_spaced(doc.map_values(|t: Seq<char>| spec_quote(t))),
            LexMode::Delim,
            Seq::empty(),
            acc,
        ) == Some(acc + doc),
    decreases doc.len(),
{
    let e = Seq::<char>::empty();
    let m = doc.map_values(|t: Seq<char>| spec_quote(t));
    if doc.len() == 0 {
        assert(m.len() == 0);
        assert(join_spaced(m) == e);
        assert(lex(e, LexMode::Delim, e, acc) == Some(acc));
        assert(acc + doc =~= acc);
    } else if doc.len() == 1 {
        assert(join_spaced(m) == m[0]);
        assert(m[0] == spec_quote(doc[0]));
        assert(spec_quote(doc[0]) + e =~= spec_quote(doc[0]));
        lemma_quote_word(doc[0], e, acc);
        assert(lex(e, LexMode::Word, doc[0], acc) == Some(acc.push(doc[0])));
        assert(acc.push(doc[0]) =~= acc + doc);
    } else {
        let m1 = m.drop_first();
        let rest = seq![' '] + join_spaced(m1);
        assert(join_spaced(m) == m[0] + seq![' '] + join_spaced(m1));
        assert(m[0] + seq![' '] + join_spaced(m1) =~= spec_quote(doc[0]) + rest);
        lemma_quote_word(doc[0], rest, acc);
        assert(rest[0] == ' ');
        assert(rest.drop_first() =~= join_spaced(m1));
        assert(lex(rest, LexMode::Word, doc[0], acc) == lex(
            join_spaced(m1),
            LexMode::Delim,
            Seq::empty(),
            acc.push(doc[0]),
        ));
        assert(m1 =~= doc.drop_first().map_values(|t: Seq<char>| spec_quote(t)));
        assert forall|i: int| 0 <= i < doc.drop_first().len() implies (#[trigger] doc.drop_first()[
        i]).len() > 0 by {
            assert(doc.drop_first()[i] == doc[i + 1]);
        }
        lemma_join_quoted(doc.drop_first(), acc.push(doc[0]));
        assert(acc.push(doc[0]) + doc.drop_first() =~= acc + doc);
    }
}

/// The serialization round trip: quoting every component of a document
/// with non-empty components and joining them with single spaces -- what
/// `to_shell_string` produces -- word-splits back to exactly the
/// document's components.  (An empty component serializes to nothing and
/// would vanish from the joined line.)
pub proof fn lemma_serialize_round_trip(doc: Seq<Seq<char>>)
    requires
        forall|i: int| 0 <= i < doc.len() ==> (#[trigger] doc[i]).len() > 0,
    ensures
        split_words_spec(join_spaced(doc.map_values(|t: Seq<char>| spec_quote(t)))) == Some(doc),
{
    lemma_join_quoted(doc, Seq::empty());
    assert(Seq::<Seq<char>>::empty() + doc =~= doc);
}

/// The line-continuation split of `s`: pieces separated by a backslash
/// directly followed by a newline; `cur` is the piece collected so far and
/// `acc` the pieces already split off.
pub open spec fn split_cont(s: Seq<char>, cur: Seq<char>, acc: Seq<Seq<char>>) -> Seq<Seq<char>>
    decreases s.len(),
{
    if s.len() == 0 {
        acc.push(cur)
    } else if s.len() >= 2 && s[0] == '\\' && s[1] == '\n' {
        split_cont(s.skip(2), Seq::empty(), acc.push(cur))
    } else {
        split_cont(s.drop_first(), cur.push(s[0]), acc)
    }
}

/// The physical segments of a raw command line.
pub open spec fn segments_spec(s: Seq<char>) -> Seq<Seq<char>> {
    split_cont(s, Seq::empty(), Seq::empty())
}

/// The words of the trimmed, non-empty segments, in order, appended to
/// `acc`; an error as soon as one segment fails to split.
pub open spec fn segs_tokens(segs: Seq<Seq<char>>, acc: Seq<Seq<char>>) -> Result<
    Seq<Seq<char>>,
    CommandError,
>
    decreases segs.len(),
{
    if segs.len() == 0 {
        Ok(acc)
    } else {
        let t = trim_spec(segs[0]);
        if t.len() == 0 {
            segs_tokens(segs.drop_first(), acc)
        } else {
            match split_words_spec(t) {
                Option::None => Err(CommandError::ParseError),
                Option::Some(toks) => segs_tokens(segs.drop_first(), acc + toks),
            }
        }
    }
}

/// What parsing a raw command line yields: all the words of all its
/// segments, or `ParseError` when a segment's quoting is unbalanced, or
/// `EmptyCommandError` when no words remain.
pub open spec fn parse_tokens_spec(s: Seq<char>) -> Result<Seq<Seq<char>>, CommandError> {
    match segs_tokens(segments_spec(s), Seq::empty()) {
        Err(e) => Err(e),
        Ok(toks) => if toks.len() == 0 {
            Err(CommandError::EmptyCommandError)
        } else {
            Ok(toks)
        },
    }
}

/// A dense, order-significant sequence of command components, created from
/// one successful parse and mutated during an editing session.
pub struct Command {
    components: Vec<String>,
}

impl View for Command {
    type V = Seq<Seq<char>>;

    closed spec fn view(&self) -> Seq<Seq<char>> {
        self.components.deep_view()
    }
}

impl Command {
    /// Parses a raw command line, splitting on line continuations and then
    /// on shell words, exactly as [`parse_tokens_spec`] describes.
    pub fn try_from(command_str: &str) -> (r: Result<Command, CommandError>)
        ensures
            match r {
                Ok(c) => parse_tokens_spec(command_str@) == Ok::<Seq<Seq<char>>, CommandError>(c@),
                Err(e) => parse_tokens_spec(command_str@) == Err::<Seq<Seq<char>>, CommandError>(
                    e,
                ),
            },
    {
        let v = to_chars(command_str);
        let n: usize = v.len();

        let mut segs: Vec<Vec<char>> = Vec::new();
        let mut cur: Vec<char> = Vec::new();
        let mut i: usize = 0;
        proof {
            assert(v@.skip(0) =~= v@);
            assert(segs.deep_view() =~= Seq::<Seq<char>>::empty());
        }
        while i < n
            invariant
                i <= n,
                n == v@.len(),
                split_cont(v@.skip(i as int), cur@, segs.deep_view()) == segments_spec(v@),
            decreases n - i,
        {
            let ghost s = v@.skip(i as int);
            let ghost acc0 = segs.deep_view();
            let ghost cur0 = cur@;
            proof {
                assert(s[0] == v@[i as int]);
                if i + 1 < n {
                    assert(s[1] == v@[i as int + 1]);
                }
            }
            if v[i] == '\\' && i + 1 < n && v[i + 1] == '\n' {
                segs.push(cur);
                cur = Vec::new();
                proof {
                    crate::strutil::lemma_vec_chars_deep_view();
                    assert(segs.deep_view() =~= acc0.push(cur0));
                    assert(s.skip(2) =~= v@.skip(i as int + 2));
                }
                i = i + 2;
            } else {
                cur.push(v[i]);
                proof {
                    assert(s.drop_first() =~= v@.skip(i as int + 1));
                    if s.len() >= 2 {
                        assert(!(s[0] == '\\' && s[1] == '\n'));
                    }
                }
                i = i + 1;
            }
        }
        proof {
            assert(v@.skip(n as int) =~= Seq::<char>::empty());
        }
        let ghost acc0 = segs.deep_view();
        let ghost cur0 = cur@;
        segs.push(cur);
        proof {
            crate::strutil::lemma_vec_chars_deep_view();
            assert(segs.deep_view() =~= acc0.push(cur0));
            assert(split_cont(Seq::<char>::empty(), cur0, acc0) == acc0.push(cur0));
        }
        let ghost all_segs = segs.deep_view();
        proof {
            assert(all_segs == segments_spec(command_str@));
        }

        let mut comps: Vec<String> = Vec::new();
        let nsegs: usize = segs.len();
        let mut k: usize = 0;
        proof {
            assert(all_segs.skip(0) =~= all_segs);
            assert(comps.deep_view() =~= Seq::<Seq<char>>::empty());
        }
        while k < nsegs
            invariant
                k <= nsegs,
                nsegs == segs@.len(),
                all_segs == segs.deep_view(),
                all_segs == segments_spec(command_str@),
                segs_tokens(all_segs.skip(k as int), comps.deep_view()) == segs_tokens(
                    all_segs,
                    Seq::empty(),
                ),
            decreases nsegs - k,
        {
            proof {
                crate::strutil::lemma_vec_chars_deep_view();
                assert(all_segs.skip(k as int)[0] == segs@[k as int]@);
                assert(all_segs.skip(k as int).drop_first() =~= all_segs.skip(k as int + 1));
            }
            let t = trim_chars(&segs[k]);
            if t.len() > 0 {
                match split_words(&t) {
                    Option::None => {
                        proof {
                            assert(segs_tokens(all_segs.skip(k as int), comps.deep_view())
                                == Err::<Seq<Seq<char>>, CommandError>(CommandError::ParseError));
                        }
                        return Err(CommandError::ParseError);
                    },
                    Option::Some(toks) => {
                        let ghost comps0 = comps.deep_view();
                        let ntoks: usize = toks.len();
                        let mut j: usize = 0;
                        proof {
                            assert(comps0 + toks.deep_view().take(0) =~= comps0);
                        }
                        while j < ntoks
                            invariant
                                j <= ntoks,
                                ntoks == toks@.len(),
                                toks.deep_view().len() == ntoks,
                                comps.deep_view() == comps0 + toks.deep_view().take(j as int),
                            decreases ntoks - j,
                        {
                            let ghost pre = comps.deep_view();
                            let w = from_chars(&toks[j]);
                            comps.push(w);
                            proof {
                                crate::strutil::lemma_vec_chars_deep_view();
                                assert(comps.deep_view() =~~= pre.push(toks@[j as int]@));
                                assert(toks.deep_view()[j as int] == toks@[j as int]@);
                                assert(comps0 + toks.deep_view().take(j as int + 1) =~= (comps0
                                    + toks.deep_view().take(j as int)).push(
                                    toks.deep_view()[j as int],
                                ));
                            }
                            j = j + 1;
                        }
                        proof {
                            assert(toks.deep_view().take(ntoks as int) =~= toks.deep_view());
                        }
                    },
                }
            }
            k = k + 1;
        }
        proof {
            assert(all_segs.skip(nsegs as int) =~= Seq::<Seq<char>>::empty());
        }
        if comps.len() == 0 {
            proof {
                assert(comps.deep_view() =~= Seq::<Seq<char>>::empty());
            }
            Err(CommandError::EmptyCommandError)
        } else {
            Ok(Command { components: comps })
        }
    }

    /// How many components the command holds.
    pub fn component_count(&self) -> (r: usize)
        ensures
            r == self@.len(),
    {
        self.components.len()
    }

    /// The component at `index`; callers must check `component_count`
    /// first.
    pub fn component_at(&self, index: usize) -> (r: &str)
        requires
            index < self@.len(),
        ensures
            r@ == self@[index as int],
    {
        self.components[index].as_str()
    }

    /// Removes and returns the component at `index`, shifting the
    /// components after it left by one.
    pub fn remove_component_at(&mut self, index: usize) -> (r: String)
        requires
            index < old(self)@.len(),
        ensures
            r@ == old(self)@[index as int],
            final(self)@ == old(self)@.remove(index as int),
    {
        let r = self.components.remove(index);
        proof {
            assert(final(self)@ =~= old(self)@.remove(index as int));
        }
        r
    }

    /// Replaces the component at `index` and returns the previous value.
    pub fn set_value_at(&mut self, index: usize, new_value: &str) -> (r: String)
        requires
            index < old(self)@.len(),
        ensures
            r@ == old(self)@[index as int],
            final(self)@ == old(self)@.update(index as int, new_value@),
    {
        let r = self.components.remove(index);
        self.components.insert(index, new_value.to_owned());
        proof {
            assert(final(self)@ =~= old(self)@.update(index as int, new_value@));
        }
        r
    }

    /// Inserts a component at `index`, shifting `index` and everything
    /// after it right by one.
    pub fn insert_component_at(&mut self, index: usize, value: String)
        requires
            index <= old(self)@.len(),
        ensures
            final(self)@ == old(self)@.insert(index as int, value@),
    {
        self.components.insert(index, value);
        proof {
            assert(final(self)@ =~= old(self)@.insert(index as int, value@));
        }
    }

    /// The components, in order.
    pub fn iter_components(&self) -> (r: &Vec<String>)
        ensures
            r.deep_view() == self@,
    {
        &self.components
    }

    /// Serializes the command: every component quoted shell-safely, joined
    /// with single spaces.
    pub fn to_shell_string(&self) -> (r: String)
        ensures
            r@ == join_spaced(self@.map_values(|t: Seq<char>| spec_quote(t))),
    {
        let ghost m = self@.map_values(|t: Seq<char>| spec_quote(t));
        let mut out = String::new();
        let n: usize = self.components.len();
        let mut i: usize = 0;
        proof {
            assert(m.take(0) =~= Seq::<Seq<char>>::empty());
        }
        while i < n
            invariant
                i <= n,
                n == self.components@.len(),
                m == self@.map_values(|t: Seq<char>| spec_quote(t)),
                m.len() == n,
                out@ == join_spaced(m.take(i as int)),
            decreases n - i,
        {
            let ghost pre = out@;
            if i > 0 {
                push_char(&mut out, ' ');
            }
            let q = quote_if_needed(self.components[i].as_str());
            out.append(q.as_str());
            i = i + 1;
            proof {
                assert(m.take(i as int) =~= m.take(i as int - 1).push(m[i as int - 1]));
                crate::strutil::lemma_join_spaced_push(m.take(i as int - 1), m[i as int - 1]);
                if i == 1 {
                    assert(out@ =~= m[0]);
                } else {
                    assert(out@ =~= pre + seq![' '] + m[i as int - 1]);
                }
            }
        }
        proof {
            assert(m.take(n as int) =~= m);
        }
        out
    }
}

} // verus!
