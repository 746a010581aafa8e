//! POSIX-like word splitting for one logical command line segment.
//!
//! Single and double quotes group whitespace, a backslash escapes the
//! character after it (outside single quotes), and adjacent quoted and
//! unquoted pieces concatenate into one word.  A segment whose quoting is
//! unbalanced, or that ends right after a backslash, does not split.

use vstd::prelude::*;

use crate::strutil::char_is_space;
use crate::strutil::is_space;

verus! {

/// Lexer state: where in the quoting structure the scan stands.
#[derive(Clone, Copy, PartialEq, Eq, Structural)]
pub enum LexMode {
    /// Between words.
    Delim,
    /// Inside a word, outside any quotes.
    Word,
    /// Inside a single-quoted region.
    Single,
    /// Inside a double-quoted region.
    Double,
    /// Directly after a backslash, outside quotes.
    EscWord,
    /// Directly after a backslash, inside double quotes.
    EscDouble,
}

/// One step of the word-splitting scan over the remaining input `s`:
/// `cur` is the word collected so far, `acc` the words already emitted.
pub open spec fn lex(s: Seq<char>, mode: LexMode, cur: Seq<char>, acc: Seq<Seq<char>>) -> Option<
    Seq<Seq<char>>,
>
    decreases s.len(),
{
    if s.len() == 0 {
        match mode {
            LexMode::Delim => Some(acc),
            LexMode::Word => Some(acc.push(cur)),
            _ => None,
        }
    } else {
        let c = s[0];
        let rest = s.drop_first();
        match mode {
            LexMode::Delim => if is_space(c) {
                lex(rest, LexMode::Delim, cur, acc)
            } else if c == '\'' {
                lex(rest, LexMode::Single, Seq::empty(), acc)
            } else if c == '"' {
                lex(rest, LexMode::Double, Seq::empty(), acc)
            } else if c == '\\' {
                lex(rest, LexMode::EscWord, Seq::empty(), acc)
            } else {
                lex(rest, LexMode::Word, seq![c], acc)
            },
            LexMode::Word => if is_space(c) {
                lex(rest, LexMode::Delim, Seq::empty(), acc.push(cur))
            } else if c == '\'' {
                lex(rest, LexMode::Single, cur, acc)
            } else if c == '"' {
                lex(rest, LexMode::Double, cur, acc)
            } else if c == '\\' {
                lex(rest, LexMode::EscWord, cur, acc)
            } else {
                lex(rest, LexMode::Word, cur.push(c), acc)
            },
            LexMode::Single => if c == '\'' {
                lex(rest, LexMode::Word, cur, acc)
            } else {
                lex(rest, LexMode::Single, cur.push(c), acc)
            },
            LexMode::Double => if c == '"' {
                lex(rest, LexMode::Word, cur, acc)
            } else if c == '\\' {
                lex(rest, LexMode::EscDouble, cur, acc)
            } else {
                lex(rest, LexMode::Double, cur.push(c), acc)
            },
            LexMode::EscWord => lex(rest, LexMode::Word, cur.push(c), acc),
            LexMode::EscDouble => lex(rest, LexMode::Double, cur.push(c), acc),
        }
    }
}

/// The words of `s` under the quoting rules above; `None` when quoting is
/// unbalanced or the input ends directly after a backslash.
pub open spec fn split_words_spec(s: Seq<char>) -> Option<Seq<Seq<char>>> {
    lex(s, LexMode::Delim, Seq::empty(), Seq::empty())
}

/// Splits `v` into shell words.
pub fn split_words(v: &Vec<char>) -> (r: Option<Vec<Vec<char>>>)
    ensures
        r is Some <==> split_words_spec(v@) is Some,
        r is Some ==> Some(r.unwrap().deep_view()) == split_words_spec(v@),
{
    let n: usize = v.len();
    let mut mode = LexMode::Delim;
    let mut cur: Vec<char> = Vec::new();
    let mut acc: Vec<Vec<char>> = Vec::new();
    let mut i: usize = 0;
    proof {
        assert(v@.skip(0) =~= v@);
        assert(acc.deep_view() =~= Seq::<Seq<char>>::empty());
    }
    while i < n
        invariant
            i <= n,
            n == v@.len(),
            mode == LexMode::Delim ==> cur@ == Seq::<char>::empty(),
            lex(v@.skip(i as int), mode, cur@, acc.deep_view()) == split_words_spec(v@),
        decreases n - i,
    {
        let c = v[i];
        let ghost s = v@.skip(i as int);
        let ghost m0 = mode;
        let ghost cur0 = cur@;
        let ghost acc0 = acc.deep_view();
        proof {
            assert(s.len() > 0);
            assert(s[0] == c);
            assert(s.drop_first() =~= v@.skip(i as int + 1));
        }
        match mode {
            LexMode::Delim => {
                if char_is_space(c) {
                } else if c == '\'' {
                    mode = LexMode::Single;
                } else if c == '"' {
                    mode = LexMode::Double;
                } else if c == '\\' {
                    mode = LexMode::EscWord;
                } else {
                    cur.push(c);
                    mode = LexMode::Word;
                    proof {
                        assert(cur@ =~= seq![c]);
                    }
                }
            },
            LexMode::Word => {
                if char_is_space(c) {
                    acc.push(cur);
                    cur = Vec::new();
                    mode = LexMode::Delim;
                    proof {
                        crate::strutil::lemma_vec_chars_deep_view();
                        assert(acc.deep_view() =~= acc0.push(cur0));
                    }
                } else if c == '\'' {
                    mode = LexMode::Single;
                } else if c == '"' {
                    mode = LexMode::Double;
                } else if c == '\\' {
                    mode = LexMode::EscWord;
                } else {
                    cur.push(c);
                }
            },
            LexMode::Single => {
                if c == '\'' {
                    mode = LexMode::Word;
                } else {
                    cur.push(c);
                }
            },
            LexMode::Double => {
                if c == '"' {
                    mode = LexMode::Word;
                } else if c == '\\' {
                    mode = LexMode::EscDouble;
                } else {
                    cur.push(c);
                }
            },
            LexMode::EscWord => {
                cur.push(c);
                mode = LexMode::Word;
            },
            LexMode::EscDouble => {
                cur.push(c);
                mode = LexMode::Double;
            },
        }
        i = i + 1;
        proof {
            assert(lex(s, m0, cur0, acc0) == lex(v@.skip(i as int), mode, cur@, acc.deep_view()));
        }
    }
    proof {
        assert(v@.skip(n as int) =~= Seq::<char>::empty());
    }
    match mode {
        LexMode::Delim => Some(acc),
        LexMode::Word => {
            let ghost acc0 = acc.deep_view();
            acc.push(cur);
            proof {
                crate::strutil::lemma_vec_chars_deep_view();
                assert(acc.deep_view() =~= acc0.push(cur@));
            }
            Some(acc)
        },
        _ => None,
    }
}

} // verus!
