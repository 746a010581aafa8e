//! Classifying a raw command line into components.
//!
//! A line splits into physical segments at line continuations, each
//! segment splits into shell words, and the words classify in order:
//! leading words that do not start with a dash are `Base` words; from the
//! first dash-word on, a word with an equals sign splits into a `Flag`
//! and a `Value`, a dash-word followed by a non-dash word takes it as its
//! `Value`, a dash-word alone is a boolean `Flag`, and any other word is
//! a positional `Value`.  Bundled short options are deliberately not
//! split apart: classification is purely lexical, one word at a time.
//! A `LineBreak` component is kept between segments.

use vstd::prelude::*;

use crate::app::CommandComponent;
use crate::app::ComponentSpec;
use crate::command::CommandError;
use crate::command::split_cont;
use crate::strutil::find_char;
use crate::strutil::find_char_at;
use crate::strutil::from_chars;
use crate::strutil::subvec;
use crate::strutil::to_chars;
use crate::strutil::trim_chars;
use crate::strutil::trim_spec;
use crate::tokenize::split_words;
use crate::tokenize::split_words_spec;

verus! {

/// Whether a word begins with a dash.
pub open spec fn starts_dash(t: Seq<char>) -> bool {
    t.len() > 0 && t[0] == '-'
}

/// The components classified from the words `toks[i..]`; `in_args` says
/// whether a dash-word has already been seen.
pub open spec fn classify_from(toks: Seq<Seq<char>>, i: int, in_args: bool) -> Seq<ComponentSpec>
    decreases toks.len() - i, (if in_args { 0int } else { 1int }),
{
    if i < 0 || i >= toks.len() {
        Seq::empty()
    } else if !in_args {
        if !starts_dash(toks[i]) {
            seq![ComponentSpec::Base(toks[i])] + classify_from(toks, i + 1, false)
        } else {
            classify_from(toks, i, true)
        }
    } else {
        let t = toks[i];
        if starts_dash(t) {
            let e = find_char(t, '=');
            if e < t.len() {
                seq![ComponentSpec::Flag(t.take(e)), ComponentSpec::Value(t.skip(e + 1))]
                    + classify_from(toks, i + 1, true)
            } else if i + 1 < toks.len() && !starts_dash(toks[i + 1]) {
                seq![ComponentSpec::Flag(t), ComponentSpec::Value(toks[i + 1])] + classify_from(
                    toks,
                    i + 2,
                    true,
                )
            } else {
                seq![ComponentSpec::Flag(t)] + classify_from(toks, i + 1, true)
            }
        } else {
            seq![ComponentSpec::Value(t)] + classify_from(toks, i + 1, true)
        }
    }
}

/// The classified components of one segment's words.
pub open spec fn classify_segment(toks: Seq<Seq<char>>) -> Seq<ComponentSpec> {
    classify_from(toks, 0, false)
}

/// The components of the trimmed segments in order, with a `LineBreak`
/// after every segment but the last; an error as soon as one segment
/// fails to split into words.
pub open spec fn segs_components(segs: Seq<Seq<char>>, acc: Seq<ComponentSpec>) -> Result<
    Seq<ComponentSpec>,
    CommandError,
>
    decreases segs.len(),
{
    if segs.len() == 0 {
        Ok(acc)
    } else {
        let t = trim_spec(segs[0]);
        let brk: Seq<ComponentSpec> = if segs.len() > 1 {
            seq![ComponentSpec::LineBreak]
        } else {
            Seq::empty()
        };
        if t.len() == 0 {
            segs_components(segs.drop_first(), acc + brk)
        } else {
            match split_words_spec(t) {
                Option::None => Err(CommandError::ParseError),
                Option::Some(toks) => segs_components(
                    segs.drop_first(),
                    acc + classify_segment(toks) + brk,
                ),
            }
        }
    }
}

/// Whether any component is a word rather than a line break.
pub open spec fn has_word(comps: Seq<ComponentSpec>) -> bool {
    exists|i: int| 0 <= i < comps.len() && !((#[trigger] comps[i]) is LineBreak)
}

/// What parsing a raw command line into classified components yields: an
/// error when a segment fails to split, or when no word component at all
/// results -- line breaks alone do not make a command.
pub open spec fn parse_command_spec(s: Seq<char>) -> Result<Seq<ComponentSpec>, CommandError> {
    match segs_components(split_cont(s, Seq::empty(), Seq::empty()), Seq::empty()) {
        Err(e) => Err(e),
        Ok(comps) => if !has_word(comps) {
            Err(CommandError::EmptyCommandError)
        } else {
            Ok(comps)
        },
    }
}

/// Parses a raw command line into classified components, exactly as
/// [`parse_command_spec`] describes.
pub fn parse_command(command_str: &str) -> (r: Result<Vec<CommandComponent>, CommandError>)
    ensures
        match r {
            Ok(comps) => parse_command_spec(command_str@) == Ok::<Seq<ComponentSpec>, CommandError>(
                comps.deep_view(),
            ),
            Err(e) => parse_command_spec(command_str@) == Err::<Seq<ComponentSpec>, CommandError>(
                e,
            ),
        },
{
    let v = to_chars(command_str);
    let n: usize = v.len();

    let mut segs: Vec<Vec<char>> = Vec::new();
    let mut cur: Vec<char> = Vec::new();
    let mut i: usize = 0;
    proof {
        assert(v@.skip(0) =~= v@);
        assert(segs.deep_view() =~= Seq::<Seq<char>>::empty());
    }
    while i < n
        invariant
            i <= n,
            n == v@.len(),
            split_cont(v@.skip(i as int), cur@, segs.deep_view()) == split_cont(
                v@,
                Seq::empty(),
                Seq::empty(),
            ),
        decreases n - i,
    {
        let ghost s = v@.skip(i as int);
        let ghost acc0 = segs.deep_view();
        let ghost cur0 = cur@;
        proof {
            assert(s[0] == v@[i as int]);
            if i + 1 < n {
                assert(s[1] == v@[i as int + 1]);
            }
        }
        if v[i] == '\\' && i + 1 < n && v[i + 1] == '\n' {
            segs.push(cur);
            cur = Vec::new();
            proof {
                crate::strutil::lemma_vec_chars_deep_view();
                assert(segs.deep_view() =~= acc0.push(cur0));
                assert(s.skip(2) =~= v@.skip(i as int + 2));
            }
            i = i + 2;
        } else {
            cur.push(v[i]);
            proof {
                assert(s.drop_first() =~= v@.skip(i as int + 1));
                if s.len() >= 2 {
                    assert(!(s[0] == '\\' && s[1] == '\n'));
                }
            }
            i = i + 1;
        }
    }
    proof {
        assert(v@.skip(n as int) =~= Seq::<char>::empty());
    }
    let ghost acc0 = segs.deep_view();
    let ghost cur0 = cur@;
    segs.push(cur);
    proof {
        crate::strutil::lemma_vec_chars_deep_view();
        assert(segs.deep_view() =~= acc0.push(cur0));
        assert(split_cont(Seq::<char>::empty(), cur0, acc0) == acc0.push(cur0));
    }
    let ghost all_segs = segs.deep_view();
    proof {
        assert(all_segs == split_cont(command_str@, Seq::empty(), Seq::empty()));
    }

    let mut comps: Vec<CommandComponent> = Vec::new();
    let nsegs: usize = segs.len();
    let mut k: usize = 0;
    proof {
        assert(all_segs.skip(0) =~= all_segs);
        assert(comps.deep_view() =~= Seq::<ComponentSpec>::empty());
    }
    while k < nsegs
        invariant
            k <= nsegs,
            nsegs == segs@.len(),
            all_segs == segs.deep_view(),
            all_segs == split_cont(command_str@, Seq::empty(), Seq::empty()),
            segs_components(all_segs.skip(k as int), comps.deep_view()) == segs_components(
                all_segs,
                Seq::empty(),
            ),
        decreases nsegs - k,
    {
        proof {
            crate::strutil::lemma_vec_chars_deep_view();
            assert(all_segs.skip(k as int)[0] == segs@[k as int]@);
            assert(all_segs.skip(k as int).drop_first() =~= all_segs.skip(k as int + 1));
        }
        let last = k + 1 == nsegs;
        let t = trim_chars(&segs[k]);
        if t.len() > 0 {
            match split_words(&t) {
                Option::None => {
                    proof {
                        assert(segs_components(all_segs.skip(k as int), comps.deep_view())
                            == Err::<Seq<ComponentSpec>, CommandError>(CommandError::ParseError));
                    }
                    return Err(CommandError::ParseError);
                },
                Option::Some(toks) => {
                    let ghost comps0 = comps.deep_view();
                    let ghost toksv = toks.deep_view();
                    let ntoks: usize = toks.len();
                    let mut j: usize = 0;
                    let mut in_args = false;
                    proof {
                        crate::strutil::lemma_vec_chars_deep_view();
                        assert(toksv.len() == ntoks);
                        assert(comps0 + classify_from(toksv, 0, false) =~= comps0 + classify_from(
                            toksv,
                            0,
                            false,
                        ));
                    }
                    while j < ntoks
                        invariant
                            j <= ntoks,
                            ntoks == toks@.len(),
                            toksv == toks.deep_view(),
                            toksv.len() == ntoks,
                            forall|m: int| 0 <= m < ntoks ==> toksv[m] == #[trigger] toks@[m]@,
                            comps0 + classify_segment(toksv) == comps.deep_view() + classify_from(
                                toksv,
                                j as int,
                                in_args,
                            ),
                        decreases ntoks - j, (if in_args { 0int } else { 1int }),
                    {
                        let tok = &toks[j];
                        let dash = tok.len() > 0 && tok[0] == '-';
                        let ghost pre = comps.deep_view();
                        if !in_args {
                            if !dash {
                                comps.push(CommandComponent::Base(from_chars(tok)));
                                proof {
                                    assert(comps.deep_view() =~= pre.push(
                                        ComponentSpec::Base(toksv[j as int]),
                                    ));
                                    assert(pre + (seq![ComponentSpec::Base(toksv[j as int])]
                                        + classify_from(toksv, j as int + 1, false)) =~= (pre
                                        + seq![ComponentSpec::Base(toksv[j as int])])
                                        + classify_from(toksv, j as int + 1, false));
                                }
                                j = j + 1;
                            } else {
                                in_args = true;
                            }
                        } else {
                            if dash {
                                let e = find_char_at(tok, '=');
                                if e < tok.len() {
                                    let flag = from_chars(&subvec(tok, 0, e));
                                    let value = from_chars(&subvec(tok, e + 1, tok.len()));
                                    proof {
                                        assert(toksv[j as int].take(e as int) =~= tok@.subrange(
                                            0,
                                            e as int,
                                        ));
                                        assert(toksv[j as int].skip(e as int + 1) =~= tok@.subrange(
                                            e as int + 1,
                                            tok@.len() as int,
                                        ));
                                    }
                                    comps.push(CommandComponent::Flag(flag));
                                    comps.push(CommandComponent::Value(value));
                                    proof {
                                        let f = ComponentSpec::Flag(toksv[j as int].take(e as int));
                                        let w = ComponentSpec::Value(
                                            toksv[j as int].skip(e as int + 1),
                                        );
                                        assert(comps.deep_view() =~= pre.push(f).push(w));
                                        assert(pre + (seq![f, w] + classify_from(
                                            toksv,
                                            j as int + 1,
                                            true,
                                        )) =~= pre.push(f).push(w) + classify_from(
                                            toksv,
                                            j as int + 1,
                                            true,
                                        ));
                                    }
                                    j = j + 1;
                                } else {
                                    let mut took_value = false;
                                    if j + 1 < ntoks {
                                        let nxt = &toks[j + 1];
                                        if !(nxt.len() > 0 && nxt[0] == '-') {
                                            took_value = true;
                                        }
                                    }
                                    if took_value {
                                        comps.push(CommandComponent::Flag(from_chars(tok)));
                                        comps.push(
                                            CommandComponent::Value(from_chars(&toks[j + 1])),
                                        );
                                        proof {
                                            let f = ComponentSpec::Flag(toksv[j as int]);
                                            let w = ComponentSpec::Value(toksv[j as int + 1]);
                                            assert(comps.deep_view() =~= pre.push(f).push(w));
                                            assert(pre + (seq![f, w] + classify_from(
                                                toksv,
                                                j as int + 2,
                                                true,
                                            )) =~= pre.push(f).push(w) + classify_from(
                                                toksv,
                                                j as int + 2,
                                                true,
                                            ));
                                        }
                                        j = j + 2;
                                    } else {
                                        comps.push(CommandComponent::Flag(from_chars(tok)));
                                        proof {
                                            let f = ComponentSpec::Flag(toksv[j as int]);
                                            assert(comps.deep_view() =~= pre.push(f));
                                            assert(pre + (seq![f] + classify_from(
                                                toksv,
                                                j as int + 1,
                                                true,
                                            )) =~= pre.push(f) + classify_from(
                                                toksv,
                                                j as int + 1,
                                                true,
                                            ));
                                        }
                                        j = j + 1;
                                    }
                                }
                            } else {
                                comps.push(CommandComponent::Value(from_chars(tok)));
                                proof {
                                    let w = ComponentSpec::Value(toksv[j as int]);
                                    assert(comps.deep_view() =~= pre.push(w));
                                    assert(pre + (seq![w] + classify_from(toksv, j as int + 1, true))
                                        =~= pre.push(w) + classify_from(toksv, j as int + 1, true));
                                }
                                j = j + 1;
                            }
                        }
                    }
                    proof {
                        assert(classify_from(toksv, ntoks as int, in_args) =~= Seq::<
                            ComponentSpec,
                        >::empty());
                        assert(comps.deep_view() =~= comps0 + classify_segment(toksv));
                    }
                },
            }
        }
        if !last {
            let ghost pre = comps.deep_view();
            comps.push(CommandComponent::LineBreak);
            proof {
                assert(comps.deep_view() =~= pre.push(ComponentSpec::LineBreak));
                assert(pre + seq![ComponentSpec::LineBreak] =~= comps.deep_view());
            }
        } else {
            proof {
                assert(comps.deep_view() + Seq::<ComponentSpec>::empty() =~= comps.deep_view());
            }
        }
        k = k + 1;
    }
    proof {
        assert(all_segs.skip(nsegs as int) =~= Seq::<Seq<char>>::empty());
    }
    let nc: usize = comps.len();
    let mut any_word = false;
    let mut m: usize = 0;
    while m < nc
        invariant
            m <= nc,
            nc == comps@.len(),
            comps.deep_view().len() == nc,
            any_word == exists|w: int|
                0 <= w < m && !((#[trigger] comps.deep_view()[w]) is LineBreak),
        decreases nc - m,
    {
        proof {
            assert(comps.deep_view()[m as int] == comps@[m as int]@);
        }
        let ghost dv = comps.deep_view();
        let ghost any0 = any_word;
        match &comps[m] {
            CommandComponent::LineBreak => {},
            _ => {
                any_word = true;
            },
        }
        m = m + 1;
        proof {
            assert(any_word == exists|w: int|
                0 <= w < m && !((#[trigger] dv[w]) is LineBreak)) by {
                if any_word {
                    if any0 {
                        let w = choose|w: int| 0 <= w < m - 1 && !((#[trigger] dv[w]) is LineBreak);
                        assert(0 <= w < m && !(dv[w] is LineBreak));
                    } else {
                        assert(!(dv[m - 1] is LineBreak));
                    }
                } else {
                    if exists|w: int| 0 <= w < m && !((#[trigger] dv[w]) is LineBreak) {
                        let w = choose|w: int| 0 <= w < m && !((#[trigger] dv[w]) is LineBreak);
                        if w < m - 1 {
                            assert(any0);
                        } else {
                            assert(dv[m - 1] is LineBreak);
                        }
                        assert(false);
                    }
                }
            }
        }
    }
    if !any_word {
        proof {
            assert(!has_word(comps.deep_view()));
        }
        Err(CommandError::EmptyCommandError)
    } else {
        proof {
            assert(has_word(comps.deep_view()));
        }
        Ok(comps)
    }
}

} // verus!
