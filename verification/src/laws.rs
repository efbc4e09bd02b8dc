//! Laws of the engine, stated over pattern strings and proved from the
//! parser's and matcher's specifications: what prefixing `^` or appending
//! `$` does to a pattern's matches, what a pattern wrapped in both anchors
//! means, how a pattern free of metacharacters behaves, that a lone atom
//! with `?` matches the empty input, that a match of `atom+` is a match of
//! the atom, and that parsing is deterministic.

use vstd::prelude::*;

use crate::ast::{Anchor, ParseError, Pattern};
use crate::model::{view_pattern, AtomModel, PatternModel, SubPatternModel, TokenModel};
use crate::parse_spec::{
    detect_anchor, first_idx, has_char, lemma_expand_caret, lemma_expand_dollar, lemma_first_idx,
    lemma_first_idx_append, spec_atom_at, spec_expand, spec_parse, spec_subpattern,
    spec_subpatterns, spec_tokens,
};
use crate::parser::parse_post;
use crate::semantics::{
    atom_matches, lemma_exact_implies_free, lemma_exact_reverse, lemma_free_to_exact_prefix,
    pattern_matches, sub_matches, tokens_match,
};

verus! {

/// No alternative of the pattern's expansion begins with `^`.
pub open spec fn no_alternative_starts_with_caret(p: Seq<char>) -> bool {
    spec_expand(p) matches Ok(alts) ==> forall|i: int|
        0 <= i < alts.len() ==> !((#[trigger] alts[i]).len() >= 1 && alts[i][0] == '^')
}

/// No alternative of the pattern's expansion ends with `$`.
pub open spec fn no_alternative_ends_with_dollar(p: Seq<char>) -> bool {
    spec_expand(p) matches Ok(alts) ==> forall|i: int|
        0 <= i < alts.len() ==> !((#[trigger] alts[i]).len() >= 1 && alts[i][alts[i].len() - 1]
            == '$')
}

/// One alternative with `^` prefixed: it parses exactly when the bare
/// alternative parses, with the same error, and whatever it matches the
/// bare alternative matches.
proof fn lemma_subpattern_caret(a: Seq<char>, s: Seq<char>)
    requires
        !(a.len() >= 1 && a[0] == '^'),
    ensures
        spec_subpattern(seq!['^'] + a) is Ok <==> spec_subpattern(a) is Ok,
        spec_subpattern(seq!['^'] + a) is Err ==> spec_subpattern(seq!['^'] + a)
            == spec_subpattern(a),
        spec_subpattern(seq!['^'] + a) matches Ok(m1) ==> spec_subpattern(a) matches Ok(m0) && (
        sub_matches(m1, s) ==> sub_matches(m0, s)),
{
    let q = seq!['^'] + a;
    assert(q[0] == '^');
    if a.len() == 0 {
        assert(detect_anchor(q).1 =~= a);
        assert(detect_anchor(a).1 == a);
    } else {
        assert(q[q.len() - 1] == a[a.len() - 1]);
        let ec = a[a.len() - 1] == '$';
        if !ec {
            assert(q.skip(1) =~= a);
            assert(detect_anchor(q) == (Some(Anchor::Start), a));
            assert(detect_anchor(a) == (None::<Anchor>, a));
            match spec_tokens(a) {
                Err(e) => {},
                Ok(ts) => {
                    let m1 = SubPatternModel { anchor: Some(Anchor::Start), tokens: ts };
                    let m0 = SubPatternModel { anchor: None, tokens: ts };
                    if sub_matches(m1, s) {
                        assert(s.skip(0) =~= s);
                        assert(0 <= 0 <= s.len() && tokens_match(m0.tokens, s.skip(0), false));
                        assert(sub_matches(m0, s));
                    }
                },
            }
        } else {
            let body = a.take(a.len() - 1);
            assert(q.subrange(1, q.len() - 1) =~= body);
            assert(detect_anchor(q) == (Some(Anchor::Both), body));
            assert(detect_anchor(a) == (Some(Anchor::End), body));
            match spec_tokens(body) {
                Err(e) => {},
                Ok(ts) => {
                    let m1 = SubPatternModel { anchor: Some(Anchor::Both), tokens: ts };
                    let m0 = SubPatternModel { anchor: Some(Anchor::End), tokens: ts.reverse() };
                    if sub_matches(m1, s) {
                        lemma_exact_reverse(ts, s);
                        lemma_exact_implies_free(ts.reverse(), s.reverse());
                        assert(sub_matches(m0, s));
                    }
                },
            }
        }
    }
}

/// One alternative with `$` appended: it parses exactly when the bare
/// alternative parses, with the same error, and whatever it matches the
/// bare alternative matches.
proof fn lemma_subpattern_dollar(a: Seq<char>, s: Seq<char>)
    requires
        !(a.len() >= 1 && a[a.len() - 1] == '$'),
    ensures
        spec_subpattern(a + seq!['$']) is Ok <==> spec_subpattern(a) is Ok,
        spec_subpattern(a + seq!['$']) is Err ==> spec_subpattern(a + seq!['$'])
            == spec_subpattern(a),
        spec_subpattern(a + seq!['$']) matches Ok(m1) ==> spec_subpattern(a) matches Ok(m0) && (
        sub_matches(m1, s) ==> sub_matches(m0, s)),
{
    let q = a + seq!['$'];
    assert(q[q.len() - 1] == '$');
    if a.len() == 0 {
        assert(q[0] == '$');
        assert(detect_anchor(q).1 =~= a);
        assert(detect_anchor(a).1 == a);
    } else {
        assert(q[0] == a[0]);
        let sc = a[0] == '^';
        if !sc {
            assert(q.take(q.len() - 1) =~= a);
            assert(detect_anchor(q) == (Some(Anchor::End), a));
            assert(detect_anchor(a) == (None::<Anchor>, a));
            match spec_tokens(a) {
                Err(e) => {},
                Ok(ts) => {
                    let m1 = SubPatternModel { anchor: Some(Anchor::End), tokens: ts.reverse() };
                    let m0 = SubPatternModel { anchor: None, tokens: ts };
                    if sub_matches(m1, s) {
                        // The reversed body consumes a prefix of the
                        // reversed input, so the body consumes a suffix of
                        // the input.
                        let e = lemma_free_to_exact_prefix(ts.reverse(), s.reverse());
                        let u = s.reverse().take(e);
                        assert(u.reverse() =~= s.skip(s.len() - e));
                        lemma_exact_reverse(ts, u.reverse());
                        assert(u.reverse().reverse() =~= u);
                        assert(tokens_match(ts, u.reverse(), true));
                        lemma_exact_implies_free(ts, s.skip(s.len() - e));
                        let off = s.len() - e;
                        assert(0 <= off <= s.len() && tokens_match(
                            m0.tokens,
                            s.skip(off),
                            false,
                        ));
                        assert(sub_matches(m0, s));
                    }
                },
            }
        } else {
            let body = a.skip(1);
            assert(q.subrange(1, q.len() - 1) =~= body);
            assert(detect_anchor(q) == (Some(Anchor::Both), body));
            assert(detect_anchor(a) == (Some(Anchor::Start), body));
            match spec_tokens(body) {
                Err(e) => {},
                Ok(ts) => {
                    let m1 = SubPatternModel { anchor: Some(Anchor::Both), tokens: ts };
                    let m0 = SubPatternModel { anchor: Some(Anchor::Start), tokens: ts };
                    if sub_matches(m1, s) {
                        lemma_exact_implies_free(ts, s);
                        assert(sub_matches(m0, s));
                    }
                },
            }
        }
    }
}

/// A list of alternatives, each `^`-prefixed: the parses succeed together,
/// fail with the same error, and each prefixed alternative's matches imply
/// the bare one's.
proof fn lemma_subpatterns_caret(a1: Seq<Seq<char>>, a0: Seq<Seq<char>>, s: Seq<char>)
    requires
        a1.len() == a0.len(),
        forall|i: int|
            0 <= i < a0.len() ==> #[trigger] a1[i] == seq!['^'] + a0[i] && !(a0[i].len() >= 1
                && a0[i][0] == '^'),
    ensures
        spec_subpatterns(a1) is Ok <==> spec_subpatterns(a0) is Ok,
        spec_subpatterns(a1) is Err ==> spec_subpatterns(a1) == spec_subpatterns(a0),
        spec_subpatterns(a1) matches Ok(m1) ==> spec_subpatterns(a0) matches Ok(m0) && m1.len()
            == m0.len() && (forall|i: int|
            0 <= i < m1.len() ==> (sub_matches(#[trigger] m1[i], s) ==> sub_matches(m0[i], s))),
    decreases a0.len(),
{
    if a0.len() == 0 {
        assert(a1 =~= a0);
    } else {
        lemma_subpattern_caret(a0[0], s);
        assert(a1.skip(1).len() == a0.skip(1).len());
        assert forall|i: int|
            0 <= i < a0.skip(1).len() implies #[trigger] a1.skip(1)[i] == seq!['^'] + a0.skip(1)[i]
            && !(a0.skip(1)[i].len() >= 1 && a0.skip(1)[i][0] == '^') by {
            assert(a1.skip(1)[i] == a1[i + 1]);
            assert(a0.skip(1)[i] == a0[i + 1]);
        }
        lemma_subpatterns_caret(a1.skip(1), a0.skip(1), s);
        match spec_subpattern(a1[0]) {
            Err(e) => {},
            Ok(h1) => {
                let h0 = spec_subpattern(a0[0])->Ok_0;
                match spec_subpatterns(a1.skip(1)) {
                    Err(e) => {},
                    Ok(rec1) => {
                        let rec0 = spec_subpatterns(a0.skip(1))->Ok_0;
                        let m1 = seq![h1] + rec1;
                        let m0 = seq![h0] + rec0;
                        assert forall|i: int|
                            0 <= i < m1.len() implies (sub_matches(#[trigger] m1[i], s)
                            ==> sub_matches(m0[i], s)) by {
                            if i == 0 {
                                assert(m1[0] == h1);
                                assert(m0[0] == h0);
                            } else {
                                assert(m1[i] == rec1[i - 1]);
                                assert(m0[i] == rec0[i - 1]);
                            }
                        }
                    },
                }
            },
        }
    }
}

/// A list of alternatives, each `$`-suffixed, with the same guarantees.
proof fn lemma_subpatterns_dollar(a1: Seq<Seq<char>>, a0: Seq<Seq<char>>, s: Seq<char>)
    requires
        a1.len() == a0.len(),
        forall|i: int|
            0 <= i < a0.len() ==> #[trigger] a1[i] == a0[i] + seq!['$'] && !(a0[i].len() >= 1
                && a0[i][a0[i].len() - 1] == '$'),
    ensures
        spec_subpatterns(a1) is Ok <==> spec_subpatterns(a0) is Ok,
        spec_subpatterns(a1) is Err ==> spec_subpatterns(a1) == spec_subpatterns(a0),
        spec_subpatterns(a1) matches Ok(m1) ==> spec_subpatterns(a0) matches Ok(m0) && m1.len()
            == m0.len() && (forall|i: int|
            0 <= i < m1.len() ==> (sub_matches(#[trigger] m1[i], s) ==> sub_matches(m0[i], s))),
    decreases a0.len(),
{
    if a0.len() == 0 {
        assert(a1 =~= a0);
    } else {
        lemma_subpattern_dollar(a0[0], s);
        assert(a1.skip(1).len() == a0.skip(1).len());
        assert forall|i: int|
            0 <= i < a0.skip(1).len() implies #[trigger] a1.skip(1)[i] == a0.skip(1)[i]
            + seq!['$'] && !(a0.skip(1)[i].len() >= 1 && a0.skip(1)[i][a0.skip(1)[i].len() - 1]
            == '$') by {
            assert(a1.skip(1)[i] == a1[i + 1]);
            assert(a0.skip(1)[i] == a0[i + 1]);
        }
        lemma_subpatterns_dollar(a1.skip(1), a0.skip(1), s);
        match spec_subpattern(a1[0]) {
            Err(e) => {},
            Ok(h1) => {
                let h0 = spec_subpattern(a0[0])->Ok_0;
                match spec_subpatterns(a1.skip(1)) {
                    Err(e) => {},
                    Ok(rec1) => {
                        let rec0 = spec_subpatterns(a0.skip(1))->Ok_0;
                        let m1 = seq![h1] + rec1;
                        let m0 = seq![h0] + rec0;
                        assert forall|i: int|
                            0 <= i < m1.len() implies (sub_matches(#[trigger] m1[i], s)
                            ==> sub_matches(m0[i], s)) by {
                            if i == 0 {
                                assert(m1[0] == h1);
                                assert(m0[0] == h0);
                            } else {
                                assert(m1[i] == rec1[i - 1]);
                                assert(m0[i] == rec0[i - 1]);
                            }
                        }
                    },
                }
            },
        }
    }
}

/// Prefixing `^` to a pattern only restricts it: whatever the anchored
/// pattern matches, the bare pattern matches. Holds when no alternative of
/// the bare pattern itself begins with `^` (for one that does, such as
/// `^abc`, the prefixed pattern reads that `^` as a literal and may match
/// inputs the bare pattern rejects).
pub proof fn lemma_caret_prefix(p: Seq<char>, s: Seq<char>)
    requires
        no_alternative_starts_with_caret(p),
    ensures
        spec_parse(seq!['^'] + p) is Ok <==> spec_parse(p) is Ok,
        spec_parse(seq!['^'] + p) matches Ok(m1) ==> spec_parse(p) matches Ok(m0) && (
        pattern_matches(m1, s) ==> pattern_matches(m0, s)),
{
    lemma_expand_caret(p);
    match spec_expand(p) {
        Err(e) => {},
        Ok(a0) => {
            let a1 = spec_expand(seq!['^'] + p)->Ok_0;
            lemma_subpatterns_caret(a1, a0, s);
            match spec_subpatterns(a1) {
                Err(e) => {},
                Ok(m1) => {
                    let m0 = spec_subpatterns(a0)->Ok_0;
                    let pm1 = PatternModel { subs: m1 };
                    let pm0 = PatternModel { subs: m0 };
                    if pattern_matches(pm1, s) {
                        let i = choose|i: int|
                            0 <= i < pm1.subs.len() && sub_matches(#[trigger] pm1.subs[i], s);
                        assert(sub_matches(pm0.subs[i], s));
                        assert(pattern_matches(pm0, s));
                    }
                },
            }
        },
    }
}

/// Appending `$` to a pattern only restricts it: whatever the anchored
/// pattern matches, the bare pattern matches. Holds when no alternative of
/// the bare pattern itself ends with `$` (for one that does, such as
/// `abc$`, the suffixed pattern reads that `$` as a literal).
pub proof fn lemma_dollar_suffix(p: Seq<char>, s: Seq<char>)
    requires
        no_alternative_ends_with_dollar(p),
    ensures
        spec_parse(p + seq!['$']) is Ok <==> spec_parse(p) is Ok,
        spec_parse(p + seq!['$']) matches Ok(m1) ==> spec_parse(p) matches Ok(m0) && (
        pattern_matches(m1, s) ==> pattern_matches(m0, s)),
{
    lemma_expand_dollar(p);
    match spec_expand(p) {
        Err(e) => {},
        Ok(a0) => {
            let a1 = spec_expand(p + seq!['$'])->Ok_0;
            lemma_subpatterns_dollar(a1, a0, s);
            match spec_subpatterns(a1) {
                Err(e) => {},
                Ok(m1) => {
                    let m0 = spec_subpatterns(a0)->Ok_0;
                    let pm1 = PatternModel { subs: m1 };
                    let pm0 = PatternModel { subs: m0 };
                    if pattern_matches(pm1, s) {
                        let i = choose|i: int|
                            0 <= i < pm1.subs.len() && sub_matches(#[trigger] pm1.subs[i], s);
                        assert(sub_matches(pm0.subs[i], s));
                        assert(pattern_matches(pm0, s));
                    }
                },
            }
        },
    }
}

/// Some alternative of the pattern consumes the whole input: a match that
/// uses every character.
pub open spec fn pattern_matches_whole(m: PatternModel, s: Seq<char>) -> bool {
    exists|i: int| 0 <= i < m.subs.len() && tokens_match((#[trigger] m.subs[i]).tokens, s, true)
}

/// One alternative wrapped in both anchors: it parses exactly when the bare
/// alternative parses, with the same error, and their bodies are the same
/// token list, one read exactly and the other freely.
proof fn lemma_subpattern_both(a: Seq<char>)
    requires
        !(a.len() >= 1 && a[0] == '^'),
        !(a.len() >= 1 && a[a.len() - 1] == '$'),
    ensures
        spec_subpattern(seq!['^'] + a + seq!['$']) is Ok <==> spec_subpattern(a) is Ok,
        spec_subpattern(seq!['^'] + a + seq!['$']) is Err ==> spec_subpattern(
            seq!['^'] + a + seq!['$'],
        ) == spec_subpattern(a),
        spec_subpattern(seq!['^'] + a + seq!['$']) matches Ok(m1) ==> spec_subpattern(
            a,
        ) matches Ok(m0) && m1.anchor == Some(Anchor::Both) && m0.anchor == None::<Anchor>
            && m1.tokens == m0.tokens,
{
    let q = seq!['^'] + a + seq!['$'];
    assert(q[0] == '^');
    assert(q[q.len() - 1] == '$');
    assert(q.subrange(1, q.len() - 1) =~= a);
    assert(detect_anchor(q) == (Some(Anchor::Both), a));
    if a.len() >= 1 {
        assert(detect_anchor(a) == (None::<Anchor>, a));
    } else {
        assert(detect_anchor(a).1 == a);
    }
}

/// A list of alternatives each wrapped in both anchors, with the same
/// guarantees pointwise.
proof fn lemma_subpatterns_both(a1: Seq<Seq<char>>, a0: Seq<Seq<char>>)
    requires
        a1.len() == a0.len(),
        forall|i: int|
            0 <= i < a0.len() ==> #[trigger] a1[i] == seq!['^'] + a0[i] + seq!['$'] && !(
            a0[i].len() >= 1 && a0[i][0] == '^') && !(a0[i].len() >= 1 && a0[i][a0[i].len() - 1]
                == '$'),
    ensures
        spec_subpatterns(a1) is Ok <==> spec_subpatterns(a0) is Ok,
        spec_subpatterns(a1) is Err ==> spec_subpatterns(a1) == spec_subpatterns(a0),
        spec_subpatterns(a1) matches Ok(m1) ==> spec_subpatterns(a0) matches Ok(m0) && m1.len()
            == m0.len() && (forall|i: int|
            0 <= i < m1.len() ==> (#[trigger] m1[i]).anchor == Some(Anchor::Both) && m0[i].anchor
                == None::<Anchor> && m1[i].tokens == m0[i].tokens),
    decreases a0.len(),
{
    if a0.len() == 0 {
        assert(a1 =~= a0);
    } else {
        lemma_subpattern_both(a0[0]);
        assert(a1.skip(1).len() == a0.skip(1).len());
        assert forall|i: int|
            0 <= i < a0.skip(1).len() implies #[trigger] a1.skip(1)[i] == seq!['^'] + a0.skip(1)[i]
            + seq!['$'] && !(a0.skip(1)[i].len() >= 1 && a0.skip(1)[i][0] == '^') && !(a0.skip(
            1,
        )[i].len() >= 1 && a0.skip(1)[i][a0.skip(1)[i].len() - 1] == '$') by {
            assert(a1.skip(1)[i] == a1[i + 1]);
            assert(a0.skip(1)[i] == a0[i + 1]);
        }
        lemma_subpatterns_both(a1.skip(1), a0.skip(1));
        match spec_subpattern(a1[0]) {
            Err(e) => {},
            Ok(h1) => {
                let h0 = spec_subpattern(a0[0])->Ok_0;
                match spec_subpatterns(a1.skip(1)) {
                    Err(e) => {},
                    Ok(rec1) => {
                        let rec0 = spec_subpatterns(a0.skip(1))->Ok_0;
                        let m1 = seq![h1] + rec1;
                        let m0 = seq![h0] + rec0;
                        assert forall|i: int|
                            0 <= i < m1.len() implies (#[trigger] m1[i]).anchor == Some(
                            Anchor::Both,
                        ) && m0[i].anchor == None::<Anchor> && m1[i].tokens == m0[i].tokens by {
                            if i == 0 {
                                assert(m1[0] == h1);
                                assert(m0[0] == h0);
                            } else {
                                assert(m1[i] == rec1[i - 1]);
                                assert(m0[i] == rec0[i - 1]);
                            }
                        }
                    },
                }
            },
        }
    }
}

/// Wrapping a pattern in both anchors matches exactly the inputs the bare
/// pattern matches while consuming every character; such a match is in
/// particular a match of the bare pattern. Holds when no alternative
/// carries its own anchors.
pub proof fn lemma_both_anchors(p: Seq<char>, s: Seq<char>)
    requires
        no_alternative_starts_with_caret(p),
        no_alternative_ends_with_dollar(p),
    ensures
        spec_parse(seq!['^'] + p + seq!['$']) is Ok <==> spec_parse(p) is Ok,
        spec_parse(seq!['^'] + p + seq!['$']) matches Ok(m1) ==> spec_parse(p) matches Ok(m0) && (
        pattern_matches(m1, s) <==> pattern_matches_whole(m0, s)) && (pattern_matches(m1, s)
            ==> pattern_matches(m0, s)),
{
    let pd = p + seq!['$'];
    assert(seq!['^'] + p + seq!['$'] =~= seq!['^'] + pd);
    lemma_expand_dollar(p);
    lemma_expand_caret(pd);
    match spec_expand(p) {
        Err(e) => {},
        Ok(a0) => {
            let ad = spec_expand(pd)->Ok_0;
            let a1 = spec_expand(seq!['^'] + pd)->Ok_0;
            assert forall|i: int|
                0 <= i < a0.len() implies #[trigger] a1[i] == seq!['^'] + a0[i] + seq!['$'] && !(
                a0[i].len() >= 1 && a0[i][0] == '^') && !(a0[i].len() >= 1 && a0[i][a0[i].len() - 1]
                    == '$') by {
                assert(ad[i] == a0[i] + seq!['$']);
                assert(a1[i] == seq!['^'] + ad[i]);
                assert(seq!['^'] + (a0[i] + seq!['$']) =~= seq!['^'] + a0[i] + seq!['$']);
            }
            lemma_subpatterns_both(a1, a0);
            match spec_subpatterns(a1) {
                Err(e) => {},
                Ok(m1) => {
                    let m0 = spec_subpatterns(a0)->Ok_0;
                    let pm1 = PatternModel { subs: m1 };
                    let pm0 = PatternModel { subs: m0 };
                    if pattern_matches(pm1, s) {
                        let i = choose|i: int|
                            0 <= i < pm1.subs.len() && sub_matches(#[trigger] pm1.subs[i], s);
                        assert(tokens_match(m1[i].tokens, s, true));
                        assert(tokens_match(m0[i].tokens, s, true));
                        assert(pattern_matches_whole(pm0, s));
                        lemma_exact_implies_free(m0[i].tokens, s);
                        assert(s.skip(0) =~= s);
                        assert(0 <= 0 <= s.len() && tokens_match(m0[i].tokens, s.skip(0), false));
                        assert(sub_matches(pm0.subs[i], s));
                        assert(pattern_matches(pm0, s));
                    }
                    if pattern_matches_whole(pm0, s) {
                        let i = choose|i: int|
                            0 <= i < pm0.subs.len() && tokens_match(
                                (#[trigger] pm0.subs[i]).tokens,
                                s,
                                true,
                            );
                        assert(tokens_match(m1[i].tokens, s, true));
                        assert(sub_matches(pm1.subs[i], s));
                        assert(pattern_matches(pm1, s));
                    }
                },
            }
        },
    }
}

/// A metacharacter of the pattern dialect: every other character stands
/// only for itself.
pub open spec fn is_metacharacter(c: char) -> bool {
    c == '\\' || c == '[' || c == ']' || c == '(' || c == ')' || c == '|' || c == '^' || c == '$'
        || c == '+' || c == '?' || c == '.'
}

/// A string with no metacharacter in it.
pub open spec fn plain_text(s: Seq<char>) -> bool {
    forall|i: int| 0 <= i < s.len() ==> !is_metacharacter(#[trigger] s[i])
}

/// `p` occurs in `t` as a contiguous substring.
pub open spec fn contains_seq(t: Seq<char>, p: Seq<char>) -> bool {
    exists|i: int| 0 <= i <= t.len() - p.len() && #[trigger] t.subrange(i, i + p.len()) == p
}

/// The token a plain character tokenises to.
pub open spec fn literal_token(c: char) -> TokenModel {
    TokenModel::Atom(AtomModel::Literal(c))
}

/// The body a plain string tokenises to: one literal per character.
pub open spec fn literal_tokens(p: Seq<char>) -> Seq<TokenModel> {
    p.map_values(|c: char| literal_token(c))
}

/// A plain string tokenises to its characters as literals.
proof fn lemma_tokens_plain(p: Seq<char>)
    requires
        plain_text(p),
    ensures
        spec_tokens(p) == Ok::<Seq<TokenModel>, ParseError>(literal_tokens(p)),
    decreases p.len(),
{
    if p.len() == 0 {
        assert(literal_tokens(p) =~= Seq::<TokenModel>::empty());
    } else {
        assert(!is_metacharacter(p[0]));
        assert(spec_atom_at(p) == Ok::<(AtomModel, int), ParseError>((AtomModel::Literal(p[0]), 1)));
        assert forall|i: int| 0 <= i < p.skip(1).len() implies !is_metacharacter(
            #[trigger] p.skip(1)[i],
        ) by {
            assert(p.skip(1)[i] == p[i + 1]);
        }
        lemma_tokens_plain(p.skip(1));
        if p.len() > 1 {
            assert(!is_metacharacter(p[1]));
        }
        assert(literal_tokens(p) =~= seq![TokenModel::Atom(AtomModel::Literal(p[0]))]
            + literal_tokens(p.skip(1)));
    }
}

/// A body of plain literals matches the input exactly when it is a prefix
/// of the input.
proof fn lemma_literal_tokens_match(p: Seq<char>, s: Seq<char>)
    requires
        plain_text(p),
    ensures
        tokens_match(literal_tokens(p), s, false) <==> (p.len() <= s.len() && s.take(p.len() as int)
            == p),
    decreases p.len(),
{
    let lt = literal_tokens(p);
    if p.len() == 0 {
        assert(s.take(0) =~= p);
    } else {
        assert(lt[0] == TokenModel::Atom(AtomModel::Literal(p[0])));
        assert(lt.skip(1) =~= literal_tokens(p.skip(1)));
        assert forall|i: int| 0 <= i < p.skip(1).len() implies !is_metacharacter(
            #[trigger] p.skip(1)[i],
        ) by {
            assert(p.skip(1)[i] == p[i + 1]);
        }
        lemma_literal_tokens_match(p.skip(1), s.skip(1));
        assert(!is_metacharacter(p[0]));
        if tokens_match(lt, s, false) {
            assert(atom_matches(AtomModel::Literal(p[0]), s[0]));
            assert(s[0] == p[0]);
            assert(s.skip(1).take(p.len() - 1) == p.skip(1));
            assert forall|j: int| 0 <= j < p.len() implies s.take(p.len() as int)[j] == p[j] by {
                if j > 0 {
                    assert(s.skip(1).take(p.len() - 1)[j - 1] == p.skip(1)[j - 1]);
                    assert(s.skip(1)[j - 1] == s[j]);
                }
            }
            assert(s.take(p.len() as int) =~= p);
        }
        if p.len() <= s.len() && s.take(p.len() as int) == p {
            assert(s[0] == s.take(p.len() as int)[0]);
            assert(s.skip(1).take(p.len() - 1) =~= p.skip(1));
            assert(atom_matches(AtomModel::Literal(p[0]), s[0]));
            assert(tokens_match(lt, s, false));
        }
    }
}

/// A non-empty string free of metacharacters is a pattern that parses, it
/// matches exactly the inputs that contain it as a substring, and it
/// matches itself.
proof fn lemma_plain_parse(p: Seq<char>)
    requires
        plain_text(p),
        p.len() >= 1,
    ensures
        spec_parse(p) == Ok::<PatternModel, ParseError>(
            PatternModel {
                subs: seq![SubPatternModel { anchor: None, tokens: literal_tokens(p) }],
            },
        ),
{
    assert(!has_char(p, '(')) by {
        if has_char(p, '(') {
            let w = choose|i: int| 0 <= i < p.len() && p[i] == '(';
            assert(is_metacharacter(p[w]));
        }
    }
    lemma_first_idx(p, '(');
    assert(spec_expand(p) == Ok::<Seq<Seq<char>>, ParseError>(seq![p]));
    assert(!is_metacharacter(p[0]));
    assert(!is_metacharacter(p[p.len() - 1]));
    assert(detect_anchor(p) == (None::<Anchor>, p));
    lemma_tokens_plain(p);
    let sub = SubPatternModel { anchor: None, tokens: literal_tokens(p) };
    assert(spec_subpattern(p) == Ok::<SubPatternModel, ParseError>(sub));
    assert(seq![p].skip(1) =~= Seq::<Seq<char>>::empty());
    assert(spec_subpatterns(seq![p].skip(1)) == Ok::<Seq<SubPatternModel>, ParseError>(
        Seq::<SubPatternModel>::empty(),
    ));
    assert(seq![sub] + Seq::<SubPatternModel>::empty() =~= seq![sub]);
    assert(spec_subpatterns(seq![p]) == Ok::<Seq<SubPatternModel>, ParseError>(seq![sub]));
}

/// A non-empty string free of metacharacters is a pattern that parses, it
/// matches exactly the inputs that contain it as a substring, and it
/// matches itself.
pub proof fn lemma_plain_pattern(p: Seq<char>, t: Seq<char>)
    requires
        plain_text(p),
        p.len() >= 1,
    ensures
        spec_parse(p) is Ok,
        pattern_matches(spec_parse(p)->Ok_0, t) <==> contains_seq(t, p),
        pattern_matches(spec_parse(p)->Ok_0, p),
{
    lemma_plain_parse(p);
    let sub = SubPatternModel { anchor: None, tokens: literal_tokens(p) };
    let m = PatternModel { subs: seq![sub] };
    assert(m.subs[0] == sub);
    if pattern_matches(m, t) {
        let i = choose|i: int| 0 <= i < m.subs.len() && sub_matches(#[trigger] m.subs[i], t);
        assert(m.subs[i] == sub);
        let off = choose|off: int|
            0 <= off <= t.len() && tokens_match(sub.tokens, #[trigger] t.skip(off), false);
        lemma_literal_tokens_match(p, t.skip(off));
        assert(t.subrange(off, off + p.len()) =~= t.skip(off).take(p.len() as int));
        assert(0 <= off <= t.len() - p.len() && t.subrange(off, off + p.len()) == p);
        assert(contains_seq(t, p));
    }
    if contains_seq(t, p) {
        let off = choose|i: int|
            0 <= i <= t.len() - p.len() && #[trigger] t.subrange(i, i + p.len()) == p;
        lemma_literal_tokens_match(p, t.skip(off));
        assert(t.skip(off).take(p.len() as int) =~= t.subrange(off, off + p.len()));
        assert(0 <= off <= t.len() && tokens_match(sub.tokens, t.skip(off), false));
        assert(sub_matches(sub, t));
        assert(0 <= 0 < m.subs.len() && sub_matches(m.subs[0], t));
        assert(pattern_matches(m, t));
    }
    assert(p.subrange(0, 0 + p.len() as int) =~= p);
    assert(contains_seq(p, p));
    lemma_literal_tokens_match(p, p.skip(0));
    assert(p.skip(0) =~= p);
    assert(p.take(p.len() as int) =~= p);
    assert(0 <= 0 <= p.len() && tokens_match(sub.tokens, p.skip(0), false));
    assert(sub_matches(sub, p));
    assert(0 <= 0 < m.subs.len() && sub_matches(m.subs[0], p));
    assert(pattern_matches(m, p));
}

/// Parsing is a function of the pattern alone: two parses of the same
/// pattern fail with the same error or yield trees with the same model.
pub proof fn lemma_compile_deterministic(
    s: Seq<char>,
    r1: Result<Pattern, ParseError>,
    r2: Result<Pattern, ParseError>,
)
    requires
        parse_post(s, r1),
        parse_post(s, r2),
    ensures
        r1 is Ok <==> r2 is Ok,
        r1 is Err ==> r1 == r2,
        r1 matches Ok(p1) ==> r2 matches Ok(p2) && view_pattern(p1) == view_pattern(p2),
{
}

/// Text that spells one atom of the grammar: a literal character (any
/// non-metacharacter), the wildcard `.`, one of the three escapes, or a
/// bracket expression over literal characters.
pub open spec fn wf_atom_text(a: Seq<char>) -> bool {
    ||| (a.len() == 1 && (!is_metacharacter(a[0]) || a[0] == '.'))
    ||| a == seq!['\\', 'd']
    ||| a == seq!['\\', 'w']
    ||| a == seq!['\\', '\\']
    ||| wf_bracket_text(a)
}

/// Text that spells a bracket expression: `[`, an optional `^`, one or more
/// literal characters, and `]`.
pub open spec fn wf_bracket_text(a: Seq<char>) -> bool {
    let start: int = if a.len() >= 2 && a[1] == '^' {
        2
    } else {
        1
    };
    &&& a.len() >= start + 2
    &&& a[0] == '['
    &&& a[a.len() - 1] == ']'
    &&& forall|i: int| start <= i < a.len() - 1 ==> !is_metacharacter(#[trigger] a[i])
}

/// Text that spells an atom with an optional trailing quantifier.
pub open spec fn wf_quantified_text(q: Seq<char>) -> bool {
    ||| wf_atom_text(q)
    ||| (q.len() >= 2 && (q[q.len() - 1] == '+' || q[q.len() - 1] == '?') && wf_atom_text(
        q.take(q.len() - 1),
    ))
}

/// Text that spells a sequence of quantified atoms.
pub open spec fn wf_body_text(b: Seq<char>) -> bool
    decreases b.len(),
{
    b.len() == 0 || exists|k: int|
        1 <= k <= b.len() && wf_quantified_text(#[trigger] b.take(k)) && wf_body_text(b.skip(k))
}

/// Text that spells one alternative: optional anchors around a non-empty
/// body of quantified atoms.
pub open spec fn wf_alternative_text(v: Seq<char>) -> bool {
    detect_anchor(v).1.len() >= 1 && wf_body_text(detect_anchor(v).1)
}

/// A well-formed pattern: its alternation expands (every group is closed)
/// and every resulting alternative is grammatical.
pub open spec fn wf_pattern_text(p: Seq<char>) -> bool {
    spec_expand(p) matches Ok(alts) && forall|i: int|
        0 <= i < alts.len() ==> wf_alternative_text(#[trigger] alts[i])
}

/// A string that is exactly one atom of the dialect: an escape, a bracket
/// expression, or a single literal character.
pub open spec fn is_atom_str(a: Seq<char>) -> bool {
    &&& a.len() >= 1
    &&& spec_atom_at(a) matches Ok(p) && p.1 == a.len()
}

/// Reading an atom is not changed by what follows it.
proof fn lemma_atom_extend(a: Seq<char>, w: Seq<char>)
    requires
        is_atom_str(a),
    ensures
        spec_atom_at(a + w) matches Ok(p2) && p2.0 == spec_atom_at(a)->Ok_0.0 && p2.1 == a.len(),
{
    let q = a + w;
    assert(q[0] == a[0]);
    if a[0] == '\\' {
        assert(a.len() == 2);
        assert(q[1] == a[1]);
    } else if a[0] == '[' {
        let inverted_a = a.len() >= 2 && a[1] == '^';
        if q.len() >= 2 && a.len() >= 2 {
            assert(q[1] == a[1]);
        }
        let start: int = if inverted_a {
            2
        } else {
            1
        };
        assert(a.len() >= 2);
        assert(q.len() >= 2);
        assert((q.len() >= 2 && q[1] == '^') == inverted_a);
        assert(q.skip(start) =~= a.skip(start) + w);
        lemma_first_idx_append(a.skip(start), w, ']');
        lemma_first_idx(a.skip(start), ']');
        let d = first_idx(a.skip(start), ']');
        assert(d < a.skip(start).len());
        assert(has_char(a.skip(start), ']')) by {
            assert(a.skip(start)[d as int] == ']');
        }
        assert(first_idx(q.skip(start), ']') == d);
        assert(q.subrange(start, start + d) =~= a.subrange(start, start + d));
    } else {
        assert(a.len() == 1);
    }
}

/// An atom string that neither opens a group nor begins an anchor: the
/// conditions under which it stands as a whole pattern's single atom.
pub open spec fn atom_stands_alone(a: Seq<char>) -> bool {
    &&& is_atom_str(a)
    &&& a[0] != '^'
    &&& !has_char(a, '(')
}

/// The parse of a lone atom followed by a quantifier, and of the lone atom
/// itself: one alternative, no anchor, one token.
proof fn lemma_atom_pattern(a: Seq<char>, q: char)
    requires
        atom_stands_alone(a),
        q == '+' || q == '?',
    ensures
        spec_parse(a + seq![q]) matches Ok(m) && m.subs.len() == 1 && m.subs[0].anchor
            == None::<Anchor> && m.subs[0].tokens == seq![
            if q == '+' {
                TokenModel::OneOrMore(spec_atom_at(a)->Ok_0.0)
            } else {
                TokenModel::ZeroOrOne(spec_atom_at(a)->Ok_0.0)
            },
        ],
{
    let w = a + seq![q];
    lemma_first_idx_append(a, seq![q], '(');
    assert(!has_char(seq![q], '(')) by {
        if has_char(seq![q], '(') {
            let i = choose|i: int| 0 <= i < 1 && seq![q][i] == '(';
            assert(seq![q][i] == q);
        }
    }
    lemma_first_idx(w, '(');
    assert(spec_expand(w) == Ok::<Seq<Seq<char>>, ParseError>(seq![w]));
    assert(w[0] == a[0]);
    assert(w[w.len() - 1] == q);
    assert(detect_anchor(w) == (None::<Anchor>, w));
    lemma_atom_extend(a, seq![q]);
    let atom = spec_atom_at(a)->Ok_0.0;
    assert(w[a.len() as int] == q);
    assert(w.skip(a.len() as int + 1) =~= Seq::<char>::empty());
    let tok = if q == '+' {
        TokenModel::OneOrMore(atom)
    } else {
        TokenModel::ZeroOrOne(atom)
    };
    assert(spec_tokens(Seq::<char>::empty()) == Ok::<Seq<TokenModel>, ParseError>(Seq::<
        TokenModel,
    >::empty()));
    assert(spec_tokens(w.skip(a.len() as int + 1)) == Ok::<Seq<TokenModel>, ParseError>(Seq::<
        TokenModel,
    >::empty()));
    assert(spec_tokens(w) == Ok::<Seq<TokenModel>, ParseError>(seq![tok] + Seq::<
        TokenModel,
    >::empty()));
    assert(seq![tok] + Seq::<TokenModel>::empty() =~= seq![tok]);
    let sub = SubPatternModel { anchor: None, tokens: seq![tok] };
    assert(spec_subpattern(w) == Ok::<SubPatternModel, ParseError>(sub));
    assert(seq![w].skip(1) =~= Seq::<Seq<char>>::empty());
    assert(spec_subpatterns(Seq::<Seq<char>>::empty()) == Ok::<Seq<SubPatternModel>, ParseError>(
        Seq::<SubPatternModel>::empty(),
    ));
    assert(seq![sub] + Seq::<SubPatternModel>::empty() =~= seq![sub]);
    assert(spec_subpatterns(seq![w]) == Ok::<Seq<SubPatternModel>, ParseError>(seq![sub]));
}

/// A lone atom followed by `?` matches the empty input.
pub proof fn lemma_optional_atom_matches_empty(a: Seq<char>)
    requires
        atom_stands_alone(a),
    ensures
        spec_parse(a + seq!['?']) is Ok,
        pattern_matches(spec_parse(a + seq!['?'])->Ok_0, Seq::<char>::empty()),
{
    lemma_atom_pattern(a, '?');
    let m = spec_parse(a + seq!['?'])->Ok_0;
    let sub = m.subs[0];
    let e = Seq::<char>::empty();
    assert(seq![sub.tokens[0]].skip(1) =~= Seq::<TokenModel>::empty());
    assert(sub.tokens.skip(1) =~= Seq::<TokenModel>::empty());
    assert(tokens_match(sub.tokens.skip(1), e, false));
    assert(tokens_match(sub.tokens, e, false));
    assert(e.skip(0) =~= e);
    assert(0 <= 0 <= e.len() && tokens_match(sub.tokens, e.skip(0), false));
    assert(sub_matches(sub, e));
    assert(pattern_matches(m, e));
}

/// A match of a lone atom followed by `+` is a match of the atom alone.
pub proof fn lemma_plus_atom_implies_atom(a: Seq<char>, s: Seq<char>)
    requires
        atom_stands_alone(a),
        a[a.len() - 1] != '$',
    ensures
        spec_parse(a + seq!['+']) is Ok,
        spec_parse(a) is Ok,
        pattern_matches(spec_parse(a + seq!['+'])->Ok_0, s) ==> pattern_matches(
            spec_parse(a)->Ok_0,
            s,
        ),
{
    lemma_atom_pattern(a, '+');
    // The lone atom parses to one alternative with one token.
    lemma_first_idx(a, '(');
    assert(spec_expand(a) == Ok::<Seq<Seq<char>>, ParseError>(seq![a]));
    assert(detect_anchor(a) == (None::<Anchor>, a));
    let atom = spec_atom_at(a)->Ok_0.0;
    assert(a.skip(a.len() as int) =~= Seq::<char>::empty());
    assert(spec_tokens(Seq::<char>::empty()) == Ok::<Seq<TokenModel>, ParseError>(Seq::<
        TokenModel,
    >::empty()));
    assert(spec_tokens(a.skip(a.len() as int)) == Ok::<Seq<TokenModel>, ParseError>(Seq::<
        TokenModel,
    >::empty()));
    assert(spec_tokens(a) == Ok::<Seq<TokenModel>, ParseError>(seq![TokenModel::Atom(atom)]
        + Seq::<TokenModel>::empty()));
    assert(seq![TokenModel::Atom(atom)] + Seq::<TokenModel>::empty() =~= seq![
        TokenModel::Atom(atom),
    ]);
    let sub0 = SubPatternModel { anchor: None, tokens: seq![TokenModel::Atom(atom)] };
    assert(spec_subpattern(a) == Ok::<SubPatternModel, ParseError>(sub0));
    assert(seq![a].skip(1) =~= Seq::<Seq<char>>::empty());
    assert(spec_subpatterns(Seq::<Seq<char>>::empty()) == Ok::<Seq<SubPatternModel>, ParseError>(
        Seq::<SubPatternModel>::empty(),
    ));
    assert(seq![sub0] + Seq::<SubPatternModel>::empty() =~= seq![sub0]);
    assert(spec_subpatterns(seq![a]) == Ok::<Seq<SubPatternModel>, ParseError>(seq![sub0]));
    let m1 = spec_parse(a + seq!['+'])->Ok_0;
    let m0 = spec_parse(a)->Ok_0;
    if pattern_matches(m1, s) {
        let i = choose|i: int| 0 <= i < m1.subs.len() && sub_matches(#[trigger] m1.subs[i], s);
        let sub1 = m1.subs[0];
        let off = choose|off: int|
            0 <= off <= s.len() && tokens_match(sub1.tokens, #[trigger] s.skip(off), false);
        let u = s.skip(off);
        assert(sub1.tokens[0] == TokenModel::OneOrMore(atom));
        let n = choose|n: int|
            1 <= n <= u.len() && (forall|j: int|
                0 <= j < n ==> atom_matches(atom, #[trigger] u[j])) && tokens_match(
                sub1.tokens.skip(1),
                #[trigger] u.skip(n),
                false,
            );
        assert(atom_matches(atom, u[0]));
        assert(sub0.tokens[0] == TokenModel::Atom(atom));
        assert(sub0.tokens.skip(1) =~= Seq::<TokenModel>::empty());
        assert(tokens_match(sub0.tokens.skip(1), u.skip(1), false));
        assert(tokens_match(sub0.tokens, u, false));
        assert(0 <= off <= s.len() && tokens_match(sub0.tokens, s.skip(off), false));
        assert(sub_matches(sub0, s));
        assert(spec_parse(a) == Ok::<PatternModel, ParseError>(PatternModel { subs: seq![sub0] }));
        assert(m0.subs[0] == sub0);
        assert(0 <= 0 < m0.subs.len() && sub_matches(m0.subs[0], s));
        assert(pattern_matches(m0, s));
    }
}

/// Text that spells an atom is read as one atom, whole.
proof fn lemma_wf_atom_reads(a: Seq<char>)
    requires
        wf_atom_text(a),
    ensures
        is_atom_str(a),
{
    if a.len() == 1 && (!is_metacharacter(a[0]) || a[0] == '.') {
        assert(a[0] != '\\' && a[0] != '[');
    } else if a == seq!['\\', 'd'] || a == seq!['\\', 'w'] || a == seq!['\\', '\\'] {
    } else {
        let start: int = if a.len() >= 2 && a[1] == '^' {
            2
        } else {
            1
        };
        let interior = a.skip(start);
        lemma_first_idx(interior, ']');
        let last = a.len() - 1 - start;
        assert(interior[last] == a[a.len() - 1]);
        assert(has_char(interior, ']'));
        assert forall|k: int| 0 <= k < last implies interior[k] != ']' by {
            assert(interior[k] == a[start + k]);
            assert(!is_metacharacter(a[start + k]));
        }
        let d = first_idx(interior, ']') as int;
        assert(interior[d] == ']');
        assert(d == last);
    }
}

/// A grammatical body never begins with a quantifier character.
proof fn lemma_wf_body_first_char(b: Seq<char>)
    requires
        wf_body_text(b),
        b.len() >= 1,
    ensures
        b[0] != '+' && b[0] != '?',
{
    let k = choose|k: int|
        1 <= k <= b.len() && wf_quantified_text(#[trigger] b.take(k)) && wf_body_text(b.skip(k));
    let q = b.take(k);
    assert(q[0] == b[0]);
    let a = if wf_atom_text(q) {
        q
    } else {
        q.take(q.len() - 1)
    };
    assert(a[0] == b[0]);
    assert(wf_atom_text(a));
    if a.len() == 1 && (!is_metacharacter(a[0]) || a[0] == '.') {
    } else if a == seq!['\\', 'd'] || a == seq!['\\', 'w'] || a == seq!['\\', '\\'] {
    } else {
        assert(a[0] == '[');
    }
}

/// Text that spells a sequence of quantified atoms tokenises.
proof fn lemma_wf_body_tokenises(b: Seq<char>)
    requires
        wf_body_text(b),
    ensures
        spec_tokens(b) is Ok,
    decreases b.len(),
{
    if b.len() == 0 {
    } else {
        let k = choose|k: int|
            1 <= k <= b.len() && wf_quantified_text(#[trigger] b.take(k)) && wf_body_text(
                b.skip(k),
            );
        let q = b.take(k);
        let rest = b.skip(k);
        lemma_wf_body_tokenises(rest);
        if wf_atom_text(q) {
            lemma_wf_atom_reads(q);
            assert(b =~= q + b.skip(k));
            lemma_atom_extend(q, b.skip(k));
            assert(spec_atom_at(b) matches Ok(p) && p.1 == k);
            if k < b.len() {
                assert(b[k as int] == rest[0]);
                lemma_wf_body_first_char(rest);
            }
            assert(spec_tokens(b) is Ok);
        } else {
            let a = q.take(q.len() - 1);
            lemma_wf_atom_reads(a);
            assert(a =~= b.take(k - 1));
            assert(b =~= a + b.skip(k - 1));
            lemma_atom_extend(a, b.skip(k - 1));
            assert(spec_atom_at(b) matches Ok(p) && p.1 == k - 1);
            assert(b[k - 1] == q[q.len() - 1]);
            assert(b.skip(k - 1 + 1) == rest);
            assert(spec_tokens(b) is Ok);
        }
    }
}

/// A grammatical alternative parses.
proof fn lemma_wf_alternative_parses(v: Seq<char>)
    requires
        wf_alternative_text(v),
    ensures
        spec_subpattern(v) is Ok,
{
    lemma_wf_body_tokenises(detect_anchor(v).1);
}

/// A list of grammatical alternatives parses.
proof fn lemma_wf_alternatives_parse(alts: Seq<Seq<char>>)
    requires
        forall|i: int| 0 <= i < alts.len() ==> wf_alternative_text(#[trigger] alts[i]),
    ensures
        spec_subpatterns(alts) is Ok,
    decreases alts.len(),
{
    if alts.len() == 0 {
    } else {
        lemma_wf_alternative_parses(alts[0]);
        assert forall|i: int| 0 <= i < alts.skip(1).len() implies wf_alternative_text(
            #[trigger] alts.skip(1)[i],
        ) by {
            assert(alts.skip(1)[i] == alts[i + 1]);
        }
        lemma_wf_alternatives_parse(alts.skip(1));
    }
}

/// Every well-formed pattern compiles: a pattern whose groups are closed
/// and whose alternatives follow the grammar parses without error.
pub proof fn lemma_wf_pattern_compiles(p: Seq<char>)
    requires
        wf_pattern_text(p),
    ensures
        spec_parse(p) is Ok,
{
    let alts = spec_expand(p)->Ok_0;
    lemma_wf_alternatives_parse(alts);
}

} // verus!
