//! What it means for a pattern to match an input, stated declaratively over
//! the model: a quantified token may consume any number of characters that
//! lets the rest of the body succeed, alternatives are disjunctions, and an
//! unanchored body may start at any offset.

use vstd::prelude::*;

use crate::ast::{Anchor, CharClass};
use crate::model::{AtomModel, PatternModel, SubPatternModel, TokenModel};

verus! {

/// ASCII `0` to `9`.
pub open spec fn is_digit_char(c: char) -> bool {
    48 <= c as u32 <= 57
}

/// ASCII letters and `_`.
pub open spec fn is_word_char(c: char) -> bool {
    (97 <= c as u32 <= 122) || (65 <= c as u32 <= 90) || c == '_'
}

/// Whether a one-character token accepts the character `c`.
pub open spec fn atom_matches(a: AtomModel, c: char) -> bool {
    match a {
        AtomModel::Literal(l) => l == c || l == '.',
        AtomModel::Class(CharClass::Digit) => is_digit_char(c),
        AtomModel::Class(CharClass::Identifier) => is_word_char(c),
        AtomModel::OneOf(cs) => cs.contains(c),
        AtomModel::NoneOf(cs) => !cs.contains(c),
    }
}

/// Whether the body `ts` matches the input `s` from its start: a prefix of
/// `s` if `exact` is false, all of `s` if `exact` is true. A `+` token may
/// consume any positive run of accepted characters and a `?` token one or
/// none, each such that the rest of the body succeeds on what is left.
pub open spec fn tokens_match(ts: Seq<TokenModel>, s: Seq<char>, exact: bool) -> bool
    decreases ts.len(),
{
    if ts.len() == 0 {
        !exact || s.len() == 0
    } else {
        match ts[0] {
            TokenModel::Atom(a) => s.len() > 0 && atom_matches(a, s[0]) && tokens_match(
                ts.skip(1),
                s.skip(1),
                exact,
            ),
            TokenModel::OneOrMore(a) => exists|n: int|
                1 <= n <= s.len() && (forall|j: int| 0 <= j < n ==> atom_matches(a, #[trigger] s[j]))
                    && tokens_match(ts.skip(1), #[trigger] s.skip(n), exact),
            TokenModel::ZeroOrOne(a) => tokens_match(ts.skip(1), s, exact) || (s.len() > 0
                && atom_matches(a, s[0]) && tokens_match(ts.skip(1), s.skip(1), exact)),
        }
    }
}

/// Whether one alternative matches the input: at its start, at its end (the
/// body of an end-anchored alternative is stored reversed and read against
/// the reversed input), exactly, or anywhere.
pub open spec fn sub_matches(sub: SubPatternModel, s: Seq<char>) -> bool {
    match sub.anchor {
        Some(Anchor::Start) => tokens_match(sub.tokens, s, false),
        Some(Anchor::End) => tokens_match(sub.tokens, s.reverse(), false),
        Some(Anchor::Both) => tokens_match(sub.tokens, s, true),
        None => exists|off: int| 0 <= off <= s.len() && tokens_match(sub.tokens, #[trigger] s.skip(off), false),
    }
}

/// Whether some alternative of the pattern matches the input.
pub open spec fn pattern_matches(p: PatternModel, s: Seq<char>) -> bool {
    exists|i: int| 0 <= i < p.subs.len() && sub_matches(#[trigger] p.subs[i], s)
}

/// The length of the longest prefix of `s` whose characters all match `a`:
/// the number of characters a greedy `+` can consume.
pub open spec fn run_len(a: AtomModel, s: Seq<char>) -> nat
    decreases s.len(),
{
    if s.len() > 0 && atom_matches(a, s[0]) {
        1 + run_len(a, s.skip(1))
    } else {
        0
    }
}

/// The run is a prefix of accepted characters, and it is maximal.
pub proof fn lemma_run_len_chars(a: AtomModel, s: Seq<char>)
    ensures
        run_len(a, s) <= s.len(),
        forall|j: int| 0 <= j < run_len(a, s) ==> atom_matches(a, #[trigger] s[j]),
        run_len(a, s) < s.len() ==> !atom_matches(a, s[run_len(a, s) as int]),
    decreases s.len(),
{
    if s.len() > 0 && atom_matches(a, s[0]) {
        lemma_run_len_chars(a, s.skip(1));
        assert forall|j: int| 0 <= j < run_len(a, s) implies atom_matches(a, #[trigger] s[j]) by {
            if j > 0 {
                assert(atom_matches(a, s.skip(1)[j - 1]));
            }
        }
        if run_len(a, s) < s.len() {
            assert(s.skip(1)[run_len(a, s.skip(1)) as int] == s[run_len(a, s) as int]);
        }
    }
}

/// A body that consumes the whole input also matches it as a prefix.
pub proof fn lemma_exact_implies_free(ts: Seq<TokenModel>, s: Seq<char>)
    requires
        tokens_match(ts, s, true),
    ensures
        tokens_match(ts, s, false),
    decreases ts.len(),
{
    if ts.len() == 0 {
    } else {
        match ts[0] {
            TokenModel::Atom(a) => {
                lemma_exact_implies_free(ts.skip(1), s.skip(1));
            },
            TokenModel::OneOrMore(a) => {
                let n = choose|n: int|
                    1 <= n <= s.len() && (forall|j: int| 0 <= j < n ==> atom_matches(
                        a,
                        #[trigger] s[j],
                    )) && tokens_match(ts.skip(1), #[trigger] s.skip(n), true);
                lemma_exact_implies_free(ts.skip(1), s.skip(n));
                assert(1 <= n <= s.len() && (forall|j: int| 0 <= j < n ==> atom_matches(
                    a,
                    #[trigger] s[j],
                )) && tokens_match(ts.skip(1), #[trigger] s.skip(n), false));
            },
            TokenModel::ZeroOrOne(a) => {
                if tokens_match(ts.skip(1), s, true) {
                    lemma_exact_implies_free(ts.skip(1), s);
                } else {
                    lemma_exact_implies_free(ts.skip(1), s.skip(1));
                }
            },
        }
    }
}

/// A body that matches a prefix of `s` consumes the whole of some prefix:
/// the returned `e` is that prefix's length.
pub proof fn lemma_free_to_exact_prefix(ts: Seq<TokenModel>, s: Seq<char>) -> (e: int)
    requires
        tokens_match(ts, s, false),
    ensures
        0 <= e <= s.len(),
        tokens_match(ts, s.take(e), true),
    decreases ts.len(),
{
    if ts.len() == 0 {
        assert(s.take(0).len() == 0);
        0
    } else {
        match ts[0] {
            TokenModel::Atom(a) => {
                let e1 = lemma_free_to_exact_prefix(ts.skip(1), s.skip(1));
                let e = e1 + 1;
                assert(s.take(e)[0] == s[0]);
                assert(s.take(e).skip(1) =~= s.skip(1).take(e1));
                assert(tokens_match(ts, s.take(e), true));
                e
            },
            TokenModel::OneOrMore(a) => {
                let n = choose|n: int|
                    1 <= n <= s.len() && (forall|j: int| 0 <= j < n ==> atom_matches(
                        a,
                        #[trigger] s[j],
                    )) && tokens_match(ts.skip(1), #[trigger] s.skip(n), false);
                let e1 = lemma_free_to_exact_prefix(ts.skip(1), s.skip(n));
                let e = n + e1;
                let u = s.take(e);
                assert(u.skip(n) =~= s.skip(n).take(e1));
                assert forall|j: int| 0 <= j < n implies atom_matches(a, #[trigger] u[j]) by {
                    assert(u[j] == s[j]);
                }
                assert(1 <= n <= u.len() && (forall|j: int| 0 <= j < n ==> atom_matches(
                    a,
                    #[trigger] u[j],
                )) && tokens_match(ts.skip(1), #[trigger] u.skip(n), true));
                assert(tokens_match(ts, u, true));
                e
            },
            TokenModel::ZeroOrOne(a) => {
                if tokens_match(ts.skip(1), s, false) {
                    let e = lemma_free_to_exact_prefix(ts.skip(1), s);
                    assert(tokens_match(ts.skip(1), s.take(e), true));
                    assert(tokens_match(ts, s.take(e), true));
                    e
                } else {
                    let e1 = lemma_free_to_exact_prefix(ts.skip(1), s.skip(1));
                    let e = e1 + 1;
                    assert(s.take(e)[0] == s[0]);
                    assert(s.take(e).skip(1) =~= s.skip(1).take(e1));
                    assert(tokens_match(ts, s.take(e), true));
                    e
                }
            },
        }
    }
}

/// A body that consumes all of `u` matches a prefix of `u` extended by
/// anything.
pub proof fn lemma_exact_extends_free(ts: Seq<TokenModel>, u: Seq<char>, w: Seq<char>)
    requires
        tokens_match(ts, u, true),
    ensures
        tokens_match(ts, u + w, false),
    decreases ts.len(),
{
    if ts.len() == 0 {
    } else {
        match ts[0] {
            TokenModel::Atom(a) => {
                assert((u + w)[0] == u[0]);
                assert((u + w).skip(1) =~= u.skip(1) + w);
                lemma_exact_extends_free(ts.skip(1), u.skip(1), w);
            },
            TokenModel::OneOrMore(a) => {
                let n = choose|n: int|
                    1 <= n <= u.len() && (forall|j: int| 0 <= j < n ==> atom_matches(
                        a,
                        #[trigger] u[j],
                    )) && tokens_match(ts.skip(1), #[trigger] u.skip(n), true);
                assert((u + w).skip(n) =~= u.skip(n) + w);
                lemma_exact_extends_free(ts.skip(1), u.skip(n), w);
                assert forall|j: int| 0 <= j < n implies atom_matches(a, #[trigger] (u + w)[j]) by {
                    assert((u + w)[j] == u[j]);
                }
                assert(1 <= n <= (u + w).len() && (forall|j: int| 0 <= j < n ==> atom_matches(
                    a,
                    #[trigger] (u + w)[j],
                )) && tokens_match(ts.skip(1), #[trigger] (u + w).skip(n), false));
            },
            TokenModel::ZeroOrOne(a) => {
                if tokens_match(ts.skip(1), u, true) {
                    lemma_exact_extends_free(ts.skip(1), u, w);
                } else {
                    assert((u + w)[0] == u[0]);
                    assert((u + w).skip(1) =~= u.skip(1) + w);
                    lemma_exact_extends_free(ts.skip(1), u.skip(1), w);
                }
            },
        }
    }
}

/// Two bodies in sequence consume the whole input exactly when it splits at
/// some point `m`, the first consuming everything before it and the second
/// everything after.
pub proof fn lemma_append_exact_intro(
    ts1: Seq<TokenModel>,
    ts2: Seq<TokenModel>,
    s: Seq<char>,
    m: int,
)
    requires
        0 <= m <= s.len(),
        tokens_match(ts1, s.take(m), true),
        tokens_match(ts2, s.skip(m), true),
    ensures
        tokens_match(ts1 + ts2, s, true),
    decreases ts1.len(),
{
    let u = s.take(m);
    if ts1.len() == 0 {
        assert(m == 0);
        assert(ts1 + ts2 =~= ts2);
        assert(s.skip(0) =~= s);
    } else {
        assert((ts1 + ts2)[0] == ts1[0]);
        assert((ts1 + ts2).skip(1) =~= ts1.skip(1) + ts2);
        match ts1[0] {
            TokenModel::Atom(a) => {
                assert(u[0] == s[0]);
                assert(u.skip(1) =~= s.skip(1).take(m - 1));
                assert(s.skip(m) =~= s.skip(1).skip(m - 1));
                lemma_append_exact_intro(ts1.skip(1), ts2, s.skip(1), m - 1);
            },
            TokenModel::OneOrMore(a) => {
                let n = choose|n: int|
                    1 <= n <= u.len() && (forall|j: int| 0 <= j < n ==> atom_matches(
                        a,
                        #[trigger] u[j],
                    )) && tokens_match(ts1.skip(1), #[trigger] u.skip(n), true);
                assert(u.skip(n) =~= s.skip(n).take(m - n));
                assert(s.skip(m) =~= s.skip(n).skip(m - n));
                lemma_append_exact_intro(ts1.skip(1), ts2, s.skip(n), m - n);
                assert forall|j: int| 0 <= j < n implies atom_matches(a, #[trigger] s[j]) by {
                    assert(u[j] == s[j]);
                }
                assert(1 <= n <= s.len() && (forall|j: int| 0 <= j < n ==> atom_matches(
                    a,
                    #[trigger] s[j],
                )) && tokens_match((ts1 + ts2).skip(1), #[trigger] s.skip(n), true));
            },
            TokenModel::ZeroOrOne(a) => {
                if tokens_match(ts1.skip(1), u, true) {
                    lemma_append_exact_intro(ts1.skip(1), ts2, s, m);
                } else {
                    assert(u[0] == s[0]);
                    assert(u.skip(1) =~= s.skip(1).take(m - 1));
                    assert(s.skip(m) =~= s.skip(1).skip(m - 1));
                    lemma_append_exact_intro(ts1.skip(1), ts2, s.skip(1), m - 1);
                }
            },
        }
    }
}

/// The split point at which two bodies in sequence divide the input they
/// consume together.
pub proof fn lemma_append_exact_elim(
    ts1: Seq<TokenModel>,
    ts2: Seq<TokenModel>,
    s: Seq<char>,
) -> (m: int)
    requires
        tokens_match(ts1 + ts2, s, true),
    ensures
        0 <= m <= s.len(),
        tokens_match(ts1, s.take(m), true),
        tokens_match(ts2, s.skip(m), true),
    decreases ts1.len(),
{
    if ts1.len() == 0 {
        assert(ts1 + ts2 =~= ts2);
        assert(s.skip(0) =~= s);
        assert(s.take(0).len() == 0);
        0
    } else {
        assert((ts1 + ts2)[0] == ts1[0]);
        assert((ts1 + ts2).skip(1) =~= ts1.skip(1) + ts2);
        match ts1[0] {
            TokenModel::Atom(a) => {
                let m1 = lemma_append_exact_elim(ts1.skip(1), ts2, s.skip(1));
                let m = m1 + 1;
                assert(s.take(m)[0] == s[0]);
                assert(s.take(m).skip(1) =~= s.skip(1).take(m1));
                assert(s.skip(m) =~= s.skip(1).skip(m1));
                assert(tokens_match(ts1, s.take(m), true));
                m
            },
            TokenModel::OneOrMore(a) => {
                let n = choose|n: int|
                    1 <= n <= s.len() && (forall|j: int| 0 <= j < n ==> atom_matches(
                        a,
                        #[trigger] s[j],
                    )) && tokens_match((ts1 + ts2).skip(1), #[trigger] s.skip(n), true);
                let m1 = lemma_append_exact_elim(ts1.skip(1), ts2, s.skip(n));
                let m = n + m1;
                let u = s.take(m);
                assert(u.skip(n) =~= s.skip(n).take(m1));
                assert(s.skip(m) =~= s.skip(n).skip(m1));
                assert forall|j: int| 0 <= j < n implies atom_matches(a, #[trigger] u[j]) by {
                    assert(u[j] == s[j]);
                }
                assert(1 <= n <= u.len() && (forall|j: int| 0 <= j < n ==> atom_matches(
                    a,
                    #[trigger] u[j],
                )) && tokens_match(ts1.skip(1), #[trigger] u.skip(n), true));
                assert(tokens_match(ts1, u, true));
                m
            },
            TokenModel::ZeroOrOne(a) => {
                if tokens_match(ts1.skip(1) + ts2, s, true) {
                    let m = lemma_append_exact_elim(ts1.skip(1), ts2, s);
                    assert(tokens_match(ts1, s.take(m), true));
                    m
                } else {
                    let m1 = lemma_append_exact_elim(ts1.skip(1), ts2, s.skip(1));
                    let m = m1 + 1;
                    assert(s.take(m)[0] == s[0]);
                    assert(s.take(m).skip(1) =~= s.skip(1).take(m1));
                    assert(s.skip(m) =~= s.skip(1).skip(m1));
                    assert(tokens_match(ts1, s.take(m), true));
                    m
                }
            },
        }
    }
}

/// A single body token consumes a string exactly when it consumes its
/// reverse exactly: an atom consumes one character, a quantified atom a run
/// of accepted characters, and both are preserved by reversal.
pub proof fn lemma_single_exact_reverse(t: TokenModel, u: Seq<char>)
    ensures
        tokens_match(seq![t], u, true) == tokens_match(seq![t], u.reverse(), true),
{
    reveal_with_fuel(tokens_match, 2);
    let single = seq![t];
    assert(single.skip(1) =~= Seq::<TokenModel>::empty());
    assert(u.reverse().len() == u.len());
    assert forall|j: int| 0 <= j < u.len() implies u.reverse()[j] == u[u.len() - 1 - j] by {}
    match t {
        TokenModel::Atom(a) => {
            if u.len() == 1 {
                assert(u.reverse()[0] == u[0]);
            }
        },
        TokenModel::OneOrMore(a) => {
            if tokens_match(single, u, true) {
                let n = choose|n: int|
                    1 <= n <= u.len() && (forall|j: int| 0 <= j < n ==> atom_matches(
                        a,
                        #[trigger] u[j],
                    )) && tokens_match(single.skip(1), #[trigger] u.skip(n), true);
                assert(u.skip(n).len() == 0);
                assert(n == u.len());
                let v = u.reverse();
                assert forall|j: int| 0 <= j < n implies atom_matches(a, #[trigger] v[j]) by {
                    assert(v[j] == u[u.len() - 1 - j]);
                }
                assert(v.skip(n).len() == 0);
                assert(tokens_match(single.skip(1), v.skip(n), true));
                assert(1 <= n <= v.len() && (forall|j: int| 0 <= j < n ==> atom_matches(
                    a,
                    #[trigger] v[j],
                )) && tokens_match(single.skip(1), #[trigger] v.skip(n), true));
            }
            if tokens_match(single, u.reverse(), true) {
                let v = u.reverse();
                let n = choose|n: int|
                    1 <= n <= v.len() && (forall|j: int| 0 <= j < n ==> atom_matches(
                        a,
                        #[trigger] v[j],
                    )) && tokens_match(single.skip(1), #[trigger] v.skip(n), true);
                assert(v.skip(n).len() == 0);
                assert(n == u.len());
                assert forall|j: int| 0 <= j < n implies atom_matches(a, #[trigger] u[j]) by {
                    assert(v[u.len() - 1 - j] == u[j]);
                }
                assert(u.skip(n).len() == 0);
                assert(tokens_match(single.skip(1), u.skip(n), true));
                assert(1 <= n <= u.len() && (forall|j: int| 0 <= j < n ==> atom_matches(
                    a,
                    #[trigger] u[j],
                )) && tokens_match(single.skip(1), #[trigger] u.skip(n), true));
            }
        },
        TokenModel::ZeroOrOne(a) => {
            if u.len() == 0 {
                assert(u.reverse().len() == 0);
            }
            if u.len() == 1 {
                assert(u.reverse()[0] == u[0]);
                assert(u.skip(1).len() == 0);
                assert(u.reverse().skip(1).len() == 0);
            }
        },
    }
}

/// A body consumes a string exactly when its reverse consumes the reversed
/// string exactly.
pub proof fn lemma_exact_reverse(ts: Seq<TokenModel>, s: Seq<char>)
    ensures
        tokens_match(ts, s, true) == tokens_match(ts.reverse(), s.reverse(), true),
    decreases ts.len(),
{
    if ts.len() == 0 {
        assert(ts.reverse() =~= ts);
    } else {
        let t = ts[0];
        let head = seq![t];
        let tail = ts.skip(1);
        assert(ts =~= head + tail);
        assert(ts.reverse() =~= tail.reverse() + head);
        if tokens_match(ts, s, true) {
            let m = lemma_append_exact_elim(head, tail, s);
            // head consumes s.take(m), tail consumes s.skip(m)
            lemma_single_exact_reverse(t, s.take(m));
            lemma_exact_reverse(tail, s.skip(m));
            let m2 = s.len() - m;
            assert(s.reverse().take(m2) =~= s.skip(m).reverse());
            assert(s.reverse().skip(m2) =~= s.take(m).reverse());
            lemma_append_exact_intro(tail.reverse(), head, s.reverse(), m2);
            assert(tokens_match(ts.reverse(), s.reverse(), true));
        }
        if tokens_match(ts.reverse(), s.reverse(), true) {
            let m2 = lemma_append_exact_elim(tail.reverse(), head, s.reverse());
            let m = s.len() - m2;
            assert(s.reverse().take(m2) =~= s.skip(m).reverse());
            assert(s.reverse().skip(m2) =~= s.take(m).reverse());
            lemma_single_exact_reverse(t, s.take(m));
            lemma_exact_reverse(tail, s.skip(m));
            assert(tail.reverse().reverse() =~= tail);
            assert(s.skip(m).reverse().reverse() =~= s.skip(m));
            lemma_append_exact_intro(head, tail, s, m);
            assert(tokens_match(ts, s, true));
        }
    }
}

/// Any prefix of accepted characters is no longer than the run.
pub proof fn lemma_run_len_at_least(a: AtomModel, s: Seq<char>, n: int)
    requires
        0 <= n <= s.len(),
        forall|j: int| 0 <= j < n ==> atom_matches(a, #[trigger] s[j]),
    ensures
        n <= run_len(a, s),
    decreases s.len(),
{
    if n > 0 {
        assert(atom_matches(a, s[0]));
        assert forall|j: int| 0 <= j < n - 1 implies atom_matches(a, #[trigger] s.skip(1)[j]) by {
            assert(s.skip(1)[j] == s[j + 1]);
        }
        lemma_run_len_at_least(a, s.skip(1), n - 1);
    }
}

} // verus!
