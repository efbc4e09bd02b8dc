//! The backtracking matcher. Each token is matched through [`Token::_match`],
//! which yields the continuation positions to try; [`match_tokens`] walks a
//! token sequence left to right, trying a quantifier's candidate positions in
//! order (shortest consumption first) until the rest of the body succeeds.
//! [`Pattern::matches`] dispatches each alternative on its anchor.

use vstd::prelude::*;

use crate::ast::{GroupClass, Pattern, Remaining, Token};
use crate::chars::{chars_of, reverse_chars};
use crate::model::{
    group_chars, view_atom, view_pattern, view_subpattern, view_token, view_tokens, wf_atom,
    wf_body, wf_body_token, wf_pattern, wf_subpattern, AtomModel, TokenModel,
};
use crate::semantics::{
    atom_matches, lemma_run_len_at_least, lemma_run_len_chars, pattern_matches, run_len,
    sub_matches, tokens_match,
};

verus! {

/// What `Token::_match` returns for a body token at position `pos` of `s`:
/// an atom consumes one accepted character; a `+` yields one candidate
/// position per prefix of its maximal run, shortest first; a `?` yields the
/// zero-consumption position and then, if its atom accepts, the
/// one-consumption position.
pub open spec fn token_match_post(
    tm: TokenModel,
    s: Seq<char>,
    pos: int,
    r: Option<Remaining>,
) -> bool {
    match tm {
        TokenModel::Atom(a) => if pos < s.len() && atom_matches(a, s[pos]) {
            r matches Some(Remaining::Single(Some(p))) && p == pos + 1
        } else {
            r is None
        },
        TokenModel::OneOrMore(a) => {
            let m = run_len(a, s.skip(pos));
            if m == 0 {
                r is None
            } else {
                &&& r matches Some(Remaining::Multiple(v))
                &&& v@.len() == m
                &&& forall|k: int| 0 <= k < v@.len() ==> v@[k] == pos + 1 + k
            }
        },
        TokenModel::ZeroOrOne(a) => if pos < s.len() && atom_matches(a, s[pos]) {
            &&& r matches Some(Remaining::Multiple(v))
            &&& v@.len() == 2
            &&& v@[0] == pos
            &&& v@[1] == pos + 1
        } else {
            r matches Some(Remaining::Single(Some(p))) && p == pos
        },
    }
}

/// Dropping one token of a suffix's view is viewing the next suffix.
proof fn lemma_view_skip_one(ts: Seq<Token>, i: int)
    requires
        0 <= i < ts.len(),
    ensures
        view_tokens(ts.skip(i)).skip(1) == view_tokens(ts.skip(i + 1)),
{
    assert(view_tokens(ts.skip(i)).skip(1) =~= view_tokens(ts.skip(i + 1)));
}

/// Two skips compose into one.
proof fn lemma_skip_skip(s: Seq<char>, a: int, b: int)
    requires
        0 <= a,
        0 <= b,
        a + b <= s.len(),
    ensures
        s.skip(a).skip(b) == s.skip(a + b),
{
    assert(s.skip(a).skip(b) =~= s.skip(a + b));
}

/// Whether a bracket expression's literal list holds the character `c`.
#[verifier::loop_isolation(false)]
fn group_has_char(lits: &Vec<Token>, c: char) -> (r: bool)
    requires
        forall|i: int| 0 <= i < lits@.len() ==> lits@[i] is Literal,
    ensures
        r == group_chars(lits@).contains(c),
{
    let mut k: usize = 0;
    while k < lits.len()
        invariant
            k <= lits@.len(),
            forall|j: int| 0 <= j < k ==> group_chars(lits@)[j] != c,
        decreases lits@.len() - k,
    {
        match &lits[k] {
            Token::Literal(l) => {
                if *l == c {
                    proof {
                        assert(group_chars(lits@)[k as int] == c);
                    }
                    return true;
                }
            },
            _ => {},
        }
        k += 1;
    }
    false
}

impl Token {
    /// Whether the class accepts `c`: `\d` the ASCII digits, `\w` the ASCII
    /// letters and underscore.
    fn match_char_class(class: &crate::ast::CharClass, c: char) -> (r: bool)
        ensures
            r == atom_matches(AtomModel::Class(*class), c),
    {
        let u = c as u32;
        match class {
            crate::ast::CharClass::Digit => 48 <= u && u <= 57,
            crate::ast::CharClass::Identifier => (97 <= u && u <= 122) || (65 <= u && u <= 90)
                || c == '_',
        }
    }

    /// Whether this atom accepts the character at `pos` (false at the end of
    /// the input).
    fn match_atom_at(&self, s: &Vec<char>, pos: usize) -> (r: bool)
        requires
            wf_atom(*self),
            pos <= s@.len(),
        ensures
            r == (pos < s@.len() && atom_matches(view_atom(*self), s@[pos as int])),
    {
        if pos >= s.len() {
            return false;
        }
        let c = s[pos];
        match self {
            Token::Literal(l) => *l == c || *l == '.',
            Token::CharClass(class) => Token::match_char_class(class, c),
            Token::GroupClass(GroupClass::MatchOne(lits)) => group_has_char(lits, c),
            Token::GroupClass(GroupClass::MatchNone(lits)) => !group_has_char(lits, c),
            _ => false,
        }
    }

    /// The candidate positions after consuming one or more occurrences of
    /// `token` starting at `pos`: one per run prefix, shortest first, or
    /// nothing if not even one character is accepted.
    #[verifier::loop_isolation(false)]
    fn match_one_or_more(token: &Token, s: &Vec<char>, pos: usize) -> (r: Option<Remaining>)
        requires
            wf_atom(*token),
            pos <= s@.len(),
        ensures
            token_match_post(TokenModel::OneOrMore(view_atom(*token)), s@, pos as int, r),
    {
        let ghost a = view_atom(*token);
        let ghost suffix = s@.skip(pos as int);
        let n = s.len();
        let mut m: usize = 0;
        while pos + m < n && token.match_atom_at(s, pos + m)
            invariant
                pos + m <= n,
                forall|j: int| 0 <= j < m ==> atom_matches(a, #[trigger] suffix[j]),
            decreases n - pos - m,
        {
            proof {
                assert(suffix[m as int] == s@[pos + m]);
            }
            m += 1;
        }
        proof {
            lemma_run_len_at_least(a, suffix, m as int);
            lemma_run_len_chars(a, suffix);
            if (m as int) < suffix.len() {
                assert(suffix[m as int] == s@[pos + m]);
                assert(!atom_matches(a, suffix[m as int]));
            }
            assert(run_len(a, suffix) == m);
        }
        if m == 0 {
            return None;
        }
        let mut v: Vec<usize> = Vec::new();
        let mut k: usize = 0;
        while k < m
            invariant
                k <= m,
                v@.len() == k,
                forall|j: int| 0 <= j < k ==> v@[j] == pos + 1 + j,
            decreases m - k,
        {
            v.push(pos + 1 + k);
            k += 1;
        }
        Some(Remaining::Multiple(v))
    }

    /// The candidate positions for zero or one occurrence of `token` at
    /// `pos`: the zero-consumption position always, first, and the
    /// one-consumption position when the atom accepts.
    fn match_one_or_none(token: &Token, s: &Vec<char>, pos: usize) -> (r: Option<Remaining>)
        requires
            wf_atom(*token),
            pos <= s@.len(),
        ensures
            token_match_post(TokenModel::ZeroOrOne(view_atom(*token)), s@, pos as int, r),
    {
        let n = s.len();
        if pos < n && token.match_atom_at(s, pos) {
            let mut v: Vec<usize> = Vec::new();
            v.push(pos);
            v.push(pos + 1);
            Some(Remaining::Multiple(v))
        } else {
            Some(Remaining::Single(Some(pos)))
        }
    }

    /// Match this single body token against `s` at `pos`: `None` when it
    /// cannot match, one continuation position, or several to try in order.
    pub fn _match(&self, s: &Vec<char>, pos: usize) -> (r: Option<Remaining>)
        requires
            wf_body_token(*self),
            pos <= s@.len(),
        ensures
            token_match_post(view_token(*self), s@, pos as int, r),
    {
        let n = s.len();
        match self {
            Token::OneORMore(t) => Token::match_one_or_more(t, s, pos),
            Token::OneOrNone(t) => Token::match_one_or_none(t, s, pos),
            _ => {
                if pos < n && self.match_atom_at(s, pos) {
                    Some(Remaining::Single(Some(pos + 1)))
                } else {
                    None
                }
            },
        }
    }
}

/// Match the body `tokens[i..]` against `s` from `pos`: a prefix of what is
/// left when `exact` is false, all of it when `exact` is true. Candidate
/// positions of a quantified token are tried in order until the rest of the
/// body succeeds.
#[verifier::loop_isolation(false)]
fn match_tokens(tokens: &Vec<Token>, i: usize, s: &Vec<char>, pos: usize, exact: bool) -> (r: bool)
    requires
        i <= tokens@.len(),
        pos <= s@.len(),
        wf_body(tokens@),
    ensures
        r == tokens_match(view_tokens(tokens@.skip(i as int)), s@.skip(pos as int), exact),
    decreases tokens@.len() - i,
{
    let ghost models = view_tokens(tokens@.skip(i as int));
    let ghost suffix = s@.skip(pos as int);
    let n_tokens = tokens.len();
    let n_s = s.len();
    if i == n_tokens {
        proof {
            assert(models.len() == 0);
        }
        return !exact || pos == n_s;
    }
    proof {
        assert(tokens@.skip(i as int)[0] == tokens@[i as int]);
        assert(models[0] == view_token(tokens@[i as int]));
        lemma_view_skip_one(tokens@, i as int);
        assert(wf_body_token(tokens@[i as int]));
    }
    let ghost rest = view_tokens(tokens@.skip(i as int + 1));
    let t = &tokens[i];
    let step = t._match(s, pos);
    match step {
        Option::None => {
            proof {
                match models[0] {
                    TokenModel::Atom(a) => {},
                    TokenModel::OneOrMore(a) => {
                        // No candidate: not even one character is accepted,
                        // so no positive run exists.
                        lemma_run_len_chars(a, suffix);
                        assert forall|n: int|
                            !(1 <= n <= suffix.len() && (forall|j: int|
                                0 <= j < n ==> atom_matches(a, #[trigger] suffix[j]))
                                && tokens_match(rest, #[trigger] suffix.skip(n), exact)) by {
                            if 1 <= n <= suffix.len() && (forall|j: int|
                                0 <= j < n ==> atom_matches(a, #[trigger] suffix[j])) {
                                lemma_run_len_at_least(a, suffix, n);
                            }
                        }
                    },
                    TokenModel::ZeroOrOne(a) => {},
                }
            }
            false
        },
        Option::Some(Remaining::Single(next)) => {
            match next {
                Option::Some(p) => {
                    let r = match_tokens(tokens, i + 1, s, p, exact);
                    proof {
                        match models[0] {
                            TokenModel::Atom(a) => {
                                assert(p == pos + 1);
                                lemma_skip_skip(s@, pos as int, 1);
                                assert(suffix[0] == s@[pos as int]);
                            },
                            TokenModel::OneOrMore(a) => {},
                            TokenModel::ZeroOrOne(a) => {
                                // The atom does not accept here, so only the
                                // zero-consumption branch is live.
                                assert(p == pos);
                                if suffix.len() > 0 {
                                    assert(suffix[0] == s@[pos as int]);
                                }
                            },
                        }
                    }
                    r
                },
                Option::None => {
                    proof {
                        assert(false);
                    }
                    false
                },
            }
        },
        Option::Some(Remaining::Multiple(v)) => {
            proof {
                match models[0] {
                    TokenModel::OneOrMore(a) => {
                        lemma_run_len_chars(a, suffix);
                    },
                    _ => {},
                }
            }
            let mut k: usize = 0;
            let mut found = false;
            while k < v.len() && !found
                invariant
                    k <= v@.len(),
                    !found ==> forall|j: int| 0 <= j < k ==> !tokens_match(
                        rest,
                        #[trigger] s@.skip(v@[j] as int),
                        exact,
                    ),
                    found ==> exists|j: int| 0 <= j < v@.len() && tokens_match(
                        rest,
                        #[trigger] s@.skip(v@[j] as int),
                        exact,
                    ),
                decreases v@.len() - k, (if found { 0int } else { 1int }),
            {
                if match_tokens(tokens, i + 1, s, v[k], exact) {
                    found = true;
                } else {
                    k += 1;
                }
            }
            proof {
                let tm = view_token(tokens@[i as int]);
                match tm {
                    TokenModel::OneOrMore(a) => {
                        let m = run_len(a, suffix) as int;
                        lemma_run_len_chars(a, suffix);
                        if found {
                            let j = choose|j: int|
                                0 <= j < v@.len() && tokens_match(
                                    rest,
                                    #[trigger] s@.skip(v@[j] as int),
                                    exact,
                                );
                            let n = j + 1;
                            lemma_skip_skip(s@, pos as int, n);
                            assert(suffix.skip(n) == s@.skip(v@[j] as int));
                            assert(tokens_match(rest, suffix.skip(n), exact));
                            assert(tokens_match(models, suffix, exact));
                        } else {
                            assert forall|n: int|
                                !(1 <= n <= suffix.len() && (forall|jj: int|
                                    0 <= jj < n ==> atom_matches(a, #[trigger] suffix[jj]))
                                    && tokens_match(rest, #[trigger] suffix.skip(n), exact)) by {
                                if 1 <= n <= suffix.len() && (forall|jj: int|
                                    0 <= jj < n ==> atom_matches(a, #[trigger] suffix[jj])) {
                                    lemma_run_len_at_least(a, suffix, n);
                                    lemma_skip_skip(s@, pos as int, n);
                                    assert(v@[n - 1] == pos + n);
                                    assert(suffix.skip(n) == s@.skip(v@[n - 1] as int));
                                }
                            }
                            assert(!tokens_match(models, suffix, exact));
                        }
                    },
                    TokenModel::ZeroOrOne(a) => {
                        assert(v@[0] == pos);
                        assert(v@[1] == pos + 1);
                        lemma_skip_skip(s@, pos as int, 1);
                        assert(suffix[0] == s@[pos as int]);
                        assert(s@.skip(v@[0] as int) == suffix);
                        assert(s@.skip(v@[1] as int) == suffix.skip(1));
                        if found {
                            let j = choose|j: int|
                                0 <= j < v@.len() && tokens_match(
                                    rest,
                                    #[trigger] s@.skip(v@[j] as int),
                                    exact,
                                );
                            assert(j == 0 || j == 1);
                            assert(tokens_match(models, suffix, exact));
                        } else {
                            assert(!tokens_match(rest, s@.skip(v@[0] as int), exact));
                            assert(!tokens_match(rest, s@.skip(v@[1] as int), exact));
                            assert(!tokens_match(models, suffix, exact));
                        }
                    },
                    TokenModel::Atom(a) => {
                        assert(false);
                    },
                }
            }
            found
        },
    }
}

/// Try the body at every offset of the input, left to right.
#[verifier::loop_isolation(false)]
fn free_scan(tokens: &Vec<Token>, s: &Vec<char>) -> (r: bool)
    requires
        wf_body(tokens@),
    ensures
        r == exists|off: int|
            0 <= off <= s@.len() && tokens_match(view_tokens(tokens@), #[trigger] s@.skip(off), false),
{
    proof {
        assert(tokens@.skip(0) =~= tokens@);
    }
    let n = s.len();
    let mut off: usize = 0;
    loop
        invariant
            off <= n,
            forall|o: int| 0 <= o < off ==> !tokens_match(view_tokens(tokens@), #[trigger] s@.skip(o), false),
        decreases n - off,
    {
        if match_tokens(tokens, 0, s, off, false) {
            return true;
        }
        if off == n {
            return false;
        }
        off += 1;
    }
}

impl Pattern {
    /// Whether this pattern matches the input: its alternatives are tried in
    /// order, each dispatched on its anchor. A start-anchored alternative is
    /// tried at offset zero only; an end-anchored one is tried against the
    /// reversed input (its body is stored reversed); an exactly-anchored one
    /// must consume the whole input; an unanchored one is tried at every
    /// offset.
    #[verifier::loop_isolation(false)]
    pub fn matches(&self, input: &str) -> (r: bool)
        requires
            wf_pattern(*self),
        ensures
            r == pattern_matches(view_pattern(*self), input@),
    {
        let s = chars_of(input);
        let mut idx: usize = 0;
        while idx < self.sub_patterns.len()
            invariant
                idx <= self.sub_patterns@.len(),
                forall|j: int| 0 <= j < idx ==> !sub_matches(
                    #[trigger] view_pattern(*self).subs[j],
                    input@,
                ),
            decreases self.sub_patterns@.len() - idx,
        {
            let sub = &self.sub_patterns[idx];
            proof {
                assert(wf_subpattern(self.sub_patterns@[idx as int]));
                assert(view_pattern(*self).subs[idx as int] == view_subpattern(
                    self.sub_patterns@[idx as int],
                ));
            }
            let matched: bool;
            if sub.tokens.len() == 1 {
                match &sub.tokens[0] {
                    Token::SOL(inner) => {
                        matched = match_tokens(inner, 0, &s, 0, false);
                        proof {
                            assert(inner@.skip(0) =~= inner@);
                            assert(s@.skip(0) =~= s@);
                        }
                    },
                    Token::EOL(inner) => {
                        let rev = reverse_chars(&s);
                        matched = match_tokens(inner, 0, &rev, 0, false);
                        proof {
                            assert(inner@.skip(0) =~= inner@);
                            assert(rev@.skip(0) =~= rev@);
                        }
                    },
                    Token::Exact(inner) => {
                        matched = match_tokens(inner, 0, &s, 0, true);
                        proof {
                            assert(inner@.skip(0) =~= inner@);
                            assert(s@.skip(0) =~= s@);
                        }
                    },
                    _ => {
                        matched = free_scan(&sub.tokens, &s);
                    },
                }
            } else {
                matched = free_scan(&sub.tokens, &s);
            }
            proof {
                assert(matched == sub_matches(view_subpattern(self.sub_patterns@[idx as int]), input@));
            }
            if matched {
                return true;
            }
            idx += 1;
        }
        false
    }
}

} // verus!
