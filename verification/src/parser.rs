//! The executable parser. Its result is pinned to [`spec_parse`]: it
//! returns the abstract syntax tree whose model is the specified parse, or
//! exactly the specified error.

use core::str::FromStr;

use vstd::prelude::*;

use crate::ast::{Anchor, CharClass, GroupClass, ParseError, Pattern, SubPattern, Token};
use crate::chars::{chars_of, concat3, copy_range};
use crate::model::{
    view_atom, view_pattern, view_subpattern, view_token, view_tokens, wf_atom, wf_body,
    wf_body_token, wf_pattern, wf_subpattern, AtomModel, PatternModel, SubPatternModel,
    TokenModel,
};
use crate::parse_spec::{
    cons_token, cross_concat, detect_anchor, first_idx, has_char, lemma_cross_concat_take,
    lemma_first_idx, lemma_spec_atom_at_bounds, spec_atom_at, spec_expand, spec_parse,
    spec_subpattern, spec_subpatterns, spec_tokens, split_bars,
};

verus! {

/// What `Pattern::parse` guarantees: the tree of the specified parse, or
/// exactly the specified error; a returned tree is well-formed and its model
/// is the specified one.
pub open spec fn parse_post(s: Seq<char>, r: Result<Pattern, ParseError>) -> bool {
    match r {
        Ok(p) => {
            &&& spec_parse(s) matches Ok(m) && view_pattern(p) == m
            &&& wf_pattern(p)
        },
        Err(e) => spec_parse(s) == Err::<PatternModel, ParseError>(e),
    }
}

/// The views of a list of character vectors.
pub open spec fn views_of(v: Seq<Vec<char>>) -> Seq<Seq<char>> {
    v.map_values(|p: Vec<char>| p@)
}

/// The effect of `push` on a sequence, restated so it can be instantiated
/// where the ambient axioms do not trigger.
proof fn lemma_push_facts<A>(s: Seq<A>, t: A)
    ensures
        s.push(t).len() == s.len() + 1,
        forall|i: int| 0 <= i < s.len() ==> s.push(t)[i] == s[i],
        s.push(t)[s.len() as int] == t,
{
}

/// The index of the first `c` at or after `from`, or the length if there is
/// none.
#[verifier::loop_isolation(false)]
fn find_from(s: &Vec<char>, from: usize, c: char) -> (r: usize)
    requires
        from <= s@.len(),
    ensures
        from <= r <= s@.len(),
        r - from == first_idx(s@.skip(from as int), c),
{
    let ghost suffix = s@.skip(from as int);
    let n = s.len();
    let mut i: usize = from;
    while i < n
        invariant
            from <= i <= n,
            forall|k: int| from <= k < i ==> s@[k] != c,
        decreases n - i,
    {
        if s[i] == c {
            proof {
                lemma_first_idx(suffix, c);
                assert(suffix[i - from] == c);
                assert(has_char(suffix, c));
                assert forall|k: int| 0 <= k < i - from implies suffix[k] != c by {
                    assert(suffix[k] == s@[from + k]);
                }
                let fi = first_idx(suffix, c) as int;
                assert(suffix[fi] == c);
            }
            return i;
        }
        i += 1;
    }
    proof {
        lemma_first_idx(suffix, c);
        if has_char(suffix, c) {
            let w = choose|k: int| 0 <= k < suffix.len() && suffix[k] == c;
            assert(suffix[w] == s@[from + w]);
        }
    }
    n
}

/// The tokens of `ts` in reverse order.
fn reverse_tokens(ts: Vec<Token>) -> (r: Vec<Token>)
    ensures
        r@ == ts@.reverse(),
{
    let ghost orig = ts@;
    let mut ts = ts;
    let mut r: Vec<Token> = Vec::new();
    while ts.len() > 0
        invariant
            ts@ == orig.take(ts@.len() as int),
            r@.len() + ts@.len() == orig.len(),
            forall|j: int| 0 <= j < r@.len() ==> r@[j] == orig[orig.len() - 1 - j],
        decreases ts@.len(),
    {
        match ts.pop() {
            Some(t) => {
                r.push(t);
                proof {
                    assert(ts@ =~= orig.take(ts@.len() as int));
                }
            },
            None => {},
        }
    }
    proof {
        assert(r@ =~= orig.reverse());
    }
    r
}

/// Split a group's interior on every `|`: its choices, in order.
fn split_alternatives(s: &Vec<char>) -> (r: Vec<Vec<char>>)
    ensures
        views_of(r@) == split_bars(s@),
        r@.len() >= 1,
{
    let n = s.len();
    let mut parts: Vec<Vec<char>> = Vec::new();
    let mut start: usize = 0;
    proof {
        assert(s@.skip(0) =~= s@);
        assert(views_of(parts@) + split_bars(s@) =~~= split_bars(s@));
    }
    loop
        invariant_except_break
            start <= n,
            n == s@.len(),
            views_of(parts@) + split_bars(s@.skip(start as int)) == split_bars(s@),
        ensures
            views_of(parts@) == split_bars(s@),
            parts@.len() >= 1,
        decreases n - start,
    {
        let ghost prev = parts@;
        let ghost suffix = s@.skip(start as int);
        let j = find_from(s, start, '|');
        let piece = copy_range(s, start, j);
        parts.push(piece);
        proof {
            assert(views_of(parts@) =~~= views_of(prev).push(piece@));
        }
        if j == n {
            proof {
                assert(piece@ =~= suffix);
                assert(split_bars(suffix) == seq![suffix]);
                assert(views_of(parts@) =~~= split_bars(s@));
            }
            break;
        }
        proof {
            let fi = (j - start) as int;
            assert(piece@ =~= suffix.take(fi));
            assert(suffix.skip(fi + 1) =~= s@.skip(j + 1));
            assert(split_bars(suffix) == seq![suffix.take(fi)] + split_bars(s@.skip(j + 1)));
            assert(views_of(parts@) + split_bars(s@.skip(j + 1)) =~~= split_bars(s@));
        }
        start = j + 1;
    }
    parts
}

/// Parse the bracket expression that starts at `i` (where `b[i]` is `[`):
/// an optional leading `^` chooses the negative kind, and every character
/// up to the first `]` is taken as a literal. Returns the token and the
/// index just after the `]`.
fn get_group_tokens(b: &Vec<char>, i: usize) -> (r: Result<(Token, usize), ParseError>)
    requires
        i < b@.len(),
        b@[i as int] == '[',
    ensures
        match r {
            Ok(p) => {
                &&& spec_atom_at(b@.skip(i as int)) matches Ok(q) && q.0 == view_atom(p.0)
                    && q.1 == p.1 - i
                &&& wf_atom(p.0)
                &&& i < p.1 <= b@.len()
            },
            Err(e) => spec_atom_at(b@.skip(i as int)) == Err::<(AtomModel, int), ParseError>(e),
        },
{
    let ghost bs = b@.skip(i as int);
    let n = b.len();
    proof {
        assert(bs[0] == b@[i as int]);
        if i + 1 < n {
            assert(bs[1] == b@[i as int + 1]);
        }
    }
    let inverted = i + 1 < n && b[i + 1] == '^';
    let start = if inverted {
        i + 2
    } else {
        i + 1
    };
    let ghost start0 = start - i;
    proof {
        assert(bs.skip(start0 as int) =~= b@.skip(start as int));
    }
    let j = find_from(b, start, ']');
    if j == n {
        return Err(ParseError::Unclosed('['));
    }
    let mut lits: Vec<Token> = Vec::new();
    let mut k: usize = start;
    while k < j
        invariant
            start <= k <= j,
            j <= b@.len(),
            lits@.len() == k - start,
            forall|m: int| 0 <= m < lits@.len() ==> lits@[m] == Token::Literal(b@[start + m]),
        decreases j - k,
    {
        let ghost prev = lits@;
        lits.push(Token::Literal(b[k]));
        proof {
            lemma_push_facts(prev, Token::Literal(b@[k as int]));
            assert(lits@ == prev.push(Token::Literal(b@[k as int])));
        }
        k += 1;
    }
    proof {
        let d = (j - start) as int;
        assert(crate::model::group_chars(lits@) =~= bs.subrange(start0 as int, start0 + d));
    }
    let tok = if inverted {
        Token::GroupClass(GroupClass::MatchNone(lits))
    } else {
        Token::GroupClass(GroupClass::MatchOne(lits))
    };
    Ok((tok, j + 1))
}

/// Parse one atom at index `i` of the body: an escape, a bracket
/// expression, or a literal character. Returns the token and the index just
/// after it.
fn get_atom(b: &Vec<char>, i: usize) -> (r: Result<(Token, usize), ParseError>)
    requires
        i < b@.len(),
    ensures
        match r {
            Ok(p) => {
                &&& spec_atom_at(b@.skip(i as int)) matches Ok(q) && q.0 == view_atom(p.0)
                    && q.1 == p.1 - i
                &&& wf_atom(p.0)
                &&& i < p.1 <= b@.len()
            },
            Err(e) => spec_atom_at(b@.skip(i as int)) == Err::<(AtomModel, int), ParseError>(e),
        },
{
    let ghost bs = b@.skip(i as int);
    let n = b.len();
    proof {
        assert(bs[0] == b@[i as int]);
    }
    let c = b[i];
    if c == '\\' {
        if i + 1 >= n {
            proof {
                assert(bs.len() == n - i);
            }
            return Err(ParseError::UnexpectedEof);
        }
        proof {
            assert(bs[1] == b@[i as int + 1]);
        }
        let d = b[i + 1];
        if d == 'd' {
            Ok((Token::CharClass(CharClass::Digit), i + 2))
        } else if d == 'w' {
            Ok((Token::CharClass(CharClass::Identifier), i + 2))
        } else if d == '\\' {
            Ok((Token::Literal('\\'), i + 2))
        } else {
            Err(ParseError::InvalidEscape(d))
        }
    } else if c == '[' {
        get_group_tokens(b, i)
    } else {
        Ok((Token::Literal(c), i + 1))
    }
}

impl Pattern {
    /// Tokenise a body whose anchors were already stripped: one atom at a
    /// time, each wrapped by a `+` or `?` that immediately follows it.
    #[verifier::rlimit(50)]
    fn get_tokens(b: &Vec<char>) -> (r: Result<Vec<Token>, ParseError>)
        ensures
            match r {
                Ok(ts) => {
                    &&& spec_tokens(b@) matches Ok(ms) && view_tokens(ts@) == ms
                    &&& wf_body(ts@)
                    &&& ts@.len() >= 1 <==> b@.len() >= 1
                },
                Err(e) => spec_tokens(b@) == Err::<Seq<TokenModel>, ParseError>(e),
            },
    {
        let n = b.len();
        let mut out: Vec<Token> = Vec::new();
        let mut i: usize = 0;
        proof {
            assert(b@.skip(0) =~= b@);
            let st = spec_tokens(b@);
            if st is Ok {
                assert(view_tokens(out@) + st->Ok_0 =~= st->Ok_0);
            }
        }
        while i < n
            invariant
                i <= n,
                n == b@.len(),
                wf_body(out@),
                out@.len() >= 1 <==> i >= 1,
                spec_tokens(b@) == (match spec_tokens(b@.skip(i as int)) {
                    Ok(ms) => Ok::<Seq<TokenModel>, ParseError>(view_tokens(out@) + ms),
                    Err(e) => Err::<Seq<TokenModel>, ParseError>(e),
                }),
            decreases n - i,
        {
            let ghost suffix = b@.skip(i as int);
            proof {
                assert(suffix.len() == n - i);
            }
            match get_atom(b, i) {
                Err(e) => {
                    return Err(e);
                },
                Ok((tok, next)) => {
                    proof {
                        lemma_spec_atom_at_bounds(suffix);
                    }
                    let tok2: Token;
                    let i2: usize;
                    if next < n && b[next] == '+' {
                        tok2 = Token::OneORMore(Box::new(tok));
                        i2 = next + 1;
                    } else if next < n && b[next] == '?' {
                        tok2 = Token::OneOrNone(Box::new(tok));
                        i2 = next + 1;
                    } else {
                        tok2 = tok;
                        i2 = next;
                    }
                    proof {
                        let na = (next - i) as int;
                        if na < suffix.len() {
                            assert(suffix[na] == b@[next as int]);
                        }
                        assert(suffix.skip(i2 - i) =~= b@.skip(i2 as int));
                        let tm = view_token(tok2);
                        assert(spec_tokens(suffix) == cons_token(tm, spec_tokens(b@.skip(i2 as int))));
                        let st2 = spec_tokens(b@.skip(i2 as int));
                        if st2 is Ok {
                            assert(view_tokens(out@.push(tok2)) =~= view_tokens(out@).push(tm));
                            assert(view_tokens(out@).push(tm) + st2->Ok_0 =~= view_tokens(out@) + (
                            seq![tm] + st2->Ok_0));
                        }
                    }
                    let ghost prev_out = out@;
                    out.push(tok2);
                    proof {
                        lemma_push_facts(prev_out, tok2);
                        assert(out@ == prev_out.push(tok2));
                    }
                    i = i2;
                },
            }
        }
        proof {
            assert(b@.skip(n as int) =~= Seq::<char>::empty());
            assert(view_tokens(out@) + Seq::<TokenModel>::empty() =~= view_tokens(out@));
        }
        Ok(out)
    }

    /// Parse one alternative: detect and strip its anchors, refuse an empty
    /// body, tokenise the body, and wrap the tokens in the anchor token, the
    /// body of an end anchor reversed.
    fn parse_alternative(a: &Vec<char>) -> (r: Result<SubPattern, ParseError>)
        ensures
            match r {
                Ok(sp) => {
                    &&& spec_subpattern(a@) matches Ok(m) && view_subpattern(sp) == m
                    &&& wf_subpattern(sp)
                },
                Err(e) => spec_subpattern(a@) == Err::<SubPatternModel, ParseError>(e),
            },
    {
        let n = a.len();
        let sc = n > 0 && a[0] == '^';
        let ec = n > 0 && a[n - 1] == '$';
        let anchor: Option<Anchor> = if sc && ec {
            Some(Anchor::Both)
        } else if sc {
            Some(Anchor::Start)
        } else if ec {
            Some(Anchor::End)
        } else {
            None
        };
        let body: Vec<char> = if sc && ec {
            proof {
                assert(n >= 2);
            }
            copy_range(a, 1, n - 1)
        } else if sc {
            copy_range(a, 1, n)
        } else if ec {
            copy_range(a, 0, n - 1)
        } else {
            copy_range(a, 0, n)
        };
        proof {
            if sc && !ec {
                assert(a@.skip(1) =~= a@.subrange(1, n as int));
            }
            if ec && !sc {
                assert(a@.take(n - 1) =~= a@.subrange(0, n - 1));
            }
            if !sc && !ec {
                assert(a@.subrange(0, n as int) =~= a@);
            }
            assert(detect_anchor(a@).0 == anchor);
            assert(detect_anchor(a@).1 == body@);
        }
        if body.len() == 0 {
            return Err(ParseError::InvalidAnchor);
        }
        let ts = match Pattern::get_tokens(&body) {
            Ok(ts) => ts,
            Err(e) => {
                return Err(e);
            },
        };
        match anchor {
            Option::Some(Anchor::Start) => {
                let sp = SubPattern { tokens: vec![Token::SOL(ts)] };
                proof {
                    assert(sp.tokens@[0] is SOL);
                }
                Ok(sp)
            },
            Option::Some(Anchor::End) => {
                let rev = reverse_tokens(ts);
                proof {
                    let ms = spec_tokens(body@)->Ok_0;
                    assert(view_tokens(rev@) =~= ms.reverse());
                    assert forall|k: int| 0 <= k < rev@.len() implies wf_body_token(
                        #[trigger] rev@[k],
                    ) by {}
                }
                let sp = SubPattern { tokens: vec![Token::EOL(rev)] };
                proof {
                    assert(sp.tokens@[0] is EOL);
                }
                Ok(sp)
            },
            Option::Some(Anchor::Both) => {
                let sp = SubPattern { tokens: vec![Token::Exact(ts)] };
                proof {
                    assert(sp.tokens@[0] is Exact);
                }
                Ok(sp)
            },
            Option::None => {
                let sp = SubPattern { tokens: ts };
                proof {
                    if sp.tokens@.len() == 1 {
                        assert(wf_body_token(sp.tokens@[0]));
                    }
                }
                Ok(sp)
            },
        }
    }

    /// Alternation expansion: the list of alternative strings the pattern
    /// stands for. A pattern with no group is a single alternative, itself;
    /// otherwise the first group's interior splits on `|` and each choice is
    /// substituted into the surrounding text, multiplied out with the
    /// expansion of the text after the group.
    #[verifier::loop_isolation(false)]
    fn expand_pattern(s: &Vec<char>) -> (r: Result<Vec<Vec<char>>, ParseError>)
        ensures
            match r {
                Ok(v) => {
                    &&& spec_expand(s@) matches Ok(alts) && views_of(v@) == alts
                    &&& v@.len() >= 1
                },
                Err(e) => spec_expand(s@) == Err::<Seq<Seq<char>>, ParseError>(e),
            },
        decreases s@.len(),
    {
        proof {
            assert(s@.skip(0) =~= s@);
        }
        let n = s.len();
        let o = find_from(s, 0, '(');
        if o == n {
            let whole = copy_range(s, 0, n);
            let mut parts: Vec<Vec<char>> = Vec::new();
            parts.push(whole);
            proof {
                assert(parts@[0]@ =~= s@);
                assert(views_of(parts@) =~~= seq![s@]);
            }
            return Ok(parts);
        }
        let d = find_from(s, o + 1, ')');
        proof {
            assert(s@.skip(o as int + 1).len() == n - o - 1);
        }
        if d == n {
            return Err(ParseError::Unclosed('('));
        }
        let before = copy_range(s, 0, o);
        let inside = copy_range(s, o + 1, d);
        let after = copy_range(s, d + 1, n);
        proof {
            assert(before@ =~= s@.take(o as int));
            assert(after@ =~= s@.skip(d as int + 1));
        }
        let rests = match Pattern::expand_pattern(&after) {
            Ok(v) => v,
            Err(e) => {
                return Err(e);
            },
        };
        let choices = split_alternatives(&inside);
        let ghost c_s = split_bars(inside@);
        let ghost r_s = spec_expand(after@)->Ok_0;
        let mut out: Vec<Vec<char>> = Vec::new();
        let mut ci: usize = 0;
        proof {
            assert(c_s.take(0) =~= Seq::<Seq<char>>::empty());
            assert(views_of(out@) =~~= cross_concat(before@, c_s.take(0), r_s));
        }
        while ci < choices.len()
            invariant
                ci <= choices@.len(),
                views_of(out@) == cross_concat(before@, c_s.take(ci as int), r_s),
            decreases choices@.len() - ci,
        {
            let ghost base = cross_concat(before@, c_s.take(ci as int), r_s);
            let mut ri: usize = 0;
            proof {
                assert(r_s.take(0) =~= Seq::<Seq<char>>::empty());
                assert(views_of(out@) =~~= base + r_s.take(0).map_values(
                    |x: Seq<char>| before@ + c_s[ci as int] + x,
                ));
            }
            while ri < rests.len()
                invariant
                    ri <= rests@.len(),
                    ci < choices@.len(),
                    views_of(out@) == base + r_s.take(ri as int).map_values(
                        |x: Seq<char>| before@ + c_s[ci as int] + x,
                    ),
                decreases rests@.len() - ri,
            {
                let ghost prev = out@;
                let piece = concat3(&before, &choices[ci], &rests[ri]);
                out.push(piece);
                proof {
                    assert(piece@ == before@ + c_s[ci as int] + r_s[ri as int]);
                    assert(views_of(out@) =~~= views_of(prev).push(piece@));
                    assert(r_s.take(ri as int + 1).map_values(
                        |x: Seq<char>| before@ + c_s[ci as int] + x,
                    ) =~~= r_s.take(ri as int).map_values(
                        |x: Seq<char>| before@ + c_s[ci as int] + x,
                    ).push(before@ + c_s[ci as int] + r_s[ri as int]));
                    assert(views_of(out@) =~~= base + r_s.take(ri as int + 1).map_values(
                        |x: Seq<char>| before@ + c_s[ci as int] + x,
                    ));
                }
                ri += 1;
            }
            proof {
                assert(r_s.take(rests@.len() as int) =~= r_s);
                lemma_cross_concat_take(before@, c_s, r_s, ci as int);
                assert(views_of(out@) =~~= cross_concat(before@, c_s.take(ci as int + 1), r_s));
            }
            ci += 1;
        }
        proof {
            assert(c_s.take(choices@.len() as int) =~= c_s);
            assert(r_s.len() >= 1);
            assert(cross_concat(before@, c_s, r_s).len() >= r_s.len());
            assert(views_of(out@).len() == out@.len());
        }
        Ok(out)
    }

    /// Parse a pattern string: expand its alternation, then parse each
    /// alternative. Returns the tree whose model is the specified parse, or
    /// exactly the specified error.
    pub fn parse(pattern: &str) -> (r: Result<Pattern, ParseError>)
        ensures
            parse_post(pattern@, r),
    {
        let cs = chars_of(pattern);
        let alts = match Pattern::expand_pattern(&cs) {
            Ok(v) => v,
            Err(e) => {
                return Err(e);
            },
        };
        let ghost salts = spec_expand(pattern@)->Ok_0;
        let n = alts.len();
        let mut subs: Vec<SubPattern> = Vec::new();
        let mut i: usize = 0;
        proof {
            assert(salts.skip(0) =~= salts);
            let st = spec_subpatterns(salts);
            if st is Ok {
                assert(subs@.map_values(|sp: SubPattern| view_subpattern(sp)) + st->Ok_0 =~= st->Ok_0);
            }
        }
        while i < n
            invariant
                i <= n,
                n == alts@.len(),
                spec_expand(pattern@) == Ok::<Seq<Seq<char>>, ParseError>(salts),
                views_of(alts@) == salts,
                forall|j: int| 0 <= j < subs@.len() ==> wf_subpattern(#[trigger] subs@[j]),
                subs@.len() == i,
                spec_subpatterns(salts) == (match spec_subpatterns(salts.skip(i as int)) {
                    Ok(ms) => Ok::<Seq<SubPatternModel>, ParseError>(
                        subs@.map_values(|sp: SubPattern| view_subpattern(sp)) + ms,
                    ),
                    Err(e) => Err::<Seq<SubPatternModel>, ParseError>(e),
                }),
            decreases n - i,
        {
            proof {
                assert(salts.skip(i as int)[0] == salts[i as int]);
                assert(views_of(alts@)[i as int] == alts@[i as int]@);
            }
            match Pattern::parse_alternative(&alts[i]) {
                Err(e) => {
                    return Err(e);
                },
                Ok(sp) => {
                    proof {
                        let ghost m = spec_subpattern(salts[i as int])->Ok_0;
                        assert(salts.skip(i as int).skip(1) =~= salts.skip(i as int + 1));
                        let st2 = spec_subpatterns(salts.skip(i as int + 1));
                        if st2 is Ok {
                            assert(subs@.push(sp).map_values(|sp: SubPattern| view_subpattern(sp))
                                =~= subs@.map_values(|sp: SubPattern| view_subpattern(sp)).push(
                                view_subpattern(sp),
                            ));
                            assert(subs@.map_values(|sp: SubPattern| view_subpattern(sp)).push(
                                view_subpattern(sp),
                            ) + st2->Ok_0 =~= subs@.map_values(
                                |sp: SubPattern| view_subpattern(sp),
                            ) + (seq![m] + st2->Ok_0));
                        }
                    }
                    let ghost prev_subs = subs@;
                    subs.push(sp);
                    proof {
                        lemma_push_facts(prev_subs, sp);
                        assert(subs@ == prev_subs.push(sp));
                    }
                    i += 1;
                },
            }
        }
        proof {
            assert(salts.skip(n as int) =~= Seq::<Seq<char>>::empty());
            let built = subs@.map_values(|sp: SubPattern| view_subpattern(sp));
            assert(built + Seq::<SubPatternModel>::empty() =~= built);
        }
        let p = Pattern { sub_patterns: subs };
        proof {
            assert(view_pattern(p).subs == subs@.map_values(|sp: SubPattern| view_subpattern(sp)));
        }
        Ok(p)
    }
}

impl FromStr for Pattern {
    type Err = ParseError;

    fn from_str(s: &str) -> Result<Pattern, ParseError> {
        Pattern::parse(s)
    }
}

} // verus!
