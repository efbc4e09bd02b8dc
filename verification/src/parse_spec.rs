//! What parsing means: a total function from a pattern string to the model
//! of its parse, or to the one parse error the parser reports first. The
//! executable parser's contract pins its result to [`spec_parse`].
//!
//! The pipeline has three passes. Alternation expansion rewrites the pattern
//! into one string per alternative: each `(...)` group splits its interior
//! on `|` and substitutes each piece back into the surrounding text (several
//! groups multiply out, left to right); a pattern without a group is a
//! single alternative, and a `|` outside every group is a plain character.
//! Anchor detection strips a leading `^` and a trailing `$` from each
//! alternative independently. Tokenisation reads the
//! remaining body left to right with one character of lookahead, attaching a
//! trailing `+` or `?` to the token just read.

use vstd::prelude::*;

use crate::ast::{Anchor, CharClass, ParseError};
use crate::model::{AtomModel, PatternModel, SubPatternModel, TokenModel};

verus! {

/// Whether `c` occurs in `s`.
pub open spec fn has_char(s: Seq<char>, c: char) -> bool {
    exists|i: int| 0 <= i < s.len() && s[i] == c
}

/// The index of the first occurrence of `c` in `s`, or `s.len()` if there
/// is none.
pub open spec fn first_idx(s: Seq<char>, c: char) -> nat
    decreases s.len(),
{
    if s.len() == 0 {
        0
    } else if s[0] == c {
        0
    } else {
        1 + first_idx(s.skip(1), c)
    }
}

/// `first_idx` finds the first occurrence: nothing before it is `c`, and it
/// is `c` unless `c` does not occur at all.
pub proof fn lemma_first_idx(s: Seq<char>, c: char)
    ensures
        first_idx(s, c) <= s.len(),
        has_char(s, c) ==> first_idx(s, c) < s.len() && s[first_idx(s, c) as int] == c,
        !has_char(s, c) ==> first_idx(s, c) == s.len(),
        forall|k: int| 0 <= k < first_idx(s, c) ==> s[k] != c,
    decreases s.len(),
{
    if s.len() == 0 {
    } else if s[0] == c {
    } else {
        lemma_first_idx(s.skip(1), c);
        assert forall|k: int| 0 <= k < first_idx(s, c) implies s[k] != c by {
            if k > 0 {
                assert(s.skip(1)[k - 1] == s[k]);
            }
        }
        if has_char(s, c) {
            let i = choose|i: int| 0 <= i < s.len() && s[i] == c;
            assert(s.skip(1)[i - 1] == c);
            assert(has_char(s.skip(1), c));
        } else {
            if has_char(s.skip(1), c) {
                let i = choose|i: int| 0 <= i < s.skip(1).len() && s.skip(1)[i] == c;
                assert(s[i + 1] == c);
            }
        }
    }
}

/// How appending text moves the first occurrence: not at all if the
/// character already occurs, and past the first part if it does not.
pub proof fn lemma_first_idx_append(x: Seq<char>, y: Seq<char>, c: char)
    ensures
        has_char(x, c) ==> first_idx(x + y, c) == first_idx(x, c),
        !has_char(x, c) ==> first_idx(x + y, c) == x.len() + first_idx(y, c),
        has_char(x + y, c) == (has_char(x, c) || has_char(y, c)),
    decreases x.len(),
{
    if x.len() == 0 {
        assert(x + y =~= y);
        if has_char(y, c) {
            let w = choose|i: int| 0 <= i < y.len() && y[i] == c;
            assert((x + y)[w] == c);
        }
    } else {
        assert((x + y)[0] == x[0]);
        if x[0] == c {
            assert(has_char(x, c));
        } else {
            assert((x + y).skip(1) =~= x.skip(1) + y);
            lemma_first_idx_append(x.skip(1), y, c);
            if has_char(x, c) {
                let w = choose|i: int| 0 <= i < x.len() && x[i] == c;
                assert(x.skip(1)[w - 1] == c);
                assert(has_char(x.skip(1), c));
            }
            if has_char(x.skip(1), c) {
                let w = choose|i: int| 0 <= i < x.skip(1).len() && x.skip(1)[i] == c;
                assert(x[w + 1] == c);
                assert(has_char(x, c));
            }
            if has_char(x + y, c) {
                let w = choose|i: int| 0 <= i < (x + y).len() && (x + y)[i] == c;
                if w < x.len() {
                    assert(x[w] == c);
                } else {
                    assert(y[w - x.len()] == c);
                }
            }
            if has_char(x, c) {
                let w = choose|i: int| 0 <= i < x.len() && x[i] == c;
                assert((x + y)[w] == c);
            }
            if has_char(y, c) {
                let w = choose|i: int| 0 <= i < y.len() && y[i] == c;
                assert((x + y)[x.len() + w] == c);
            }
        }
    }
}

/// Split a group's interior `s` on every `|`: the list of choices between
/// them, in order. An interior without `|` is one choice; `n` bars give
/// `n + 1` choices.
pub open spec fn split_bars(s: Seq<char>) -> Seq<Seq<char>>
    decreases s.len(),
{
    let i = first_idx(s, '|');
    if i >= s.len() {
        seq![s]
    } else {
        seq![s.take(i as int)] + split_bars(s.skip(i as int + 1))
    }
}

/// Every combination `before + choice + rest`, choice-major: all rests of
/// the first choice, then all rests of the second, and so on.
pub open spec fn cross_concat(
    before: Seq<char>,
    choices: Seq<Seq<char>>,
    rests: Seq<Seq<char>>,
) -> Seq<Seq<char>>
    decreases choices.len(),
{
    if choices.len() == 0 {
        Seq::empty()
    } else {
        rests.map_values(|r: Seq<char>| before + choices[0] + r) + cross_concat(
            before,
            choices.skip(1),
            rests,
        )
    }
}

/// Distributing `cross_concat` over an append of choice lists.
pub proof fn lemma_cross_concat_app(
    b: Seq<char>,
    c1: Seq<Seq<char>>,
    c2: Seq<Seq<char>>,
    r: Seq<Seq<char>>,
)
    ensures
        cross_concat(b, c1 + c2, r) == cross_concat(b, c1, r) + cross_concat(b, c2, r),
    decreases c1.len(),
{
    if c1.len() == 0 {
        assert(c1 + c2 =~= c2);
        assert(cross_concat(b, c1, r) + cross_concat(b, c2, r) =~~= cross_concat(b, c2, r));
    } else {
        assert((c1 + c2)[0] == c1[0]);
        assert((c1 + c2).skip(1) =~= c1.skip(1) + c2);
        lemma_cross_concat_app(b, c1.skip(1), c2, r);
        assert(cross_concat(b, c1 + c2, r) =~~= cross_concat(b, c1, r) + cross_concat(b, c2, r));
    }
}

/// Taking one more choice appends that choice's combinations.
pub proof fn lemma_cross_concat_take(
    b: Seq<char>,
    c: Seq<Seq<char>>,
    r: Seq<Seq<char>>,
    i: int,
)
    requires
        0 <= i < c.len(),
    ensures
        cross_concat(b, c.take(i + 1), r) == cross_concat(b, c.take(i), r) + r.map_values(
            |x: Seq<char>| b + c[i] + x,
        ),
{
    assert(c.take(i + 1) =~= c.take(i) + seq![c[i]]);
    lemma_cross_concat_app(b, c.take(i), seq![c[i]], r);
    let single = seq![c[i]];
    assert(single.skip(1) =~= Seq::<Seq<char>>::empty());
    assert(cross_concat(b, single.skip(1), r) == cross_concat(b, Seq::<Seq<char>>::empty(), r));
    assert(cross_concat(b, Seq::<Seq<char>>::empty(), r) =~= Seq::<Seq<char>>::empty());
    assert(cross_concat(b, single, r) == r.map_values(|x: Seq<char>| b + single[0] + x)
        + cross_concat(b, single.skip(1), r));
    assert(single[0] == c[i]);
    assert(cross_concat(b, single, r) =~~= r.map_values(|x: Seq<char>| b + c[i] + x));
}

/// Alternation expansion. A pattern with no group is a single alternative:
/// itself. Otherwise the first group's interior (up to the first `)` after
/// it) splits on `|`, the text after the group expands recursively, and
/// every `before + choice + rest` combination is an alternative. A `(` with
/// no `)` after it is unclosed.
pub open spec fn spec_expand(s: Seq<char>) -> Result<Seq<Seq<char>>, ParseError>
    decreases s.len(),
{
    let o = first_idx(s, '(');
    if o >= s.len() {
        Ok(seq![s])
    } else {
        let d = first_idx(s.skip(o as int + 1), ')');
        if d >= s.skip(o as int + 1).len() {
            Err(ParseError::Unclosed('('))
        } else {
            let close = o + 1 + d;
            let before = s.take(o as int);
            let inside = s.subrange(o as int + 1, close as int);
            let after = s.skip(close as int + 1);
            match spec_expand(after) {
                Err(e) => Err(e),
                Ok(rests) => Ok(cross_concat(before, split_bars(inside), rests)),
            }
        }
    }
}

/// Prefixing the text before the choices prefixes every combination.
pub proof fn lemma_cross_concat_prefix(
    pre: Seq<char>,
    b: Seq<char>,
    c: Seq<Seq<char>>,
    r: Seq<Seq<char>>,
)
    ensures
        cross_concat(pre + b, c, r).len() == cross_concat(b, c, r).len(),
        forall|k: int|
            0 <= k < cross_concat(b, c, r).len() ==> #[trigger] cross_concat(pre + b, c, r)[k]
                == pre + cross_concat(b, c, r)[k],
    decreases c.len(),
{
    if c.len() == 0 {
    } else {
        lemma_cross_concat_prefix(pre, b, c.skip(1), r);
        let m1 = r.map_values(|x: Seq<char>| (pre + b) + c[0] + x);
        let m0 = r.map_values(|x: Seq<char>| b + c[0] + x);
        assert forall|k: int| 0 <= k < cross_concat(b, c, r).len() implies #[trigger] cross_concat(
            pre + b,
            c,
            r,
        )[k] == pre + cross_concat(b, c, r)[k] by {
            if k < r.len() {
                assert(cross_concat(pre + b, c, r)[k] == m1[k]);
                assert(cross_concat(b, c, r)[k] == m0[k]);
                assert((pre + b) + c[0] + r[k] =~= pre + (b + c[0] + r[k]));
            } else {
                assert(cross_concat(pre + b, c, r)[k] == cross_concat(pre + b, c.skip(1), r)[k
                    - r.len()]);
                assert(cross_concat(b, c, r)[k] == cross_concat(b, c.skip(1), r)[k - r.len()]);
            }
        }
    }
}

/// Appending the same suffix to every rest appends it to every
/// combination.
pub proof fn lemma_cross_concat_rests(
    b: Seq<char>,
    c: Seq<Seq<char>>,
    r1: Seq<Seq<char>>,
    r2: Seq<Seq<char>>,
    suf: Seq<char>,
)
    requires
        r1.len() == r2.len(),
        forall|k: int| 0 <= k < r1.len() ==> #[trigger] r1[k] == r2[k] + suf,
    ensures
        cross_concat(b, c, r1).len() == cross_concat(b, c, r2).len(),
        forall|k: int|
            0 <= k < cross_concat(b, c, r1).len() ==> #[trigger] cross_concat(b, c, r1)[k]
                == cross_concat(b, c, r2)[k] + suf,
    decreases c.len(),
{
    if c.len() == 0 {
    } else {
        lemma_cross_concat_rests(b, c.skip(1), r1, r2, suf);
        assert forall|k: int| 0 <= k < cross_concat(b, c, r1).len() implies #[trigger] cross_concat(
            b,
            c,
            r1,
        )[k] == cross_concat(b, c, r2)[k] + suf by {
            if k < r1.len() {
                assert(cross_concat(b, c, r1)[k] == b + c[0] + r1[k]);
                assert(cross_concat(b, c, r2)[k] == b + c[0] + r2[k]);
                assert(b + c[0] + (r2[k] + suf) =~= (b + c[0] + r2[k]) + suf);
            } else {
                assert(cross_concat(b, c, r1)[k] == cross_concat(b, c.skip(1), r1)[k - r1.len()]);
                assert(cross_concat(b, c, r2)[k] == cross_concat(b, c.skip(1), r2)[k - r2.len()]);
            }
        }
    }
}

/// Expanding a pattern with `^` prefixed: the same alternatives, each
/// prefixed by `^`. Errors are unchanged.
pub proof fn lemma_expand_caret(p: Seq<char>)
    ensures
        spec_expand(seq!['^'] + p) is Ok <==> spec_expand(p) is Ok,
        spec_expand(seq!['^'] + p) is Err ==> spec_expand(seq!['^'] + p) == spec_expand(p),
        spec_expand(p) matches Ok(a0) ==> spec_expand(seq!['^'] + p) matches Ok(a1) && a1.len()
            == a0.len() && (forall|i: int|
            0 <= i < a0.len() ==> #[trigger] a1[i] == seq!['^'] + a0[i]),
{
    let q = seq!['^'] + p;
    lemma_first_idx_append(seq!['^'], p, '(');
    assert(!has_char(seq!['^'], '(')) by {
        if has_char(seq!['^'], '(') {
            let w = choose|i: int| 0 <= i < 1 && seq!['^'][i] == '(';
            assert(seq!['^'][w] == '^');
        }
    }
    lemma_first_idx(p, '(');
    lemma_first_idx(seq!['^'], '(');
    let o = first_idx(p, '(');
    assert(first_idx(seq!['^'], '(') == 1);
    assert(first_idx(q, '(') == 1 + o);
    if o >= p.len() {
        assert(first_idx(q, '(') >= q.len());
        assert(spec_expand(q) == Ok::<Seq<Seq<char>>, ParseError>(seq![q]));
        assert(spec_expand(p) == Ok::<Seq<Seq<char>>, ParseError>(seq![p]));
    } else {
        let oq = 1 + o;
        assert(q.skip(oq as int + 1) =~= p.skip(o as int + 1));
        let d = first_idx(p.skip(o as int + 1), ')');
        if d >= p.skip(o as int + 1).len() {
            assert(spec_expand(q) == Err::<Seq<Seq<char>>, ParseError>(ParseError::Unclosed('(')));
            assert(spec_expand(p) == Err::<Seq<Seq<char>>, ParseError>(ParseError::Unclosed('(')));
        } else {
            let close = o + 1 + d;
            let closeq = oq + 1 + d;
            assert(q.take(oq as int) =~= seq!['^'] + p.take(o as int));
            assert(q.subrange(oq as int + 1, closeq as int) =~= p.subrange(
                o as int + 1,
                close as int,
            ));
            assert(q.skip(closeq as int + 1) =~= p.skip(close as int + 1));
            match spec_expand(p.skip(close as int + 1)) {
                Err(e) => {},
                Ok(rests) => {
                    lemma_cross_concat_prefix(
                        seq!['^'],
                        p.take(o as int),
                        split_bars(p.subrange(o as int + 1, close as int)),
                        rests,
                    );
                },
            }
        }
    }
}

/// Expanding a pattern with `$` appended: the same alternatives, each with
/// `$` appended. Errors are unchanged.
pub proof fn lemma_expand_dollar(p: Seq<char>)
    ensures
        spec_expand(p + seq!['$']) is Ok <==> spec_expand(p) is Ok,
        spec_expand(p + seq!['$']) is Err ==> spec_expand(p + seq!['$']) == spec_expand(p),
        spec_expand(p) matches Ok(a0) ==> spec_expand(p + seq!['$']) matches Ok(a1) && a1.len()
            == a0.len() && (forall|i: int|
            0 <= i < a0.len() ==> #[trigger] a1[i] == a0[i] + seq!['$']),
    decreases p.len(),
{
    let q = p + seq!['$'];
    lemma_first_idx_append(p, seq!['$'], '(');
    assert(!has_char(seq!['$'], '(')) by {
        if has_char(seq!['$'], '(') {
            let w = choose|i: int| 0 <= i < 1 && seq!['$'][i] == '(';
            assert(seq!['$'][w] == '$');
        }
    }
    lemma_first_idx(p, '(');
    lemma_first_idx(seq!['$'], '(');
    let o = first_idx(p, '(');
    if o >= p.len() {
        assert(first_idx(seq!['$'], '(') == 1);
        assert(first_idx(q, '(') == p.len() + 1);
        assert(first_idx(q, '(') >= q.len());
        assert(spec_expand(q) == Ok::<Seq<Seq<char>>, ParseError>(seq![q]));
        assert(spec_expand(p) == Ok::<Seq<Seq<char>>, ParseError>(seq![p]));
    } else {
        assert(first_idx(q, '(') == o);
        assert(q.skip(o as int + 1) =~= p.skip(o as int + 1) + seq!['$']);
        lemma_first_idx_append(p.skip(o as int + 1), seq!['$'], ')');
        assert(!has_char(seq!['$'], ')')) by {
            if has_char(seq!['$'], ')') {
                let w = choose|i: int| 0 <= i < 1 && seq!['$'][i] == ')';
                assert(seq!['$'][w] == '$');
            }
        }
        lemma_first_idx(p.skip(o as int + 1), ')');
        lemma_first_idx(seq!['$'], ')');
        let d = first_idx(p.skip(o as int + 1), ')');
        if d >= p.skip(o as int + 1).len() {
            assert(first_idx(seq!['$'], ')') == 1);
            assert(first_idx(q.skip(o as int + 1), ')') >= q.skip(o as int + 1).len());
            assert(spec_expand(q) == Err::<Seq<Seq<char>>, ParseError>(ParseError::Unclosed('(')));
            assert(spec_expand(p) == Err::<Seq<Seq<char>>, ParseError>(ParseError::Unclosed('(')));
        } else {
            let close = o + 1 + d;
            assert(first_idx(q.skip(o as int + 1), ')') == d);
            assert(q.take(o as int) =~= p.take(o as int));
            assert(q.subrange(o as int + 1, close as int) =~= p.subrange(
                o as int + 1,
                close as int,
            ));
            assert(q.skip(close as int + 1) =~= p.skip(close as int + 1) + seq!['$']);
            lemma_expand_dollar(p.skip(close as int + 1));
            match spec_expand(p.skip(close as int + 1)) {
                Err(e) => {},
                Ok(rests) => {
                    let rests1 = spec_expand(p.skip(close as int + 1) + seq!['$'])->Ok_0;
                    lemma_cross_concat_rests(
                        p.take(o as int),
                        split_bars(p.subrange(o as int + 1, close as int)),
                        rests1,
                        rests,
                        seq!['$'],
                    );
                },
            }
        }
    }
}

/// Anchor detection on one alternative: a leading `^` and a trailing `$`
/// are stripped, both at most once, and the rest is the body.
pub open spec fn detect_anchor(a: Seq<char>) -> (Option<Anchor>, Seq<char>) {
    let sc = a.len() > 0 && a[0] == '^';
    let ec = a.len() > 0 && a[a.len() - 1] == '$';
    if sc && ec {
        (Some(Anchor::Both), a.subrange(1, a.len() - 1))
    } else if sc {
        (Some(Anchor::Start), a.skip(1))
    } else if ec {
        (Some(Anchor::End), a.take(a.len() - 1))
    } else {
        (None, a)
    }
}

/// One atom read at the head of a non-empty body, and the index just after
/// it. `\` must be followed by `d`, `w` or `\`; `[`, optionally followed by
/// `^`, collects literal characters up to the first `]`; any other
/// character is a literal, `.` included.
pub open spec fn spec_atom_at(b: Seq<char>) -> Result<(AtomModel, int), ParseError> {
    if b.len() == 0 {
        Err(ParseError::UnexpectedEof)
    } else if b[0] == '\\' {
        if b.len() < 2 {
            Err(ParseError::UnexpectedEof)
        } else if b[1] == 'd' {
            Ok((AtomModel::Class(CharClass::Digit), 2))
        } else if b[1] == 'w' {
            Ok((AtomModel::Class(CharClass::Identifier), 2))
        } else if b[1] == '\\' {
            Ok((AtomModel::Literal('\\'), 2))
        } else {
            Err(ParseError::InvalidEscape(b[1]))
        }
    } else if b[0] == '[' {
        let inverted = b.len() >= 2 && b[1] == '^';
        let start: int = if inverted {
            2
        } else {
            1
        };
        let d = first_idx(b.skip(start), ']');
        if d >= b.skip(start).len() {
            Err(ParseError::Unclosed('['))
        } else {
            let lits = b.subrange(start, start + d);
            if inverted {
                Ok((AtomModel::NoneOf(lits), start + d + 1))
            } else {
                Ok((AtomModel::OneOf(lits), start + d + 1))
            }
        }
    } else {
        Ok((AtomModel::Literal(b[0]), 1))
    }
}

/// Prepend a token to a tokenisation result.
pub open spec fn cons_token(
    t: TokenModel,
    r: Result<Seq<TokenModel>, ParseError>,
) -> Result<Seq<TokenModel>, ParseError> {
    match r {
        Ok(ts) => Ok(seq![t] + ts),
        Err(e) => Err(e),
    }
}

/// Tokenise a body: read one atom, attach a `+` or `?` that follows it, and
/// continue. Anchors were already stripped, so `^` and `$` here are plain
/// literals.
pub open spec fn spec_tokens(b: Seq<char>) -> Result<Seq<TokenModel>, ParseError>
    decreases b.len(),
{
    if b.len() == 0 {
        Ok(Seq::empty())
    } else {
        match spec_atom_at(b) {
            Err(e) => Err(e),
            Ok((atom, next)) => if 1 <= next <= b.len() {
                if next < b.len() && b[next] == '+' {
                    cons_token(TokenModel::OneOrMore(atom), spec_tokens(b.skip(next + 1)))
                } else if next < b.len() && b[next] == '?' {
                    cons_token(TokenModel::ZeroOrOne(atom), spec_tokens(b.skip(next + 1)))
                } else {
                    cons_token(TokenModel::Atom(atom), spec_tokens(b.skip(next)))
                }
            } else {
                // An atom never reports an end index outside the body; see
                // `lemma_spec_atom_at_bounds`.
                Err(ParseError::UnexpectedEof)
            },
        }
    }
}

/// The atom's end index stays within the body.
pub proof fn lemma_spec_atom_at_bounds(b: Seq<char>)
    requires
        b.len() > 0,
        spec_atom_at(b) is Ok,
    ensures
        1 <= spec_atom_at(b)->Ok_0.1 <= b.len(),
{
    if b[0] == '\\' {
    } else if b[0] == '[' {
        let inverted = b.len() >= 2 && b[1] == '^';
        let start: int = if inverted {
            2
        } else {
            1
        };
        lemma_first_idx(b.skip(start), ']');
    } else {
    }
}

/// The parse of one alternative: its anchors are detected and stripped, an
/// empty body is refused, the body is tokenised, and the body of an
/// end-anchored alternative is stored reversed.
pub open spec fn spec_subpattern(a: Seq<char>) -> Result<SubPatternModel, ParseError> {
    let (anchor, body) = detect_anchor(a);
    if body.len() == 0 {
        Err(ParseError::InvalidAnchor)
    } else {
        match spec_tokens(body) {
            Err(e) => Err(e),
            Ok(ts) => Ok(
                SubPatternModel {
                    anchor,
                    tokens: if anchor == Some(Anchor::End) {
                        ts.reverse()
                    } else {
                        ts
                    },
                },
            ),
        }
    }
}

/// The parses of all alternatives, stopping at the first error.
pub open spec fn spec_subpatterns(alts: Seq<Seq<char>>) -> Result<
    Seq<SubPatternModel>,
    ParseError,
>
    decreases alts.len(),
{
    if alts.len() == 0 {
        Ok(Seq::empty())
    } else {
        match spec_subpattern(alts[0]) {
            Err(e) => Err(e),
            Ok(m) => match spec_subpatterns(alts.skip(1)) {
                Err(e) => Err(e),
                Ok(ms) => Ok(seq![m] + ms),
            },
        }
    }
}

/// The parse of a whole pattern: expansion into alternatives, then the
/// parse of each.
pub open spec fn spec_parse(s: Seq<char>) -> Result<PatternModel, ParseError> {
    match spec_expand(s) {
        Err(e) => Err(e),
        Ok(alts) => match spec_subpatterns(alts) {
            Err(e) => Err(e),
            Ok(subs) => Ok(PatternModel { subs }),
        },
    }
}

} // verus!
