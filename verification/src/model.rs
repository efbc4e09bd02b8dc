//! The mathematical model of a parsed pattern. Executable `Token`s nest
//! vectors, so the model mirrors them with `Seq`-based ghost types, and the
//! `view_*` functions map a well-formed executable tree onto its model. All
//! contracts of the parser and the matcher are stated over this model.

use vstd::prelude::*;

use crate::ast::{Anchor, CharClass, GroupClass, Pattern, SubPattern, Token};

verus! {

/// A token that consumes exactly one input character.
pub enum AtomModel {
    /// A literal character; `'.'` is the wildcard and matches any character.
    Literal(char),
    /// `\d` or `\w`.
    Class(CharClass),
    /// `[...]`: one character among these.
    OneOf(Seq<char>),
    /// `[^...]`: one character not among these.
    NoneOf(Seq<char>),
}

/// One element of a sub-pattern's body: an atom, possibly quantified.
pub enum TokenModel {
    Atom(AtomModel),
    /// `+`: one or more consecutive occurrences.
    OneOrMore(AtomModel),
    /// `?`: zero or one occurrence.
    ZeroOrOne(AtomModel),
}

/// One alternative: its anchor kind and its body. For an `End` anchor the
/// body is stored reversed, exactly as the executable tree stores it.
pub struct SubPatternModel {
    pub anchor: Option<Anchor>,
    pub tokens: Seq<TokenModel>,
}

/// A parsed pattern: the models of its alternatives, in order.
pub struct PatternModel {
    pub subs: Seq<SubPatternModel>,
}

/// The character a `Token::Literal` carries (arbitrary on other tokens).
pub open spec fn literal_char_of(t: Token) -> char {
    match t {
        Token::Literal(c) => c,
        _ => ' ',
    }
}

/// The characters listed in a bracket expression's token list.
pub open spec fn group_chars(lits: Seq<Token>) -> Seq<char> {
    lits.map_values(|t: Token| literal_char_of(t))
}

/// The model of a one-character token (arbitrary on non-atoms).
pub open spec fn view_atom(t: Token) -> AtomModel {
    match t {
        Token::Literal(c) => AtomModel::Literal(c),
        Token::CharClass(cc) => AtomModel::Class(cc),
        Token::GroupClass(GroupClass::MatchOne(lits)) => AtomModel::OneOf(group_chars(lits@)),
        Token::GroupClass(GroupClass::MatchNone(lits)) => AtomModel::NoneOf(group_chars(lits@)),
        _ => AtomModel::Literal(' '),
    }
}

/// The model of a body token (arbitrary on anchor tokens).
pub open spec fn view_token(t: Token) -> TokenModel {
    match t {
        Token::OneORMore(b) => TokenModel::OneOrMore(view_atom(*b)),
        Token::OneOrNone(b) => TokenModel::ZeroOrOne(view_atom(*b)),
        _ => TokenModel::Atom(view_atom(t)),
    }
}

/// The models of a body token sequence, pointwise.
pub open spec fn view_tokens(ts: Seq<Token>) -> Seq<TokenModel> {
    ts.map_values(|t: Token| view_token(t))
}

/// The model of an alternative: an anchored sub-pattern is the single
/// anchor token wrapping its body, an unanchored one is its token list.
pub open spec fn view_subpattern(sp: SubPattern) -> SubPatternModel {
    let ts = sp.tokens@;
    if ts.len() == 1 && ts[0] is SOL {
        SubPatternModel { anchor: Some(Anchor::Start), tokens: view_tokens(ts[0]->SOL_0@) }
    } else if ts.len() == 1 && ts[0] is EOL {
        SubPatternModel { anchor: Some(Anchor::End), tokens: view_tokens(ts[0]->EOL_0@) }
    } else if ts.len() == 1 && ts[0] is Exact {
        SubPatternModel { anchor: Some(Anchor::Both), tokens: view_tokens(ts[0]->Exact_0@) }
    } else {
        SubPatternModel { anchor: None, tokens: view_tokens(ts) }
    }
}

/// The model of a whole pattern.
pub open spec fn view_pattern(p: Pattern) -> PatternModel {
    PatternModel { subs: p.sub_patterns@.map_values(|sp: SubPattern| view_subpattern(sp)) }
}

/// A token that consumes exactly one character: a literal, a class, or a
/// bracket expression whose list holds only literals.
pub open spec fn wf_atom(t: Token) -> bool {
    match t {
        Token::Literal(_) => true,
        Token::CharClass(_) => true,
        Token::GroupClass(GroupClass::MatchOne(lits)) => forall|i: int|
            0 <= i < lits@.len() ==> lits@[i] is Literal,
        Token::GroupClass(GroupClass::MatchNone(lits)) => forall|i: int|
            0 <= i < lits@.len() ==> lits@[i] is Literal,
        _ => false,
    }
}

/// A body token: an atom or a quantifier wrapping an atom.
pub open spec fn wf_body_token(t: Token) -> bool {
    match t {
        Token::OneORMore(b) => wf_atom(*b),
        Token::OneOrNone(b) => wf_atom(*b),
        _ => wf_atom(t),
    }
}

/// Every token of the sequence is a body token.
pub open spec fn wf_body(ts: Seq<Token>) -> bool {
    forall|i: int| 0 <= i < ts.len() ==> wf_body_token(#[trigger] ts[i])
}

/// A sub-pattern as the parser produces it: a single anchor token wrapping
/// a non-empty body, or a non-empty body with no anchor token.
pub open spec fn wf_subpattern(sp: SubPattern) -> bool {
    let ts = sp.tokens@;
    if ts.len() == 1 && (ts[0] is SOL || ts[0] is EOL || ts[0] is Exact) {
        let inner = match ts[0] {
            Token::SOL(inner) => inner,
            Token::EOL(inner) => inner,
            Token::Exact(inner) => inner,
            _ => arbitrary(),
        };
        inner@.len() >= 1 && wf_body(inner@)
    } else {
        ts.len() >= 1 && wf_body(ts)
    }
}

/// A pattern as the parser produces it: at least one alternative, each
/// well-formed.
pub open spec fn wf_pattern(p: Pattern) -> bool {
    &&& p.sub_patterns@.len() >= 1
    &&& forall|i: int|
        0 <= i < p.sub_patterns@.len() ==> wf_subpattern(#[trigger] p.sub_patterns@[i])
}

} // verus!
