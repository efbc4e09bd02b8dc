//! Parser tests: each pattern string parses to the expected tree.

use grep_engine::ast::{CharClass, GroupClass, Pattern, SubPattern, Token};

#[test]
fn test_parsing_digit_class() {
    let s = r"\d";
    let parsed: Pattern = s.parse().unwrap();

    let expected = Pattern {
        sub_patterns: vec![SubPattern {
            tokens: vec![Token::CharClass(CharClass::Digit)],
        }],
    };
    assert_eq!(parsed, expected);
}

#[test]
fn test_parsing_identifier_class() {
    let s = r"\w";
    let parsed: Pattern = s.parse().unwrap();
    let expected = Pattern {
        sub_patterns: vec![SubPattern {
            tokens: vec![Token::CharClass(CharClass::Identifier)],
        }],
    };
    assert_eq!(parsed, expected);
}

#[test]
fn test_parsing_literals() {
    let s = "abc";
    let parsed: Pattern = s.parse().unwrap();

    let expected = Pattern {
        sub_patterns: vec![SubPattern {
            tokens: vec![
                Token::Literal('a'),
                Token::Literal('b'),
                Token::Literal('c'),
            ],
        }],
    };

    assert_eq!(parsed, expected);
}

#[test]
fn test_parsing_one_class() {
    let s = "[abc]";
    let parsed: Pattern = s.parse().unwrap();

    let expected = Pattern {
        sub_patterns: vec![SubPattern {
            tokens: vec![Token::GroupClass(GroupClass::MatchOne(vec![
                Token::Literal('a'),
                Token::Literal('b'),
                Token::Literal('c'),
            ]))],
        }],
    };
    assert_eq!(parsed, expected);
}

#[test]
fn test_parsing_sol() {
    let s = "^abc\\d\\w";
    let parsed: Pattern = s.parse().unwrap();

    let expected = Pattern {
        sub_patterns: vec![SubPattern {
            tokens: vec![Token::SOL(vec![
                Token::Literal('a'),
                Token::Literal('b'),
                Token::Literal('c'),
                Token::CharClass(CharClass::Digit),
                Token::CharClass(CharClass::Identifier),
            ])],
        }],
    };

    assert_eq!(parsed, expected);
}

#[test]
fn test_parsing_eol() {
    let s = "abc\\d\\w$";
    let parsed: Pattern = s.parse().unwrap();

    let expected = Pattern {
        sub_patterns: vec![SubPattern {
            tokens: vec![Token::EOL(vec![
                Token::CharClass(CharClass::Identifier),
                Token::CharClass(CharClass::Digit),
                Token::Literal('c'),
                Token::Literal('b'),
                Token::Literal('a'),
            ])],
        }],
    };

    assert_eq!(parsed, expected);
}

#[test]
fn test_parsing_combination() {
    let s = r"a\d[bc]\w";
    let parsed: Pattern = s.parse().unwrap();

    let expected = Pattern {
        sub_patterns: vec![SubPattern {
            tokens: vec![
                Token::Literal('a'),
                Token::CharClass(CharClass::Digit),
                Token::GroupClass(GroupClass::MatchOne(vec![
                    Token::Literal('b'),
                    Token::Literal('c'),
                ])),
                Token::CharClass(CharClass::Identifier),
            ],
        }],
    };

    assert_eq!(parsed, expected);
}

#[test]
fn test_parsing_none_class() {
    let s = "[^abc]";
    let parsed: Pattern = s.parse().unwrap();
    let expected = Pattern {
        sub_patterns: vec![SubPattern {
            tokens: vec![Token::GroupClass(GroupClass::MatchNone(vec![
                Token::Literal('a'),
                Token::Literal('b'),
                Token::Literal('c'),
            ]))],
        }],
    };

    assert_eq!(parsed, expected);
}

#[test]
fn test_parsing_one_or_more() {
    let s = "abc+\\w\\d";
    let parsed: Pattern = s.parse().unwrap();
    let expected = Pattern {
        sub_patterns: vec![SubPattern {
            tokens: vec![
                Token::Literal('a'),
                Token::Literal('b'),
                Token::OneORMore(Box::new(Token::Literal('c'))),
                Token::CharClass(CharClass::Identifier),
                Token::CharClass(CharClass::Digit),
            ],
        }],
    };

    assert_eq!(parsed, expected);
}

#[test]
fn test_parsing_one_or_none() {
    let s = "abc?\\w\\d";
    let parsed: Pattern = s.parse().unwrap();

    let expected = Pattern {
        sub_patterns: vec![SubPattern {
            tokens: vec![
                Token::Literal('a'),
                Token::Literal('b'),
                Token::OneOrNone(Box::new(Token::Literal('c'))),
                Token::CharClass(CharClass::Identifier),
                Token::CharClass(CharClass::Digit),
            ],
        }],
    };

    assert_eq!(parsed, expected);
}

#[test]
fn test_parsing_alternation() {
    // Alternation lives only inside a group: a bare `|` is a literal, so
    // this pattern is a single alternative of seven literal characters.
    let s = "cat|dog";
    let parsed: Pattern = s.parse().unwrap();

    let expected = Pattern {
        sub_patterns: vec![SubPattern {
            tokens: vec![
                Token::Literal('c'),
                Token::Literal('a'),
                Token::Literal('t'),
                Token::Literal('|'),
                Token::Literal('d'),
                Token::Literal('o'),
                Token::Literal('g'),
            ],
        }],
    };
    assert_eq!(parsed, expected);
}

#[test]
fn test_parsing_grouped_alternation() {
    let s = "(cat|dog)";
    let parsed: Pattern = s.parse().unwrap();

    let expected = Pattern {
        sub_patterns: vec![
            SubPattern {
                tokens: vec![
                    Token::Literal('c'),
                    Token::Literal('a'),
                    Token::Literal('t'),
                ],
            },
            SubPattern {
                tokens: vec![
                    Token::Literal('d'),
                    Token::Literal('o'),
                    Token::Literal('g'),
                ],
            },
        ],
    };
    assert_eq!(parsed, expected);
}

#[test]
fn test_parsing_one_or_more_digit() {
    let s = "a\\d+c";
    let parsed: Pattern = s.parse().unwrap();

    let expected = Pattern {
        sub_patterns: vec![SubPattern {
            tokens: vec![
                Token::Literal('a'),
                Token::OneORMore(Box::new(Token::CharClass(CharClass::Digit))),
                Token::Literal('c'),
            ],
        }],
    };
    assert_eq!(parsed, expected);
}

#[test]
fn test_parsing_group_expansion() {
    let s = "^I see (cat|dog)s$";
    let parsed: Pattern = s.parse().unwrap();
    assert_eq!(parsed.sub_patterns.len(), 2);
    let one: Pattern = "^I see cats$".parse().unwrap();
    let two: Pattern = "^I see dogs$".parse().unwrap();
    assert_eq!(parsed.sub_patterns[0], one.sub_patterns[0]);
    assert_eq!(parsed.sub_patterns[1], two.sub_patterns[0]);
}

#[test]
fn test_parsing_quantified_group_class() {
    let s = "[ab]+";
    let parsed: Pattern = s.parse().unwrap();
    let expected = Pattern {
        sub_patterns: vec![SubPattern {
            tokens: vec![Token::OneORMore(Box::new(Token::GroupClass(
                GroupClass::MatchOne(vec![Token::Literal('a'), Token::Literal('b')]),
            )))],
        }],
    };
    assert_eq!(parsed, expected);
}

#[test]
fn test_parsing_exact_anchor() {
    let s = "^ab$";
    let parsed: Pattern = s.parse().unwrap();
    let expected = Pattern {
        sub_patterns: vec![SubPattern {
            tokens: vec![Token::Exact(vec![
                Token::Literal('a'),
                Token::Literal('b'),
            ])],
        }],
    };
    assert_eq!(parsed, expected);
}
