use sd_archivemanager::lexer::{lex, to_string, LexError, Token};

#[test]
fn test_tokens() {
    let test_cases = vec![
        ("=", Some(Token::Equal)),
        ("\n", Some(Token::Newline('\n'))),
        (
            "\n§123",
            Some(Token::Index {
                value: 123,
                newline: '\n',
                section_sign: true,
                digits: "123".to_string(),
            }),
        ),
        (
            "\n123",
            Some(Token::Index {
                value: 123,
                newline: '\n',
                section_sign: false,
                digits: "123".to_string(),
            }),
        ),
        (" ", Some(Token::Whitespace)),
        ("\t", Some(Token::Tabspace)),
        ("    ", Some(Token::Tabspace)),
        ("hello", Some(Token::Word("hello".to_string()))),
        ("!", Some(Token::Word("!".to_string()))),
        ("-", Some(Token::Word("-".to_string()))),
        (".", Some(Token::Word(".".to_string()))),
        ("'''", Some(Token::Bold)),
        ("''", Some(Token::Italic)),
        ("[[", Some(Token::InternalLink)),
        ("]]", Some(Token::InternalLinkEnd)),
        ("[", Some(Token::ExternalLink)),
        ("]", Some(Token::ExternalLinkEnd)),
        ("----", Some(Token::Separator)),
        ("{|", Some(Token::TableStart)),
        ("|}", Some(Token::TableEnd)),
        ("\n! ", Some(Token::TableHeading)),
        ("|", Some(Token::Pipe(0))),
        ("|-", Some(Token::TableSeparator)),
    ];

    for (input, expected) in test_cases {
        println!("Testing input: {:#?}", input);
        let tokens = lex(input).unwrap();
        let mut iter = tokens.into_iter();
        assert_eq!(iter.next(), expected);
        assert_eq!(iter.next(), None);
    }
}

#[test]
fn test_complex_expr() {
    let tests = vec![
        (
            "Hello World",
            vec![
                Token::Word("Hello".to_string()),
                Token::Whitespace,
                Token::Word("World".to_string()),
            ],
        ),
        (
            "|-
| Date of judgment
| 19th December 2022
|-",
            vec![
                Token::TableSeparator,
                Token::Newline('\n'),
                Token::Pipe(1),
                Token::Word("Date".to_string()),
                Token::Whitespace,
                Token::Word("of".to_string()),
                Token::Whitespace,
                Token::Word("judgment".to_string()),
                Token::Newline('\n'),
                Token::Pipe(1),
                Token::Word("19th".to_string()),
                Token::Whitespace,
                Token::Word("December".to_string()),
                Token::Whitespace,
                Token::Word("2022".to_string()),
                Token::Newline('\n'),
                Token::TableSeparator,
            ],
        ),
        ("===", vec![Token::Equal; 3]),
    ];
    for (input, expected) in tests {
        let tokens = lex(input).unwrap();
        for (token, expected_token) in tokens.into_iter().zip(expected) {
            assert_eq!(token, expected_token);
        }
    }
}

#[test]
fn round_trip_plain_text() {
    let inputs = vec![
        "Hello World",
        "'''bold''' and ''italic''",
        "[[link]] and [ext]",
        "a\nb\tc",
        "{| style |}",
        "----",
        "<div>x</div>",
        // a pipe keeps its trailing spaces
        "x |  y",
        // an index marker keeps its newline, sign and leading zeros
        "a\n§007 b",
        "a\n42 b",
        // a carriage return stays a carriage return
        "a\r\nb",
    ];
    for input in inputs {
        let tokens = lex(input).unwrap();
        assert_eq!(to_string(tokens), input);
    }
}

#[test]
fn tabspace_normalizes_four_spaces() {
    let tokens = lex("a    b").unwrap();
    assert_eq!(
        tokens,
        vec![
            Token::Word("a".to_string()),
            Token::Tabspace,
            Token::Word("b".to_string()),
        ]
    );
    assert_eq!(to_string(tokens), "a\tb");
}

#[test]
fn index_token_captures_value() {
    assert_eq!(
        lex("\n§42 rest").unwrap(),
        vec![
            Token::Index {
                value: 42,
                newline: '\n',
                section_sign: true,
                digits: "42".to_string(),
            },
            Token::Whitespace,
            Token::Word("rest".to_string()),
        ]
    );
    // the marker re-emits its full lexeme: newline, sign and digits
    assert_eq!(
        to_string(vec![Token::Index {
            value: 123,
            newline: '\n',
            section_sign: true,
            digits: "123".to_string(),
        }]),
        "\n§123"
    );
}

#[test]
fn pipe_consumes_trailing_spaces() {
    assert_eq!(
        lex("x |  y").unwrap(),
        vec![
            Token::Word("x".to_string()),
            Token::Whitespace,
            Token::Pipe(2),
            Token::Word("y".to_string()),
        ]
    );
}

#[test]
fn maximal_munch_prefers_longer_lexemes() {
    // five dashes are a word, four are a separator
    assert_eq!(lex("-----").unwrap(), vec![Token::Word("-----".to_string())]);
    assert_eq!(lex("----").unwrap(), vec![Token::Separator]);
    // three quotes are bold, never italic plus a stray quote
    assert_eq!(lex("'''").unwrap(), vec![Token::Bold]);
    // a word run swallows a pipe followed by a word character
    assert_eq!(lex("|x").unwrap(), vec![Token::Word("|x".to_string())]);
}

#[test]
fn unrecognized_byte_fails_with_offset() {
    assert_eq!(lex("ab~cd").unwrap_err(), LexError { offset: 2 });
    assert_eq!(lex("§5").unwrap_err(), LexError { offset: 0 });
    assert_eq!(lex("'x").unwrap_err(), LexError { offset: 0 });
}

#[test]
fn oversized_index_fails() {
    // 2^64 does not fit the machine's word
    assert!(lex("\n§18446744073709551616").is_err());
}
