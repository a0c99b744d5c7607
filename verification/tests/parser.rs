use sd_archivemanager::ast::{Cell, Heading, Stmt, Table};
use sd_archivemanager::class_parser::parse_html_class;
use sd_archivemanager::lexer::{lex, Token};
use sd_archivemanager::parser::{parse_heading, parse_stmts, ParseError, ParseErrorKind};
use sd_archivemanager::table_parser::parse_table;

#[test]
fn test_header() {
    let input = "=== Header ===";
    let tokens = lex(input).unwrap();
    let result = parse_heading(&tokens).unwrap();
    assert_eq!(
        result,
        Heading {
            level: 3,
            text: "Header".to_string(),
        }
    );
    assert_eq!(result.to_string(), "=== Header ===");
}

#[test]
fn heading_level_two() {
    let tokens = lex("== A ==").unwrap();
    assert_eq!(
        parse_heading(&tokens).unwrap(),
        Heading {
            level: 2,
            text: "A".to_string(),
        }
    );
}

#[test]
fn heading_levels_with_padding() {
    for level in 1..6usize {
        let input = format!("{} some legal title {}", "=".repeat(level), "=".repeat(level));
        let tokens = lex(input.as_str()).unwrap();
        let heading = parse_heading(&tokens).unwrap();
        assert_eq!(heading.level, level);
        assert_eq!(heading.text, "some legal title");
        assert_eq!(heading.to_string(), input);
    }
}

#[test]
fn heading_trims_extra_whitespace() {
    let tokens = lex("==  Title  ==").unwrap();
    let heading = parse_heading(&tokens).unwrap();
    assert_eq!(heading.level, 2);
    assert_eq!(heading.text, "Title");
    assert_eq!(heading.to_string(), "== Title ==");
}

#[test]
fn heading_mismatch_rejected() {
    let tokens = lex("=== A ==").unwrap();
    let err = parse_heading(&tokens).unwrap_err();
    assert_eq!(
        err.kind,
        ParseErrorKind::DelimiterCountMismatch {
            expected: 3,
            found: 2,
        }
    );
}

#[test]
fn heading_errors() {
    let no_open = lex("plain words").unwrap();
    assert_eq!(
        parse_heading(&no_open).unwrap_err(),
        ParseError {
            at: 0,
            kind: ParseErrorKind::ExpectedHeading,
        }
    );
    let only_equals = lex("====").unwrap();
    assert_eq!(
        parse_heading(&only_equals).unwrap_err(),
        ParseError {
            at: 4,
            kind: ParseErrorKind::MissingHeadingText,
        }
    );
    let unterminated = lex("== A").unwrap();
    assert_eq!(
        parse_heading(&unterminated).unwrap_err().kind,
        ParseErrorKind::UnterminatedHeading
    );
    let trailing = lex("= A = B =").unwrap();
    assert_eq!(
        parse_heading(&trailing).unwrap_err().kind,
        ParseErrorKind::ExpectedEndOfInput
    );
}

#[test]
fn heading_keeps_index_marker_text() {
    // an index marker inside heading text survives the round trip:
    // its newline, sign and digits are all re-emitted
    let tokens = lex("= a\n§1 =").unwrap();
    let heading = parse_heading(&tokens).unwrap();
    assert_eq!(heading.level, 1);
    assert_eq!(heading.text, "a\n§1");
    assert_eq!(heading.to_string(), "= a\n§1 =");
}

#[test]
fn heading_parse_is_idempotent() {
    for input in ["==   Header   ==", "= Article 12 of the 3rd Code =", "==== a ===="] {
        let tokens = lex(input).unwrap();
        let first = parse_heading(&tokens).unwrap();
        let again = parse_heading(&lex(first.to_string().as_str()).unwrap()).unwrap();
        assert_eq!(first, again);
    }
}

#[test]
fn stmts_split_at_index_markers() {
    let tokens = lex("Intro words\n§1 alpha\n§2 beta").unwrap();
    let stmts = parse_stmts(&tokens);
    assert_eq!(
        stmts,
        vec![
            Stmt::Preamble(vec![
                Token::Word("Intro".to_string()),
                Token::Whitespace,
                Token::Word("words".to_string()),
            ]),
            Stmt::Clause {
                text: vec![Token::Whitespace, Token::Word("alpha".to_string())],
                index: 1,
                changes: false,
            },
            Stmt::Clause {
                text: vec![Token::Whitespace, Token::Word("beta".to_string())],
                index: 2,
                changes: false,
            },
        ]
    );
}

#[test]
fn stmt_serialization() {
    let clause = Stmt::Clause {
        text: vec![Token::Word("hi".to_string())],
        index: 7,
        changes: false,
    };
    assert_eq!(clause.to_string(), "§7. hi\n\n");
    let preamble = Stmt::Preamble(vec![
        Token::Word("a".to_string()),
        Token::Whitespace,
        Token::Word("b".to_string()),
    ]);
    assert_eq!(preamble.to_string(), "a b<br>");
}

#[test]
fn table_canonical_form() {
    let input = "{| class\n|-\n! Name\n|-\n| val\n|-\n|}";
    let tokens = lex(input).unwrap();
    let table = parse_table(&tokens).unwrap();
    assert_eq!(table.style, "class");
    assert_eq!(
        table.header,
        Some(vec![Cell::new(vec![Token::Word("Name".to_string())])])
    );
    assert_eq!(
        table.cells,
        vec![vec![Cell::new(vec![Token::Word("val".to_string())])]]
    );
    assert_eq!(table.to_string(), input);
}

#[test]
fn table_without_header() {
    let input = "{| wikitable\n|-\n| a\n| b\n|-\n|}";
    let tokens = lex(input).unwrap();
    let table = parse_table(&tokens).unwrap();
    assert_eq!(table.header, None);
    assert_eq!(
        table.cells,
        vec![vec![
            Cell::new(vec![Token::Word("a".to_string())]),
            Cell::new(vec![Token::Word("b".to_string())]),
        ]]
    );
    assert_eq!(table.to_string(), input);
}

#[test]
fn table_errors() {
    let unterminated = lex("{| s\n|-\n| a\n|-").unwrap();
    assert_eq!(
        parse_table(&unterminated).unwrap_err().kind,
        ParseErrorKind::UnterminatedTable
    );
    let no_start = lex("| a |}").unwrap();
    assert_eq!(
        parse_table(&no_start).unwrap_err().kind,
        ParseErrorKind::ExpectedTableStart
    );
    let late_header = lex("{| s\n|-\n| a\n! h\n|-\n|}").unwrap();
    assert_eq!(
        parse_table(&late_header).unwrap_err().kind,
        ParseErrorKind::MisplacedHeaderCell
    );
    let stray = lex("{| s\nstray\n|}").unwrap();
    assert_eq!(
        parse_table(&stray).unwrap_err().kind,
        ParseErrorKind::UnexpectedToken
    );
}

#[test]
fn html_class_with_attributes() {
    let tokens = lex("<div a=b>text</div>").unwrap();
    let class = parse_html_class(&tokens).unwrap();
    assert_eq!(class.name, "div");
    assert_eq!(class.attributes, vec![("a".to_string(), "b".to_string())]);
    assert_eq!(class.text, vec![Token::Word("text".to_string())]);
}

#[test]
fn html_class_name_mismatch_rejected() {
    let tokens = lex("<div>x</span>").unwrap();
    assert_eq!(
        parse_html_class(&tokens).unwrap_err().kind,
        ParseErrorKind::ClassNameMismatch
    );
}

#[test]
fn html_class_errors() {
    let unterminated = lex("<div>x").unwrap();
    assert_eq!(
        parse_html_class(&unterminated).unwrap_err().kind,
        ParseErrorKind::UnterminatedClass
    );
    let malformed = lex("<div a>x</div>").unwrap();
    assert_eq!(
        parse_html_class(&malformed).unwrap_err().kind,
        ParseErrorKind::MalformedAttribute
    );
    let no_open = lex("div>x</div>").unwrap();
    assert_eq!(
        parse_html_class(&no_open).unwrap_err().kind,
        ParseErrorKind::ExpectedClassOpen
    );
    let no_name = lex("<>x</div>").unwrap();
    assert_eq!(
        parse_html_class(&no_name).unwrap_err().kind,
        ParseErrorKind::ExpectedClassName
    );
}

#[test]
fn table_used_in_judgment_archive() {
    // the row layout the archive writes for case-law pages
    let table = Table {
        style: "wikitable".to_string(),
        header: None,
        cells: vec![vec![
            Cell::new(vec![
                Token::Word("Date".to_string()),
                Token::Whitespace,
                Token::Word("of".to_string()),
                Token::Whitespace,
                Token::Word("judgment".to_string()),
            ]),
            Cell::new(vec![
                Token::Word("19th".to_string()),
                Token::Whitespace,
                Token::Word("December".to_string()),
                Token::Whitespace,
                Token::Word("2022".to_string()),
            ]),
        ]],
    };
    assert_eq!(
        table.to_string(),
        "{| wikitable\n|-\n| Date of judgment\n| 19th December 2022\n|-\n|}"
    );
}
