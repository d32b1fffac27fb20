use verilog_format::lexer::{
    delimiter, holds_at, joins, keyword, operator, scan, token, tokens, CharClass, LexError, Token,
};

fn chars(text: &str) -> Vec<char> {
    text.chars().collect()
}

fn read(text: &str) -> Vec<(&str, Token)> {
    tokens(text).unwrap()
}

fn kinds(text: &str) -> Vec<Token> {
    read(text).into_iter().map(|t| t.1).collect()
}

fn texts(text: &str) -> Vec<&str> {
    read(text).into_iter().map(|t| t.0).collect()
}

#[test]
fn empty_text_has_no_tokens() {
    assert_eq!(tokens(""), Ok(vec![]));
}

#[test]
fn blanks_alone_have_no_tokens() {
    assert_eq!(tokens("  \t  "), Ok(vec![]));
}

#[test]
fn blanks_around_tokens_are_passed_over() {
    assert_eq!(texts(" \twire \t x ;  "), vec!["wire", "x", ";"]);
}

#[test]
fn every_keyword_is_read_as_its_kind() {
    let words = [
        ("module", Token::Module),
        ("endmodule", Token::EndModule),
        ("begin", Token::Begin),
        ("end", Token::End),
        ("parameter", Token::Parameter),
        ("generate", Token::Generate),
        ("endgenerate", Token::EndGenerate),
        ("task", Token::Task),
        ("endtask", Token::EndTask),
        ("initial", Token::Initial),
        ("input", Token::Input),
        ("output", Token::Output),
        ("wire", Token::Wire),
        ("reg", Token::Reg),
        ("logic", Token::Logic),
        ("if", Token::If),
        ("else", Token::Else),
        ("always", Token::Always),
        ("always_comb", Token::AlwaysComb),
        ("always_ff", Token::AlwaysFf),
    ];
    for (word, kind) in words {
        assert_eq!(read(word), vec![(word, kind)]);
        assert_eq!(kind.fixed_text(), word);
    }
}

#[test]
fn keyword_needs_the_end_of_a_word() {
    assert_eq!(kinds("endx"), vec![Token::Identifier]);
    assert_eq!(kinds("end9"), vec![Token::Identifier]);
    assert_eq!(kinds("end_"), vec![Token::Identifier]);
    assert_eq!(kinds("modules"), vec![Token::Identifier]);
    assert_eq!(kinds("always_c"), vec![Token::Identifier]);
    assert_eq!(texts("always_c"), vec!["always_c"]);
}

#[test]
fn keyword_needs_the_end_of_a_word_in_any_script() {
    let text: Vec<char> = "reg\u{e9}".chars().collect();
    assert_eq!(keyword(&text, 0), None);
    assert_eq!(token(&text, 0), Some((Token::Identifier, 3)));
    assert_eq!(
        tokens("reg\u{e9}"),
        Err(LexError { position: 3, remainder: "\u{e9}" })
    );
    for follower in ['\u{e9}', '\u{663}', '\u{4eac}', '\u{be}', '\u{2460}'] {
        let text: Vec<char> = format!("end{}", follower).chars().collect();
        assert_eq!(keyword(&text, 0), None);
        assert_eq!(token(&text, 0), Some((Token::Identifier, 3)));
    }
    for follower in ['\u{1f49d}', '\u{a0}', '\u{2014}', '$', '-', ' '] {
        let text: Vec<char> = format!("end{}", follower).chars().collect();
        assert_eq!(keyword(&text, 0), Some((Token::End, 3)));
    }
}

#[test]
fn joins_tells_what_goes_on_a_word() {
    for c in ['a', 'Z', '0', '9', '_', '\u{e9}', '\u{663}', '\u{4eac}', '\u{be}'] {
        assert!(joins(c));
    }
    for c in ['$', '-', ' ', '\n', '`', '\u{7f}', '\u{80}', '\u{1f49d}', '\u{a0}'] {
        assert!(!joins(c));
    }
}

#[test]
fn assign_and_posedge_are_identifiers() {
    assert_eq!(
        read("assign posedge"),
        vec![
            ("assign", Token::Identifier),
            ("posedge", Token::Identifier),
        ]
    );
    assert_eq!(Token::Assign.fixed_text(), "");
    assert_eq!(Token::Posedge.fixed_text(), "");
}

#[test]
fn keyword_ends_before_a_dollar_sign() {
    assert_eq!(
        read("reg$x"),
        vec![("reg", Token::Reg), ("$x", Token::Identifier)]
    );
}

#[test]
fn longer_keyword_wins_over_its_prefix() {
    assert_eq!(kinds("end endtask endmodule endgenerate"), vec![
        Token::End,
        Token::EndTask,
        Token::EndModule,
        Token::EndGenerate
    ]);
    assert_eq!(kinds("always always_ff always_comb"), vec![
        Token::Always,
        Token::AlwaysFf,
        Token::AlwaysComb
    ]);
}

#[test]
fn every_delimiter_is_read_as_its_kind() {
    assert_eq!(kinds("#()[]{}:,;."), vec![
        Token::Sharp,
        Token::LParen,
        Token::RParen,
        Token::LBracket,
        Token::RBracket,
        Token::LBraces,
        Token::RBraces,
        Token::Colon,
        Token::Comma,
        Token::Semicolon,
        Token::Dot,
    ]);
}

#[test]
fn every_operator_is_read_as_its_kind() {
    assert_eq!(kinds("= @ / - ! + ~ * ? < > == <= >= &&"), vec![
        Token::OpEqual,
        Token::OpAt,
        Token::OpDivide,
        Token::OpMinus,
        Token::OpNot,
        Token::OpPlus,
        Token::OpInvert,
        Token::OpMultiply,
        Token::OpChoice,
        Token::OpLessThan,
        Token::OpGreaterThan,
        Token::OpEqualTo,
        Token::OpAssign,
        Token::OpGreaterEqual,
        Token::OpAnd,
    ]);
}

#[test]
fn longest_operator_is_taken() {
    assert_eq!(texts("a<=b"), vec!["a", "<=", "b"]);
    assert_eq!(texts("a===b"), vec!["a", "==", "=", "b"]);
    assert_eq!(texts("a>==b"), vec!["a", ">=", "=", "b"]);
    assert_eq!(kinds("< ="), vec![Token::OpLessThan, Token::OpEqual]);
}

#[test]
fn single_ampersand_is_no_token() {
    assert_eq!(
        tokens("a & b"),
        Err(LexError { position: 2, remainder: "& b" })
    );
}

#[test]
fn identifiers_take_letters_digits_dollar_and_underscore() {
    assert_eq!(read("_a1$b"), vec![("_a1$b", Token::Identifier)]);
    assert_eq!(read("$display"), vec![("$display", Token::Identifier)]);
    assert_eq!(texts("a-b"), vec!["a", "-", "b"]);
}

#[test]
fn numbers_plain_and_sized() {
    assert_eq!(read("42"), vec![("42", Token::Number)]);
    assert_eq!(read("8'hFF"), vec![("8'hFF", Token::Number)]);
    assert_eq!(read("'d3"), vec![("'d3", Token::Number)]);
    assert_eq!(read("'B01"), vec![("'B01", Token::Number)]);
    assert_eq!(read("1_6'o7_7"), vec![("1_6'o7_7", Token::Number)]);
    assert_eq!(read("8'b1010_1010"), vec![("8'b1010_1010", Token::Number)]);
    assert_eq!(read("1_000"), vec![("1_000", Token::Number)]);
    assert_eq!(read("9abc"), vec![("9abc", Token::Number)]);
}

#[test]
fn number_stops_at_the_first_other_character() {
    assert_eq!(
        read("9abcg"),
        vec![("9abc", Token::Number), ("g", Token::Identifier)]
    );
    assert_eq!(texts("1.5"), vec!["1", ".", "5"]);
}

#[test]
fn width_does_not_start_with_zero() {
    assert_eq!(
        read("0'h1"),
        vec![("0", Token::Number), ("'h1", Token::Number)]
    );
}

#[test]
fn base_without_digits_is_no_token() {
    assert_eq!(
        tokens("12'hz"),
        Err(LexError { position: 2, remainder: "'hz" })
    );
    assert_eq!(tokens("'"), Err(LexError { position: 0, remainder: "'" }));
    assert_eq!(tokens("'x1"), Err(LexError { position: 0, remainder: "'x1" }));
}

#[test]
fn strings_run_to_the_next_quote() {
    assert_eq!(
        read("\"a b\" \"\" \"x\ny\""),
        vec![
            ("\"a b\"", Token::String),
            ("\"\"", Token::String),
            ("\"x\ny\"", Token::String),
        ]
    );
}

#[test]
fn open_string_is_no_token() {
    assert_eq!(
        tokens("x = \"abc"),
        Err(LexError { position: 4, remainder: "\"abc" })
    );
}

#[test]
fn newlines_are_tokens() {
    assert_eq!(
        read("a\n\r\n b"),
        vec![
            ("a", Token::Identifier),
            ("\n", Token::Newline),
            ("\r\n", Token::Newline),
            ("b", Token::Identifier),
        ]
    );
}

#[test]
fn carriage_return_alone_is_no_token() {
    assert_eq!(
        tokens("a\rb"),
        Err(LexError { position: 1, remainder: "\rb" })
    );
}

#[test]
fn comment_runs_to_the_end_of_the_line() {
    assert_eq!(
        read("a // b c \n// d"),
        vec![
            ("a", Token::Identifier),
            ("// b c ", Token::Comment),
            ("\n", Token::Newline),
            ("// d", Token::Comment),
        ]
    );
    assert_eq!(read("//"), vec![("//", Token::Comment)]);
    assert_eq!(kinds("/ /"), vec![Token::OpDivide, Token::OpDivide]);
}

#[test]
fn comment_keeps_a_carriage_return() {
    assert_eq!(
        read("// c\r\nx"),
        vec![
            ("// c\r", Token::Comment),
            ("\n", Token::Newline),
            ("x", Token::Identifier),
        ]
    );
}

#[test]
fn comment_may_hold_any_character() {
    assert_eq!(
        read("// é ü ∀\nx"),
        vec![
            ("// é ü ∀", Token::Comment),
            ("\n", Token::Newline),
            ("x", Token::Identifier),
        ]
    );
}

#[test]
fn compiler_directive_takes_the_rest_of_the_line() {
    let names = [
        "celldefine",
        "default_nettype",
        "define",
        "else",
        "elsif",
        "endcelldefine",
        "endif",
        "ifdef",
        "ifndef",
        "include",
        "line",
        "nounconnected_drive",
        "resetall",
        "timescale",
        "unconnected_drive",
        "undef",
    ];
    for name in names {
        let line = format!("`{} a b (c)", name);
        let text = format!("{}\nx", line);
        assert_eq!(
            read(&text),
            vec![
                (line.as_str(), Token::CompilerDirective),
                ("\n", Token::Newline),
                ("x", Token::Identifier),
            ]
        );
    }
}

#[test]
fn compiler_directive_name_need_not_end_a_word() {
    assert_eq!(
        read("`linewidth 8"),
        vec![("`linewidth 8", Token::CompilerDirective)]
    );
}

#[test]
fn other_directive_is_a_word_behind_a_backtick() {
    assert_eq!(
        read("`WIDTH 8"),
        vec![("`WIDTH", Token::Directive), ("8", Token::Number)]
    );
    assert_eq!(
        read("`my_macro(1)"),
        vec![
            ("`my_macro", Token::Directive),
            ("(", Token::LParen),
            ("1", Token::Number),
            (")", Token::RParen),
        ]
    );
}

#[test]
fn macro_name_is_made_as_an_identifier_is() {
    assert_eq!(read("`a$b"), vec![("`a$b", Token::Directive)]);
    assert_eq!(read("`$1"), vec![("`$1", Token::Directive)]);
    assert_eq!(read("`9"), vec![("`9", Token::Directive)]);
    assert_eq!(texts("`a-b"), vec!["`a", "-", "b"]);
}

#[test]
fn backtick_alone_is_no_token() {
    assert_eq!(tokens("a ` b"), Err(LexError { position: 2, remainder: "` b" }));
    assert_eq!(tokens("`-x"), Err(LexError { position: 0, remainder: "`-x" }));
}

#[test]
fn error_gives_no_tokens_and_the_position_in_characters() {
    assert_eq!(
        tokens("wire é;"),
        Err(LexError { position: 5, remainder: "é;" })
    );
    assert_eq!(
        tokens("// é\n  \t%"),
        Err(LexError { position: 8, remainder: "%" })
    );
}

#[test]
fn error_position_lies_behind_the_blanks() {
    assert_eq!(
        tokens("a   ^ b"),
        Err(LexError { position: 4, remainder: "^ b" })
    );
}

#[test]
fn token_gives_kind_and_end() {
    let text = chars("always_ff @(posedge clk)");
    assert_eq!(token(&text, 0), Some((Token::AlwaysFf, 9)));
    assert_eq!(token(&text, 9), None);
    assert_eq!(token(&text, 10), Some((Token::OpAt, 11)));
    assert_eq!(token(&text, 11), Some((Token::LParen, 12)));
    assert_eq!(token(&text, 12), Some((Token::Identifier, 19)));
    assert_eq!(token(&text, 13), Some((Token::Identifier, 19)));
    assert_eq!(token(&text, 23), Some((Token::RParen, 24)));
    assert_eq!(token(&text, 24), None);
    assert_eq!(token(&text, 100), None);
}

#[test]
fn keyword_delimiter_and_operator_stand_alone() {
    let text = chars("end;==");
    assert_eq!(keyword(&text, 0), Some((Token::End, 3)));
    assert_eq!(keyword(&text, 1), None);
    assert_eq!(keyword(&text, 7), None);
    assert_eq!(delimiter(&text, 3), Some((Token::Semicolon, 4)));
    assert_eq!(delimiter(&text, 0), None);
    assert_eq!(operator(&text, 4), Some((Token::OpEqualTo, 6)));
    assert_eq!(operator(&text, 5), Some((Token::OpEqual, 6)));
    assert_eq!(operator(&text, 6), None);
}

#[test]
fn scan_finds_the_end_of_a_run() {
    let text = chars("ab_1$ \t x");
    assert_eq!(scan(&text, 0, CharClass::Name), 5);
    assert_eq!(scan(&text, 5, CharClass::Blank), 8);
    assert_eq!(scan(&text, 0, CharClass::Blank), 0);
    assert_eq!(scan(&text, 0, CharClass::Line), 9);
    assert_eq!(scan(&text, 9, CharClass::Line), 9);
    assert_eq!(scan(&chars("12_ab"), 0, CharClass::Width), 3);
    assert_eq!(scan(&chars("12_abg"), 0, CharClass::Digit), 5);
    assert_eq!(scan(&chars("ab\"c"), 0, CharClass::Quoted), 2);
    assert_eq!(scan(&chars("ab\ncd"), 0, CharClass::Line), 2);
}

#[test]
fn classes_hold_their_characters() {
    for c in ['a', 'z', 'A', 'Z', '0', '9', '_'] {
        assert!(CharClass::Name.has(c));
    }
    assert!(CharClass::Name.has('$'));
    assert!(!CharClass::Name.has('é'));
    assert!(!CharClass::Name.has('-'));
    assert!(CharClass::Blank.has(' '));
    assert!(CharClass::Blank.has('\t'));
    assert!(!CharClass::Blank.has('\n'));
    assert!(!CharClass::Blank.has('\r'));
    assert!(CharClass::Digit.has('f'));
    assert!(CharClass::Digit.has('F'));
    assert!(CharClass::Digit.has('_'));
    assert!(!CharClass::Digit.has('g'));
    assert!(CharClass::Width.has('7'));
    assert!(!CharClass::Width.has('a'));
    assert!(CharClass::Line.has('\r'));
    assert!(!CharClass::Line.has('\n'));
    assert!(CharClass::Quoted.has('\n'));
    assert!(!CharClass::Quoted.has('"'));
}

#[test]
fn holds_at_compares_a_word() {
    let text = chars("xmodule");
    assert!(holds_at(&text, 1, "module"));
    assert!(holds_at(&text, 1, "mod"));
    assert!(!holds_at(&text, 0, "module"));
    assert!(!holds_at(&text, 2, "module"));
    assert!(holds_at(&text, 7, ""));
    assert!(!holds_at(&text, 8, ""));
}

#[test]
fn kinds_without_a_fixed_text_have_an_empty_one() {
    for kind in [
        Token::Number,
        Token::Identifier,
        Token::String,
        Token::CompilerDirective,
        Token::Directive,
        Token::Comment,
        Token::Newline,
        Token::OpLeftShift,
        Token::Start,
    ] {
        assert_eq!(kind.fixed_text(), "");
    }
    assert_eq!(Token::OpAnd.fixed_text(), "&&");
    assert_eq!(Token::LBraces.fixed_text(), "{");
}
