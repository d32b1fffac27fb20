use verilog_format::lexer::{tokens, Token};
use verilog_format::printer::printer;
use verilog_format::mended::settles;

const SOURCES: [&str; 12] = [
    "",
    "  \t",
    "module m (input a, input b);\n  wire x; // note\n\n  assign x = a && !b;\nendmodule\n",
    "task t;\n input a;\n begin\n  x = a;\n end\nendtask\n",
    "generate\nfor (i = 0; i < 4; i = i + 1) begin\n y[i] = ~a[i];\nend\nendgenerate\n",
    "`timescale 1ns/1ps\n`define W 8\nwire [`W-1:0] bus;\n",
    "always_ff @(posedge clk) begin\n\tif (rst) q <= 8'h00;\n\telse q <= {q[6:0], d};\nend",
    "x = \"a \t b\";\r\ny = 'd3 ; // é\r\n",
    "a\n\n\nb",
    "end ) } endmodule",
    "foo.bar(.a(1), .b(2));",
    "\n\n\n",
];

fn formatted(text: &str) -> String {
    printer(tokens(text).unwrap()).unwrap()
}

fn words<'a>(list: &[(&'a str, Token)]) -> Vec<(&'a str, Token)> {
    list.iter().filter(|t| t.1 != Token::Newline).cloned().collect()
}

fn is_blank(c: char) -> bool {
    c == ' ' || c == '\t'
}

#[test]
fn token_texts_and_blanks_make_up_the_source() {
    for source in SOURCES {
        let all: Vec<char> = source.chars().collect();
        let mut at = 0;
        for (text, _) in tokens(source).unwrap() {
            while at < all.len() && is_blank(all[at]) {
                at += 1;
            }
            let piece: Vec<char> = text.chars().collect();
            assert!(!piece.is_empty());
            assert_eq!(&all[at..at + piece.len()], &piece[..]);
            at += piece.len();
        }
        assert!(all[at..].iter().all(|c| is_blank(*c)));
    }
}

#[test]
fn token_texts_joined_are_the_source_without_blanks_between() {
    assert_eq!(
        tokens(" a  =\tb ;\n").unwrap().into_iter().map(|t| t.0).collect::<Vec<_>>().concat(),
        "a=b;\n"
    );
}

#[test]
fn no_token_has_the_kind_start() {
    for source in SOURCES {
        assert!(tokens(source).unwrap().iter().all(|t| t.1 != Token::Start));
    }
}

#[test]
fn same_text_gives_same_tokens_and_same_layout() {
    for source in SOURCES {
        let copy = source.to_string();
        assert_eq!(tokens(source), tokens(&copy));
        assert_eq!(printer(tokens(source).unwrap()), printer(tokens(&copy).unwrap()));
    }
    assert_eq!(tokens("a ^"), tokens("a ^"));
}

#[test]
fn layout_keeps_every_text_token_in_order() {
    for source in SOURCES {
        let read = tokens(source).unwrap();
        let once = formatted(source);
        let again = tokens(&once).unwrap();
        assert_eq!(words(&read), words(&again));
    }
}

#[test]
fn formatting_twice_changes_nothing_more() {
    let settled = [
        "module m (input a, input b);\n  wire x; // note\n\n  assign x = a && !b;\nendmodule\n",
        "task t;\n input a;\n begin\n  x = a;\n end\nendtask\n",
        "generate\nfor (i = 0; i < 4; i = i + 1) begin\n y[i] = ~a[i];\nend\nendgenerate\n",
        "always_ff @(posedge clk) begin\n\tif (rst) q <= 8'h00;\n\telse q <= {q[6:0], d};\nend",
        "begin a=1; end",
        "if(c) begin end else begin end",
        "a[7:0]",
        "a;\n\n\nb;",
        "end ) } endmodule",
        "foo.bar(.a(1), .b(2));",
        "f(a,\n // c\n b)",
    ];
    for source in settled {
        let once = formatted(source);
        assert_eq!(formatted(&once), once);
    }
}

#[test]
fn blank_line_before_a_word_that_starts_no_line_is_lost_on_the_second_pass() {
    assert_eq!(formatted("a\n\nb"), "a\n b");
    assert_eq!(formatted("a\n b"), "a b");
    assert_eq!(formatted("a b"), "a b");
}

#[test]
fn macro_that_takes_up_a_number_changes_the_spacing_behind_it() {
    assert_eq!(formatted("[`W 8:0]"), "[`W8:0]");
    assert_eq!(formatted("[`W8:0]"), "[`W8 :0]");
}

#[test]
fn streams_that_settle_are_told_from_others() {
    for source in [
        "",
        "module m (input a, input b);\n  wire x; // note\n\n  assign x = a && !b;\nendmodule\n",
        "x = \"a \t b\";\r\ny = 'd3 ; // é\r\n",
        "a;\n\n\nb;",
        "a;\n\nb",
        "a\nb",
        "a;\n",
        "`W 'd8",
        "`W 8",
        "`WIDTH 8",
        "`W\n8 + 1",
        "[`W 8'h0:0]",
        "f(a,\n // c\n b)",
        "// c\n\r\nx",
        "`define A 1\r\n\r\n`define B 2\r\n",
        "a; // c\n\r\n\n\nb",
    ] {
        let read = tokens(source).unwrap();
        assert!(settles(&read), "{:?}", source);
        let once = printer(read).unwrap();
        assert_eq!(formatted(&once), once, "{:?}", source);
    }
    for source in [
        "a\n\nb",
        "a\n\n\nb",
        "\n\na",
        "\n\n\n",
        "a;\n\n",
        "a;\r\n\r\nb",
        "[`W 8:0]",
        "`W 8 9",
        "`W\n8\n:",
        "// c\n\r\n",
        "// c\n\r\n\r\nx",
        "// c\n\n\r\nx",
    ] {
        let read = tokens(source).unwrap();
        assert!(!settles(&read), "{:?}", source);
        let once = printer(read).unwrap();
        assert_ne!(formatted(&once), once, "{:?}", source);
    }
}

#[test]
fn carriage_return_behind_a_comment_is_read_back_as_its_end() {
    assert_eq!(formatted("// c\n\r\nx"), "// c\r\n\nx");
    assert_eq!(
        tokens("// c\r\n\nx"),
        Ok(vec![
            ("// c\r", Token::Comment),
            ("\n", Token::Newline),
            ("\n", Token::Newline),
            ("x", Token::Identifier),
        ])
    );
    assert_eq!(formatted("// c\r\n\nx"), "// c\r\n\nx");
}

#[test]
fn number_behind_a_macro_is_read_back_as_more_of_the_macro() {
    assert_eq!(formatted("`WIDTH 8"), "`WIDTH8");
    assert_eq!(tokens("`WIDTH8"), Ok(vec![("`WIDTH8", Token::Directive)]));
    assert_eq!(formatted("`W 8'hF"), "`W8'hF");
    assert_eq!(
        tokens("`W8'hF"),
        Ok(vec![("`W8", Token::Directive), ("'hF", Token::Number)])
    );
    assert_eq!(formatted("`W8'hF"), "`W8'hF");
}

#[test]
fn calm_streams_settle_at_once() {
    for source in SOURCES {
        let read = tokens(source).unwrap();
        if settles(&read) {
            let once = printer(read.clone()).unwrap();
            let again = tokens(&once).unwrap();
            assert_eq!(printer(again.clone()).unwrap(), once);
            assert_eq!(words(&again), words(&read));
        }
    }
    assert_eq!(SOURCES.iter().filter(|s| settles(&tokens(s).unwrap())).count(), 10);
}

#[test]
fn any_stream_is_asked_whether_it_settles() {
    let feed = |text: &'static str| (text, Token::Newline);
    let word = |text: &'static str| (text, Token::Identifier);
    let name = ("`W", Token::Directive);
    assert!(settles(&vec![]));
    assert!(settles(&vec![feed("x"), word("a")]));
    assert!(!settles(&vec![feed("\n"), feed("\n"), word("a")]));
    assert!(settles(&vec![feed("\n"), feed("\n"), ("end", Token::End)]));
    assert!(!settles(&vec![feed("\n"), feed("\r\n"), ("end", Token::End)]));
    assert!(settles(&vec![(";", Token::Semicolon), feed(""), feed("\n"), feed("\n"), word("a")]));
    assert!(settles(&vec![name, ("'d1", Token::Number)]));
    assert!(settles(&vec![name, ("'d1", Token::Number), (":", Token::Colon)]));
    assert!(settles(&vec![name, ("8", Token::Number)]));
    assert!(settles(&vec![name, feed("\n"), ("8", Token::Number), word("a")]));
    assert!(settles(&vec![name, ("8'h1", Token::Number), (":", Token::Colon)]));
    assert!(!settles(&vec![name, ("8", Token::Number), (":", Token::Colon)]));
    assert!(!settles(&vec![name, ("8", Token::Number), feed("\n"), ("1", Token::Number)]));
    assert!(!settles(&vec![name, feed("\n"), feed("\n"), ("8", Token::Number)]));
}

#[test]
fn long_text_is_formatted_block_by_block() {
    let block = "module m (input a, input b);\n  wire x; // note\n\n  assign x = a && !b;\nendmodule\n";
    let laid_out = "module m (\n    input a,\n    input b);\n    wire x;\n    // note\n\n    assign x = a && !b;\nendmodule";
    let source = block.repeat(2000);
    let expected = vec![laid_out; 2000].join(" ");
    let read = tokens(&source).unwrap();
    assert_eq!(read.len(), 28 * 2000);
    assert!(settles(&read));
    let once = printer(read).unwrap();
    assert_eq!(once, expected);
    assert_eq!(printer(tokens(&once).unwrap()).unwrap(), once);
}

const PARTS: [&str; 56] = [
    "module", "endmodule", "begin", "end", "task", "endtask", "generate", "endgenerate", "if",
    "else", "wire", "always_ff", "a", "b1", "$c", "1", "8'hF", "'d3", "9a", "(", ")", "[", "]",
    "{", "}", ":", ",", ";", ".", "#", "=", "==", "<=", "<", "&&", "/", "// c ", "!", "`W",
    "`define X", "\"s t\"", "\n", "\n", "\n", "\r\n", " ", " ", "\t", "8", "1_0", "12'd3", "`x1",
    "// c", "\r\n", ":", "0",
];

#[test]
fn texts_put_together_by_chance_settle_where_settles_tells() {
    let mut state: u64 = 0x9e37_79b9_7f4a_7c15;
    let mut draw = |below: u64| {
        state ^= state << 13;
        state ^= state >> 7;
        state ^= state << 17;
        (state % below) as usize
    };
    let mut calm = 0;
    let mut restless = 0;
    for _ in 0..20000 {
        let mut text = String::new();
        for _ in 0..draw(14) {
            text.push_str(PARTS[draw(56)]);
            text.push_str(["", "", " ", "\n"][draw(4)]);
        }
        let Ok(read) = tokens(&text) else { continue };
        let once = printer(read.clone()).unwrap();
        let settled = tokens(&once).is_ok_and(|again| printer(again).unwrap() == once);
        assert_eq!(settles(&read), settled, "in {:?}", text);
        if settled {
            calm += 1;
        } else {
            restless += 1;
        }
    }
    assert!(calm > 1000);
    assert!(restless > 100);
}
