use nom::bytes::complete::tag;
use nom::character::complete::{line_ending, space1};
use nom::error::Error;
use nom::multi::many0;
use regex::Regex;
use verilog_format::lexer::{holds_at, scan, token, tokens, CharClass, Token};

const KEYWORDS: [(&str, Token); 20] = [
    ("module", Token::Module),
    ("endmodule", Token::EndModule),
    ("begin", Token::Begin),
    ("end", Token::End),
    ("parameter", Token::Parameter),
    ("generate", Token::Generate),
    ("endgenerate", Token::EndGenerate),
    ("task", Token::Task),
    ("endtask", Token::EndTask),
    ("initial", Token::Initial),
    ("input", Token::Input),
    ("output", Token::Output),
    ("wire", Token::Wire),
    ("reg", Token::Reg),
    ("logic", Token::Logic),
    ("if", Token::If),
    ("else", Token::Else),
    ("always", Token::Always),
    ("always_comb", Token::AlwaysComb),
    ("always_ff", Token::AlwaysFf),
];

const DELIMITERS: [(&str, Token); 11] = [
    ("#", Token::Sharp),
    ("(", Token::LParen),
    (")", Token::RParen),
    ("[", Token::LBracket),
    ("]", Token::RBracket),
    ("{", Token::LBraces),
    ("}", Token::RBraces),
    (":", Token::Colon),
    (",", Token::Comma),
    (";", Token::Semicolon),
    (".", Token::Dot),
];

const OPERATORS: [(&str, Token); 15] = [
    ("==", Token::OpEqualTo),
    ("=", Token::OpEqual),
    ("@", Token::OpAt),
    ("/", Token::OpDivide),
    ("-", Token::OpMinus),
    ("!", Token::OpNot),
    ("+", Token::OpPlus),
    ("~", Token::OpInvert),
    ("*", Token::OpMultiply),
    ("?", Token::OpChoice),
    ("<=", Token::OpAssign),
    ("<", Token::OpLessThan),
    (">=", Token::OpGreaterEqual),
    (">", Token::OpGreaterThan),
    ("&&", Token::OpAnd),
];

const STRING: &str = "^\"[^\"]*\"";
const IDENTIFIER: &str = r"^[a-zA-Z$_][a-zA-Z0-9$_]*";
const NUMBER: &str = r"^(([1-9][0-9_]*)?'[dDbBoOhH])?[0-9a-fA-F_]+";
const COMMENT: &str = r"^//.*";
const COMPILER_DIRECTIVE: &str = r"^`(celldefine|default_nettype|define|else|elsif|endcelldefine|endif|ifdef|ifndef|include|line|nounconnected_drive|resetall|timescale|unconnected_drive|undef).*";
const DIRECTIVE: &str = r"^`[a-zA-Z0-9$_]+";

const TEXTS: [&str; 31] = [
    "module m (input a, input b);\n  wire x; // note\n\n  assign x = a && !b;\nendmodule\n",
    "task t;\n input a;\n begin\n  x = a;\n end\nendtask\n",
    "generate\nfor (i = 0; i < 4; i = i + 1) begin\n y[i] = ~a[i];\nend\nendgenerate\n",
    "`timescale 1ns/1ps\n`define W 8\nwire [`W-1:0] bus;\n`linewidth\n`elsewhere x\n`el se",
    "always_ff @(posedge clk) begin\n\tif (rst) q <= 8'h00;\n\telse q <= {q[6:0], d};\nend",
    "x = \"a \t b\";\r\ny = 'd3 ; // é\r\n",
    "reg_abc reg$x reg reg9 regé end_ endx endtask_ always_f always_comb; parameter p assign posedge",
    "endé end٣ end京 end¾ end① end💝 end\u{a0} end— if٣ elseé wire京",
    "8'hFF 'd3 'B01 1_6'o7_7 8'b1010_1010 1_000 9abc 9abcg 0'h1 12'hz 1'h 1' ' 'x1 1_'d2 _1 0_1 a1 1a 1g f0 F0",
    "1__2'H_ 7'o_8 10'd 10'dx 10'dA '' 'd'd1 9_9_'b__ 09'h1 90'h1 1'hg 1'hG 1'hf_",
    "== = === <== >== <= < >= > && & &&& // / /// /= =/ !  != + - * ? ~ @",
    "\"abc\" \"\" \"a\nb\" \"open",
    "\"a\"\"b\"\"",
    "`WIDTH 8 `a `1 `_ `$x ` `` `a`b `define`x\n`undefx `un `u",
    "`ifdef A\n`ifndef B\n`else\n`elsif C\n`endif\n`include \"x\"\n`line 1\n`resetall\n`undef X",
    "`celldefine\n`endcelldefine\n`default_nettype none\n`unconnected_drive pull1\n`nounconnected_drive",
    "a\rb \r\n \n\r \r\r\n",
    "// only\n//\n// tab\there \n//\r\n",
    "éa ∀ a∀b \"∀\" // ∀\n`∀ ∀`a",
    "#()[]{}:,;. # ( ) [ ] { } : , ; .",
    "$display(\"%d\", $time); $ $$ _ __ a$ $a _1 _$",
    "  \t leading and trailing \t  ",
    "",
    "%",
    "a % b",
    "a ^ b | c",
    "x<=y==z>=w<v>u",
    "ifx if( if_ elsez else; elsee",
    "inputs input1 input_ input$ input\toutput\noutputs",
    "logic[3:0] wire[7:0]w wirew initialx initial;",
    "moduleendmodule endmodulemodule beginend endbegin",
];

struct Patterns {
    string: Regex,
    identifier: Regex,
    number: Regex,
    comment: Regex,
    compiler_directive: Regex,
    directive: Regex,
}

impl Patterns {
    fn new() -> Patterns {
        Patterns {
            string: Regex::new(STRING).unwrap(),
            identifier: Regex::new(IDENTIFIER).unwrap(),
            number: Regex::new(NUMBER).unwrap(),
            comment: Regex::new(COMMENT).unwrap(),
            compiler_directive: Regex::new(COMPILER_DIRECTIVE).unwrap(),
            directive: Regex::new(DIRECTIVE).unwrap(),
        }
    }

    fn first_of(&self, rest: &str, table: &[(&str, Token)], whole: bool) -> Option<(Token, usize)> {
        for (word, kind) in table {
            if let Ok((behind, found)) = tag::<&str, &str, Error<&str>>(*word)(rest) {
                let joined = behind.chars().next().is_some_and(|c| c == '_' || c.is_alphanumeric());
                if !whole || !joined {
                    return Some((*kind, found.len()));
                }
            }
        }
        None
    }

    fn token(&self, rest: &str) -> Option<(Token, usize)> {
        if rest.is_empty() {
            return None;
        }
        self.first_of(rest, &KEYWORDS, true)
            .or_else(|| by_pattern(rest, &self.string, Token::String))
            .or_else(|| self.first_of(rest, &DELIMITERS, false))
            .or_else(|| newline(rest))
            .or_else(|| by_pattern(rest, &self.identifier, Token::Identifier))
            .or_else(|| by_pattern(rest, &self.number, Token::Number))
            .or_else(|| by_pattern(rest, &self.comment, Token::Comment))
            .or_else(|| self.first_of(rest, &OPERATORS, false))
            .or_else(|| by_pattern(rest, &self.compiler_directive, Token::CompilerDirective))
            .or_else(|| by_pattern(rest, &self.directive, Token::Directive))
    }

    fn tokens<'a>(&self, text: &'a str) -> Result<Vec<(&'a str, Token)>, (usize, &'a str)> {
        let mut found = Vec::new();
        let mut offset = 0;
        loop {
            offset += blanks(&text[offset..]);
            if offset == text.len() {
                return Ok(found);
            }
            match self.token(&text[offset..]) {
                Some((kind, bytes)) => {
                    found.push((&text[offset..offset + bytes], kind));
                    offset += bytes;
                }
                None => {
                    return Err((text[..offset].chars().count(), &text[offset..]));
                }
            }
        }
    }
}

fn newline(rest: &str) -> Option<(Token, usize)> {
    line_ending::<&str, Error<&str>>(rest).ok().map(|(_, found)| (Token::Newline, found.len()))
}

fn blanks(rest: &str) -> usize {
    let (behind, _) = many0(space1::<&str, Error<&str>>)(rest).unwrap();
    rest.len() - behind.len()
}

fn by_pattern(rest: &str, pattern: &Regex, kind: Token) -> Option<(Token, usize)> {
    pattern.find(rest).map(|found| (kind, found.end()))
}

fn run_by_pattern(rest: &str, pattern: &str) -> usize {
    let found = Regex::new(pattern).unwrap().find(rest).unwrap();
    rest[..found.end()].chars().count()
}

#[test]
fn token_at_every_position_is_what_the_patterns_match() {
    let patterns = Patterns::new();
    for text in TEXTS {
        let all: Vec<char> = text.chars().collect();
        for (at, (offset, _)) in text.char_indices().enumerate() {
            let rest = &text[offset..];
            let expected = patterns
                .token(rest)
                .map(|(kind, bytes)| (kind, at + rest[..bytes].chars().count()));
            assert_eq!(token(&all, at), expected, "in {:?} at {}", text, at);
        }
        assert_eq!(token(&all, all.len()), None);
    }
}

#[test]
fn blanks_are_what_the_space_parser_takes() {
    for text in TEXTS {
        let all: Vec<char> = text.chars().collect();
        for (at, (offset, _)) in text.char_indices().enumerate() {
            assert_eq!(scan(&all, at, CharClass::Blank), at + blanks(&text[offset..]));
        }
    }
}

#[test]
fn words_stand_where_the_tag_parser_finds_them() {
    let words = ["module", "end", "=", "==", "é", "", "\n", "`define", "a\nb"];
    for text in TEXTS {
        let all: Vec<char> = text.chars().collect();
        for (at, (offset, _)) in text.char_indices().enumerate() {
            for word in words {
                assert_eq!(
                    holds_at(&all, at, word),
                    tag::<&str, &str, Error<&str>>(word)(&text[offset..]).is_ok(),
                    "{:?} in {:?} at {}",
                    word,
                    text,
                    at
                );
            }
        }
    }
}

#[test]
fn runs_are_what_the_patterns_match() {
    let classes = [
        (CharClass::Blank, r"^[ \t]*"),
        (CharClass::Name, r"^[a-zA-Z0-9$_]*"),
        (CharClass::Width, r"^[0-9_]*"),
        (CharClass::Digit, r"^[0-9a-fA-F_]*"),
        (CharClass::Line, r"^.*"),
        (CharClass::Quoted, "^[^\"]*"),
    ];
    for text in TEXTS {
        let all: Vec<char> = text.chars().collect();
        for (at, (offset, _)) in text.char_indices().enumerate() {
            for (class, pattern) in classes {
                assert_eq!(
                    scan(&all, at, class),
                    at + run_by_pattern(&text[offset..], pattern),
                    "{:?} in {:?} at {}",
                    class,
                    text,
                    at
                );
            }
        }
    }
}

#[test]
fn token_stream_is_what_the_patterns_match_in_turn() {
    let patterns = Patterns::new();
    for text in TEXTS {
        assert_eq!(
            tokens(text).map_err(|error| (error.position, error.remainder)),
            patterns.tokens(text),
            "in {:?}",
            text
        );
    }
}

const PIECES: [&str; 64] = [
    "module", "endmodule", "begin", "end", "task", "endtask", "generate", "endgenerate", "if",
    "else", "wire", "reg", "always_ff", "parameter", "assign", "posedge", "a", "b1", "$c", "_d",
    "e", "en", "reg_", "1", "8'hF", "'d3", "9a", "0", "1_0", "12'", "'", "(", ")", "[", "]", "{",
    "}", ":", ",", ";", ".", "#", "=", "==", "<=", "<", ">", "&&", "&", "/", "//", "// c ", "!",
    "`W", "`define X", "`x$1", "`", "\"s t\"", "\"", "\n", "\r\n", "\r", " ", "\t",
];

#[test]
fn texts_put_together_by_chance_read_as_the_patterns_match() {
    let patterns = Patterns::new();
    let mut state: u64 = 0x2545_f491_4f6c_dd1d;
    let mut draw = |below: u64| {
        state ^= state << 13;
        state ^= state >> 7;
        state ^= state << 17;
        (state % below) as usize
    };
    let mut read = 0;
    for _ in 0..4000 {
        let mut text = String::new();
        for _ in 0..draw(14) {
            text.push_str(PIECES[draw(64)]);
            text.push_str(["", "", " ", "\n"][draw(4)]);
        }
        let found = tokens(&text).map_err(|error| (error.position, error.remainder));
        assert_eq!(found, patterns.tokens(&text), "in {:?}", text);
        if found.is_ok() {
            read += 1;
        }
    }
    assert!(read > 1000);
}
