//! The lexer: from text to tokens.
//!
//! A text is read from its start to its end, and each token is the exact
//! piece of the text that it was read from. Spaces and tabs between two
//! tokens are passed over; a line end is a token of its own. At each position
//! the rules are tried in this order, and the first that applies gives the
//! token:
//!
//! 1. a keyword, where it stands as a whole word: where no letter, digit or
//!    `_` follows it, of whatever script;
//! 2. a string, from `"` to the next `"`;
//! 3. a delimiter;
//! 4. a newline, `\n` or `\r\n`;
//! 5. an identifier;
//! 6. a number, with or without width and base;
//! 7. a comment, from `//` to the end of the line;
//! 8. an operator, one of two characters before the one it begins with;
//! 9. a compiler directive, from the backtick to the end of the line;
//! 10. any other macro: a backtick and what an identifier is made of.
//!
//! Where no rule applies, the text has no token stream: reading gives the
//! position and what is left of the text, and no token.
//!
//! [`lex`] is the model of the token stream of a text and [`tokens`] computes
//! it. A position is a count of characters, not of bytes.

use vstd::prelude::*;
use vstd::string::StrSliceExecFns;
use crate::text::chars_of;

verus! {

/// The kind of a token.
///
/// `Start` is the kind of no token: it stands for what comes before the first
/// token of a stream. No text is read as `Start`, `Assign`, `Posedge` or
/// `OpLeftShift`: the words `assign` and `posedge` are read as identifiers, and
/// the printer lays out a token of one of these kinds as it does any word.
#[derive(Debug, PartialEq, Eq, Clone, Copy, Structural)]
pub enum Token {
    Number,
    Identifier,
    String,
    CompilerDirective,
    Directive,
    Comment,
    Newline,
    Module,
    EndModule,
    Begin,
    End,
    Parameter,
    Generate,
    EndGenerate,
    Task,
    EndTask,
    Initial,
    Input,
    Output,
    Assign,
    Posedge,
    Wire,
    Reg,
    Logic,
    If,
    Else,
    Always,
    AlwaysComb,
    AlwaysFf,
    Sharp,
    LParen,
    RParen,
    LBracket,
    RBracket,
    LBraces,
    RBraces,
    Colon,
    Comma,
    Semicolon,
    Dot,
    OpEqual,
    OpAt,
    OpDivide,
    OpMinus,
    OpNot,
    OpPlus,
    OpInvert,
    OpMultiply,
    OpChoice,
    OpEqualTo,
    OpAssign,
    OpLessThan,
    OpGreaterThan,
    OpLeftShift,
    OpGreaterEqual,
    OpAnd,
    Start,
}

/// A token: the piece of the text that it was read from and its kind.
pub type ParsedToken<'a> = (&'a str, Token);

/// A token as the model sees it: its text and its kind.
pub type Lexeme = (Seq<char>, Token);

/// The tokens of `tokens` as the model sees them.
pub open spec fn stream<'a>(tokens: Seq<ParsedToken<'a>>) -> Seq<Lexeme> {
    tokens.map_values(|t: ParsedToken<'a>| (t.0@, t.1))
}

/// Why a text has no token stream: at `position`, counted in characters from
/// the start, stands something that is no token. `remainder` is the text from
/// there to the end.
#[derive(Debug, Clone, Copy, PartialEq, Eq)]
pub struct LexError<'a> {
    pub position: usize,
    pub remainder: &'a str,
}

impl Token {
    /// The text of a keyword, a delimiter or an operator; empty for every
    /// other kind, whose tokens have a text of their own.
    pub open spec fn text(self) -> Seq<char> {
        match self {
            Token::Module => "module"@,
            Token::EndModule => "endmodule"@,
            Token::Begin => "begin"@,
            Token::End => "end"@,
            Token::Parameter => "parameter"@,
            Token::Generate => "generate"@,
            Token::EndGenerate => "endgenerate"@,
            Token::Task => "task"@,
            Token::EndTask => "endtask"@,
            Token::Initial => "initial"@,
            Token::Input => "input"@,
            Token::Output => "output"@,
            Token::Wire => "wire"@,
            Token::Reg => "reg"@,
            Token::Logic => "logic"@,
            Token::If => "if"@,
            Token::Else => "else"@,
            Token::Always => "always"@,
            Token::AlwaysComb => "always_comb"@,
            Token::AlwaysFf => "always_ff"@,
            Token::Sharp => "#"@,
            Token::LParen => "("@,
            Token::RParen => ")"@,
            Token::LBracket => "["@,
            Token::RBracket => "]"@,
            Token::LBraces => "{"@,
            Token::RBraces => "}"@,
            Token::Colon => ":"@,
            Token::Comma => ","@,
            Token::Semicolon => ";"@,
            Token::Dot => "."@,
            Token::OpEqual => "="@,
            Token::OpAt => "@"@,
            Token::OpDivide => "/"@,
            Token::OpMinus => "-"@,
            Token::OpNot => "!"@,
            Token::OpPlus => "+"@,
            Token::OpInvert => "~"@,
            Token::OpMultiply => "*"@,
            Token::OpChoice => "?"@,
            Token::OpEqualTo => "=="@,
            Token::OpAssign => "<="@,
            Token::OpLessThan => "<"@,
            Token::OpGreaterThan => ">"@,
            Token::OpGreaterEqual => ">="@,
            Token::OpAnd => "&&"@,
            _ => Seq::empty(),
        }
    }

    /// The text of a keyword, a delimiter or an operator.
    pub fn fixed_text(self) -> (r: &'static str)
        ensures
            r@ == self.text(),
    {
        match self {
            Token::Module => "module",
            Token::EndModule => "endmodule",
            Token::Begin => "begin",
            Token::End => "end",
            Token::Parameter => "parameter",
            Token::Generate => "generate",
            Token::EndGenerate => "endgenerate",
            Token::Task => "task",
            Token::EndTask => "endtask",
            Token::Initial => "initial",
            Token::Input => "input",
            Token::Output => "output",
            Token::Wire => "wire",
            Token::Reg => "reg",
            Token::Logic => "logic",
            Token::If => "if",
            Token::Else => "else",
            Token::Always => "always",
            Token::AlwaysComb => "always_comb",
            Token::AlwaysFf => "always_ff",
            Token::Sharp => "#",
            Token::LParen => "(",
            Token::RParen => ")",
            Token::LBracket => "[",
            Token::RBracket => "]",
            Token::LBraces => "{",
            Token::RBraces => "}",
            Token::Colon => ":",
            Token::Comma => ",",
            Token::Semicolon => ";",
            Token::Dot => ".",
            Token::OpEqual => "=",
            Token::OpAt => "@",
            Token::OpDivide => "/",
            Token::OpMinus => "-",
            Token::OpNot => "!",
            Token::OpPlus => "+",
            Token::OpInvert => "~",
            Token::OpMultiply => "*",
            Token::OpChoice => "?",
            Token::OpEqualTo => "==",
            Token::OpAssign => "<=",
            Token::OpLessThan => "<",
            Token::OpGreaterThan => ">",
            Token::OpGreaterEqual => ">=",
            Token::OpAnd => "&&",
            _ => {
                proof {
                    reveal_strlit("");
                }
                assert(""@ =~= Seq::<char>::empty());
                ""
            },
        }
    }
}

/// The classes of characters that a token is made of.
#[derive(Debug, Clone, Copy, PartialEq, Eq, Structural)]
pub enum CharClass {
    /// Space and tab: what separates tokens within a line.
    Blank,
    /// Letters, digits, `$` and `_`: what identifiers and macros are made of.
    Name,
    /// Decimal digits and `_`.
    Width,
    /// Hexadecimal digits and `_`.
    Digit,
    /// Every character but the line feed.
    Line,
    /// Every character but the double quote.
    Quoted,
}

/// Whether `c` is one of the letters `a` to `z` and `A` to `Z`.
pub open spec fn is_letter(c: char) -> bool {
    ('a' <= c && c <= 'z') || ('A' <= c && c <= 'Z')
}

/// Whether `c` is a decimal digit.
pub open spec fn is_decimal(c: char) -> bool {
    '0' <= c && c <= '9'
}

/// Whether `c` is a hexadecimal digit, in either case.
pub open spec fn is_hex(c: char) -> bool {
    is_decimal(c) || ('a' <= c && c <= 'f') || ('A' <= c && c <= 'F')
}

impl CharClass {
    /// Whether `c` belongs to the class.
    pub open spec fn holds(self, c: char) -> bool {
        match self {
            CharClass::Blank => c == ' ' || c == '\t',
            CharClass::Name => is_letter(c) || is_decimal(c) || c == '$' || c == '_',
            CharClass::Width => is_decimal(c) || c == '_',
            CharClass::Digit => is_hex(c) || c == '_',
            CharClass::Line => c != '\n',
            CharClass::Quoted => c != '"',
        }
    }

    /// Whether `c` belongs to the class.
    pub fn has(self, c: char) -> (r: bool)
        ensures
            r == self.holds(c),
    {
        let letter = ('a' <= c && c <= 'z') || ('A' <= c && c <= 'Z');
        let decimal = '0' <= c && c <= '9';
        match self {
            CharClass::Blank => c == ' ' || c == '\t',
            CharClass::Name => letter || decimal || c == '$' || c == '_',
            CharClass::Width => decimal || c == '_',
            CharClass::Digit => decimal || ('a' <= c && c <= 'f') || ('A' <= c && c <= 'F') || c
                == '_',
            CharClass::Line => c != '\n',
            CharClass::Quoted => c != '"',
        }
    }
}

/// Where the longest run of characters of `class` that starts at `from` ends:
/// the first position at or behind `from` that holds no character of the
/// class, or the end of the text.
pub open spec fn run_end(s: Seq<char>, from: int, class: CharClass) -> int
    decreases s.len() - from,
{
    if 0 <= from < s.len() && class.holds(s[from]) {
        run_end(s, from + 1, class)
    } else {
        from
    }
}

/// A run stays within the text, holds only characters of its class, and stops
/// at the first character that is not of the class.
pub proof fn lemma_run_end(s: Seq<char>, from: int, class: CharClass)
    requires
        0 <= from <= s.len(),
    ensures
        from <= run_end(s, from, class) <= s.len(),
        forall|i: int| from <= i < run_end(s, from, class) ==> class.holds(#[trigger] s[i]),
        run_end(s, from, class) < s.len() ==> !class.holds(s[run_end(s, from, class)]),
    decreases s.len() - from,
{
    if from < s.len() && class.holds(s[from]) {
        lemma_run_end(s, from + 1, class);
    }
}

/// Finds the end of the run of characters of `class` that starts at `from`.
pub fn scan(chars: &[char], from: usize, class: CharClass) -> (end: usize)
    ensures
        end == run_end(chars@, from as int, class),
        from <= end,
        from <= chars@.len() ==> end <= chars@.len(),
{
    let mut end: usize = from;
    while end < chars.len() && class.has(chars[end])
        invariant
            from <= end,
            from <= chars@.len() ==> end <= chars@.len(),
            run_end(chars@, end as int, class) == run_end(chars@, from as int, class),
        decreases chars@.len() - end,
    {
        end += 1;
    }
    end
}

/// Whether the text holds `word` at `at`.
pub open spec fn starts_with(s: Seq<char>, at: int, word: Seq<char>) -> bool {
    0 <= at && at + word.len() <= s.len() && s.subrange(at, at + word.len()) == word
}

/// Whether `c` is alphanumeric as `char::is_alphanumeric` of the standard
/// library tells it: the name of its result.
pub uninterp spec fn alphanumeric(c: char) -> bool;

/// `char::is_alphanumeric` of the standard library tells whether a character
/// is a letter or a number of any script. All that is claimed of it is that
/// its result depends on the character alone.
pub assume_specification[ char::is_alphanumeric ](c: char) -> (r: bool)
    ensures
        r == alphanumeric(c),
;

/// Whether `c` goes on a word: whether it is `_`, a letter or a digit. Up to
/// U+007F the letters are `a` to `z` and `A` to `Z` and the digits `0` to `9`;
/// beyond, a character is a letter or a digit if it is alphanumeric.
pub open spec fn goes_on(c: char) -> bool {
    c == '_' || (if c <= '\u{7f}' {
        is_letter(c) || is_decimal(c)
    } else {
        alphanumeric(c)
    })
}

/// Whether a word ends at `at`: whether the text ends there or holds a
/// character that does not go on a word.
pub open spec fn word_ends(s: Seq<char>, at: int) -> bool {
    at >= s.len() || !goes_on(s[at])
}

/// Whether the text holds `word` at `at` and the word ends behind it.
pub open spec fn whole_word(s: Seq<char>, at: int, word: Seq<char>) -> bool {
    starts_with(s, at, word) && word_ends(s, at + word.len())
}

/// Whether `c` goes on a word.
pub fn joins(c: char) -> (r: bool)
    ensures
        r == goes_on(c),
{
    if c == '_' {
        true
    } else if c <= '\u{7f}' {
        ('a' <= c && c <= 'z') || ('A' <= c && c <= 'Z') || ('0' <= c && c <= '9')
    } else {
        c.is_alphanumeric()
    }
}

/// Whether `word` stands in the text at `at`; with `whole` set, as a whole
/// word.
pub open spec fn stands(s: Seq<char>, at: int, word: Seq<char>, whole: bool) -> bool {
    if whole {
        whole_word(s, at, word)
    } else {
        starts_with(s, at, word)
    }
}

/// The keywords, in the order in which they are tried.
pub open spec fn keywords() -> Seq<Token> {
    seq![
        Token::Module,
        Token::EndModule,
        Token::Generate,
        Token::EndGenerate,
        Token::Task,
        Token::EndTask,
        Token::Begin,
        Token::End,
        Token::Parameter,
        Token::Initial,
        Token::Wire,
        Token::Reg,
        Token::Logic,
        Token::Input,
        Token::Output,
        Token::AlwaysComb,
        Token::AlwaysFf,
        Token::Always,
        Token::If,
        Token::Else,
    ]
}

/// The delimiters, in the order in which they are tried.
pub open spec fn delimiters() -> Seq<Token> {
    seq![
        Token::Sharp,
        Token::LParen,
        Token::RParen,
        Token::LBracket,
        Token::RBracket,
        Token::LBraces,
        Token::RBraces,
        Token::Colon,
        Token::Comma,
        Token::Semicolon,
        Token::Dot,
    ]
}

/// The operators, in the order in which they are tried: one that begins with
/// another comes before it.
pub open spec fn operators() -> Seq<Token> {
    seq![
        Token::OpEqualTo,
        Token::OpEqual,
        Token::OpAt,
        Token::OpDivide,
        Token::OpMinus,
        Token::OpNot,
        Token::OpPlus,
        Token::OpInvert,
        Token::OpMultiply,
        Token::OpChoice,
        Token::OpAssign,
        Token::OpLessThan,
        Token::OpGreaterEqual,
        Token::OpGreaterThan,
        Token::OpAnd,
    ]
}

/// The first kind of `kinds` whose text stands at `at`; with `whole` set, the
/// text has to end there as a word does.
pub open spec fn first_match(s: Seq<char>, at: int, kinds: Seq<Token>, whole: bool) -> Option<
    Token,
>
    decreases kinds.len(),
{
    if kinds.len() == 0 {
        None
    } else if stands(s, at, kinds[0].text(), whole) {
        Some(kinds[0])
    } else {
        first_match(s, at, kinds.drop_first(), whole)
    }
}

/// Whether `chars` holds `word` at `at`.
pub fn holds_at(chars: &[char], at: usize, word: &str) -> (r: bool)
    ensures
        r == starts_with(chars@, at as int, word@),
{
    let n = word.unicode_len();
    if at > chars.len() || n > chars.len() - at {
        return false;
    }
    let mut i: usize = 0;
    while i < n
        invariant
            i <= n,
            n == word@.len(),
            at + n <= chars@.len() <= usize::MAX,
            chars@.subrange(at as int, at + i) == word@.subrange(0, i as int),
        decreases n - i,
    {
        if chars[at + i] != word.get_char(i) {
            assert(chars@.subrange(at as int, at + n)[i as int] != word@[i as int]);
            return false;
        }
        assert(chars@.subrange(at as int, at + i + 1) =~= chars@.subrange(at as int, at + i).push(
            chars@[at + i],
        ));
        assert(word@.subrange(0, i + 1) =~= word@.subrange(0, i as int).push(word@[i as int]));
        i += 1;
    }
    assert(word@.subrange(0, n as int) =~= word@);
    true
}

/// Tries the kinds of `kinds` in order at `at` and gives the first whose text
/// stands there, with the position behind it.
fn first_of(chars: &[char], at: usize, kinds: &[Token], whole: bool) -> (r: Option<(Token, usize)>)
    ensures
        match first_match(chars@, at as int, kinds@, whole) {
            Some(kind) => r == Some((kind, (at + kind.text().len()) as usize)) && at
                + kind.text().len() <= chars@.len(),
            None => r is None,
        },
{
    let len = chars.len();
    let mut i: usize = 0;
    assert(kinds@.skip(0) =~= kinds@);
    while i < kinds.len()
        invariant
            i <= kinds@.len(),
            chars@.len() == len,
            first_match(chars@, at as int, kinds@, whole) == first_match(
                chars@,
                at as int,
                kinds@.skip(i as int),
                whole,
            ),
        decreases kinds@.len() - i,
    {
        let word = kinds[i].fixed_text();
        proof {
            assert(kinds@.skip(i as int)[0] == kinds@[i as int]);
            assert(kinds@.skip(i as int).drop_first() =~= kinds@.skip(i + 1));
        }
        if holds_at(chars, at, word) {
            let end = at + word.unicode_len();
            if !whole || end == len || !joins(chars[end]) {
                return Some((kinds[i], end));
            }
        }
        i += 1;
    }
    None
}

/// The keyword at `at`, if one stands there as a whole word, and the position
/// behind it.
pub fn keyword(chars: &[char], at: usize) -> (r: Option<(Token, usize)>)
    ensures
        match first_match(chars@, at as int, keywords(), true) {
            Some(kind) => r == Some((kind, (at + kind.text().len()) as usize)) && at
                + kind.text().len() <= chars@.len(),
            None => r is None,
        },
{
    let kinds = [
        Token::Module,
        Token::EndModule,
        Token::Generate,
        Token::EndGenerate,
        Token::Task,
        Token::EndTask,
        Token::Begin,
        Token::End,
        Token::Parameter,
        Token::Initial,
        Token::Wire,
        Token::Reg,
        Token::Logic,
        Token::Input,
        Token::Output,
        Token::AlwaysComb,
        Token::AlwaysFf,
        Token::Always,
        Token::If,
        Token::Else,
    ];
    assert(kinds@ =~= keywords());
    first_of(chars, at, kinds.as_slice(), true)
}

/// The delimiter at `at`, if one stands there, and the position behind it.
pub fn delimiter(chars: &[char], at: usize) -> (r: Option<(Token, usize)>)
    ensures
        match first_match(chars@, at as int, delimiters(), false) {
            Some(kind) => r == Some((kind, (at + kind.text().len()) as usize)) && at
                + kind.text().len() <= chars@.len(),
            None => r is None,
        },
{
    let kinds = [
        Token::Sharp,
        Token::LParen,
        Token::RParen,
        Token::LBracket,
        Token::RBracket,
        Token::LBraces,
        Token::RBraces,
        Token::Colon,
        Token::Comma,
        Token::Semicolon,
        Token::Dot,
    ];
    assert(kinds@ =~= delimiters());
    first_of(chars, at, kinds.as_slice(), false)
}

/// The operator at `at`, if one stands there, and the position behind it.
pub fn operator(chars: &[char], at: usize) -> (r: Option<(Token, usize)>)
    ensures
        match first_match(chars@, at as int, operators(), false) {
            Some(kind) => r == Some((kind, (at + kind.text().len()) as usize)) && at
                + kind.text().len() <= chars@.len(),
            None => r is None,
        },
{
    let kinds = [
        Token::OpEqualTo,
        Token::OpEqual,
        Token::OpAt,
        Token::OpDivide,
        Token::OpMinus,
        Token::OpNot,
        Token::OpPlus,
        Token::OpInvert,
        Token::OpMultiply,
        Token::OpChoice,
        Token::OpAssign,
        Token::OpLessThan,
        Token::OpGreaterEqual,
        Token::OpGreaterThan,
        Token::OpAnd,
    ];
    assert(kinds@ =~= operators());
    first_of(chars, at, kinds.as_slice(), false)
}

/// Where the string that starts at `at` ends: a `"`, the characters up to the
/// next `"`, and that one. A `"` that no second one follows starts no string.
pub open spec fn string_end(s: Seq<char>, at: int) -> Option<int> {
    let close = run_end(s, at + 1, CharClass::Quoted);
    if s[at] == '"' && close < s.len() {
        Some(close + 1)
    } else {
        None
    }
}

/// Where the newline at `at` ends: a line feed, or a carriage return and a
/// line feed.
pub open spec fn newline_end(s: Seq<char>, at: int) -> Option<int> {
    if s[at] == '\n' {
        Some(at + 1)
    } else if s[at] == '\r' && at + 1 < s.len() && s[at + 1] == '\n' {
        Some(at + 2)
    } else {
        None
    }
}

/// Where the identifier that starts at `at` ends: a letter, `$` or `_`, and
/// then the letters, digits, `$` and `_` that follow.
pub open spec fn identifier_end(s: Seq<char>, at: int) -> Option<int> {
    if is_letter(s[at]) || s[at] == '$' || s[at] == '_' {
        Some(run_end(s, at + 1, CharClass::Name))
    } else {
        None
    }
}

/// Whether `c` is one of the letters that name the base of a number.
pub open spec fn is_base(c: char) -> bool {
    c == 'd' || c == 'D' || c == 'b' || c == 'B' || c == 'o' || c == 'O' || c == 'h' || c == 'H'
}

/// Where the number that starts at `at` ends. A number is a run of hexadecimal
/// digits and `_`. A base may stand before the run: `'` and the base's letter.
/// A width may stand before the base: a decimal digit other than `0`, and then
/// decimal digits and `_`. Where no digit follows a base, the number is the
/// run of digits that starts at `at` and the base is no part of it.
pub open spec fn number_end(s: Seq<char>, at: int) -> Option<int> {
    let width = if '1' <= s[at] && s[at] <= '9' {
        run_end(s, at + 1, CharClass::Width)
    } else {
        at
    };
    let based = width + 1 < s.len() && s[width] == '\'' && is_base(s[width + 1]);
    let sized = run_end(s, width + 2, CharClass::Digit);
    let plain = run_end(s, at, CharClass::Digit);
    if based && sized > width + 2 {
        Some(sized)
    } else if plain > at {
        Some(plain)
    } else {
        None
    }
}

/// Where the comment that starts at `at` ends: `//` and the rest of the line,
/// without the line feed.
pub open spec fn comment_end(s: Seq<char>, at: int) -> Option<int> {
    if at + 1 < s.len() && s[at] == '/' && s[at + 1] == '/' {
        Some(run_end(s, at + 2, CharClass::Line))
    } else {
        None
    }
}

/// The names of the compiler directives.
pub open spec fn directive_names() -> Seq<Seq<char>> {
    seq![
        "celldefine"@,
        "default_nettype"@,
        "define"@,
        "else"@,
        "elsif"@,
        "endcelldefine"@,
        "endif"@,
        "ifdef"@,
        "ifndef"@,
        "include"@,
        "line"@,
        "nounconnected_drive"@,
        "resetall"@,
        "timescale"@,
        "unconnected_drive"@,
        "undef"@,
    ]
}

/// Whether one of `words` stands in the text at `at`.
pub open spec fn any_at(s: Seq<char>, at: int, words: Seq<Seq<char>>) -> bool {
    exists|i: int| 0 <= i < words.len() && starts_with(s, at, #[trigger] words[i])
}

/// Where the compiler directive that starts at `at` ends: a backtick, a text
/// that begins with the name of a compiler directive, and the rest of the
/// line, without the line feed.
pub open spec fn compiler_directive_end(s: Seq<char>, at: int) -> Option<int> {
    if s[at] == '`' && any_at(s, at + 1, directive_names()) {
        Some(run_end(s, at + 1, CharClass::Line))
    } else {
        None
    }
}

/// Where the macro that starts at `at` ends: a backtick and the letters,
/// digits, `$` and `_` that follow, at least one.
pub open spec fn directive_end(s: Seq<char>, at: int) -> Option<int> {
    let end = run_end(s, at + 1, CharClass::Name);
    if s[at] == '`' && end > at + 1 {
        Some(end)
    } else {
        None
    }
}

/// The token that starts at `at`: its kind and the position behind it. The
/// rules are tried in a fixed order and the first that applies decides.
#[verifier::opaque]
pub open spec fn token_at(s: Seq<char>, at: int) -> Option<(Token, int)> {
    if !(0 <= at < s.len()) {
        None
    } else if let Some(kind) = first_match(s, at, keywords(), true) {
        Some((kind, at + kind.text().len()))
    } else if let Some(end) = string_end(s, at) {
        Some((Token::String, end))
    } else if let Some(kind) = first_match(s, at, delimiters(), false) {
        Some((kind, at + kind.text().len()))
    } else if let Some(end) = newline_end(s, at) {
        Some((Token::Newline, end))
    } else if let Some(end) = identifier_end(s, at) {
        Some((Token::Identifier, end))
    } else if let Some(end) = number_end(s, at) {
        Some((Token::Number, end))
    } else if let Some(end) = comment_end(s, at) {
        Some((Token::Comment, end))
    } else if let Some(kind) = first_match(s, at, operators(), false) {
        Some((kind, at + kind.text().len()))
    } else if let Some(end) = compiler_directive_end(s, at) {
        Some((Token::CompilerDirective, end))
    } else if let Some(end) = directive_end(s, at) {
        Some((Token::Directive, end))
    } else {
        None
    }
}

/// Whether a token of this kind always has the same text: the keywords, the
/// delimiters and the operators.
pub open spec fn is_fixed(kind: Token) -> bool {
    keywords().contains(kind) || delimiters().contains(kind) || operators().contains(kind)
}

/// The text of a keyword, a delimiter or an operator is not empty.
pub proof fn lemma_fixed_text(kind: Token)
    requires
        is_fixed(kind),
    ensures
        kind.text().len() > 0,
{
    reveal_strlit("module");
    reveal_strlit("endmodule");
    reveal_strlit("begin");
    reveal_strlit("end");
    reveal_strlit("parameter");
    reveal_strlit("generate");
    reveal_strlit("endgenerate");
    reveal_strlit("task");
    reveal_strlit("endtask");
    reveal_strlit("initial");
    reveal_strlit("input");
    reveal_strlit("output");
    reveal_strlit("wire");
    reveal_strlit("reg");
    reveal_strlit("logic");
    reveal_strlit("if");
    reveal_strlit("else");
    reveal_strlit("always");
    reveal_strlit("always_comb");
    reveal_strlit("always_ff");
    reveal_strlit("#");
    reveal_strlit("(");
    reveal_strlit(")");
    reveal_strlit("[");
    reveal_strlit("]");
    reveal_strlit("{");
    reveal_strlit("}");
    reveal_strlit(":");
    reveal_strlit(",");
    reveal_strlit(";");
    reveal_strlit(".");
    reveal_strlit("=");
    reveal_strlit("@");
    reveal_strlit("/");
    reveal_strlit("-");
    reveal_strlit("!");
    reveal_strlit("+");
    reveal_strlit("~");
    reveal_strlit("*");
    reveal_strlit("?");
    reveal_strlit("==");
    reveal_strlit("<=");
    reveal_strlit("<");
    reveal_strlit(">");
    reveal_strlit(">=");
    reveal_strlit("&&");
}

/// What `first_match` gives is one of the kinds it was given, and its text
/// stands at `at`.
pub proof fn lemma_first_match(s: Seq<char>, at: int, kinds: Seq<Token>, whole: bool)
    ensures
        first_match(s, at, kinds, whole) matches Some(kind) ==> kinds.contains(kind) && starts_with(
            s,
            at,
            kind.text(),
        ) && (whole ==> whole_word(s, at, kind.text())),
    decreases kinds.len(),
{
    if kinds.len() > 0 {
        lemma_first_match(s, at, kinds.drop_first(), whole);
        if let Some(kind) = first_match(s, at, kinds.drop_first(), whole) {
            let rest = kinds.drop_first();
            let i = choose|i: int| 0 <= i < rest.len() && rest[i] == kind;
            assert(kinds[i + 1] == kind);
        }
    }
}

/// A token is not empty and ends within the text.
pub proof fn lemma_token_bounds(s: Seq<char>, at: int)
    ensures
        token_at(s, at) matches Some((kind, end)) ==> 0 <= at < end <= s.len(),
{
    reveal(token_at);
    if 0 <= at < s.len() {
        lemma_first_match(s, at, keywords(), true);
        lemma_first_match(s, at, delimiters(), false);
        lemma_first_match(s, at, operators(), false);
        if let Some(kind) = first_match(s, at, keywords(), true) {
            lemma_fixed_text(kind);
        }
        if let Some(kind) = first_match(s, at, delimiters(), false) {
            lemma_fixed_text(kind);
        }
        if let Some(kind) = first_match(s, at, operators(), false) {
            lemma_fixed_text(kind);
        }
        lemma_run_end(s, at + 1, CharClass::Quoted);
        lemma_run_end(s, at + 1, CharClass::Name);
        lemma_run_end(s, at + 1, CharClass::Width);
        lemma_run_end(s, at, CharClass::Digit);
        if at + 2 <= s.len() {
            lemma_run_end(s, at + 2, CharClass::Line);
        }
        lemma_run_end(s, at + 1, CharClass::Line);
        let width = if '1' <= s[at] && s[at] <= '9' {
            run_end(s, at + 1, CharClass::Width)
        } else {
            at
        };
        if width + 2 <= s.len() {
            lemma_run_end(s, width + 2, CharClass::Digit);
        }
    }
}

/// The kind of a token is never `Start`.
pub proof fn lemma_token_kind(s: Seq<char>, at: int)
    ensures
        token_at(s, at) matches Some((kind, end)) ==> kind != Token::Start,
{
    reveal(token_at);
    lemma_first_match(s, at, keywords(), true);
    lemma_first_match(s, at, delimiters(), false);
    lemma_first_match(s, at, operators(), false);
}

/// The token stream of the text from `from` on, or the position at which the
/// text cannot be read. Between two tokens, spaces and tabs are passed over;
/// a position that holds neither a blank nor the start of a token ends the
/// reading, and nothing that was read before it is kept.
pub open spec fn lex(s: Seq<char>, from: int) -> Result<Seq<Lexeme>, int>
    decreases s.len() - from,
{
    let at = run_end(s, from, CharClass::Blank);
    if at >= s.len() {
        Ok(Seq::empty())
    } else {
        match token_at(s, at) {
            None => Err(at),
            Some((kind, end)) => {
                proof {
                    lemma_token_bounds(s, at);
                    lemma_run_end(s, from, CharClass::Blank);
                }
                match lex(s, end) {
                    Ok(rest) => Ok(seq![(s.subrange(at, end), kind)] + rest),
                    Err(stuck) => Err(stuck),
                }
            },
        }
    }
}

/// `lex` for a text of which the tokens `done` were read already and `rest` is
/// what reading the remainder gives.
pub open spec fn after(done: Seq<Lexeme>, rest: Result<Seq<Lexeme>, int>) -> Result<
    Seq<Lexeme>,
    int,
> {
    match rest {
        Ok(more) => Ok(done + more),
        Err(stuck) => Err(stuck),
    }
}

/// The end of the string that starts at `at`, if one does.
fn string(chars: &[char], at: usize) -> (r: Option<usize>)
    requires
        at < chars@.len(),
    ensures
        match string_end(chars@, at as int) {
            Some(end) => r == Some(end as usize) && at < end <= chars@.len(),
            None => r is None,
        },
{
    if chars[at] != '"' {
        return None;
    }
    let close = scan(chars, at + 1, CharClass::Quoted);
    if close < chars.len() {
        Some(close + 1)
    } else {
        None
    }
}

/// The end of the newline at `at`, if one stands there.
fn newline(chars: &[char], at: usize) -> (r: Option<usize>)
    requires
        at < chars@.len(),
    ensures
        match newline_end(chars@, at as int) {
            Some(end) => r == Some(end as usize) && at < end <= chars@.len(),
            None => r is None,
        },
{
    if chars[at] == '\n' {
        Some(at + 1)
    } else if chars[at] == '\r' && at + 1 < chars.len() && chars[at + 1] == '\n' {
        Some(at + 2)
    } else {
        None
    }
}

/// The end of the identifier that starts at `at`, if one does.
fn identifier(chars: &[char], at: usize) -> (r: Option<usize>)
    requires
        at < chars@.len(),
    ensures
        match identifier_end(chars@, at as int) {
            Some(end) => r == Some(end as usize) && at < end <= chars@.len(),
            None => r is None,
        },
{
    let c = chars[at];
    if ('a' <= c && c <= 'z') || ('A' <= c && c <= 'Z') || c == '$' || c == '_' {
        Some(scan(chars, at + 1, CharClass::Name))
    } else {
        None
    }
}

/// Whether `c` names the base of a number.
fn is_base_letter(c: char) -> (r: bool)
    ensures
        r == is_base(c),
{
    c == 'd' || c == 'D' || c == 'b' || c == 'B' || c == 'o' || c == 'O' || c == 'h' || c == 'H'
}

/// The end of the number that starts at `at`, if one does.
fn number(chars: &[char], at: usize) -> (r: Option<usize>)
    requires
        at < chars@.len(),
    ensures
        match number_end(chars@, at as int) {
            Some(end) => r == Some(end as usize) && at < end <= chars@.len(),
            None => r is None,
        },
{
    let len = chars.len();
    let width = if '1' <= chars[at] && chars[at] <= '9' {
        scan(chars, at + 1, CharClass::Width)
    } else {
        at
    };
    if width < len - 1 && chars[width] == '\'' && is_base_letter(chars[width + 1]) {
        let sized = scan(chars, width + 2, CharClass::Digit);
        if sized > width + 2 {
            return Some(sized);
        }
    }
    let plain = scan(chars, at, CharClass::Digit);
    if plain > at {
        Some(plain)
    } else {
        None
    }
}

/// The end of the comment that starts at `at`, if one does.
fn comment(chars: &[char], at: usize) -> (r: Option<usize>)
    requires
        at < chars@.len(),
    ensures
        match comment_end(chars@, at as int) {
            Some(end) => r == Some(end as usize) && at < end <= chars@.len(),
            None => r is None,
        },
{
    if chars[at] == '/' && at + 1 < chars.len() && chars[at + 1] == '/' {
        Some(scan(chars, at + 2, CharClass::Line))
    } else {
        None
    }
}

/// Whether the name of a compiler directive stands at `at`.
fn directive_name(chars: &[char], at: usize) -> (r: bool)
    ensures
        r == any_at(chars@, at as int, directive_names()),
{
    let names = [
        "celldefine",
        "default_nettype",
        "define",
        "else",
        "elsif",
        "endcelldefine",
        "endif",
        "ifdef",
        "ifndef",
        "include",
        "line",
        "nounconnected_drive",
        "resetall",
        "timescale",
        "unconnected_drive",
        "undef",
    ];
    let ghost words = directive_names();
    assert(names@.len() == words.len());
    assert forall|j: int| 0 <= j < words.len() implies (#[trigger] names@[j])@ == words[j] by {}
    let mut i: usize = 0;
    while i < 16
        invariant
            i <= 16,
            names@.len() == 16,
            words == directive_names(),
            words.len() == 16,
            forall|j: int| 0 <= j < 16 ==> (#[trigger] names@[j])@ == words[j],
            forall|j: int| 0 <= j < i ==> !starts_with(chars@, at as int, #[trigger] words[j]),
        decreases 16 - i,
    {
        if holds_at(chars, at, names[i]) {
            assert(starts_with(chars@, at as int, words[i as int]));
            return true;
        }
        i += 1;
    }
    false
}

/// The end of the compiler directive that starts at `at`, if one does.
fn compiler_directive(chars: &[char], at: usize) -> (r: Option<usize>)
    requires
        at < chars@.len(),
    ensures
        match compiler_directive_end(chars@, at as int) {
            Some(end) => r == Some(end as usize) && at < end <= chars@.len(),
            None => r is None,
        },
{
    if chars[at] == '`' && directive_name(chars, at + 1) {
        Some(scan(chars, at + 1, CharClass::Line))
    } else {
        None
    }
}

/// The end of the macro that starts at `at`, if one does.
fn directive(chars: &[char], at: usize) -> (r: Option<usize>)
    requires
        at < chars@.len(),
    ensures
        match directive_end(chars@, at as int) {
            Some(end) => r == Some(end as usize) && at < end <= chars@.len(),
            None => r is None,
        },
{
    if chars[at] != '`' {
        return None;
    }
    let end = scan(chars, at + 1, CharClass::Name);
    if end > at + 1 {
        Some(end)
    } else {
        None
    }
}

/// The token that starts at `at`, if one does: its kind and the position
/// behind it.
pub fn token(chars: &[char], at: usize) -> (r: Option<(Token, usize)>)
    ensures
        match token_at(chars@, at as int) {
            Some((kind, end)) => r == Some((kind, end as usize)) && at < end <= chars@.len(),
            None => r is None,
        },
{
    proof {
        reveal(token_at);
    }
    if at >= chars.len() {
        return None;
    }
    proof {
        lemma_token_bounds(chars@, at as int);
    }
    if let Some(found) = keyword(chars, at) {
        return Some(found);
    }
    if let Some(end) = string(chars, at) {
        return Some((Token::String, end));
    }
    if let Some(found) = delimiter(chars, at) {
        return Some(found);
    }
    if let Some(end) = newline(chars, at) {
        return Some((Token::Newline, end));
    }
    if let Some(end) = identifier(chars, at) {
        return Some((Token::Identifier, end));
    }
    if let Some(end) = number(chars, at) {
        return Some((Token::Number, end));
    }
    if let Some(end) = comment(chars, at) {
        return Some((Token::Comment, end));
    }
    if let Some(found) = operator(chars, at) {
        return Some(found);
    }
    if let Some(end) = compiler_directive(chars, at) {
        return Some((Token::CompilerDirective, end));
    }
    if let Some(end) = directive(chars, at) {
        return Some((Token::Directive, end));
    }
    None
}

/// Reads a text into its tokens. The whole text is read or none of it: where
/// something stands that is no token, the result is the error that says
/// where, and no token. The tokens borrow their texts from the input.
pub fn tokens<'a>(input: &'a str) -> (r: Result<Vec<ParsedToken<'a>>, LexError<'a>>)
    ensures
        match lex(input@, 0) {
            Ok(list) => r matches Ok(found) && stream(found@) == list,
            Err(at) => r matches Err(e) && e.position == at && e.remainder@ == input@.skip(at),
        },
{
    let chars = chars_of(input);
    let len = chars.len();
    let plain = input.is_ascii();
    let mut found: Vec<ParsedToken<'a>> = Vec::new();
    let mut from: usize = 0;
    assert(stream(found@) =~= Seq::<Lexeme>::empty());
    assert(after(stream(found@), lex(chars@, 0)) == lex(chars@, 0)) by {
        if let Ok(more) = lex(chars@, 0) {
            assert(stream(found@) + more =~= more);
        }
    }
    loop
        invariant
            chars@ == input@,
            len == chars@.len(),
            plain ==> input.is_ascii(),
            from <= len,
            lex(chars@, 0) == after(stream(found@), lex(chars@, from as int)),
        decreases len - from,
    {
        let at = scan(chars.as_slice(), from, CharClass::Blank);
        if at == len {
            assert(stream(found@) + Seq::<Lexeme>::empty() =~= stream(found@));
            return Ok(found);
        }
        match token(chars.as_slice(), at) {
            None => {
                let remainder = if plain {
                    input.substring_ascii(at, len)
                } else {
                    input.substring_char(at, len)
                };
                assert(remainder@ =~= input@.skip(at as int));
                return Err(LexError { position: at, remainder });
            },
            Some((kind, end)) => {
                let text = if plain {
                    input.substring_ascii(at, end)
                } else {
                    input.substring_char(at, end)
                };
                proof {
                    let one = seq![(chars@.subrange(at as int, end as int), kind)];
                    assert(stream(found@.push((text, kind))) =~= stream(found@) + one);
                    if let Ok(more) = lex(chars@, end as int) {
                        assert(stream(found@) + (one + more) =~= (stream(found@) + one) + more);
                    }
                }
                found.push((text, kind));
                from = end;
            },
        }
    }
}

} // verus!
