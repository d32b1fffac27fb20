//! The printer: from tokens to text.
//!
//! The printer reads the tokens once, in order, and keeps a small state between
//! two of them, [`Layout`]. For each token it writes a separator and then the
//! token's own text. The separator is a line break with the indentation of the
//! current depth, one space, or nothing; it depends on the kinds of the tokens
//! seen so far and never on their text.
//!
//! # Indentation
//!
//! The depth is a count of open levels and never falls below zero: a closing
//! token at depth zero leaves it there.
//!
//! * `begin` and `{` open a level that starts behind them: the token itself
//!   still stands at the old depth.
//! * `(` opens a level at once and `)` closes one. This holds for every
//!   parenthesis, that of a `module` or `task` header too, so the ports of a
//!   header stand one level inside the header line.
//! * `module` and `task` open a level that starts at the `;` which ends the
//!   header.
//! * `end`, `endmodule`, `endtask`, `endgenerate` and `}` close a level.
//!
//! # Line breaks
//!
//! A line breaks behind `begin`, `endtask`, `;`, a comment and a compiler
//! directive; before `end`, and behind it unless `else` follows; behind a
//! comma within parentheses; and behind the `(` of a `module` or `task`
//! header. A comment stays behind the comma that it followed in the source.
//!
//! Line breaks are the printer's own. The first newline token of a run is
//! dropped; each further one of the same run is written as it stands and so
//! keeps one blank line of the source.
//!
//! # Spaces
//!
//! Where no line breaks, one space separates two tokens, but for the pairs
//! that [`tight`] lists: nothing stands inside parentheses, brackets and
//! braces, before `;`, `,` and `.`, behind `.` and `!`, between a number and
//! the `:` beside it, between an identifier and `[`, between `#` and a
//! number, and between a macro and a number.
//!
//! [`formatted`] is the model of the text of a token stream and [`printer`]
//! computes it.

use vstd::prelude::*;
use crate::lexer::{stream, Lexeme, ParsedToken, Token};

verus! {

/// The printer's state between two tokens, as mathematical values.
pub struct LayoutModel {
    /// Indentation depth, in levels of four spaces.
    pub depth: nat,
    /// Opening parentheses seen, less closing ones.
    pub parens: int,
    /// True from a `module` or `task` keyword up to the `;` that ends its header.
    pub in_definition: bool,
    /// Kind of the token before, `Start` before the first.
    pub last: Token,
    /// Kind of the last token that was not a newline, `Start` before the first.
    pub last_text: Token,
}

/// Whether a token of this kind closes a level of indentation.
pub open spec fn closes_level(kind: Token) -> bool {
    kind == Token::RParen || kind == Token::End || kind == Token::EndModule || kind
        == Token::EndTask || kind == Token::EndGenerate || kind == Token::RBraces
}

/// Whether a token of this kind opens a level that starts behind it.
pub open spec fn opens_block(kind: Token) -> bool {
    kind == Token::Begin || kind == Token::LBraces
}

/// Whether a token of this kind ends its line: whether whatever follows it
/// starts a new one.
pub open spec fn ends_line(kind: Token) -> bool {
    kind == Token::Begin || kind == Token::EndTask || kind == Token::Semicolon || kind
        == Token::Comment || kind == Token::CompilerDirective
}

/// Whether a line break is written before a token of `kind`, in the state `m`
/// that already counts this token. No line breaks before a newline token.
/// Before any other token it breaks
///
/// * behind a token that ends its line;
/// * before `end`, and behind `end` unless `else` follows;
/// * behind a comma within parentheses; before a comment, though, only if
///   the comma ended its line in the source;
/// * behind the `(` of a `module` or `task` header, unless `)` follows.
#[verifier::opaque]
pub open spec fn breaks_line(m: LayoutModel, kind: Token) -> bool {
    kind != Token::Newline && {
        ||| ends_line(m.last_text)
        ||| kind == Token::End
        ||| m.last_text == Token::End && kind != Token::Else
        ||| m.last_text == Token::Comma && kind == Token::Comment && m.last != Token::Comma
        ||| m.last_text == Token::Comma && kind != Token::Comment && m.parens > 0
        ||| m.last_text == Token::LParen && kind != Token::RParen && m.in_definition
    }
}

/// Whether nothing separates a token of kind `kind` from the token of kind
/// `before` on the same line. Every other pair is separated by one space.
#[verifier::opaque]
pub open spec fn tight(before: Token, kind: Token) -> bool {
    ||| before == Token::Start
    ||| before == Token::Newline
    ||| before == Token::LParen
    ||| before == Token::LBracket
    ||| before == Token::LBraces
    ||| before == Token::OpNot
    ||| before == Token::Dot
    ||| before == Token::Comment
    ||| before == Token::CompilerDirective
    ||| kind == Token::RParen
    ||| kind == Token::RBracket
    ||| kind == Token::RBraces
    ||| kind == Token::Semicolon
    ||| kind == Token::Comma
    ||| kind == Token::Dot
    ||| kind == Token::CompilerDirective
    ||| kind == Token::Newline
    ||| (before == Token::Identifier && kind == Token::LBracket)
    ||| (before == Token::Sharp && kind == Token::Number)
    ||| (before == Token::Number && kind == Token::Colon)
    ||| (before == Token::Colon && kind == Token::Number)
    ||| (before == Token::Directive && kind == Token::Number)
}

/// The indentation of a line at `depth`: four spaces for each level.
pub open spec fn indent(depth: nat) -> Seq<char> {
    Seq::new(4 * depth, |i: int| ' ')
}

impl LayoutModel {
    /// The state before the first token.
    pub open spec fn start() -> LayoutModel {
        LayoutModel {
            depth: 0,
            parens: 0,
            in_definition: false,
            last: Token::Start,
            last_text: Token::Start,
        }
    }

    /// The state in which the separator before a token of `kind` is decided.
    /// The header flag, the depth and the parenthesis count already account
    /// for the token; a level that `begin` or `{` opens does not yet.
    pub open spec fn entering(self, kind: Token) -> LayoutModel {
        LayoutModel {
            depth: if kind == Token::LParen || (kind == Token::Semicolon && self.in_definition) {
                self.depth + 1
            } else if closes_level(kind) && self.depth > 0 {
                (self.depth - 1) as nat
            } else {
                self.depth
            },
            parens: if kind == Token::LParen {
                self.parens + 1
            } else if kind == Token::RParen {
                self.parens - 1
            } else {
                self.parens
            },
            in_definition: if kind == Token::Module || kind == Token::Task {
                true
            } else if kind == Token::Semicolon {
                false
            } else {
                self.in_definition
            },
            last: self.last,
            last_text: self.last_text,
        }
    }

    /// What is written between the token before and a token of `kind`.
    pub open spec fn separator(self, kind: Token) -> Seq<char> {
        let m = self.entering(kind);
        if breaks_line(m, kind) {
            seq!['\n'] + indent(m.depth)
        } else if tight(m.last_text, kind) {
            Seq::empty()
        } else {
            seq![' ']
        }
    }

    /// What is written of the token itself: its text, but nothing for the
    /// first newline of a run.
    pub open spec fn piece(self, kind: Token, text: Seq<char>) -> Seq<char> {
        if kind == Token::Newline && self.last != Token::Newline {
            Seq::empty()
        } else {
            text
        }
    }

    /// Everything that is written for one token.
    pub open spec fn emitted(self, kind: Token, text: Seq<char>) -> Seq<char> {
        self.separator(kind) + self.piece(kind, text)
    }

    /// The state behind a token of `kind`.
    pub open spec fn advance(self, kind: Token) -> LayoutModel {
        let m = self.entering(kind);
        LayoutModel {
            depth: if opens_block(kind) {
                m.depth + 1
            } else {
                m.depth
            },
            parens: m.parens,
            in_definition: m.in_definition,
            last: kind,
            last_text: if kind == Token::Newline {
                m.last_text
            } else {
                kind
            },
        }
    }

    /// The text written for `tokens` by a printer in this state.
    pub open spec fn render(self, tokens: Seq<Lexeme>) -> Seq<char>
        decreases tokens.len(),
    {
        if tokens.len() == 0 {
            Seq::empty()
        } else {
            self.emitted(tokens[0].1, tokens[0].0) + self.advance(tokens[0].1).render(
                tokens.drop_first(),
            )
        }
    }
}

/// The formatted text of a token stream.
pub open spec fn formatted(tokens: Seq<Lexeme>) -> Seq<char> {
    LayoutModel::start().render(tokens)
}

/// `else` stays on the line of the `end` in front of it: one space separates
/// the two.
pub proof fn lemma_else_follows_end(m: LayoutModel)
    requires
        m.last_text == Token::End,
    ensures
        m.separator(Token::Else) == seq![' '],
{
    reveal(breaks_line);
    reveal(tight);
}

/// Whatever follows a compiler directive or a comment starts a new line,
/// unless it is a newline token.
pub proof fn lemma_line_ends_behind(m: LayoutModel, kind: Token)
    requires
        m.last_text == Token::CompilerDirective || m.last_text == Token::Comment,
        kind != Token::Newline,
    ensures
        m.separator(kind) == seq!['\n'] + indent(m.entering(kind).depth),
{
    reveal(breaks_line);
}

/// Nothing separates a number from the macro in front of it.
pub proof fn lemma_number_follows_macro(m: LayoutModel)
    requires
        m.last_text == Token::Directive,
    ensures
        m.separator(Token::Number) == Seq::<char>::empty(),
{
    reveal(breaks_line);
    reveal(tight);
}

/// No line breaks and nothing is written in front of a newline token, and
/// nothing is written for the first newline token of a run.
pub proof fn lemma_newline_is_bare(m: LayoutModel, text: Seq<char>)
    ensures
        !breaks_line(m.entering(Token::Newline), Token::Newline),
        m.separator(Token::Newline) == Seq::<char>::empty(),
        m.last != Token::Newline ==> m.emitted(Token::Newline, text) == Seq::<char>::empty(),
        m.last == Token::Newline ==> m.emitted(Token::Newline, text) == text,
{
    reveal(breaks_line);
    reveal(tight);
    assert(Seq::<char>::empty() + text =~= text);
    assert(Seq::<char>::empty() + Seq::<char>::empty() =~= Seq::<char>::empty());
}

/// The printer's state between two tokens.
#[derive(Debug, Clone, Copy)]
pub struct Layout {
    /// Indentation depth, in levels of four spaces.
    pub depth: usize,
    /// Opening parentheses seen, less closing ones.
    pub parens: i128,
    /// True from a `module` or `task` keyword up to the `;` that ends its header.
    pub in_definition: bool,
    /// Kind of the token before, `Start` before the first.
    pub last: Token,
    /// Kind of the last token that was not a newline, `Start` before the first.
    pub last_text: Token,
}

impl View for Layout {
    type V = LayoutModel;

    open spec fn view(&self) -> LayoutModel {
        LayoutModel {
            depth: self.depth as nat,
            parens: self.parens as int,
            in_definition: self.in_definition,
            last: self.last,
            last_text: self.last_text,
        }
    }
}

/// The printer cannot fail on any token stream; the type stands for a sink
/// that refuses a write, which a text in memory never does.
#[derive(Debug, Clone, Copy, PartialEq, Eq, Structural)]
pub struct FormatError {}

/// Whether a token of this kind closes a level of indentation.
fn is_closing(kind: Token) -> (r: bool)
    ensures
        r == closes_level(kind),
{
    kind == Token::RParen || kind == Token::End || kind == Token::EndModule || kind
        == Token::EndTask || kind == Token::EndGenerate || kind == Token::RBraces
}

/// Whether nothing separates the two kinds on one line.
fn is_tight(before: Token, kind: Token) -> (r: bool)
    ensures
        r == tight(before, kind),
{
    proof {
        reveal(tight);
    }
    before == Token::Start || before == Token::Newline || before == Token::LParen || before
        == Token::LBracket || before == Token::LBraces || before == Token::OpNot || before
        == Token::Dot || before == Token::Comment || before == Token::CompilerDirective || kind
        == Token::RParen || kind == Token::RBracket || kind == Token::RBraces || kind
        == Token::Semicolon || kind == Token::Comma || kind == Token::Dot || kind
        == Token::CompilerDirective || kind == Token::Newline || (before == Token::Identifier
        && kind == Token::LBracket) || (before == Token::Sharp && kind == Token::Number) || (before
        == Token::Number && kind == Token::Colon) || (before == Token::Colon && kind
        == Token::Number) || (before == Token::Directive && kind == Token::Number)
}

impl Layout {
    /// The state before the first token.
    pub fn new() -> (r: Layout)
        ensures
            r@ == LayoutModel::start(),
    {
        Layout {
            depth: 0,
            parens: 0,
            in_definition: false,
            last: Token::Start,
            last_text: Token::Start,
        }
    }

    /// Counts a token of `kind` into the header flag, the depth and the
    /// parenthesis count.
    fn enter(&mut self, kind: Token)
        requires
            old(self).depth < usize::MAX,
            i128::MIN < old(self).parens < i128::MAX,
        ensures
            final(self)@ == old(self)@.entering(kind),
    {
        if kind == Token::LParen || (kind == Token::Semicolon && self.in_definition) {
            self.depth = self.depth + 1;
        } else if is_closing(kind) && self.depth > 0 {
            self.depth = self.depth - 1;
        }
        if kind == Token::LParen {
            self.parens = self.parens + 1;
        } else if kind == Token::RParen {
            self.parens = self.parens - 1;
        }
        if kind == Token::Module || kind == Token::Task {
            self.in_definition = true;
        } else if kind == Token::Semicolon {
            self.in_definition = false;
        }
    }

    /// Whether a line break comes before a token of `kind`, once the state
    /// counts that token.
    fn breaks_before(&self, kind: Token) -> (r: bool)
        ensures
            r == breaks_line(self@, kind),
    {
        proof {
            reveal(breaks_line);
        }
        if kind == Token::Newline {
            false
        } else if self.last_text == Token::CompilerDirective || self.last_text == Token::Begin {
            true
        } else if kind == Token::End {
            true
        } else if self.last_text == Token::End {
            kind != Token::Else
        } else if self.last_text == Token::EndTask {
            true
        } else if self.last_text == Token::Comma {
            if kind == Token::Comment {
                self.last != Token::Comma
            } else {
                self.parens > 0
            }
        } else if self.last_text == Token::Semicolon || self.last_text == Token::Comment {
            true
        } else if self.last_text == Token::LParen {
            kind != Token::RParen && self.in_definition
        } else {
            false
        }
    }

    /// Moves the state from where the separator in front of a token of `kind`
    /// is decided to behind the token.
    fn leave(&mut self, kind: Token)
        requires
            opens_block(kind) ==> old(self).depth < usize::MAX,
        ensures
            final(self)@ == (LayoutModel {
                depth: if opens_block(kind) {
                    old(self)@.depth + 1
                } else {
                    old(self)@.depth
                },
                last: kind,
                last_text: if kind == Token::Newline {
                    old(self)@.last_text
                } else {
                    kind
                },
                ..old(self)@
            }),
    {
        if is_opening(kind) {
            self.depth = self.depth + 1;
        }
        if kind != Token::Newline {
            self.last_text = kind;
        }
        self.last = kind;
    }

    /// Whether the printer starts a new line for a token of `kind` that comes
    /// next.
    pub fn starts_line(&self, kind: Token) -> (r: bool)
        requires
            self.depth < usize::MAX,
            i128::MIN < self.parens < i128::MAX,
        ensures
            r == breaks_line(self@.entering(kind), kind),
    {
        let mut entered = *self;
        entered.enter(kind);
        entered.breaks_before(kind)
    }

    /// Takes one token and writes nothing: moves the state behind the token.
    pub fn pass(&mut self, kind: Token)
        requires
            old(self).depth < usize::MAX,
            i128::MIN < old(self).parens < i128::MAX,
        ensures
            final(self)@ == old(self)@.advance(kind),
    {
        self.enter(kind);
        self.leave(kind);
    }

    /// Takes one token: appends to `out` what the printer writes for it and
    /// moves the state behind it.
    pub fn step(&mut self, text: &str, kind: Token, out: &mut String)
        requires
            old(self).depth < usize::MAX,
            i128::MIN < old(self).parens < i128::MAX,
        ensures
            final(self)@ == old(self)@.advance(kind),
            final(out)@ == old(out)@ + old(self)@.emitted(kind, text@),
    {
        let ghost before = self@;
        let ghost written = out@;
        self.enter(kind);
        if self.breaks_before(kind) {
            out.push('\n');
            let mut level: usize = 0;
            while level < self.depth
                invariant
                    level <= self.depth,
                    out@ == written + (seq!['\n'] + indent(level as nat)),
                decreases self.depth - level,
            {
                out.push(' ');
                out.push(' ');
                out.push(' ');
                out.push(' ');
                level += 1;
                assert(out@ =~= written + (seq!['\n'] + indent(level as nat)));
            }
        } else if !is_tight(self.last_text, kind) {
            out.push(' ');
        }
        assert(out@ =~= written + before.separator(kind));
        if kind != Token::Newline || self.last == Token::Newline {
            out.append(text);
        }
        self.leave(kind);
        assert(out@ =~= written + before.emitted(kind, text@));
    }
}

/// Whether a token of this kind opens a level that starts behind it.
fn is_opening(kind: Token) -> (r: bool)
    ensures
        r == opens_block(kind),
{
    kind == Token::Begin || kind == Token::LBraces
}

/// Formats a token stream.
pub fn printer<'a>(tokens: Vec<ParsedToken<'a>>) -> (r: Result<String, FormatError>)
    ensures
        r matches Ok(text) && text@ == formatted(stream(tokens@)),
{
    let mut out = String::new();
    let mut state = Layout::new();
    let ghost all = stream(tokens@);
    let mut i: usize = 0;
    assert(all.skip(0) =~= all);
    assert(out@ + formatted(all) =~= formatted(all));
    while i < tokens.len()
        invariant
            i <= tokens.len(),
            all == stream(tokens@),
            state.depth <= i,
            -(i as int) <= state.parens <= i,
            out@ + state@.render(all.skip(i as int)) == formatted(all),
        decreases tokens.len() - i,
    {
        let token = &tokens[i];
        proof {
            let rest = all.skip(i as int);
            assert(rest[0] == (token.0@, token.1));
            assert(rest.drop_first() =~= all.skip(i + 1));
        }
        state.step(token.0, token.1, &mut out);
        i += 1;
    }
    Ok(out)
}

} // verus!
