//! Formatting a text that is formatted already.
//!
//! Formatting twice is formatting once, but for what this module names.
//!
//! The lexer may read a formatted text otherwise than the printer wrote it. A
//! number that starts with a digit grows onto a macro that stands in front of
//! it, for nothing separates the two; and a blank line that is written with a
//! carriage return is read back with it. A token stream that is free of both
//! is called legible: its formatted text reads back as the tokens that were
//! written, with a newline token for each line break.
//!
//! A blank line of the source is kept by writing its newline token, and the
//! next pass keeps it only if a line break follows: the first newline token
//! of a run is dropped. A token stream in which each newline token that is
//! written stands in front of another or of a token that starts a line is
//! called steady.
//!
//! For a legible stream, formatting the formatted text changes nothing if and
//! only if the stream is steady. A stream that is both is called calm. The
//! modules `grown` and `mended` carry this over to streams that are not
//! legible, where what is read back is written as the stream itself is.

use vstd::prelude::*;
use crate::context::{
    ends_at, ends_before, is_delimiter, lemma_delimiter_text, lemma_keyword_text,
    lemma_no_delimiter, lemma_no_keyword, lemma_operator_text, lemma_same_token,
    lemma_starts_with, lemma_token_start, plain_at, same_piece,
};
use crate::lexer::{
    after, comment_end, delimiters, first_match, identifier_end, keywords, lemma_first_match,
    lemma_run_end, lemma_token_bounds, lemma_token_kind, lex, newline_end, number_end, operators,
    run_end, string_end, token_at, CharClass, Lexeme, Token,
};
use crate::printer::{
    breaks_line, formatted, indent, lemma_newline_is_bare, tight, LayoutModel,
};

verus! {

/// The newline token that the lexer reads where the printer broke a line.
pub open spec fn line_feed() -> Lexeme {
    (seq!['\n'], Token::Newline)
}

/// What is read back for one token that a printer in state `m` takes: a
/// newline token if the printer breaks the line, and the token if its text is
/// written.
pub open spec fn reread_one(m: LayoutModel, token: Lexeme) -> Seq<Lexeme> {
    (if breaks_line(m.entering(token.1), token.1) {
        seq![line_feed()]
    } else {
        Seq::empty()
    }) + (if token.1 == Token::Newline && m.last != Token::Newline {
        Seq::empty()
    } else {
        seq![token]
    })
}

/// The token stream of the text that a printer in state `m` writes for
/// `tokens`, as far as the printer decides it: a newline token for each line
/// break, and each token whose text was written.
pub open spec fn reread(m: LayoutModel, tokens: Seq<Lexeme>) -> Seq<Lexeme>
    decreases tokens.len(),
{
    if tokens.len() == 0 {
        Seq::empty()
    } else {
        reread_one(m, tokens[0]) + reread(m.advance(tokens[0].1), tokens.drop_first())
    }
}

/// Whether the text that a printer in state `m` writes for `tokens` reads
/// back as the printer wrote it: each newline token whose text is written is
/// one line feed, and a number behind a macro starts with `'`, so that it
/// cannot grow onto the macro.
pub open spec fn legible(m: LayoutModel, tokens: Seq<Lexeme>) -> bool
    decreases tokens.len(),
{
    tokens.len() == 0 || {
        let (text, kind) = tokens[0];
        &&& kind == Token::Newline && m.last == Token::Newline ==> text == seq!['\n']
        &&& kind == Token::Number && m.last_text == Token::Directive ==> text.len() > 0
            && !CharClass::Name.holds(text[0])
        &&& legible(m.advance(kind), tokens.drop_first())
    }
}

/// Whether no blank line is lost when the text that a printer in state `m`
/// writes for `tokens` is formatted once more: each newline token whose text
/// is written stands in front of another newline token or of a token that
/// starts a line anyway.
pub open spec fn steady(m: LayoutModel, tokens: Seq<Lexeme>) -> bool
    decreases tokens.len(),
{
    tokens.len() == 0 || {
        let kind = tokens[0].1;
        let rest = tokens.drop_first();
        let next = m.advance(kind);
        &&& kind == Token::Newline && m.last == Token::Newline ==> starts_line(next, rest)
        &&& steady(next, rest)
    }
}

/// Whether a printer in state `m` writes for `tokens` a text that settles:
/// one that reads back as it was written and loses no blank line when it is
/// formatted once more.
pub open spec fn calm(m: LayoutModel, tokens: Seq<Lexeme>) -> bool {
    legible(m, tokens) && steady(m, tokens)
}

/// Whether `tokens` is not empty and a printer in state `m` starts a line at
/// its first token, or takes a newline token first.
pub open spec fn starts_line(m: LayoutModel, tokens: Seq<Lexeme>) -> bool {
    tokens.len() > 0 && (tokens[0].1 == Token::Newline || breaks_line(
        m.entering(tokens[0].1),
        tokens[0].1,
    ))
}

/// `render` of a stream that starts with one given token.
pub proof fn lemma_render_first(m: LayoutModel, first: Lexeme, rest: Seq<Lexeme>)
    ensures
        m.render(seq![first] + rest) == m.emitted(first.1, first.0) + m.advance(first.1).render(
            rest,
        ),
{
    let all = seq![first] + rest;
    assert(all[0] == first);
    assert(all.drop_first() =~= rest);
}

/// The state of a printer that has taken `tokens` from state `m` on.
pub open spec fn state_behind(m: LayoutModel, tokens: Seq<Lexeme>) -> LayoutModel
    decreases tokens.len(),
{
    if tokens.len() == 0 {
        m
    } else {
        state_behind(m.advance(tokens[0].1), tokens.drop_first())
    }
}

/// What a printer writes for two streams in turn is what it writes for the
/// first and then, from the state behind it, for the second.
pub proof fn lemma_render_parts(m: LayoutModel, first: Seq<Lexeme>, second: Seq<Lexeme>)
    ensures
        m.render(first + second) == m.render(first) + state_behind(m, first).render(second),
    decreases first.len(),
{
    if first.len() == 0 {
        assert(first + second =~= second);
        assert(m.render(first) + m.render(second) =~= m.render(second));
    } else {
        let all = first + second;
        let next = m.advance(first[0].1);
        assert(all[0] == first[0]);
        assert(all.drop_first() =~= first.drop_first() + second);
        lemma_render_parts(next, first.drop_first(), second);
        assert(m.emitted(first[0].1, first[0].0) + (next.render(first.drop_first())
            + state_behind(m, first).render(second)) =~= m.render(first) + state_behind(
            m,
            first,
        ).render(second));
    }
}

/// `reread` takes the tokens one by one.
pub proof fn lemma_reread_parts(m: LayoutModel, tokens: Seq<Lexeme>)
    requires
        tokens.len() > 0,
    ensures
        reread(m, tokens) == reread_one(m, tokens[0]) + reread(
            m.advance(tokens[0].1),
            tokens.drop_first(),
        ),
{
}

/// One line feed if `owed`, else nothing.
pub open spec fn due(owed: bool) -> Seq<char> {
    if owed {
        seq!['\n']
    } else {
        Seq::empty()
    }
}

/// How the printer that formats what was read back stands to the printer
/// that wrote the text. `m` is the state of the one that wrote and `again`
/// that of the other; the two differ at most in the kind of the token before.
/// With `owed` set, both have taken a newline token last, and the first has
/// written a line feed for a newline token that the second has dropped as the
/// first of its run. Without it, the second has taken no newline token last,
/// and the first has taken the same token as the second or a newline token
/// that it dropped.
pub open spec fn paired(m: LayoutModel, again: LayoutModel, owed: bool) -> bool {
    &&& again == (LayoutModel { last: again.last, ..m })
    &&& owed ==> m.last == Token::Newline && again.last == Token::Newline
    &&& !owed ==> again.last != Token::Newline && (m.last == again.last || m.last
        == Token::Newline)
}

/// The two printers over one token. The second takes what is read back for
/// the token. If the first writes a newline token, the second is owed a line
/// feed from then on. The second writes what the first does, with the line
/// feed that it was owed in front and up to the line feed that it is owed
/// next; but where it is owed a line feed and the token starts no line, the
/// line feed is lost: the second writes what the first does and is owed
/// nothing.
proof fn lemma_second_pass(m: LayoutModel, again: LayoutModel, token: Lexeme, owed: bool)
    requires
        paired(m, again, owed),
        token.1 == Token::Newline && m.last == Token::Newline ==> token.0 == seq!['\n'],
    ensures
        ({
            let (text, kind) = token;
            let part = reread_one(m, token);
            let written = kind == Token::Newline && m.last == Token::Newline;
            let lost = owed && kind != Token::Newline && !breaks_line(m.entering(kind), kind);
            &&& paired(m.advance(kind), state_behind(again, part), written)
            &&& !lost ==> again.render(part) + due(written) == due(owed) + m.emitted(kind, text)
            &&& lost ==> again.render(part) == m.emitted(kind, text)
        }),
{
    reveal(breaks_line);
    reveal(tight);
    let (text, kind) = token;
    let part = reread_one(m, token);
    let none = Seq::<Lexeme>::empty();
    if kind == Token::Newline && m.last != Token::Newline {
        assert(part =~= none);
        assert(again.render(part) + due(false) =~= due(owed) + m.emitted(kind, text));
    } else if breaks_line(m.entering(kind), kind) {
        let fed = again.advance(Token::Newline);
        assert(part =~= seq![line_feed()] + seq![token]);
        lemma_render_first(again, line_feed(), seq![token]);
        lemma_render_first(fed, token, none);
        assert(seq![token] + none =~= seq![token]);
        assert(state_behind(again, part) == fed.advance(kind)) by {
            reveal_with_fuel(state_behind, 3);
            assert(part.drop_first() =~= seq![token]);
            assert(seq![token].drop_first() =~= none);
        }
        assert(fed.emitted(kind, text) == m.emitted(kind, text));
        assert(again.emitted(Token::Newline, seq!['\n']) =~= due(owed));
        assert(again.render(part) + due(false) =~= due(owed) + m.emitted(kind, text));
    } else {
        assert(part =~= seq![token]);
        assert(seq![token] + none =~= seq![token]);
        lemma_render_first(again, token, none);
        assert(state_behind(again, part) == again.advance(kind)) by {
            reveal_with_fuel(state_behind, 2);
            assert(part.drop_first() =~= none);
        }
        if kind == Token::Newline {
            assert(m.emitted(kind, text) =~= seq!['\n']);
            assert(again.emitted(kind, text) =~= due(owed));
            assert(again.render(part) + due(true) =~= due(owed) + m.emitted(kind, text));
        } else {
            assert(again.emitted(kind, text) == m.emitted(kind, text));
            assert(again.render(part) =~= m.emitted(kind, text));
            if !owed {
                assert(again.render(part) + due(false) =~= due(owed) + m.emitted(kind, text));
            }
        }
    }
}

/// Formatting the stream that was read back from a formatted text gives that
/// text again, with the line feed in front that the second printer is owed,
/// if the stream is calm.
pub proof fn lemma_reread_renders(
    m: LayoutModel,
    again: LayoutModel,
    tokens: Seq<Lexeme>,
    owed: bool,
)
    requires
        calm(m, tokens),
        paired(m, again, owed),
        owed ==> starts_line(m, tokens),
    ensures
        again.render(reread(m, tokens)) == due(owed) + m.render(tokens),
    decreases tokens.len(),
{
    if tokens.len() == 0 {
        assert(reread(m, tokens) =~= Seq::<Lexeme>::empty());
        assert(again.render(reread(m, tokens)) =~= due(owed) + m.render(tokens));
    } else {
        let (text, kind) = tokens[0];
        let rest = tokens.drop_first();
        let next = m.advance(kind);
        let part = reread_one(m, tokens[0]);
        let written = kind == Token::Newline && m.last == Token::Newline;
        let then = state_behind(again, part);
        lemma_second_pass(m, again, tokens[0], owed);
        lemma_reread_parts(m, tokens);
        lemma_render_parts(again, part, reread(next, rest));
        lemma_reread_renders(next, then, rest, written);
        let first = again.render(part);
        let wrote = m.emitted(kind, text);
        let more = next.render(rest);
        assert(again.render(reread(m, tokens)) == first + (due(written) + more));
        assert(first + due(written) == due(owed) + wrote);
        assert(m.render(tokens) == wrote + more);
        lemma_three(first, due(written), more);
        lemma_three(due(owed), wrote, more);
    }
}

/// Joining three texts, from the left or from the right.
proof fn lemma_three(a: Seq<char>, b: Seq<char>, c: Seq<char>)
    ensures
        a + (b + c) == (a + b) + c,
{
    assert(a + (b + c) =~= (a + b) + c);
}

/// Whether the text of the token, standing alone, is one token of its kind.
pub open spec fn shaped(token: Lexeme) -> bool {
    token_at(token.0, 0) == Some((token.1, token.0.len() as int))
}

/// Whether each token of `tokens` is shaped.
pub open spec fn all_shaped(tokens: Seq<Lexeme>) -> bool {
    forall|i: int| 0 <= i < tokens.len() ==> shaped(#[trigger] tokens[i])
}

/// Where a text is read from, it ends or holds a character up to U+007F: a
/// blank or the start of a token.
pub proof fn lemma_lex_plain(s: Seq<char>, from: int)
    requires
        0 <= from,
        lex(s, from) is Ok,
    ensures
        plain_at(s, from),
{
    if from < s.len() {
        lemma_run_end(s, from, CharClass::Blank);
        lemma_token_start(s, run_end(s, from, CharClass::Blank));
    }
}

/// The tokens that `lex` reads are shaped: each text, standing alone, is one
/// token of the kind that it was read as.
pub proof fn lemma_lex_shaped(s: Seq<char>, from: int)
    requires
        lex(s, from) is Ok,
    ensures
        all_shaped(lex(s, from)->Ok_0),
    decreases s.len() - from,
{
    let at = run_end(s, from, CharClass::Blank);
    if at < s.len() {
        lemma_token_bounds(s, at);
        if 0 <= from {
            lemma_run_end(s, from, CharClass::Blank);
        }
        let (kind, end) = token_at(s, at)->Some_0;
        lemma_lex_shaped(s, end);
        lemma_lex_plain(s, end);
        let text = s.subrange(at, end);
        let rest = lex(s, end)->Ok_0;
        let tokens = lex(s, from)->Ok_0;
        assert(text.subrange(0, end - at) =~= text);
        lemma_same_token(s, at, text, 0, end - at);
        assert(shaped((text, kind)));
        assert forall|i: int| 0 <= i < tokens.len() implies shaped(#[trigger] tokens[i]) by {
            if i > 0 {
                assert(tokens[i] == rest[i - 1]);
            }
        }
    }
}

/// The first character of a shaped token is no blank; that of a delimiter is
/// the delimiter's, and that of a compiler directive is the backtick.
pub proof fn lemma_first_char(token: Lexeme)
    requires
        shaped(token),
    ensures
        token.0.len() > 0,
        !CharClass::Blank.holds(token.0[0]),
        delimiters().contains(token.1) ==> is_delimiter(token.0[0]),
        token.1 == Token::CompilerDirective ==> token.0[0] == '`',
        token.1 == Token::Newline ==> token.0[0] == '\n' || token.0[0] == '\r',
        token.1 != Token::Start,
{
    reveal(token_at);
    let (text, kind) = token;
    lemma_token_bounds(text, 0);
    lemma_token_kind(text, 0);
    lemma_first_match(text, 0, keywords(), true);
    lemma_first_match(text, 0, delimiters(), false);
    lemma_first_match(text, 0, operators(), false);
    if let Some(found) = first_match(text, 0, keywords(), true) {
        lemma_keyword_text(found);
        lemma_starts_with(text, 0, found.text());
    } else if string_end(text, 0) is Some {
    } else if let Some(found) = first_match(text, 0, delimiters(), false) {
        lemma_delimiter_text(found);
        lemma_starts_with(text, 0, found.text());
    } else if newline_end(text, 0) is Some {
    } else if identifier_end(text, 0) is Some {
    } else if number_end(text, 0) is Some {
        lemma_run_end(text, 0, CharClass::Digit);
    } else if comment_end(text, 0) is Some {
    } else if let Some(found) = first_match(text, 0, operators(), false) {
        lemma_operator_text(found);
        lemma_starts_with(text, 0, found.text());
    }
}

/// What a printer writes behind a token does not change the token. `m` is
/// the state behind a token of `kind` that is no newline; what the printer
/// then writes for `tokens` is nothing, or starts with a character in front
/// of which a token of `kind` ends.
pub proof fn lemma_written_behind(m: LayoutModel, tokens: Seq<Lexeme>, kind: Token)
    requires
        m.last_text == kind,
        kind != Token::Start,
        kind != Token::Newline,
        all_shaped(tokens),
        legible(m, tokens),
    ensures
        m.render(tokens).len() == 0 || ends_before(kind, m.render(tokens)[0]),
    decreases tokens.len(),
{
    reveal(breaks_line);
    reveal(tight);
    if tokens.len() > 0 {
        let (text, next) = tokens[0];
        let rest = tokens.drop_first();
        let entered = m.entering(next);
        let behind = m.advance(next).render(rest);
        assert(shaped(tokens[0]));
        lemma_first_char(tokens[0]);
        assert(m.render(tokens) == m.separator(next) + m.piece(next, text) + behind);
        if breaks_line(entered, next) {
            assert(m.render(tokens)[0] == '\n');
        } else if !tight(kind, next) {
            assert(m.render(tokens)[0] == ' ');
        } else if next == Token::Newline && m.last != Token::Newline {
            assert forall|i: int| 0 <= i < rest.len() implies shaped(#[trigger] rest[i]) by {
                assert(rest[i] == tokens[i + 1]);
            }
            lemma_written_behind(m.advance(next), rest, kind);
            assert(m.render(tokens) =~= behind);
        } else {
            assert(m.render(tokens)[0] == text[0]);
        }
    }
}

/// A run of blanks ends where the first character stands that is no blank.
proof fn lemma_blank_run(s: Seq<char>, from: int, at: int)
    requires
        0 <= from <= at <= s.len(),
        forall|i: int| from <= i < at ==> CharClass::Blank.holds(#[trigger] s[i]),
        at < s.len() ==> !CharClass::Blank.holds(s[at]),
    ensures
        run_end(s, from, CharClass::Blank) == at,
    decreases at - from,
{
    if from < at {
        lemma_blank_run(s, from + 1, at);
    }
}

/// One step of `lex`: over the blanks from `from` to `at` and the token from
/// `at` to `end`.
proof fn lemma_lex_step(s: Seq<char>, from: int, at: int, end: int, kind: Token)
    requires
        0 <= from <= at < s.len(),
        forall|i: int| from <= i < at ==> CharClass::Blank.holds(#[trigger] s[i]),
        !CharClass::Blank.holds(s[at]),
        token_at(s, at) == Some((kind, end)),
    ensures
        lex(s, from) == after(seq![(s.subrange(at, end), kind)], lex(s, end)),
{
    lemma_blank_run(s, from, at);
}

/// The text of one line feed, standing alone, is a newline token.
pub proof fn lemma_line_feed()
    ensures
        shaped(line_feed()),
{
    reveal(token_at);
    let text = seq!['\n'];
    lemma_no_keyword(text, 0);
    lemma_no_delimiter(text, 0);
    lemma_run_end(text, 1, CharClass::Quoted);
}

/// Reading one token: over the blanks from `from` to `at` and then the text
/// of a shaped token, which the text behind it ends.
proof fn lemma_read_token(s: Seq<char>, from: int, at: int, token: Lexeme, more: Seq<Lexeme>)
    requires
        0 <= from <= at,
        at + token.0.len() <= s.len(),
        forall|i: int| from <= i < at ==> CharClass::Blank.holds(#[trigger] s[i]),
        s.subrange(at, at + token.0.len()) == token.0,
        shaped(token),
        ends_at(s, at + token.0.len(), token.1),
        lex(s, at + token.0.len()) == Ok::<Seq<Lexeme>, int>(more),
    ensures
        lex(s, from) == Ok::<Seq<Lexeme>, int>(seq![token] + more),
{
    let (text, kind) = token;
    let n = text.len() as int;
    lemma_first_char(token);
    assert(text.subrange(0, n) =~= text);
    assert(same_piece(text, 0, s, at, n));
    lemma_same_token(text, 0, s, at, n);
    assert(s[at] == s.subrange(at, at + n)[0]);
    lemma_lex_step(s, from, at, at + n, kind);
}

/// The parts of a text that is put together from four.
proof fn lemma_four_parts(front: Seq<char>, gap: Seq<char>, text: Seq<char>, behind: Seq<char>)
    ensures
        ({
            let s = front + (gap + text + behind);
            let at = (front.len() + gap.len()) as int;
            &&& s.len() == at + text.len() + behind.len()
            &&& s.subrange(at, at + text.len()) == text
            &&& s == front + gap + text + behind
            &&& forall|i: int| front.len() <= i < at ==> #[trigger] s[i] == gap[i - front.len()]
            &&& behind.len() > 0 ==> s[at + text.len()] == behind[0]
        }),
{
    let s = front + (gap + text + behind);
    let at = (front.len() + gap.len()) as int;
    assert(s.subrange(at, at + text.len()) =~= text);
    assert(s =~= front + gap + text + behind);
}

/// Whether `gap` holds nothing but blanks from `from` on.
pub open spec fn blank_from(gap: Seq<char>, from: int) -> bool {
    forall|i: int| from <= i < gap.len() ==> CharClass::Blank.holds(#[trigger] gap[i])
}

/// What separates two tokens is a line feed and blanks where the line breaks,
/// and blanks alone where it does not.
pub proof fn lemma_separator(m: LayoutModel, kind: Token)
    ensures
        breaks_line(m.entering(kind), kind) ==> m.separator(kind).len() > 0 && m.separator(
            kind,
        )[0] == '\n' && blank_from(m.separator(kind), 1),
        !breaks_line(m.entering(kind), kind) ==> blank_from(m.separator(kind), 0),
{
    let gap = m.separator(kind);
    let depth = m.entering(kind).depth;
    if breaks_line(m.entering(kind), kind) {
        assert forall|i: int| 1 <= i < gap.len() implies CharClass::Blank.holds(
            #[trigger] gap[i],
        ) by {
            assert(gap[i] == indent(depth)[i - 1]);
        }
    }
}

/// Reading a separator and one shaped token behind it: a newline token if
/// the separator starts with a line feed, and the token, if the text `behind`
/// ends the token and reads as `more`.
proof fn lemma_reads_one(
    front: Seq<char>,
    gap: Seq<char>,
    broken: bool,
    token: Lexeme,
    behind: Seq<char>,
    more: Seq<Lexeme>,
)
    requires
        shaped(token),
        broken ==> gap.len() > 0 && gap[0] == '\n' && blank_from(gap, 1),
        !broken ==> blank_from(gap, 0),
        behind.len() == 0 || ends_before(token.1, behind[0]),
        lex(front + gap + token.0 + behind, (front.len() + gap.len() + token.0.len()) as int)
            == Ok::<Seq<Lexeme>, int>(more),
    ensures
        lex(front + (gap + token.0 + behind), front.len() as int) == Ok::<Seq<Lexeme>, int>(
            (if broken {
                seq![line_feed()]
            } else {
                Seq::empty()
            }) + (seq![token] + more),
        ),
{
    let (text, kind) = token;
    let s = front + (gap + text + behind);
    let from = front.len() as int;
    let at = from + gap.len();
    lemma_four_parts(front, gap, text, behind);
    if broken {
        assert forall|i: int| from + 1 <= i < at implies CharClass::Blank.holds(
            #[trigger] s[i],
        ) by {
            assert(s[i] == gap[i - from]);
        }
        lemma_read_token(s, from + 1, at, token, more);
        lemma_line_feed();
        assert(s[from] == gap[0]);
        assert(s.subrange(from, from + 1) =~= seq!['\n']);
        lemma_read_token(s, from, from, line_feed(), seq![token] + more);
    } else {
        assert forall|i: int| from <= i < at implies CharClass::Blank.holds(#[trigger] s[i]) by {
            assert(s[i] == gap[i - from]);
        }
        lemma_read_token(s, from, at, token, more);
        assert(Seq::<Lexeme>::empty() + (seq![token] + more) =~= seq![token] + more);
    }
}

/// The lexer reads a formatted text back as the printer wrote it. For a
/// legible stream of shaped tokens, the text that a printer in state `m`
/// writes, behind whatever text `front`, reads from the end of `front` on as
/// the stream that `reread` gives.
pub proof fn lemma_reads_back(front: Seq<char>, m: LayoutModel, tokens: Seq<Lexeme>)
    requires
        all_shaped(tokens),
        legible(m, tokens),
    ensures
        lex(front + m.render(tokens), front.len() as int) == Ok::<Seq<Lexeme>, int>(
            reread(m, tokens),
        ),
    decreases tokens.len(),
{
    if tokens.len() == 0 {
        assert(front + m.render(tokens) =~= front);
        assert(reread(m, tokens) =~= Seq::<Lexeme>::empty());
    } else {
        let (text, kind) = tokens[0];
        let rest = tokens.drop_first();
        let next = m.advance(kind);
        let behind = next.render(rest);
        let gap = m.separator(kind);
        let broken = breaks_line(m.entering(kind), kind);
        assert forall|i: int| 0 <= i < rest.len() implies shaped(#[trigger] rest[i]) by {
            assert(rest[i] == tokens[i + 1]);
        }
        assert(shaped(tokens[0]));
        if kind == Token::Newline && m.last != Token::Newline {
            lemma_newline_is_bare(m, text);
            assert(m.render(tokens) =~= behind);
            assert(reread(m, tokens) =~= reread(next, rest));
            lemma_reads_back(front, next, rest);
        } else {
            assert(m.render(tokens) == gap + text + behind);
            if kind != Token::Newline {
                lemma_first_char(tokens[0]);
                lemma_written_behind(next, rest, kind);
            }
            lemma_separator(m, kind);
            lemma_reads_back(front + gap + text, next, rest);
            lemma_reads_one(front, gap, broken, tokens[0], behind, reread(next, rest));
            lemma_reread_parts(m, tokens);
            assert(reread_one(m, tokens[0]) =~= (if broken {
                seq![line_feed()]
            } else {
                Seq::empty()
            }) + seq![tokens[0]]);
            assert(reread(m, tokens) =~= (if broken {
                seq![line_feed()]
            } else {
                Seq::empty()
            }) + (seq![tokens[0]] + reread(next, rest)));
        }
    }
}

/// The tokens of `tokens` that are no newlines, in order.
pub open spec fn words(tokens: Seq<Lexeme>) -> Seq<Lexeme>
    decreases tokens.len(),
{
    if tokens.len() == 0 {
        Seq::empty()
    } else if tokens[0].1 == Token::Newline {
        words(tokens.drop_first())
    } else {
        seq![tokens[0]] + words(tokens.drop_first())
    }
}

/// `words` of a stream that starts with one given token.
proof fn lemma_words_first(first: Lexeme, rest: Seq<Lexeme>)
    ensures
        words(seq![first] + rest) == (if first.1 == Token::Newline {
            Seq::empty()
        } else {
            seq![first]
        }) + words(rest),
{
    let all = seq![first] + rest;
    assert(all[0] == first);
    assert(all.drop_first() =~= rest);
    assert(Seq::<Lexeme>::empty() + words(rest) =~= words(rest));
}

/// What is read back holds the tokens that are no newlines as they were
/// written, each with its text and kind, in the same order.
pub proof fn lemma_reread_keeps_words(m: LayoutModel, tokens: Seq<Lexeme>)
    ensures
        words(reread(m, tokens)) == words(tokens),
    decreases tokens.len(),
{
    if tokens.len() == 0 {
        assert(reread(m, tokens) =~= Seq::<Lexeme>::empty());
    } else {
        let kind = tokens[0].1;
        let rest = tokens.drop_first();
        let tail = reread(m.advance(kind), rest);
        lemma_reread_keeps_words(m.advance(kind), rest);
        if kind == Token::Newline {
            lemma_newline_is_bare(m, tokens[0].0);
            if m.last != Token::Newline {
                assert(reread(m, tokens) =~= tail);
            } else {
                assert(reread(m, tokens) =~= seq![tokens[0]] + tail);
                lemma_words_first(tokens[0], tail);
            }
        } else if breaks_line(m.entering(kind), kind) {
            assert(reread(m, tokens) =~= seq![line_feed()] + (seq![tokens[0]] + tail));
            lemma_words_first(line_feed(), seq![tokens[0]] + tail);
            lemma_words_first(tokens[0], tail);
        } else {
            assert(reread(m, tokens) =~= seq![tokens[0]] + tail);
            lemma_words_first(tokens[0], tail);
        }
    }
}

/// Formatting changes the line breaks and the blanks of a text and nothing
/// else. Where a text has a token stream and the stream is legible, the
/// formatted text has a token stream too, and the two streams hold the same
/// tokens in the same order, newline tokens apart.
pub proof fn lemma_formatting_keeps_words(text: Seq<char>)
    requires
        lex(text, 0) matches Ok(tokens) && legible(LayoutModel::start(), tokens),
    ensures
        lex(formatted(lex(text, 0)->Ok_0), 0) matches Ok(again) && words(again) == words(
            lex(text, 0)->Ok_0,
        ),
{
    let tokens = lex(text, 0)->Ok_0;
    let start = LayoutModel::start();
    lemma_lex_shaped(text, 0);
    lemma_reads_back(Seq::empty(), start, tokens);
    assert(Seq::<char>::empty() + start.render(tokens) =~= formatted(tokens));
    lemma_reread_keeps_words(start, tokens);
}

/// Formatting what was read back from a formatted text never gives a longer
/// text, and gives a shorter one where the stream is not steady: there a line
/// feed that the second printer is owed is lost.
pub proof fn lemma_reread_shrinks(
    m: LayoutModel,
    again: LayoutModel,
    tokens: Seq<Lexeme>,
    owed: bool,
)
    requires
        legible(m, tokens),
        paired(m, again, owed),
    ensures
        again.render(reread(m, tokens)).len() <= due(owed).len() + m.render(tokens).len(),
        !steady(m, tokens) || (owed && !starts_line(m, tokens)) ==> again.render(
            reread(m, tokens),
        ).len() < due(owed).len() + m.render(tokens).len(),
    decreases tokens.len(),
{
    if tokens.len() == 0 {
        assert(reread(m, tokens) =~= Seq::<Lexeme>::empty());
    } else {
        let (text, kind) = tokens[0];
        let rest = tokens.drop_first();
        let next = m.advance(kind);
        let part = reread_one(m, tokens[0]);
        let written = kind == Token::Newline && m.last == Token::Newline;
        let lost = owed && kind != Token::Newline && !breaks_line(m.entering(kind), kind);
        lemma_second_pass(m, again, tokens[0], owed);
        lemma_reread_parts(m, tokens);
        lemma_render_parts(again, part, reread(next, rest));
        lemma_reread_shrinks(next, state_behind(again, part), rest, written);
        assert(m.render(tokens).len() == m.emitted(kind, text).len() + next.render(rest).len());
        assert(again.render(reread(m, tokens)).len() == again.render(part).len() + state_behind(
            again,
            part,
        ).render(reread(next, rest)).len());
        if lost {
            assert(due(owed).len() == 1);
            assert(due(written).len() == 0);
        } else {
            assert((again.render(part) + due(written)).len() == (due(owed) + m.emitted(
                kind,
                text,
            )).len());
        }
        assert(steady(m, tokens) == ((written ==> starts_line(next, rest)) && steady(next, rest)));
        assert(owed && !starts_line(m, tokens) ==> lost);
    }
}

/// Where formatting is idempotent. Where a text has a token stream and the
/// stream is legible, the formatted text has a token stream too, and
/// formatting that one gives the formatted text again if and only if the
/// stream is steady.
pub proof fn lemma_formatting_settles_when_steady(text: Seq<char>)
    requires
        lex(text, 0) matches Ok(tokens) && legible(LayoutModel::start(), tokens),
    ensures
        lex(formatted(lex(text, 0)->Ok_0), 0) matches Ok(again) && (formatted(again) == formatted(
            lex(text, 0)->Ok_0,
        ) <==> steady(LayoutModel::start(), lex(text, 0)->Ok_0)),
{
    let tokens = lex(text, 0)->Ok_0;
    let start = LayoutModel::start();
    lemma_lex_shaped(text, 0);
    lemma_reads_back(Seq::empty(), start, tokens);
    assert(Seq::<char>::empty() + start.render(tokens) =~= formatted(tokens));
    if steady(start, tokens) {
        lemma_reread_renders(start, start, tokens, false);
        assert(Seq::<char>::empty() + start.render(tokens) =~= start.render(tokens));
    } else {
        lemma_reread_shrinks(start, start, tokens, false);
    }
}

/// Formatting is idempotent on calm token streams. Where a text has a token
/// stream and the stream is calm, the formatted text has a token stream too,
/// and formatting that one gives the formatted text again.
pub proof fn lemma_formatting_settles(text: Seq<char>)
    requires
        lex(text, 0) matches Ok(tokens) && calm(LayoutModel::start(), tokens),
    ensures
        lex(formatted(lex(text, 0)->Ok_0), 0) matches Ok(again) && formatted(again) == formatted(
            lex(text, 0)->Ok_0,
        ),
{
    lemma_formatting_settles_when_steady(text);
}

} // verus!
