//! A carriage return that a comment takes up.
//!
//! A blank line behind a comment or a compiler directive is kept by writing
//! its newline token. Where that token is a carriage return and a line feed,
//! the carriage return is read back as the end of the comment, which runs up
//! to the line feed. This module gives the token stream that is written alike
//! and holds the carriage return in the comment, and proves that formatting
//! is idempotent for the one where it is for the other.

use vstd::prelude::*;
use vstd::string::StrSliceExecFns;
use crate::context::{
    lemma_no_delimiter, lemma_no_keyword, lemma_no_operator, lemma_same_part, lemma_word_inside,
    same_piece,
};
use crate::grown::{
    behind_number, fusible, grows, is_growing, is_line_feed, lemma_run_is, lemma_steady_first,
    lemma_steady_over_macro, lemma_stream_settles, reach, taken, takes_whole,
};
use crate::lexer::{
    comment_end, compiler_directive_end, directive_names, lemma_run_end, lex, starts_with, stream,
    token_at, CharClass, Lexeme, ParsedToken, Token,
};
use crate::printer::{formatted, lemma_newline_is_bare, Layout, LayoutModel};
use crate::settled::{
    all_shaped, lemma_first_char, lemma_lex_shaped, lemma_line_feed, lemma_render_first,
    line_feed, shaped, starts_line, steady,
};

verus! {

/// Whether the stream starts with a comment or a compiler directive, a
/// newline token, which the printer drops, and a newline token of a carriage
/// return and a line feed, which it writes.
pub open spec fn carries(tokens: Seq<Lexeme>) -> bool {
    &&& tokens.len() >= 3
    &&& tokens[0].1 == Token::Comment || tokens[0].1 == Token::CompilerDirective
    &&& tokens[1].1 == Token::Newline
    &&& tokens[2] == (seq!['\r', '\n'], Token::Newline)
}

/// The token stream with each such carriage return moved to the end of the
/// comment in front of it.
pub open spec fn mend(tokens: Seq<Lexeme>) -> Seq<Lexeme>
    decreases tokens.len(),
{
    if tokens.len() == 0 {
        Seq::empty()
    } else if carries(tokens) {
        seq![(tokens[0].0 + seq!['\r'], tokens[0].1), tokens[1], line_feed()] + mend(
            tokens.skip(3),
        )
    } else {
        seq![tokens[0]] + mend(tokens.drop_first())
    }
}

/// The state of a printer behind three tokens.
pub open spec fn behind_three(m: LayoutModel, tokens: Seq<Lexeme>) -> LayoutModel {
    m.advance(tokens[0].1).advance(tokens[1].1).advance(tokens[2].1)
}

/// What a printer writes for three tokens and what follows.
proof fn lemma_render_three(
    m: LayoutModel,
    a: Lexeme,
    b: Lexeme,
    c: Lexeme,
    rest: Seq<Lexeme>,
)
    ensures
        m.render(seq![a, b, c] + rest) == m.emitted(a.1, a.0) + (m.advance(a.1).emitted(b.1, b.0)
            + (m.advance(a.1).advance(b.1).emitted(c.1, c.0) + m.advance(a.1).advance(
            b.1,
        ).advance(c.1).render(rest))),
{
    assert(seq![a, b, c] + rest =~= seq![a] + (seq![b] + (seq![c] + rest)));
    lemma_render_first(m, a, seq![b] + (seq![c] + rest));
    lemma_render_first(m.advance(a.1), b, seq![c] + rest);
    lemma_render_first(m.advance(a.1).advance(b.1), c, rest);
}

/// Four texts joined, with a carriage return at the end of the first or at
/// the start of the last but one.
proof fn lemma_return_moves(gap: Seq<char>, text: Seq<char>, then: Seq<char>)
    ensures
        (gap + (text + seq!['\r'])) + (Seq::<char>::empty() + (seq!['\n'] + then)) == (gap + text)
            + (Seq::<char>::empty() + (seq!['\r', '\n'] + then)),
{
    assert((gap + (text + seq!['\r'])) + (Seq::<char>::empty() + (seq!['\n'] + then)) =~= (gap
        + text) + (Seq::<char>::empty() + (seq!['\r', '\n'] + then)));
}

/// The mended stream is written as the stream itself is.
pub proof fn lemma_mended_renders(m: LayoutModel, tokens: Seq<Lexeme>)
    ensures
        m.render(mend(tokens)) == m.render(tokens),
    decreases tokens.len(),
{
    if tokens.len() > 0 {
        if carries(tokens) {
            let (text, kind) = tokens[0];
            let left = tokens.skip(3);
            let one = m.advance(kind);
            let two = one.advance(Token::Newline);
            let head = (text + seq!['\r'], kind);
            lemma_mended_renders(behind_three(m, tokens), left);
            assert(tokens =~= seq![tokens[0], tokens[1], tokens[2]] + left);
            lemma_render_three(m, tokens[0], tokens[1], tokens[2], left);
            lemma_render_three(m, head, tokens[1], line_feed(), mend(left));
            lemma_newline_is_bare(one, tokens[1].0);
            lemma_newline_is_bare(two, tokens[2].0);
            lemma_newline_is_bare(two, line_feed().0);
            assert(m.emitted(kind, head.0) == m.separator(kind) + (text + seq!['\r']));
            assert(m.emitted(kind, text) == m.separator(kind) + text);
            lemma_return_moves(m.separator(kind), text, behind_three(m, tokens).render(left));
        } else {
            lemma_mended_renders(m.advance(tokens[0].1), tokens.drop_first());
            lemma_render_first(m, tokens[0], mend(tokens.drop_first()));
        }
    }
}

/// The mended stream starts with a token of the kind that the stream starts
/// with.
proof fn lemma_mend_head(tokens: Seq<Lexeme>)
    ensures
        mend(tokens).len() > 0 <==> tokens.len() > 0,
        tokens.len() > 0 ==> mend(tokens)[0].1 == tokens[0].1,
{
}

/// The mended stream is steady if and only if the stream itself is.
pub proof fn lemma_mended_steady(m: LayoutModel, tokens: Seq<Lexeme>)
    ensures
        steady(m, mend(tokens)) == steady(m, tokens),
    decreases tokens.len(),
{
    if tokens.len() > 0 {
        if carries(tokens) {
            let (text, kind) = tokens[0];
            let left = tokens.skip(3);
            let one = m.advance(kind);
            let two = one.advance(Token::Newline);
            let three = behind_three(m, tokens);
            let head = (text + seq!['\r'], kind);
            lemma_mended_steady(three, left);
            lemma_mend_head(left);
            assert(tokens =~= seq![tokens[0]] + (seq![tokens[1]] + (seq![tokens[2]] + left)));
            lemma_steady_first(m, tokens[0], seq![tokens[1]] + (seq![tokens[2]] + left));
            lemma_steady_first(one, tokens[1], seq![tokens[2]] + left);
            lemma_steady_first(two, tokens[2], left);
            let fixed = mend(left);
            assert(mend(tokens) =~= seq![head] + (seq![tokens[1]] + (seq![line_feed()] + fixed)));
            lemma_steady_first(m, head, seq![tokens[1]] + (seq![line_feed()] + fixed));
            lemma_steady_first(one, tokens[1], seq![line_feed()] + fixed);
            lemma_steady_first(two, line_feed(), fixed);
            assert(starts_line(three, fixed) == starts_line(three, left));
        } else {
            let rest = tokens.drop_first();
            lemma_mended_steady(m.advance(tokens[0].1), rest);
            lemma_steady_first(m, tokens[0], mend(rest));
            lemma_mend_head(rest);
        }
    }
}

/// A comment or a compiler directive with a carriage return behind it is one
/// still.
pub proof fn lemma_comment_with_return(text: Seq<char>, kind: Token)
    requires
        kind == Token::Comment || kind == Token::CompilerDirective,
        shaped((text, kind)),
    ensures
        shaped((text + seq!['\r'], kind)),
{
    reveal(token_at);
    let more = text + seq!['\r'];
    let n = text.len() as int;
    lemma_first_char((text, kind));
    lemma_no_keyword(text, 0);
    lemma_no_delimiter(text, 0);
    lemma_run_end(text, 0, CharClass::Digit);
    lemma_run_end(text, 1, CharClass::Line);
    assert(more[0] == text[0]);
    lemma_no_keyword(more, 0);
    lemma_no_delimiter(more, 0);
    lemma_run_end(more, 0, CharClass::Digit);
    if kind == Token::Comment {
        lemma_run_end(text, 2, CharClass::Line);
        assert(n >= 2 && more[1] == text[1]);
        assert forall|i: int| 2 <= i < more.len() implies CharClass::Line.holds(
            #[trigger] more[i],
        ) by {
            if i < n {
                assert(more[i] == text[i]);
            }
        }
        lemma_run_is(more, 2, more.len() as int, CharClass::Line);
        assert(comment_end(more, 0) == Some(more.len() as int));
    } else {
        lemma_no_operator(text, 0);
        lemma_no_operator(more, 0);
        assert(comment_end(text, 0) is None);
        assert(compiler_directive_end(text, 0) == Some(n));
        assert forall|i: int| 1 <= i < more.len() implies CharClass::Line.holds(
            #[trigger] more[i],
        ) by {
            if i < n {
                assert(more[i] == text[i]);
            }
        }
        lemma_run_is(more, 1, more.len() as int, CharClass::Line);
        let names = directive_names();
        let k = choose|k: int| 0 <= k < names.len() && starts_with(text, 1, #[trigger] names[k]);
        assert(more.subrange(0, n) =~= text.subrange(0, n));
        assert(same_piece(text, 0, more, 0, n));
        lemma_same_part(text, 0, more, 0, n, 1, n - 1);
        lemma_word_inside(text, 1, more, 1, n - 1, directive_names()[k]);
        assert(starts_with(more, 1, directive_names()[k]));
        assert(comment_end(more, 0) is None);
    }
}

/// The mended stream of shaped tokens holds shaped tokens.
pub proof fn lemma_mended_shaped(tokens: Seq<Lexeme>)
    requires
        all_shaped(tokens),
    ensures
        all_shaped(mend(tokens)),
    decreases tokens.len(),
{
    if tokens.len() > 0 {
        let n: int = if carries(tokens) {
            3
        } else {
            1
        };
        let left = tokens.skip(n);
        assert forall|i: int| 0 <= i < left.len() implies shaped(#[trigger] left[i]) by {
            assert(left[i] == tokens[i + n]);
        }
        lemma_mended_shaped(left);
        assert(shaped(tokens[0]));
        let fixed = mend(tokens);
        if carries(tokens) {
            assert(shaped(tokens[1]));
            lemma_comment_with_return(tokens[0].0, tokens[0].1);
            lemma_line_feed();
            assert forall|i: int| 0 <= i < fixed.len() implies shaped(#[trigger] fixed[i]) by {
                if i >= 3 {
                    assert(fixed[i] == mend(left)[i - 3]);
                }
            }
        } else {
            assert(tokens.drop_first() =~= left);
            assert forall|i: int| 0 <= i < fixed.len() implies shaped(#[trigger] fixed[i]) by {
                if i >= 1 {
                    assert(fixed[i] == mend(left)[i - 1]);
                }
            }
        }
    }
}

/// Where formatting is idempotent, with what macros and comments take up
/// counted in. Where a text has a token stream whose mended stream is
/// fusible, the formatted text has a token stream too, and formatting that
/// one gives the formatted text again if and only if the stream is steady.
pub proof fn lemma_formatting_settles_mended(text: Seq<char>)
    requires
        lex(text, 0) matches Ok(tokens) && fusible(LayoutModel::start(), mend(tokens), false),
    ensures
        lex(formatted(lex(text, 0)->Ok_0), 0) matches Ok(again) && (formatted(again) == formatted(
            lex(text, 0)->Ok_0,
        ) <==> steady(LayoutModel::start(), lex(text, 0)->Ok_0)),
{
    let tokens = lex(text, 0)->Ok_0;
    let start = LayoutModel::start();
    lemma_lex_shaped(text, 0);
    lemma_mended_shaped(tokens);
    lemma_mended_renders(start, tokens);
    lemma_mended_steady(start, tokens);
    lemma_stream_settles(mend(tokens));
}

/// Whether formatting the formatted text of the stream once more changes
/// nothing, as far as this library tells: whether the mended stream is
/// fusible and the stream is steady.
pub open spec fn settling(tokens: Seq<Lexeme>) -> bool {
    fusible(LayoutModel::start(), mend(tokens), false) && steady(LayoutModel::start(), tokens)
}

/// `fusible` of a stream that starts with one given token.
proof fn lemma_fusible_first(m: LayoutModel, first: Lexeme, rest: Seq<Lexeme>, taking: bool)
    ensures
        fusible(m, seq![first] + rest, taking) == ({
            let n = reach(rest);
            &&& first.1 == Token::Newline && m.last == Token::Newline ==> first.0 == seq!['\n']
            &&& taking && first.1 != Token::Newline ==> first.1 != Token::Colon && first.1
                != Token::Number
            &&& if first.1 == Token::Directive && n > 0 {
                fusible(behind_number(m), rest.skip(n), taken(rest[n - 1].0) >= rest[n - 1].0.len())
            } else {
                &&& first.1 == Token::Number && m.last_text == Token::Directive ==> !grows(first)
                &&& fusible(m.advance(first.1), rest, taking && first.1 == Token::Newline)
            }
        }),
{
    let all = seq![first] + rest;
    assert(all[0] == first);
    assert(all.drop_first() =~= rest);
}

/// A macro reaches into the mended stream as it does into the stream.
proof fn lemma_mend_reach(rest: Seq<Lexeme>)
    ensures
        reach(mend(rest)) == reach(rest),
        reach(rest) > 0 ==> mend(rest)[reach(rest) - 1].0 == rest[reach(rest) - 1].0 && mend(
            rest,
        ).skip(reach(rest)) == mend(rest.skip(reach(rest))),
{
    if rest.len() > 0 {
        let after = rest.drop_first();
        if carries(rest) {
        } else {
            assert(mend(rest) == seq![rest[0]] + mend(after));
            assert(mend(rest)[0] == rest[0]);
            assert(mend(rest).skip(1) =~= mend(after));
            assert(after =~= rest.skip(1));
            lemma_mend_head(after);
            if after.len() > 0 {
                assert(rest[1] == after[0]);
                assert(mend(rest)[1] == mend(after)[0]);
                if !carries(after) {
                    let last = after.drop_first();
                    assert(mend(after) == seq![after[0]] + mend(last));
                    assert(mend(after)[0] == after[0]);
                    assert(mend(after).skip(1) =~= mend(last));
                    assert(last =~= rest.skip(2));
                    assert(mend(rest).skip(2) =~= mend(after).skip(1));
                }
            }
        }
    }
}

/// Over a comment that takes up a carriage return: the mended stream is
/// fusible if what follows is, and the stream is steady if what follows
/// starts a line and is steady.
proof fn lemma_over_return(m: LayoutModel, tokens: Seq<Lexeme>, taking: bool)
    requires
        carries(tokens),
    ensures
        fusible(m, mend(tokens), taking) == fusible(
            behind_three(m, tokens),
            mend(tokens.skip(3)),
            false,
        ),
        steady(m, tokens) == (starts_line(behind_three(m, tokens), tokens.skip(3)) && steady(
            behind_three(m, tokens),
            tokens.skip(3),
        )),
{
    let (text, kind) = tokens[0];
    let left = tokens.skip(3);
    let one = m.advance(kind);
    let two = one.advance(Token::Newline);
    let head = (text + seq!['\r'], kind);
    let fixed = mend(left);
    assert(tokens =~= seq![tokens[0]] + (seq![tokens[1]] + (seq![tokens[2]] + left)));
    lemma_steady_first(m, tokens[0], seq![tokens[1]] + (seq![tokens[2]] + left));
    lemma_steady_first(one, tokens[1], seq![tokens[2]] + left);
    lemma_steady_first(two, tokens[2], left);
    assert(mend(tokens) =~= seq![head] + (seq![tokens[1]] + (seq![line_feed()] + fixed)));
    lemma_fusible_first(m, head, seq![tokens[1]] + (seq![line_feed()] + fixed), taking);
    lemma_fusible_first(one, tokens[1], seq![line_feed()] + fixed, false);
    lemma_fusible_first(two, line_feed(), fixed, false);
}

/// Whether `text` is a carriage return and a line feed.
fn is_return(text: &str) -> (r: bool)
    ensures
        r == (text@ == seq!['\r', '\n']),
{
    if text.unicode_len() == 2 && text.get_char(0) == '\r' && text.get_char(1) == '\n' {
        assert(text@ =~= seq!['\r', '\n']);
        true
    } else {
        false
    }
}

/// Whether the token stream settles: whether its mended stream is fusible
/// and the stream is steady. Formatting the formatted text of such a stream
/// once more changes nothing.
#[verifier::rlimit(30)]
pub fn settles<'a>(tokens: &Vec<ParsedToken<'a>>) -> (r: bool)
    ensures
        r == settling(stream(tokens@)),
{
    let ghost all = stream(tokens@);
    let len = tokens.len();
    let mut state = Layout::new();
    let mut taking = false;
    let mut i: usize = 0;
    assert(all.skip(0) =~= all);
    while i < len
        invariant
            i <= len,
            len == tokens.len(),
            all == stream(tokens@),
            state.depth <= i,
            -(i as int) <= state.parens <= i,
            settling(all) == (fusible(state@, mend(all.skip(i as int)), taking) && steady(
                state@,
                all.skip(i as int),
            )),
        decreases len - i,
    {
        let (text, kind) = tokens[i];
        let ghost here = all.skip(i as int);
        let ghost rest = here.drop_first();
        proof {
            assert(here[0] == (text@, kind));
            assert(rest =~= all.skip(i + 1));
            if i + 1 < len {
                assert(here[1] == (tokens[i + 1].0@, tokens[i + 1].1));
                assert(rest[0] == here[1]);
            }
            if i + 2 < len {
                assert(here[2] == (tokens[i + 2].0@, tokens[i + 2].1));
                assert(rest[1] == here[2]);
            }
        }
        let carried = (kind == Token::Comment || kind == Token::CompilerDirective) && len - i > 2
            && tokens[i + 1].1 == Token::Newline && tokens[i + 2].1 == Token::Newline && is_return(
            tokens[i + 2].0,
        );
        assert(carried == carries(here));
        let mut next = state;
        next.pass(kind);
        if carried {
            next.pass(Token::Newline);
            next.pass(Token::Newline);
            proof {
                lemma_over_return(state@, here, taking);
                assert(here.skip(3) =~= all.skip(i + 3));
            }
            if len - i == 3 {
                return false;
            }
            let fourth = tokens[i + 3].1;
            proof {
                assert(all.skip(i + 3)[0] == (tokens[i + 3].0@, fourth));
            }
            if fourth != Token::Newline && !next.starts_line(fourth) {
                return false;
            }
            state = next;
            taking = false;
            i = i + 3;
        } else {
            proof {
                assert(mend(here) == seq![here[0]] + mend(rest));
                lemma_fusible_first(state@, here[0], mend(rest), taking);
                lemma_mend_reach(rest);
            }
            if kind == Token::Newline && state.last == Token::Newline {
                if !is_line_feed(text) || i + 1 == len {
                    return false;
                }
                let second = tokens[i + 1].1;
                if second != Token::Newline && !next.starts_line(second) {
                    return false;
                }
            }
            if taking && (kind == Token::Colon || kind == Token::Number) {
                return false;
            }
            let n: usize = if kind != Token::Directive {
                0
            } else if i + 1 < len && is_growing(tokens[i + 1].0, tokens[i + 1].1) {
                1
            } else if len - i > 2 && tokens[i + 1].1 == Token::Newline && is_growing(
                tokens[i + 2].0,
                tokens[i + 2].1,
            ) {
                2
            } else {
                0
            };
            assert(kind == Token::Directive ==> n == reach(rest));
            if n > 0 {
                proof {
                    lemma_steady_over_macro(state@, here);
                    assert(rest.skip(n as int) =~= all.skip(i + 1 + n));
                }
                taking = takes_whole(tokens[i + n].0);
                state.last = Token::Number;
                state.last_text = Token::Number;
                i = i + 1 + n;
            } else {
                if kind == Token::Number && state.last_text == Token::Directive && is_growing(
                    text,
                    kind,
                ) {
                    return false;
                }
                taking = taking && kind == Token::Newline;
                state = next;
                i += 1;
            }
        }
    }
    true
}

} // verus!
