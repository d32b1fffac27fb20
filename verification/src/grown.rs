//! A number that grows onto the macro in front of it.
//!
//! Nothing separates a macro from a number behind it, so a number that starts
//! with a digit is read back as more of the macro's name: all of it, or its
//! width up to the `'` of its base. This module gives the token stream that is
//! read back then, and proves that formatting is idempotent all the same
//! unless a colon or a second number follows a number that was taken whole:
//! behind a macro these are spaced otherwise than behind a number.

use vstd::prelude::*;
use vstd::string::StrSliceExecFns;
use crate::context::{
    is_small, lemma_directive_name, lemma_no_delimiter, lemma_no_keyword, lemma_no_operator,
    lemma_run_same, lemma_same_part, lemma_starts_with, lemma_word_inside, same_piece,
};
use crate::lexer::{
    compiler_directive_end, directive_end, directive_names, is_base, is_decimal, lemma_run_end,
    lex, number_end, run_end, scan, starts_with, token_at, CharClass, Lexeme, Token,
};
use crate::printer::{breaks_line, formatted, tight, LayoutModel};
use crate::text::chars_of;
use crate::settled::{
    all_shaped, legible, lemma_first_char, lemma_lex_shaped, lemma_reads_back,
    lemma_render_first, lemma_reread_renders, lemma_reread_shrinks, shaped, starts_line,
    steady,
};

verus! {

/// Whether the token is a number that grows onto a macro in front of it: one
/// that starts with what an identifier is made of.
pub open spec fn grows(token: Lexeme) -> bool {
    token.1 == Token::Number && token.0.len() > 0 && CharClass::Name.holds(token.0[0])
}

/// How many tokens of `rest` a macro in front of `rest` reaches over to take
/// a number: one if the number comes first, two if one newline token stands
/// between, which the printer drops; none if no number grows onto the macro.
pub open spec fn reach(rest: Seq<Lexeme>) -> int {
    if rest.len() > 0 && grows(rest[0]) {
        1
    } else if rest.len() > 1 && rest[0].1 == Token::Newline && grows(rest[1]) {
        2
    } else {
        0
    }
}

/// How much of a number's text a macro in front of it takes: what an
/// identifier is made of, up to the first other character.
pub open spec fn taken(number: Seq<char>) -> int {
    run_end(number, 0, CharClass::Name)
}

/// What a macro and the number behind it are read back as: the macro with
/// what it takes of the number, and what is left of the number, if anything.
pub open spec fn grown(name: Seq<char>, number: Seq<char>) -> Seq<Lexeme> {
    seq![(name + number.take(taken(number)), Token::Directive)] + (if taken(number)
        < number.len() {
        seq![(number.skip(taken(number)), Token::Number)]
    } else {
        Seq::empty()
    })
}

/// The token stream with each number that grows onto a macro joined to it.
pub open spec fn fuse(tokens: Seq<Lexeme>) -> Seq<Lexeme>
    decreases tokens.len(),
{
    if tokens.len() == 0 {
        Seq::empty()
    } else {
        let rest = tokens.drop_first();
        let n = reach(rest);
        if tokens[0].1 == Token::Directive && n > 0 {
            grown(tokens[0].0, rest[n - 1].0) + fuse(rest.skip(n))
        } else {
            seq![tokens[0]] + fuse(rest)
        }
    }
}

/// The state of a printer behind a number that came behind a macro.
pub open spec fn behind_number(m: LayoutModel) -> LayoutModel {
    LayoutModel { last: Token::Number, last_text: Token::Number, ..m }
}

/// Whether the text that a printer in state `m` writes for `tokens` is the
/// one that it writes for the fused stream, and reads back as it. Each
/// newline token whose text is written is one line feed; a number that stands
/// apart from the macro before it, behind a blank line, does not start with
/// what the macro would take; and no colon and no number follows a number
/// that a macro took whole. `taking` tells that such a number came last.
pub open spec fn fusible(m: LayoutModel, tokens: Seq<Lexeme>, taking: bool) -> bool
    decreases tokens.len(),
{
    tokens.len() == 0 || {
        let (text, kind) = tokens[0];
        let rest = tokens.drop_first();
        let n = reach(rest);
        &&& kind == Token::Newline && m.last == Token::Newline ==> text == seq!['\n']
        &&& taking && kind != Token::Newline ==> kind != Token::Colon && kind != Token::Number
        &&& if kind == Token::Directive && n > 0 {
            fusible(
                behind_number(m),
                rest.skip(n),
                taken(rest[n - 1].0) >= rest[n - 1].0.len(),
            )
        } else {
            &&& kind == Token::Number && m.last_text == Token::Directive ==> !grows(tokens[0])
            &&& fusible(m.advance(kind), rest, taking && kind == Token::Newline)
        }
    }
}

/// How the printer of the fused stream stands to the printer of the stream
/// itself: alike, or, with `taking` set, behind a macro where the other
/// stands behind the number that the macro took.
pub open spec fn trailing(m: LayoutModel, fused: LayoutModel, taking: bool) -> bool {
    if taking {
        &&& m.last_text == Token::Number
        &&& m.last == Token::Number || m.last == Token::Newline
        &&& fused == (LayoutModel {
            last_text: Token::Directive,
            last: if m.last == Token::Newline {
                Token::Newline
            } else {
                Token::Directive
            },
            ..m
        })
    } else {
        fused == m
    }
}

/// A run ends where the first character stands that is not of its class.
pub proof fn lemma_run_is(s: Seq<char>, from: int, at: int, class: CharClass)
    requires
        0 <= from <= at <= s.len(),
        forall|i: int| from <= i < at ==> class.holds(#[trigger] s[i]),
        at < s.len() ==> !class.holds(s[at]),
    ensures
        run_end(s, from, class) == at,
    decreases at - from,
{
    if from < at {
        lemma_run_is(s, from + 1, at, class);
    }
}

/// A macro with digits and more of what an identifier is made of behind it
/// is a macro still.
pub proof fn lemma_grown_macro(name: Seq<char>, more: Seq<char>)
    requires
        shaped((name, Token::Directive)),
        more.len() > 0 ==> is_decimal(more[0]),
        forall|i: int| 0 <= i < more.len() ==> CharClass::Name.holds(#[trigger] more[i]),
    ensures
        shaped((name + more, Token::Directive)),
{
    reveal(token_at);
    let text = name + more;
    let n = name.len() as int;
    lemma_first_char((name, Token::Directive));
    lemma_no_keyword(name, 0);
    lemma_no_delimiter(name, 0);
    lemma_no_operator(name, 0);
    lemma_run_end(name, 0, CharClass::Digit);
    assert(name[0] == '`' && directive_end(name, 0) == Some(n)) by {
        lemma_run_end(name, 1, CharClass::Name);
    }
    lemma_run_end(name, 1, CharClass::Name);
    assert(text[0] == '`');
    lemma_no_keyword(text, 0);
    lemma_no_delimiter(text, 0);
    lemma_no_operator(text, 0);
    lemma_run_end(text, 0, CharClass::Digit);
    assert forall|i: int| 1 <= i < text.len() implies CharClass::Name.holds(#[trigger] text[i]) by {
        if i < n {
            assert(text[i] == name[i]);
        } else {
            assert(text[i] == more[i - n]);
        }
    }
    lemma_run_is(text, 1, text.len() as int, CharClass::Name);
    assert(text.subrange(0, n) =~= name.subrange(0, n));
    assert(same_piece(name, 0, text, 0, n));
    lemma_same_part(name, 0, text, 0, n, 1, n - 1);
    let names = directive_names();
    assert forall|k: int| 0 <= k < names.len() implies !starts_with(
        text,
        1,
        #[trigger] names[k],
    ) by {
        let word = names[k];
        lemma_directive_name(k);
        if word.len() <= n - 1 {
            lemma_word_inside(name, 1, text, 1, n - 1, word);
            assert(!starts_with(name, 1, names[k]));
        } else {
            lemma_starts_with(text, 1, word);
            if starts_with(text, 1, word) {
                assert(is_small(word[n - 1]));
                assert(text[1 + (n - 1)] == more[0]);
            }
        }
    }
    assert(compiler_directive_end(text, 0) is None);
}

/// A number that starts with a digit and holds a `'` has its width in front
/// of the `'`, which is all that a macro takes of it; what is left is a
/// number.
pub proof fn lemma_number_parts(number: Seq<char>)
    requires
        shaped((number, Token::Number)),
        grows((number, Token::Number)),
    ensures
        is_decimal(number[0]),
        0 < taken(number) <= number.len(),
        forall|i: int| 0 <= i < taken(number) ==> CharClass::Name.holds(#[trigger] number[i]),
        taken(number) < number.len() ==> number[taken(number)] == '\'' && shaped(
            (number.skip(taken(number)), Token::Number),
        ),
{
    reveal(token_at);
    let n = number.len() as int;
    let k = taken(number);
    lemma_run_end(number, 0, CharClass::Name);
    lemma_run_end(number, 0, CharClass::Digit);
    lemma_run_end(number, 1, CharClass::Width);
    if k < n {
        let width = if '1' <= number[0] && number[0] <= '9' {
            run_end(number, 1, CharClass::Width)
        } else {
            0
        };
        assert(number_end(number, 0) == Some(n));
        assert(run_end(number, 0, CharClass::Digit) <= k) by {
            let plain = run_end(number, 0, CharClass::Digit);
            if plain > k {
                assert(CharClass::Digit.holds(number[k]));
            }
        }
        assert(width + 1 < n && number[width] == '\'' && is_base(number[width + 1]));
        lemma_run_end(number, width + 2, CharClass::Digit);
        assert(run_end(number, width + 2, CharClass::Digit) == n);
        assert forall|i: int| 0 <= i < width implies CharClass::Name.holds(
            #[trigger] number[i],
        ) by {
            if i > 0 {
                assert(CharClass::Width.holds(number[i]));
            }
        }
        lemma_run_is(number, 0, width, CharClass::Name);
        assert(k == width);
        let rest = number.skip(k);
        assert(rest.subrange(0, n - k) =~= number.subrange(k, k + (n - k)));
        assert(same_piece(number, k, rest, 0, n - k));
        lemma_run_same(number, k, rest, 0, n - k, 2, CharClass::Digit);
        assert(rest[0] == '\'' && rest[1] == number[k + 1]);
        lemma_no_keyword(rest, 0);
        lemma_no_delimiter(rest, 0);
        assert(run_end(rest, 2, CharClass::Digit) == n - k);
        assert(number_end(rest, 0) == Some(n - k));
    }
}

/// Two streams of shaped tokens make a stream of shaped tokens.
proof fn lemma_shaped_join(first: Seq<Lexeme>, second: Seq<Lexeme>)
    requires
        all_shaped(first),
        all_shaped(second),
    ensures
        all_shaped(first + second),
{
    let all = first + second;
    assert forall|i: int| 0 <= i < all.len() implies shaped(#[trigger] all[i]) by {
        if i < first.len() {
            assert(all[i] == first[i]);
        } else {
            assert(all[i] == second[i - first.len()]);
        }
    }
}

/// What is left of a stream of shaped tokens is one.
proof fn lemma_shaped_rest(tokens: Seq<Lexeme>, n: int)
    requires
        all_shaped(tokens),
        0 <= n <= tokens.len(),
    ensures
        all_shaped(tokens.skip(n)),
{
    let rest = tokens.skip(n);
    assert forall|i: int| 0 <= i < rest.len() implies shaped(#[trigger] rest[i]) by {
        assert(rest[i] == tokens[i + n]);
    }
}

/// `legible` of a stream that starts with one given token.
proof fn lemma_legible_first(m: LayoutModel, first: Lexeme, rest: Seq<Lexeme>)
    ensures
        legible(m, seq![first] + rest) == ({
            &&& first.1 == Token::Newline && m.last == Token::Newline ==> first.0 == seq!['\n']
            &&& first.1 == Token::Number && m.last_text == Token::Directive ==> first.0.len() > 0
                && !CharClass::Name.holds(first.0[0])
            &&& legible(m.advance(first.1), rest)
        }),
{
    let all = seq![first] + rest;
    assert(all[0] == first);
    assert(all.drop_first() =~= rest);
}

/// Behind a number that a macro took whole, the printer of the fused stream
/// writes for a token what the other printer writes, unless the token is a
/// colon or a number; and behind a token that is no newline the two stand
/// alike again.
proof fn lemma_same_gap(m: LayoutModel, fused: LayoutModel, kind: Token, text: Seq<char>)
    requires
        trailing(m, fused, true),
        kind != Token::Colon,
        kind != Token::Number,
    ensures
        fused.emitted(kind, text) == m.emitted(kind, text),
        trailing(m.advance(kind), fused.advance(kind), kind == Token::Newline),
{
    reveal(breaks_line);
    reveal(tight);
}

/// What a printer writes for a macro, the number behind it and what follows:
/// the macro behind its separator, the number close behind the macro, and
/// the rest from the state behind a number.
proof fn lemma_macro_and_number(m: LayoutModel, tokens: Seq<Lexeme>)
    requires
        tokens.len() > 0,
        tokens[0].1 == Token::Directive,
        reach(tokens.drop_first()) > 0,
    ensures
        ({
            let rest = tokens.drop_first();
            let n = reach(rest);
            m.render(tokens) == m.separator(Token::Directive) + tokens[0].0 + rest[n - 1].0
                + behind_number(m).render(rest.skip(n))
        }),
{
    reveal(breaks_line);
    reveal(tight);
    let rest = tokens.drop_first();
    let n = reach(rest);
    let name = tokens[0].0;
    let number = rest[n - 1].0;
    let gap = m.separator(Token::Directive);
    let one = m.advance(Token::Directive);
    let nothing = Seq::<char>::empty();
    assert(m.emitted(Token::Directive, name) == gap + name);
    if n == 1 {
        assert(rest.drop_first() =~= rest.skip(1));
        assert(one.emitted(Token::Number, number) =~= number);
        assert(one.advance(Token::Number) == behind_number(m));
        assert(one.render(rest) =~= number + behind_number(m).render(rest.skip(1)));
        assert(m.render(tokens) =~= gap + name + number + behind_number(m).render(rest.skip(1)));
    } else {
        let two = one.advance(Token::Newline);
        let after = rest.drop_first();
        assert(after[0] == rest[1]);
        assert(after.drop_first() =~= rest.skip(2));
        assert(one.emitted(Token::Newline, rest[0].0) =~= nothing);
        assert(two.emitted(Token::Number, number) =~= number);
        assert(two.advance(Token::Number) == behind_number(m));
        assert(one.render(rest) =~= two.render(after));
        assert(m.render(tokens) =~= gap + name + number + behind_number(m).render(rest.skip(2)));
    }
}

/// Behind a macro a number is written with nothing in front of it.
proof fn lemma_number_is_close(m: LayoutModel, text: Seq<char>)
    requires
        m.last_text == Token::Directive,
    ensures
        m.emitted(Token::Number, text) == text,
        m.advance(Token::Number) == behind_number(m),
{
    reveal(breaks_line);
    reveal(tight);
    assert(Seq::<char>::empty() + text =~= text);
}

/// Five texts joined, grouped in two ways.
proof fn lemma_five(
    gap: Seq<char>,
    name: Seq<char>,
    taken: Seq<char>,
    left: Seq<char>,
    then: Seq<char>,
)
    ensures
        (gap + (name + taken)) + (left + then) == gap + name + (taken + left) + then,
{
    assert((gap + (name + taken)) + (left + then) =~= gap + name + (taken + left) + then);
}

/// What a printer writes for a macro that took a number whole, and what
/// follows.
proof fn lemma_whole_renders(m: LayoutModel, name: Seq<char>, number: Seq<char>, rest: Seq<Lexeme>)
    requires
        taken(number) == number.len(),
    ensures
        m.render(grown(name, number) + rest) == m.separator(Token::Directive) + name + number
            + m.advance(Token::Directive).render(rest),
{
    let head = (name + number.take(taken(number)), Token::Directive);
    let gap = m.separator(Token::Directive);
    let then = m.advance(Token::Directive).render(rest);
    assert(grown(name, number) =~= seq![head]);
    lemma_render_first(m, head, rest);
    assert(number.take(taken(number)) =~= number);
    assert(m.emitted(Token::Directive, head.0) == gap + (name + number));
    lemma_five(gap, name, number, Seq::empty(), then);
    assert(number + Seq::<char>::empty() =~= number);
    assert(Seq::<char>::empty() + then =~= then);
}

/// What a printer writes for a macro that took the width of a number, what
/// is left of the number, and what follows.
proof fn lemma_split_renders(m: LayoutModel, name: Seq<char>, number: Seq<char>, rest: Seq<Lexeme>)
    requires
        0 <= taken(number) < number.len(),
    ensures
        m.render(grown(name, number) + rest) == m.separator(Token::Directive) + name + number
            + behind_number(m).render(rest),
{
    let k = taken(number);
    let head = (name + number.take(k), Token::Directive);
    let tail = (number.skip(k), Token::Number);
    let one = m.advance(Token::Directive);
    let gap = m.separator(Token::Directive);
    let then = behind_number(m).render(rest);
    assert(grown(name, number) =~= seq![head] + seq![tail]);
    assert(grown(name, number) + rest =~= seq![head] + (seq![tail] + rest));
    lemma_render_first(m, head, seq![tail] + rest);
    lemma_render_first(one, tail, rest);
    lemma_number_is_close(one, tail.0);
    assert(behind_number(one) == behind_number(m));
    assert(m.emitted(Token::Directive, head.0) == gap + (name + number.take(k)));
    lemma_five(gap, name, number.take(k), number.skip(k), then);
    assert(number.take(k) + number.skip(k) =~= number);
}

/// The fused stream is written as the stream itself is, holds shaped tokens
/// and is legible, if the stream is fusible.
pub proof fn lemma_fused(m: LayoutModel, fused: LayoutModel, tokens: Seq<Lexeme>, taking: bool)
    requires
        all_shaped(tokens),
        fusible(m, tokens, taking),
        trailing(m, fused, taking),
    ensures
        fused.render(fuse(tokens)) == m.render(tokens),
        all_shaped(fuse(tokens)),
        legible(fused, fuse(tokens)),
    decreases tokens.len(),
{
    if tokens.len() > 0 {
        let (text, kind) = tokens[0];
        let rest = tokens.drop_first();
        let n = reach(rest);
        assert(shaped(tokens[0]));
        lemma_shaped_rest(tokens, 1);
        assert(tokens.skip(1) =~= rest);
        if kind == Token::Directive && n > 0 {
            let number = rest[n - 1].0;
            let whole = taken(number) >= number.len();
            let left = rest.skip(n);
            let pair = grown(text, number);
            assert(shaped(rest[n - 1]));
            lemma_shaped_rest(rest, n);
            lemma_number_parts(number);
            lemma_grown_macro(text, number.take(taken(number)));
            let behind = if whole {
                fused.advance(Token::Directive)
            } else {
                behind_number(fused)
            };
            assert(trailing(behind_number(m), behind, whole)) by {
                reveal(breaks_line);
                reveal(tight);
            }
            lemma_fused(behind_number(m), behind, left, whole);
            lemma_macro_and_number(m, tokens);
            if whole {
                lemma_whole_renders(fused, text, number, fuse(left));
            } else {
                lemma_split_renders(fused, text, number, fuse(left));
            }
            assert(fused.separator(Token::Directive) == m.separator(Token::Directive)) by {
                reveal(breaks_line);
                reveal(tight);
            }
            // shapes
            assert(all_shaped(pair)) by {
                assert forall|i: int| 0 <= i < pair.len() implies shaped(#[trigger] pair[i]) by {
                    if i == 0 {
                        assert(pair[0] == (text + number.take(taken(number)), Token::Directive));
                    } else {
                        assert(pair[1] == (number.skip(taken(number)), Token::Number));
                    }
                }
            }
            lemma_shaped_join(pair, fuse(left));
            // legible
            let head = (text + number.take(taken(number)), Token::Directive);
            if whole {
                assert(pair + fuse(left) =~= seq![head] + fuse(left));
                lemma_legible_first(fused, head, fuse(left));
            } else {
                let tail = (number.skip(taken(number)), Token::Number);
                assert(pair + fuse(left) =~= seq![head] + (seq![tail] + fuse(left)));
                lemma_legible_first(fused, head, seq![tail] + fuse(left));
                lemma_legible_first(fused.advance(Token::Directive), tail, fuse(left));
                assert(fused.advance(Token::Directive).advance(Token::Number) == behind_number(
                    fused,
                ));
                assert(tail.0[0] == number[taken(number)]);
            }
        } else {
            let next = m.advance(kind);
            let stays = taking && kind == Token::Newline;
            if taking {
                lemma_same_gap(m, fused, kind, text);
            }
            lemma_fused(next, fused.advance(kind), rest, stays);
            lemma_render_first(fused, tokens[0], fuse(rest));
            assert(all_shaped(seq![tokens[0]])) by {
                assert forall|i: int| 0 <= i < 1 implies shaped(#[trigger] seq![tokens[0]][i]) by {}
            }
            lemma_shaped_join(seq![tokens[0]], fuse(rest));
            lemma_legible_first(fused, tokens[0], fuse(rest));
            lemma_first_char(tokens[0]);
        }
    }
}

/// `steady` of a stream that starts with one given token.
pub proof fn lemma_steady_first(m: LayoutModel, first: Lexeme, rest: Seq<Lexeme>)
    ensures
        steady(m, seq![first] + rest) == ({
            &&& first.1 == Token::Newline && m.last == Token::Newline ==> starts_line(
                m.advance(first.1),
                rest,
            )
            &&& steady(m.advance(first.1), rest)
        }),
{
    let all = seq![first] + rest;
    assert(all[0] == first);
    assert(all.drop_first() =~= rest);
}

/// A macro and the number behind it are steady if what follows them is.
pub proof fn lemma_steady_over_macro(m: LayoutModel, tokens: Seq<Lexeme>)
    requires
        tokens.len() > 0,
        tokens[0].1 == Token::Directive,
        reach(tokens.drop_first()) > 0,
    ensures
        steady(m, tokens) == steady(
            behind_number(m),
            tokens.drop_first().skip(reach(tokens.drop_first())),
        ),
{
    let rest = tokens.drop_first();
    let one = m.advance(Token::Directive);
    if reach(rest) == 1 {
        assert(rest.drop_first() =~= rest.skip(1));
        assert(one.advance(Token::Number) == behind_number(m));
        assert(steady(one, rest) == steady(behind_number(m), rest.skip(1)));
    } else {
        let after = rest.drop_first();
        let two = one.advance(Token::Newline);
        assert(after[0] == rest[1]);
        assert(after.drop_first() =~= rest.skip(2));
        assert(two.advance(Token::Number) == behind_number(m));
        assert(steady(two, after) == steady(behind_number(m), rest.skip(2)));
        assert(steady(one, rest) == steady(two, after));
    }
}

/// The fused stream starts with a token of the kind that the stream starts
/// with.
proof fn lemma_fuse_head(tokens: Seq<Lexeme>)
    ensures
        fuse(tokens).len() > 0 <==> tokens.len() > 0,
        tokens.len() > 0 ==> fuse(tokens)[0].1 == tokens[0].1,
{
}

/// Behind a number that a macro took whole, the line breaks for the printer
/// of the fused stream where it breaks for the other.
proof fn lemma_same_break(m: LayoutModel, fused: LayoutModel, taking: bool, kind: Token)
    requires
        trailing(m, fused, taking),
    ensures
        breaks_line(fused.entering(kind), kind) == breaks_line(m.entering(kind), kind),
{
    reveal(breaks_line);
}

/// The fused stream is steady if and only if the stream itself is.
pub proof fn lemma_fused_steady(
    m: LayoutModel,
    fused: LayoutModel,
    tokens: Seq<Lexeme>,
    taking: bool,
)
    requires
        fusible(m, tokens, taking),
        trailing(m, fused, taking),
    ensures
        steady(fused, fuse(tokens)) == steady(m, tokens),
    decreases tokens.len(),
{
    if tokens.len() > 0 {
        let (text, kind) = tokens[0];
        let rest = tokens.drop_first();
        let n = reach(rest);
        if kind == Token::Directive && n > 0 {
            let number = rest[n - 1].0;
            let k = taken(number);
            let whole = k >= number.len();
            let left = rest.skip(n);
            let head = (text + number.take(k), Token::Directive);
            let behind = if whole {
                fused.advance(Token::Directive)
            } else {
                behind_number(fused)
            };
            assert(trailing(behind_number(m), behind, whole));
            lemma_fused_steady(behind_number(m), behind, left, whole);
            lemma_steady_over_macro(m, tokens);
            if whole {
                assert(fuse(tokens) =~= seq![head] + fuse(left));
                lemma_steady_first(fused, head, fuse(left));
            } else {
                let tail = (number.skip(k), Token::Number);
                assert(fuse(tokens) =~= seq![head] + (seq![tail] + fuse(left)));
                lemma_steady_first(fused, head, seq![tail] + fuse(left));
                lemma_steady_first(fused.advance(Token::Directive), tail, fuse(left));
                assert(fused.advance(Token::Directive).advance(Token::Number) == behind_number(
                    fused,
                ));
            }
        } else {
            let next = m.advance(kind);
            let stays = taking && kind == Token::Newline;
            if taking {
                lemma_same_gap(m, fused, kind, text);
            }
            lemma_fused_steady(next, fused.advance(kind), rest, stays);
            lemma_steady_first(fused, tokens[0], fuse(rest));
            lemma_fuse_head(rest);
            if rest.len() > 0 {
                lemma_same_break(next, fused.advance(kind), stays, rest[0].1);
            }
        }
    }
}

/// Where formatting a stream of shaped tokens is idempotent. Where the
/// stream is fusible, its formatted text has a token stream, and formatting
/// that one gives the formatted text again if and only if the stream is
/// steady.
pub proof fn lemma_stream_settles(tokens: Seq<Lexeme>)
    requires
        all_shaped(tokens),
        fusible(LayoutModel::start(), tokens, false),
    ensures
        lex(formatted(tokens), 0) matches Ok(again) && (formatted(again) == formatted(tokens)
            <==> steady(LayoutModel::start(), tokens)),
{
    let start = LayoutModel::start();
    let joined = fuse(tokens);
    lemma_fused(start, start, tokens, false);
    lemma_fused_steady(start, start, tokens, false);
    lemma_reads_back(Seq::empty(), start, joined);
    assert(Seq::<char>::empty() + start.render(joined) =~= formatted(tokens));
    if steady(start, joined) {
        lemma_reread_renders(start, start, joined, false);
        assert(Seq::<char>::empty() + start.render(joined) =~= start.render(joined));
    } else {
        lemma_reread_shrinks(start, start, joined, false);
    }
}

/// Where formatting is idempotent, numbers that grow onto macros counted in.
/// Where a text has a token stream that is fusible, the formatted text has a
/// token stream too, and formatting that one gives the formatted text again
/// if and only if the stream is steady.
pub proof fn lemma_formatting_settles_fused(text: Seq<char>)
    requires
        lex(text, 0) matches Ok(tokens) && fusible(LayoutModel::start(), tokens, false),
    ensures
        lex(formatted(lex(text, 0)->Ok_0), 0) matches Ok(again) && (formatted(again) == formatted(
            lex(text, 0)->Ok_0,
        ) <==> steady(LayoutModel::start(), lex(text, 0)->Ok_0)),
{
    lemma_lex_shaped(text, 0);
    lemma_stream_settles(lex(text, 0)->Ok_0);
}

/// Whether `text` is one line feed.
pub(crate) fn is_line_feed(text: &str) -> (r: bool)
    ensures
        r == (text@ == seq!['\n']),
{
    if text.unicode_len() == 1 && text.get_char(0) == '\n' {
        assert(text@ =~= seq!['\n']);
        true
    } else {
        false
    }
}

/// Whether the token is a number that grows onto a macro in front of it.
pub(crate) fn is_growing(text: &str, kind: Token) -> (r: bool)
    ensures
        r == grows((text@, kind)),
{
    kind == Token::Number && text.unicode_len() > 0 && CharClass::Name.has(text.get_char(0))
}

/// Whether a macro in front of the number takes all of it.
pub(crate) fn takes_whole(number: &str) -> (r: bool)
    ensures
        r == (taken(number@) >= number@.len()),
{
    let all = chars_of(number);
    scan(all.as_slice(), 0, CharClass::Name) >= all.len()
}

} // verus!
