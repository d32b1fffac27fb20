//! What the token stream of a text keeps of the text: everything but the
//! blanks between the tokens.

use vstd::prelude::*;
use crate::lexer::{
    lemma_run_end, lemma_token_bounds, lemma_token_kind, lex, run_end, token_at, CharClass, Lexeme,
    Token,
};

verus! {

/// The runs of blanks that `lex` passes over from `from` on: the run in front
/// of each token, and the run behind the last.
pub open spec fn gaps(s: Seq<char>, from: int) -> Seq<Seq<char>>
    decreases s.len() - from,
{
    let at = run_end(s, from, CharClass::Blank);
    if at >= s.len() {
        seq![s.subrange(from, at)]
    } else {
        match token_at(s, at) {
            None => seq![s.subrange(from, at)],
            Some((kind, end)) => {
                proof {
                    lemma_token_bounds(s, at);
                    lemma_run_end(s, from, CharClass::Blank);
                }
                seq![s.subrange(from, at)] + gaps(s, end)
            },
        }
    }
}

/// The text made of gaps and tokens in turn, a gap first: as many tokens are
/// taken as there are gaps to put in front of them, and the gap behind the
/// last token ends the text.
pub open spec fn weave(gaps: Seq<Seq<char>>, tokens: Seq<Lexeme>) -> Seq<char>
    decreases tokens.len(),
{
    if gaps.len() == 0 {
        Seq::empty()
    } else if tokens.len() == 0 {
        gaps[0]
    } else {
        gaps[0] + tokens[0].0 + weave(gaps.drop_first(), tokens.drop_first())
    }
}

/// Whether `t` is made of spaces and tabs alone.
pub open spec fn all_blank(t: Seq<char>) -> bool {
    forall|i: int| 0 <= i < t.len() ==> CharClass::Blank.holds(#[trigger] t[i])
}

/// Nothing of a text is lost in its token stream. The texts of the tokens, in
/// order, with the blanks that were passed over put back between them, are
/// the text from `from` on, character for character; there is one run of
/// blanks more than there are tokens, and a run holds nothing but spaces and
/// tabs.
pub proof fn lemma_tokens_cover_from(s: Seq<char>, from: int)
    requires
        0 <= from <= s.len(),
        lex(s, from) is Ok,
    ensures
        gaps(s, from).len() == lex(s, from)->Ok_0.len() + 1,
        forall|i: int| 0 <= i < gaps(s, from).len() ==> all_blank(#[trigger] gaps(s, from)[i]),
        weave(gaps(s, from), lex(s, from)->Ok_0) == s.skip(from),
    decreases s.len() - from,
{
    let at = run_end(s, from, CharClass::Blank);
    lemma_run_end(s, from, CharClass::Blank);
    let gap = s.subrange(from, at);
    assert(all_blank(gap));
    if at >= s.len() {
        assert(gap =~= s.skip(from));
    } else {
        lemma_token_bounds(s, at);
        let (kind, end) = token_at(s, at)->Some_0;
        lemma_tokens_cover_from(s, end);
        let rest = lex(s, end)->Ok_0;
        let tokens = lex(s, from)->Ok_0;
        let text = s.subrange(at, end);
        assert(tokens == seq![(text, kind)] + rest);
        assert(tokens[0] == (text, kind));
        assert(tokens.drop_first() =~= rest);
        let all = gaps(s, from);
        assert(all == seq![gap] + gaps(s, end));
        assert(all[0] == gap);
        assert(all.drop_first() =~= gaps(s, end));
        assert(gap + text + s.skip(end) =~= s.skip(from));
        assert forall|i: int| 0 <= i < all.len() implies all_blank(#[trigger] all[i]) by {
            if i > 0 {
                assert(all[i] == gaps(s, end)[i - 1]);
            }
        }
    }
}

/// Nothing of a text is lost in its token stream: the texts of the tokens, in
/// order, with the blanks that were passed over put back between them, are
/// the text.
pub proof fn lemma_tokens_cover_text(s: Seq<char>)
    requires
        lex(s, 0) is Ok,
    ensures
        gaps(s, 0).len() == lex(s, 0)->Ok_0.len() + 1,
        forall|i: int| 0 <= i < gaps(s, 0).len() ==> all_blank(#[trigger] gaps(s, 0)[i]),
        weave(gaps(s, 0), lex(s, 0)->Ok_0) == s,
{
    lemma_tokens_cover_from(s, 0);
    assert(s.skip(0) =~= s);
}

/// No token of a token stream is empty, and none has the kind `Start`, which
/// stands for the absence of a token.
pub proof fn lemma_tokens_are_tokens(s: Seq<char>, from: int)
    requires
        lex(s, from) is Ok,
    ensures
        forall|i: int|
            0 <= i < lex(s, from)->Ok_0.len() ==> (#[trigger] lex(s, from)->Ok_0[i]).0.len() > 0
                && lex(s, from)->Ok_0[i].1 != Token::Start,
    decreases s.len() - from,
{
    let at = run_end(s, from, CharClass::Blank);
    if at < s.len() {
        lemma_token_bounds(s, at);
        lemma_token_kind(s, at);
        if 0 <= from {
            lemma_run_end(s, from, CharClass::Blank);
        }
        let (kind, end) = token_at(s, at)->Some_0;
        lemma_tokens_are_tokens(s, end);
        let rest = lex(s, end)->Ok_0;
        let tokens = lex(s, from)->Ok_0;
        assert forall|i: int| 0 <= i < tokens.len() implies (#[trigger] tokens[i]).0.len() > 0
            && tokens[i].1 != Token::Start by {
            if i > 0 {
                assert(tokens[i] == rest[i - 1]);
            }
        }
    }
}

/// Where a text cannot be read, the position that `lex` gives lies in the
/// text at or behind `from`, and what stands there is no blank and starts no
/// token.
pub proof fn lemma_stuck_position(s: Seq<char>, from: int)
    requires
        0 <= from,
        lex(s, from) is Err,
    ensures
        from <= lex(s, from)->Err_0 < s.len(),
        !CharClass::Blank.holds(s[lex(s, from)->Err_0]),
        token_at(s, lex(s, from)->Err_0) is None,
    decreases s.len() - from,
{
    let at = run_end(s, from, CharClass::Blank);
    if from <= s.len() {
        lemma_run_end(s, from, CharClass::Blank);
    }
    if at < s.len() {
        lemma_token_bounds(s, at);
        if let Some((kind, end)) = token_at(s, at) {
            lemma_stuck_position(s, end);
        }
    }
}

} // verus!
