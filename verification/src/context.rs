//! A token and what stands behind it.
//!
//! Which token starts at a position depends on the text of that token and, at
//! most, on the one character behind it. This module says which characters
//! may follow a token of each kind without changing it, and proves that the
//! token is then the same wherever its text stands.

use vstd::prelude::*;
use crate::lexer::{
    comment_end, compiler_directive_end, delimiters, directive_end, directive_names, first_match,
    identifier_end, is_base, keywords, lemma_first_match, lemma_run_end, lemma_token_bounds,
    newline_end, number_end, operators, run_end, stands, starts_with, string_end, token_at,
    goes_on, whole_word, word_ends, CharClass, Token,
};

verus! {

/// Whether `c` is a small letter or `_`: what keywords and the names of
/// compiler directives are made of.
pub open spec fn is_small(c: char) -> bool {
    ('a' <= c && c <= 'z') || c == '_'
}

/// Whether `c` is a delimiter.
pub open spec fn is_delimiter(c: char) -> bool {
    c == '#' || c == '(' || c == ')' || c == '[' || c == ']' || c == '{' || c == '}' || c == ':'
        || c == ',' || c == ';' || c == '.'
}

/// Whether `c` starts an operator.
pub open spec fn is_operator(c: char) -> bool {
    c == '=' || c == '@' || c == '/' || c == '-' || c == '!' || c == '+' || c == '~' || c == '*'
        || c == '?' || c == '<' || c == '>' || c == '&'
}

/// A keyword is made of small letters and `_` and starts with a letter.
pub proof fn lemma_keyword_text(kind: Token)
    requires
        keywords().contains(kind),
    ensures
        kind.text().len() > 0,
        'a' <= kind.text()[0] <= 'z',
        forall|j: int| 0 <= j < kind.text().len() ==> is_small(#[trigger] kind.text()[j]),
{
    reveal_strlit("module");
    reveal_strlit("endmodule");
    reveal_strlit("begin");
    reveal_strlit("end");
    reveal_strlit("parameter");
    reveal_strlit("generate");
    reveal_strlit("endgenerate");
    reveal_strlit("task");
    reveal_strlit("endtask");
    reveal_strlit("initial");
    reveal_strlit("input");
    reveal_strlit("output");
    reveal_strlit("wire");
    reveal_strlit("reg");
    reveal_strlit("logic");
    reveal_strlit("if");
    reveal_strlit("else");
    reveal_strlit("always");
    reveal_strlit("always_comb");
    reveal_strlit("always_ff");
}

/// A delimiter is one character.
pub proof fn lemma_delimiter_text(kind: Token)
    requires
        delimiters().contains(kind),
    ensures
        kind.text().len() == 1,
        is_delimiter(kind.text()[0]),
{
    reveal_strlit("#");
    reveal_strlit("(");
    reveal_strlit(")");
    reveal_strlit("[");
    reveal_strlit("]");
    reveal_strlit("{");
    reveal_strlit("}");
    reveal_strlit(":");
    reveal_strlit(",");
    reveal_strlit(";");
    reveal_strlit(".");
}

/// An operator is one character, or one character and `=`, or `&&`; and each
/// operator of one character has a character of its own.
pub proof fn lemma_operator_text(kind: Token)
    requires
        operators().contains(kind),
    ensures
        kind.text().len() == 1 || kind.text().len() == 2,
        is_operator(kind.text()[0]),
        kind.text().len() == 2 ==> kind.text()[1] == (if kind == Token::OpAnd {
            '&'
        } else {
            '='
        }),
        kind.text()[0] == (match kind {
            Token::OpEqualTo | Token::OpEqual => '=',
            Token::OpAt => '@',
            Token::OpDivide => '/',
            Token::OpMinus => '-',
            Token::OpNot => '!',
            Token::OpPlus => '+',
            Token::OpInvert => '~',
            Token::OpMultiply => '*',
            Token::OpChoice => '?',
            Token::OpAssign | Token::OpLessThan => '<',
            Token::OpGreaterEqual | Token::OpGreaterThan => '>',
            _ => '&',
        }),
        kind.text().len() == 2 <==> kind == Token::OpEqualTo || kind == Token::OpAssign || kind
            == Token::OpGreaterEqual || kind == Token::OpAnd,
{
    reveal_strlit("=");
    reveal_strlit("@");
    reveal_strlit("/");
    reveal_strlit("-");
    reveal_strlit("!");
    reveal_strlit("+");
    reveal_strlit("~");
    reveal_strlit("*");
    reveal_strlit("?");
    reveal_strlit("==");
    reveal_strlit("<=");
    reveal_strlit("<");
    reveal_strlit(">");
    reveal_strlit(">=");
    reveal_strlit("&&");
}

/// The name of a compiler directive is made of small letters and `_`.
pub proof fn lemma_directive_name(i: int)
    requires
        0 <= i < directive_names().len(),
    ensures
        forall|j: int|
            0 <= j < directive_names()[i].len() ==> is_small(#[trigger] directive_names()[i][j]),
{
    reveal_strlit("celldefine");
    reveal_strlit("default_nettype");
    reveal_strlit("define");
    reveal_strlit("else");
    reveal_strlit("elsif");
    reveal_strlit("endcelldefine");
    reveal_strlit("endif");
    reveal_strlit("ifdef");
    reveal_strlit("ifndef");
    reveal_strlit("include");
    reveal_strlit("line");
    reveal_strlit("nounconnected_drive");
    reveal_strlit("resetall");
    reveal_strlit("timescale");
    reveal_strlit("unconnected_drive");
    reveal_strlit("undef");
}

/// Whether `n` characters of `a` from `i` on are those of `b` from `j` on.
pub open spec fn same_piece(a: Seq<char>, i: int, b: Seq<char>, j: int, n: int) -> bool {
    0 <= n && 0 <= i && i + n <= a.len() && 0 <= j && j + n <= b.len() && a.subrange(i, i + n)
        == b.subrange(j, j + n)
}

/// Characters at the same place of a shared piece are the same.
pub proof fn lemma_same_char(a: Seq<char>, i: int, b: Seq<char>, j: int, n: int, k: int)
    requires
        same_piece(a, i, b, j, n),
        0 <= k < n,
    ensures
        a[i + k] == b[j + k],
{
    assert(a.subrange(i, i + n)[k] == a[i + k]);
    assert(b.subrange(j, j + n)[k] == b[j + k]);
}

/// A part of a shared piece is shared.
pub proof fn lemma_same_part(a: Seq<char>, i: int, b: Seq<char>, j: int, n: int, k: int, m: int)
    requires
        same_piece(a, i, b, j, n),
        0 <= k,
        0 <= m,
        k + m <= n,
    ensures
        same_piece(a, i + k, b, j + k, m),
{
    let left = a.subrange(i + k, i + k + m);
    let right = b.subrange(j + k, j + k + m);
    assert forall|x: int| 0 <= x < m implies #[trigger] left[x] == right[x] by {
        lemma_same_char(a, i, b, j, n, k + x);
    }
    assert(left =~= right);
}

/// Whether the text ends at `at` or holds there a character that is not of
/// `class`.
pub open spec fn stops(s: Seq<char>, at: int, class: CharClass) -> bool {
    at >= s.len() || !class.holds(s[at])
}

/// A run within a shared piece. Where it ends inside the piece in one text,
/// it ends at the same place in the other; where it reaches the end of the
/// piece in one, it does so in the other, and ends there if the other text
/// stops it there.
pub proof fn lemma_run_same(
    a: Seq<char>,
    i: int,
    b: Seq<char>,
    j: int,
    n: int,
    k: int,
    class: CharClass,
)
    requires
        same_piece(a, i, b, j, n),
        0 <= k <= n,
    ensures
        run_end(a, i + k, class) < i + n ==> run_end(b, j + k, class) - j == run_end(
            a,
            i + k,
            class,
        ) - i,
        run_end(a, i + k, class) >= i + n ==> run_end(b, j + k, class) >= j + n,
        run_end(a, i + k, class) >= i + n && stops(b, j + n, class) ==> run_end(b, j + k, class)
            == j + n,
    decreases n - k,
{
    if k < n {
        lemma_same_char(a, i, b, j, n, k);
        if class.holds(a[i + k]) {
            lemma_run_same(a, i, b, j, n, k + 1, class);
        }
    } else {
        lemma_run_end(b, j + n, class);
        lemma_run_end(a, i + n, class);
    }
}

/// A word stands at a position if and only if its characters stand there one
/// by one.
pub proof fn lemma_starts_with(s: Seq<char>, at: int, word: Seq<char>)
    ensures
        starts_with(s, at, word) <==> 0 <= at && at + word.len() <= s.len() && forall|k: int|
            0 <= k < word.len() ==> s[at + k] == #[trigger] word[k],
{
    if 0 <= at && at + word.len() <= s.len() {
        let part = s.subrange(at, at + word.len());
        if part == word {
            assert forall|k: int| 0 <= k < word.len() implies s[at + k] == #[trigger] word[k] by {
                assert(part[k] == s[at + k]);
            }
        }
        if forall|k: int| 0 <= k < word.len() ==> s[at + k] == #[trigger] word[k] {
            assert(part =~= word);
        }
    }
}

/// A word that is no longer than a shared piece stands at its start in one
/// text if and only if it does in the other.
pub proof fn lemma_word_inside(a: Seq<char>, i: int, b: Seq<char>, j: int, n: int, word: Seq<char>)
    requires
        same_piece(a, i, b, j, n),
        word.len() <= n,
    ensures
        starts_with(a, i, word) == starts_with(b, j, word),
        word.len() < n ==> whole_word(a, i, word) == whole_word(b, j, word),
{
    lemma_same_part(a, i, b, j, n, 0, word.len() as int);
    if word.len() < n {
        lemma_same_char(a, i, b, j, n, word.len() as int);
    }
}

/// `first_match` gives the same in two texts in which each of the kinds
/// stands or does not stand alike.
pub proof fn lemma_first_same(
    a: Seq<char>,
    i: int,
    b: Seq<char>,
    j: int,
    kinds: Seq<Token>,
    whole: bool,
)
    requires
        forall|k: int|
            0 <= k < kinds.len() ==> stands(a, i, (#[trigger] kinds[k]).text(), whole) == stands(
                b,
                j,
                kinds[k].text(),
                whole,
            ),
    ensures
        first_match(a, i, kinds, whole) == first_match(b, j, kinds, whole),
    decreases kinds.len(),
{
    if kinds.len() > 0 {
        assert(stands(a, i, kinds[0].text(), whole) == stands(b, j, kinds[0].text(), whole));
        let rest = kinds.drop_first();
        assert forall|k: int| 0 <= k < rest.len() implies stands(
            a,
            i,
            (#[trigger] rest[k]).text(),
            whole,
        ) == stands(b, j, rest[k].text(), whole) by {
            assert(rest[k] == kinds[k + 1]);
        }
        lemma_first_same(a, i, b, j, rest, whole);
    }
}

/// `first_match` gives nothing where none of the kinds stands.
pub proof fn lemma_first_none(s: Seq<char>, at: int, kinds: Seq<Token>, whole: bool)
    requires
        forall|k: int| 0 <= k < kinds.len() ==> !stands(s, at, (#[trigger] kinds[k]).text(), whole),
    ensures
        first_match(s, at, kinds, whole) is None,
    decreases kinds.len(),
{
    if kinds.len() > 0 {
        assert(!stands(s, at, kinds[0].text(), whole));
        let rest = kinds.drop_first();
        assert forall|k: int| 0 <= k < rest.len() implies !stands(
            s,
            at,
            (#[trigger] rest[k]).text(),
            whole,
        ) by {
            assert(rest[k] == kinds[k + 1]);
        }
        lemma_first_none(s, at, rest, whole);
    }
}

/// No keyword stands where no small letter stands.
pub proof fn lemma_no_keyword(s: Seq<char>, at: int)
    requires
        !(0 <= at < s.len() && 'a' <= s[at] <= 'z'),
    ensures
        first_match(s, at, keywords(), true) is None,
{
    let kinds = keywords();
    assert forall|k: int| 0 <= k < kinds.len() implies !stands(
        s,
        at,
        (#[trigger] kinds[k]).text(),
        true,
    ) by {
        lemma_keyword_text(kinds[k]);
        lemma_starts_with(s, at, kinds[k].text());
    }
    lemma_first_none(s, at, kinds, true);
}

/// The same keyword, or none, stands at the start of a shared piece in two
/// texts that both end the piece as a word ends.
pub proof fn lemma_keywords_same(a: Seq<char>, i: int, b: Seq<char>, j: int, n: int)
    requires
        same_piece(a, i, b, j, n),
        word_ends(a, i + n),
        word_ends(b, j + n),
    ensures
        first_match(a, i, keywords(), true) == first_match(b, j, keywords(), true),
{
    let kinds = keywords();
    assert forall|k: int| 0 <= k < kinds.len() implies stands(
        a,
        i,
        (#[trigger] kinds[k]).text(),
        true,
    ) == stands(b, j, kinds[k].text(), true) by {
        let word = kinds[k].text();
        lemma_keyword_text(kinds[k]);
        if word.len() <= n {
            lemma_word_inside(a, i, b, j, n, word);
        } else {
            lemma_starts_with(a, i, word);
            lemma_starts_with(b, j, word);
            assert(is_small(word[n]));
        }
    }
    lemma_first_same(a, i, b, j, kinds, true);
}

/// Which delimiter stands at a position depends on the character there.
pub proof fn lemma_delimiters_same(a: Seq<char>, i: int, b: Seq<char>, j: int)
    requires
        0 <= i < a.len(),
        0 <= j < b.len(),
        a[i] == b[j],
    ensures
        first_match(a, i, delimiters(), false) == first_match(b, j, delimiters(), false),
{
    let kinds = delimiters();
    assert forall|k: int| 0 <= k < kinds.len() implies stands(
        a,
        i,
        (#[trigger] kinds[k]).text(),
        false,
    ) == stands(b, j, kinds[k].text(), false) by {
        lemma_delimiter_text(kinds[k]);
        lemma_starts_with(a, i, kinds[k].text());
        lemma_starts_with(b, j, kinds[k].text());
    }
    lemma_first_same(a, i, b, j, kinds, false);
}

/// No delimiter stands where no delimiter's character stands.
pub proof fn lemma_no_delimiter(s: Seq<char>, at: int)
    requires
        !(0 <= at < s.len() && is_delimiter(s[at])),
    ensures
        first_match(s, at, delimiters(), false) is None,
{
    let kinds = delimiters();
    assert forall|k: int| 0 <= k < kinds.len() implies !stands(
        s,
        at,
        (#[trigger] kinds[k]).text(),
        false,
    ) by {
        lemma_delimiter_text(kinds[k]);
        lemma_starts_with(s, at, kinds[k].text());
    }
    lemma_first_none(s, at, kinds, false);
}

/// No operator stands where no operator's first character stands.
pub proof fn lemma_no_operator(s: Seq<char>, at: int)
    requires
        !(0 <= at < s.len() && is_operator(s[at])),
    ensures
        first_match(s, at, operators(), false) is None,
{
    let kinds = operators();
    assert forall|k: int| 0 <= k < kinds.len() implies !stands(
        s,
        at,
        (#[trigger] kinds[k]).text(),
        false,
    ) by {
        lemma_operator_text(kinds[k]);
        lemma_starts_with(s, at, kinds[k].text());
    }
    lemma_first_none(s, at, kinds, false);
}

/// Whether an operator of two characters stands at `at`, going by its
/// characters.
pub open spec fn pair_at(s: Seq<char>, at: int) -> bool {
    0 <= at && at + 1 < s.len() && ((s[at + 1] == '=' && (s[at] == '=' || s[at] == '<' || s[at]
        == '>')) || (s[at] == '&' && s[at + 1] == '&'))
}

/// The same operator, or none, stands at the start of a shared piece in two
/// texts, if the piece has two characters or neither text holds an operator of
/// two characters there.
pub proof fn lemma_operators_same(a: Seq<char>, i: int, b: Seq<char>, j: int, n: int)
    requires
        same_piece(a, i, b, j, n),
        n >= 1,
        n == 1 ==> !pair_at(a, i) && !pair_at(b, j),
    ensures
        first_match(a, i, operators(), false) == first_match(b, j, operators(), false),
{
    let kinds = operators();
    assert forall|k: int| 0 <= k < kinds.len() implies stands(
        a,
        i,
        (#[trigger] kinds[k]).text(),
        false,
    ) == stands(b, j, kinds[k].text(), false) by {
        let word = kinds[k].text();
        lemma_operator_text(kinds[k]);
        if word.len() <= n {
            lemma_word_inside(a, i, b, j, n, word);
        } else {
            lemma_starts_with(a, i, word);
            lemma_starts_with(b, j, word);
        }
    }
    lemma_first_same(a, i, b, j, kinds, false);
}

/// Whether a token of `kind` ends in front of the character `c`: whether `c`,
/// put behind the token, leaves the token's kind and its end as they are.
///
/// A keyword ends in front of what does not go on a word; an identifier in
/// front of what does neither that nor is `$`; a macro in front of what no
/// identifier is made of; a number in front of
/// what is no hexadecimal digit, `_` or `'`; a comment and a compiler
/// directive in front of a line feed; `=`, `<` and `>` in front of what is no
/// `=`; `/` in front of what is no `/`. Every other token ends in front of
/// any character.
pub open spec fn ends_before(kind: Token, c: char) -> bool {
    if keywords().contains(kind) {
        !goes_on(c)
    } else if kind == Token::Identifier {
        !goes_on(c) && !CharClass::Name.holds(c)
    } else if kind == Token::Directive {
        !CharClass::Name.holds(c)
    } else if kind == Token::Number {
        !CharClass::Digit.holds(c) && c != '\''
    } else if kind == Token::Comment || kind == Token::CompilerDirective {
        c == '\n'
    } else if kind == Token::OpEqual || kind == Token::OpLessThan || kind == Token::OpGreaterThan {
        c != '='
    } else if kind == Token::OpDivide {
        c != '/'
    } else {
        true
    }
}

/// Whether the text ends at `at` or a token of `kind` ends in front of the
/// character there.
pub open spec fn ends_at(s: Seq<char>, at: int, kind: Token) -> bool {
    at >= s.len() || ends_before(kind, s[at])
}

/// A keyword stays the keyword it is in front of what ends a word.
proof fn lemma_same_keyword(a: Seq<char>, i: int, b: Seq<char>, j: int, n: int)
    requires
        same_piece(a, i, b, j, n),
        first_match(a, i, keywords(), true) matches Some(kind) && i + kind.text().len() == i + n
            && ends_at(b, j + n, kind),
    ensures
        first_match(b, j, keywords(), true) == first_match(a, i, keywords(), true),
{
    lemma_first_match(a, i, keywords(), true);
    lemma_keywords_same(a, i, b, j, n);
}

/// A string stays a string whatever follows it.
proof fn lemma_same_string(a: Seq<char>, i: int, b: Seq<char>, j: int, n: int)
    requires
        same_piece(a, i, b, j, n),
        0 <= i < a.len(),
        string_end(a, i) == Some(i + n),
    ensures
        first_match(b, j, keywords(), true) is None,
        string_end(b, j) == Some(j + n),
{
    lemma_run_end(a, i + 1, CharClass::Quoted);
    lemma_same_char(a, i, b, j, n, 0);
    lemma_no_keyword(b, j);
    lemma_run_same(a, i, b, j, n, 1, CharClass::Quoted);
}

/// What precedes the rule for identifiers gives nothing in `b` at `j` if it
/// gives nothing in `a` at `i` and the same character stands at both, one
/// that is no small letter.
proof fn lemma_same_start(a: Seq<char>, i: int, b: Seq<char>, j: int)
    requires
        0 <= i < a.len(),
        0 <= j < b.len(),
        a[i] == b[j],
        !('a' <= a[i] <= 'z'),
        a[i] != '"',
        a[i] != '\r',
        first_match(a, i, delimiters(), false) is None,
        newline_end(a, i) is None,
    ensures
        first_match(b, j, keywords(), true) is None,
        string_end(b, j) is None,
        first_match(b, j, delimiters(), false) is None,
        newline_end(b, j) is None,
{
    lemma_no_keyword(b, j);
    lemma_delimiters_same(a, i, b, j);
}

/// An identifier stays one in front of what no identifier holds.
proof fn lemma_same_identifier(a: Seq<char>, i: int, b: Seq<char>, j: int, n: int)
    requires
        same_piece(a, i, b, j, n),
        0 <= i < a.len(),
        first_match(a, i, keywords(), true) is None,
        first_match(a, i, delimiters(), false) is None,
        identifier_end(a, i) == Some(i + n),
        plain_at(a, i + n),
        ends_at(b, j + n, Token::Identifier),
    ensures
        first_match(b, j, keywords(), true) is None,
        string_end(b, j) is None,
        first_match(b, j, delimiters(), false) is None,
        newline_end(b, j) is None,
        identifier_end(b, j) == Some(j + n),
{
    lemma_run_end(a, i + 1, CharClass::Name);
    lemma_same_char(a, i, b, j, n, 0);
    lemma_keywords_same(a, i, b, j, n);
    lemma_delimiters_same(a, i, b, j);
    lemma_run_same(a, i, b, j, n, 1, CharClass::Name);
}

/// A run of decimal digits and `_` ends no later than the run of hexadecimal
/// digits and `_` from the same place.
proof fn lemma_width_in_digits(s: Seq<char>, from: int)
    requires
        0 <= from <= s.len(),
    ensures
        run_end(s, from, CharClass::Width) <= run_end(s, from, CharClass::Digit),
    decreases s.len() - from,
{
    if from < s.len() && CharClass::Width.holds(s[from]) {
        lemma_width_in_digits(s, from + 1);
    } else {
        lemma_run_end(s, from, CharClass::Digit);
    }
}

/// A number stays the number it is in front of what no number holds.
proof fn lemma_same_number(a: Seq<char>, i: int, b: Seq<char>, j: int, n: int)
    requires
        same_piece(a, i, b, j, n),
        0 <= i < a.len(),
        n >= 1,
        number_end(a, i) == Some(i + n),
        ends_at(b, j + n, Token::Number),
    ensures
        number_end(b, j) == Some(j + n),
{
    lemma_same_char(a, i, b, j, n, 0);
    let plain = run_end(a, i, CharClass::Digit);
    lemma_run_end(a, i, CharClass::Digit);
    lemma_run_end(a, i + 1, CharClass::Width);
    lemma_run_end(b, j + 1, CharClass::Width);
    lemma_run_same(a, i, b, j, n, 0, CharClass::Digit);
    lemma_run_same(a, i, b, j, n, 1, CharClass::Width);
    let width = if '1' <= a[i] && a[i] <= '9' {
        run_end(a, i + 1, CharClass::Width)
    } else {
        i
    };
    let width_b = if '1' <= b[j] && b[j] <= '9' {
        run_end(b, j + 1, CharClass::Width)
    } else {
        j
    };
    let based = width + 1 < a.len() && a[width] == '\'' && is_base(a[width + 1]);
    let sized = run_end(a, width + 2, CharClass::Digit);
    if based && sized > width + 2 {
        // the width, the base and the digits all lie in the piece
        lemma_run_end(a, width + 2, CharClass::Digit);
        assert(sized == i + n);
        assert(width - i == width_b - j);
        lemma_same_char(a, i, b, j, n, width - i);
        lemma_same_char(a, i, b, j, n, width - i + 1);
        lemma_run_same(a, i, b, j, n, width - i + 2, CharClass::Digit);
    } else {
        assert(plain == i + n);
        if '1' <= a[i] && a[i] <= '9' {
            lemma_width_in_digits(a, i + 1);
            assert(run_end(a, i, CharClass::Digit) == run_end(a, i + 1, CharClass::Digit));
            if width < i + n {
                lemma_same_char(a, i, b, j, n, width - i);
                assert(CharClass::Digit.holds(a[width]));
            }
        }
    }
}

/// The name of a compiler directive stands in a run of characters other than
/// the line feed if it stands at the start of it.
proof fn lemma_name_in_line(s: Seq<char>, at: int, k: int)
    requires
        0 <= at <= s.len(),
        0 <= k < directive_names().len(),
        starts_with(s, at, directive_names()[k]),
    ensures
        at + directive_names()[k].len() <= run_end(s, at, CharClass::Line),
{
    let word = directive_names()[k];
    lemma_directive_name(k);
    lemma_starts_with(s, at, word);
    lemma_run_end(s, at, CharClass::Line);
    let end = run_end(s, at, CharClass::Line);
    if end < at + word.len() {
        assert(is_small(word[end - at]));
        assert(s[at + (end - at)] == word[end - at]);
    }
}

/// A compiler directive stays one in front of a line feed.
proof fn lemma_same_compiler_directive(a: Seq<char>, i: int, b: Seq<char>, j: int, n: int)
    requires
        same_piece(a, i, b, j, n),
        0 <= i < a.len(),
        n >= 1,
        compiler_directive_end(a, i) == Some(i + n),
        ends_at(b, j + n, Token::CompilerDirective),
    ensures
        compiler_directive_end(b, j) == Some(j + n),
{
    lemma_same_char(a, i, b, j, n, 0);
    lemma_run_same(a, i, b, j, n, 1, CharClass::Line);
    let k = choose|k: int|
        0 <= k < directive_names().len() && starts_with(a, i + 1, #[trigger] directive_names()[k]);
    let word = directive_names()[k];
    lemma_name_in_line(a, i + 1, k);
    lemma_same_part(a, i, b, j, n, 1, n - 1);
    lemma_word_inside(a, i + 1, b, j + 1, n - 1, word);
    assert(starts_with(b, j + 1, directive_names()[k]));
}

/// A macro stays the macro it is in front of what no identifier holds.
proof fn lemma_same_directive(a: Seq<char>, i: int, b: Seq<char>, j: int, n: int)
    requires
        same_piece(a, i, b, j, n),
        0 <= i < a.len(),
        n >= 1,
        compiler_directive_end(a, i) is None,
        directive_end(a, i) == Some(i + n),
        ends_at(b, j + n, Token::Directive),
    ensures
        compiler_directive_end(b, j) is None,
        directive_end(b, j) == Some(j + n),
{
    lemma_same_char(a, i, b, j, n, 0);
    lemma_run_end(a, i + 1, CharClass::Name);
    lemma_run_same(a, i, b, j, n, 1, CharClass::Name);
    lemma_same_part(a, i, b, j, n, 1, n - 1);
    let names = directive_names();
    assert forall|k: int| 0 <= k < names.len() implies !starts_with(
        b,
        j + 1,
        #[trigger] names[k],
    ) by {
        let word = names[k];
        lemma_directive_name(k);
        if word.len() <= n - 1 {
            lemma_word_inside(a, i + 1, b, j + 1, n - 1, word);
            assert(!starts_with(a, i + 1, names[k]));
        } else {
            lemma_starts_with(b, j + 1, word);
            assert(is_small(word[n - 1]));
        }
    }
}

/// `first_match` gives the kind that stands if none before it does.
pub proof fn lemma_first_is(s: Seq<char>, at: int, kinds: Seq<Token>, whole: bool, k: int)
    requires
        0 <= k < kinds.len(),
        stands(s, at, kinds[k].text(), whole),
        forall|e: int| 0 <= e < k ==> !stands(s, at, (#[trigger] kinds[e]).text(), whole),
    ensures
        first_match(s, at, kinds, whole) == Some(kinds[k]),
    decreases kinds.len(),
{
    if k > 0 {
        assert(!stands(s, at, kinds[0].text(), whole));
        let rest = kinds.drop_first();
        assert forall|e: int| 0 <= e < k - 1 implies !stands(
            s,
            at,
            (#[trigger] rest[e]).text(),
            whole,
        ) by {
            assert(rest[e] == kinds[e + 1]);
        }
        assert(rest[k - 1] == kinds[k]);
        lemma_first_is(s, at, rest, whole, k - 1);
    }
}

/// Where the characters of an operator of two characters stand, that
/// operator is the one that is found.
pub proof fn lemma_pair(s: Seq<char>, at: int)
    requires
        pair_at(s, at),
    ensures
        first_match(s, at, operators(), false) matches Some(kind) && kind.text().len() == 2,
{
    let kinds = operators();
    let k: int = if s[at] == '=' {
        0
    } else if s[at] == '<' {
        10
    } else if s[at] == '>' {
        12
    } else {
        14
    };
    lemma_operator_text(kinds[k]);
    lemma_starts_with(s, at, kinds[k].text());
    assert forall|e: int| 0 <= e < k implies !stands(
        s,
        at,
        (#[trigger] kinds[e]).text(),
        false,
    ) by {
        lemma_operator_text(kinds[e]);
        lemma_starts_with(s, at, kinds[e].text());
    }
    lemma_first_is(s, at, kinds, false, k);
}

/// Whether the text ends at `at` or holds there a character up to U+007F.
pub open spec fn plain_at(s: Seq<char>, at: int) -> bool {
    at >= s.len() || s[at] <= '\u{7f}'
}

/// A token starts with a character up to U+007F.
pub proof fn lemma_token_start(s: Seq<char>, at: int)
    ensures
        token_at(s, at) is Some ==> 0 <= at < s.len() && s[at] <= '\u{7f}',
{
    reveal(token_at);
    if 0 <= at < s.len() {
        lemma_first_match(s, at, keywords(), true);
        lemma_first_match(s, at, delimiters(), false);
        lemma_first_match(s, at, operators(), false);
        if let Some(found) = first_match(s, at, keywords(), true) {
            lemma_keyword_text(found);
            lemma_starts_with(s, at, found.text());
        } else if string_end(s, at) is Some {
        } else if let Some(found) = first_match(s, at, delimiters(), false) {
            lemma_delimiter_text(found);
            lemma_starts_with(s, at, found.text());
        } else if newline_end(s, at) is Some {
        } else if identifier_end(s, at) is Some {
        } else if number_end(s, at) is Some {
            lemma_run_end(s, at, CharClass::Digit);
        } else if comment_end(s, at) is Some {
        } else if let Some(found) = first_match(s, at, operators(), false) {
            lemma_operator_text(found);
            lemma_starts_with(s, at, found.text());
        }
    }
}

/// Where a token stands in one text, the same token stands in every text
/// that holds the token's text and ends it: one that ends there, or that goes
/// on with a character in front of which a token of that kind ends. In the
/// first text the token stands at the end or in front of a character up to
/// U+007F, as every token does that another token or a blank follows.
pub proof fn lemma_same_token(a: Seq<char>, i: int, b: Seq<char>, j: int, n: int)
    requires
        same_piece(a, i, b, j, n),
        plain_at(a, i + n),
        token_at(a, i) matches Some((kind, end)) && end == i + n && ends_at(b, j + n, kind),
    ensures
        token_at(b, j) matches Some((kind, end)) && end == j + n && token_at(a, i)->Some_0.0
            == kind,
{
    reveal(token_at);
    lemma_token_bounds(a, i);
    lemma_same_char(a, i, b, j, n, 0);
    lemma_first_match(a, i, keywords(), true);
    lemma_first_match(a, i, delimiters(), false);
    lemma_first_match(a, i, operators(), false);
    if let Some(kind) = first_match(a, i, keywords(), true) {
        lemma_same_keyword(a, i, b, j, n);
    } else if let Some(end) = string_end(a, i) {
        lemma_same_string(a, i, b, j, n);
    } else if let Some(kind) = first_match(a, i, delimiters(), false) {
        lemma_delimiter_text(kind);
        lemma_starts_with(a, i, kind.text());
        lemma_no_keyword(b, j);
        lemma_delimiters_same(a, i, b, j);
    } else if let Some(end) = newline_end(a, i) {
        lemma_no_keyword(b, j);
        lemma_delimiters_same(a, i, b, j);
        if n == 2 {
            lemma_same_char(a, i, b, j, n, 1);
        }
    } else if let Some(end) = identifier_end(a, i) {
        lemma_same_identifier(a, i, b, j, n);
    } else if let Some(end) = number_end(a, i) {
        lemma_run_end(a, i, CharClass::Digit);
        lemma_same_start(a, i, b, j);
        lemma_same_number(a, i, b, j, n);
    } else if let Some(end) = comment_end(a, i) {
        lemma_same_start(a, i, b, j);
        lemma_run_end(b, j, CharClass::Digit);
        lemma_run_end(a, i + 2, CharClass::Line);
        lemma_same_char(a, i, b, j, n, 1);
        lemma_run_same(a, i, b, j, n, 2, CharClass::Line);
    } else if let Some(kind) = first_match(a, i, operators(), false) {
        lemma_operator_text(kind);
        lemma_starts_with(a, i, kind.text());
        lemma_same_start(a, i, b, j);
        lemma_run_end(b, j, CharClass::Digit);
        if pair_at(a, i) {
            lemma_pair(a, i);
        }
        if pair_at(b, j) && n >= 2 {
            lemma_same_char(a, i, b, j, n, 1);
        }
        lemma_operators_same(a, i, b, j, n);
    } else if let Some(end) = compiler_directive_end(a, i) {
        lemma_same_start(a, i, b, j);
        lemma_run_end(b, j, CharClass::Digit);
        lemma_no_operator(b, j);
        lemma_same_compiler_directive(a, i, b, j, n);
    } else if let Some(end) = directive_end(a, i) {
        lemma_same_start(a, i, b, j);
        lemma_run_end(b, j, CharClass::Digit);
        lemma_no_operator(b, j);
        lemma_same_directive(a, i, b, j, n);
    }
}

} // verus!
