//! How tokens are spelled in source text, and what the text of a token
//! looks like.

use crate::chars::{lemma_run_bounds, lemma_run_unique, run, CharClass};
use crate::number::all_digits;
use crate::scanner::{
    first_token, lemma_first_token_consumes, punctuation, skip_whitespace, tokens, word, Lexeme,
};
use vstd::prelude::*;

verus! {

/// What the text of a token that the scanner hands out looks like: a number
/// is one digit or more; an identifier starts with a letter or an
/// underscore, goes on with letters, underscores and digits, and is no
/// keyword.
pub open spec fn well_formed(lexeme: Lexeme) -> bool {
    match lexeme {
        Lexeme::Number(text) => text.len() > 0 && all_digits(text),
        Lexeme::Var(text) => {
            &&& text.len() > 0
            &&& CharClass::Letter.has(text[0])
            &&& forall|i: int| 0 <= i < text.len() ==> CharClass::Word.has(#[trigger] text[i])
            &&& word(text) == lexeme
        },
        _ => true,
    }
}

/// The first token of a text is well formed.
pub proof fn lemma_first_token_is_well_formed(s: Seq<char>)
    ensures
        first_token(s) matches Some((lexeme, _)) ==> well_formed(lexeme),
{
    let t = skip_whitespace(s);
    if t.len() > 0 {
        lemma_run_bounds(t, CharClass::Digit);
        lemma_run_bounds(t, CharClass::Word);
        if CharClass::Digit.has(t[0]) {
            let n = run(t, CharClass::Digit) as int;
            assert(n > 0);
            assert forall|i: int| 0 <= i < n implies CharClass::Digit.has(
                #[trigger] t.take(n)[i],
            ) by {
                assert(t.take(n)[i] == t[i]);
            }
        } else if CharClass::Letter.has(t[0]) {
            let n = run(t, CharClass::Word) as int;
            assert(n > 0);
            assert forall|i: int| 0 <= i < n implies CharClass::Word.has(
                #[trigger] t.take(n)[i],
            ) by {
                assert(t.take(n)[i] == t[i]);
            }
            assert(t.take(n)[0] == t[0]);
        }
    }
}

/// Every token of a text is well formed.
pub proof fn theorem_tokens_are_well_formed(s: Seq<char>, i: int)
    requires
        0 <= i < tokens(s).len(),
    ensures
        well_formed(tokens(s)[i]),
    decreases s.len(),
{
    lemma_first_token_is_well_formed(s);
    lemma_first_token_consumes(s);
    if let Some((lexeme, rest)) = first_token(s) {
        if i > 0 {
            theorem_tokens_are_well_formed(rest, i - 1);
        }
    }
}

/// Whitespace before a text does not change its tokens.
pub proof fn theorem_leading_whitespace(blank: Seq<char>, s: Seq<char>)
    requires
        forall|i: int| 0 <= i < blank.len() ==> CharClass::Whitespace.has(#[trigger] blank[i]),
    ensures
        tokens(blank + s) == tokens(s),
{
    let whole = blank + s;
    let r = run(s, CharClass::Whitespace) as int;
    lemma_run_bounds(s, CharClass::Whitespace);
    assert forall|i: int| 0 <= i < blank.len() + r implies CharClass::Whitespace.has(
        #[trigger] whole[i],
    ) by {
        if i >= blank.len() {
            assert(whole[i] == s[i - blank.len()]);
        }
    }
    if blank.len() + r < whole.len() {
        assert(whole[blank.len() + r] == s[r]);
    }
    lemma_run_unique(whole, CharClass::Whitespace, blank.len() + r);
    assert(skip_whitespace(whole) =~= skip_whitespace(s));
    assert(first_token(whole) == first_token(s));
}

/// How a token is spelled in source text.
pub open spec fn spelling(lexeme: Lexeme) -> Seq<char> {
    match lexeme {
        Lexeme::Plus => seq!['+'],
        Lexeme::Minus => seq!['-'],
        Lexeme::Star => seq!['*'],
        Lexeme::Slash => seq!['/'],
        Lexeme::Number(text) => text,
        Lexeme::True => "true"@,
        Lexeme::False => "false"@,
        Lexeme::RParen => seq![')'],
        Lexeme::LParen => seq!['('],
        Lexeme::RBrace => seq!['}'],
        Lexeme::LBrace => seq!['{'],
        Lexeme::Let => "let"@,
        Lexeme::SingleEq => seq!['='],
        Lexeme::Semicolon => seq![';'],
        Lexeme::Var(text) => text,
        Lexeme::If => "if"@,
        Lexeme::Else => "else"@,
    }
}

/// The tokens spelled one after the other, a space behind each.
pub open spec fn spelled(lexemes: Seq<Lexeme>) -> Seq<char>
    decreases lexemes.len(),
{
    if lexemes.len() == 0 {
        Seq::empty()
    } else {
        spelling(lexemes[0]) + seq![' '] + spelled(lexemes.drop_first())
    }
}

/// Whether the text is one of the five keywords.
pub open spec fn is_keyword(text: Seq<char>) -> bool {
    text == "let"@ || text == "true"@ || text == "false"@ || text == "if"@ || text == "else"@
}

/// The keywords are five different words of small letters.
pub proof fn lemma_keywords()
    ensures
        word("let"@) == Lexeme::Let,
        word("true"@) == Lexeme::True,
        word("false"@) == Lexeme::False,
        word("if"@) == Lexeme::If,
        word("else"@) == Lexeme::Else,
        forall|text: Seq<char>|
            #![trigger is_keyword(text)]
            is_keyword(text) ==> text.len() > 0 && CharClass::Letter.has(text[0]) && run(
                text + seq![' '],
                CharClass::Word,
            ) == text.len(),
{
    reveal_strlit("let");
    reveal_strlit("true");
    reveal_strlit("false");
    reveal_strlit("if");
    reveal_strlit("else");
    assert("let"@.len() == 3);
    assert("true"@.len() == 4);
    assert("false"@.len() == 5);
    assert("if"@.len() == 2);
    assert("else"@.len() == 4);
    assert("true"@[0] != "else"@[0]);
    assert forall|text: Seq<char>| #![trigger is_keyword(text)] is_keyword(text) implies text.len()
        > 0 && CharClass::Letter.has(text[0]) && run(text + seq![' '], CharClass::Word)
        == text.len() by {
        let spaced = text + seq![' '];
        assert forall|i: int| 0 <= i < text.len() implies CharClass::Word.has(
            #[trigger] spaced[i],
        ) by {
            assert(spaced[i] == text[i]);
        }
        assert(spaced[text.len() as int] == ' ');
        lemma_run_unique(spaced, CharClass::Word, text.len() as int);
    }
}

/// A well-formed token is the first token of its spelling with a space
/// behind it, whatever text follows.
pub proof fn lemma_spelling_is_scanned(lexeme: Lexeme, rest: Seq<char>)
    requires
        well_formed(lexeme),
    ensures
        first_token(spelling(lexeme) + seq![' '] + rest) == Some((lexeme, seq![' '] + rest)),
{
    let text = spelling(lexeme);
    let tail = seq![' '] + rest;
    let s = text + seq![' '] + rest;
    assert(s =~= text + tail);
    lemma_keywords();
    match lexeme {
        Lexeme::Number(_) => {
            lemma_run_unique(s, CharClass::Whitespace, 0);
            assert(skip_whitespace(s) =~= s);
            assert forall|i: int| 0 <= i < text.len() implies CharClass::Digit.has(
                #[trigger] s[i],
            ) by {
                assert(s[i] == text[i]);
            }
            assert(s[text.len() as int] == ' ');
            lemma_run_unique(s, CharClass::Digit, text.len() as int);
            assert(s.take(text.len() as int) =~= text);
            assert(s.skip(text.len() as int) =~= tail);
        },
        Lexeme::Var(_) | Lexeme::Let | Lexeme::True | Lexeme::False | Lexeme::If | Lexeme::Else => {
            if !(lexeme is Var) {
                assert(is_keyword(text));
                assert(run(text + seq![' '], CharClass::Word) == text.len());
                lemma_run_bounds(text + seq![' '], CharClass::Word);
                assert forall|i: int| 0 <= i < text.len() implies CharClass::Word.has(
                    #[trigger] text[i],
                ) by {
                    assert((text + seq![' '])[i] == text[i]);
                }
            }
            assert(s[0] == text[0]);
            lemma_run_unique(s, CharClass::Whitespace, 0);
            assert(skip_whitespace(s) =~= s);
            assert forall|i: int| 0 <= i < text.len() implies CharClass::Word.has(
                #[trigger] s[i],
            ) by {
                assert(s[i] == text[i]);
            }
            assert(s[text.len() as int] == ' ');
            lemma_run_unique(s, CharClass::Word, text.len() as int);
            assert(s.take(text.len() as int) =~= text);
            assert(s.skip(text.len() as int) =~= tail);
        },
        _ => {
            assert(s[0] == text[0]);
            assert(punctuation(s[0]) == Some(lexeme));
            lemma_run_unique(s, CharClass::Whitespace, 0);
            assert(skip_whitespace(s) =~= s);
            assert(s.skip(1) =~= tail);
        },
    }
}

/// Well-formed tokens are scanned back from their spelling: scanning is
/// the inverse of spelling.
pub proof fn theorem_spelled_tokens_are_scanned(lexemes: Seq<Lexeme>)
    requires
        forall|i: int| 0 <= i < lexemes.len() ==> well_formed(#[trigger] lexemes[i]),
    ensures
        tokens(spelled(lexemes)) == lexemes,
    decreases lexemes.len(),
{
    if lexemes.len() == 0 {
        let none = Seq::<char>::empty();
        lemma_run_unique(none, CharClass::Whitespace, 0);
        assert(first_token(none) is None);
        assert(tokens(spelled(lexemes)) =~= lexemes);
    } else {
        let rest = lexemes.drop_first();
        assert forall|i: int| 0 <= i < rest.len() implies well_formed(#[trigger] rest[i]) by {
            assert(rest[i] == lexemes[i + 1]);
        }
        theorem_spelled_tokens_are_scanned(rest);
        lemma_spelling_is_scanned(lexemes[0], spelled(rest));
        theorem_leading_whitespace(seq![' '], spelled(rest));
        assert(tokens(spelled(lexemes)) =~= seq![lexemes[0]] + tokens(seq![' '] + spelled(rest)));
        assert(seq![lexemes[0]] + rest =~= lexemes);
    }
}

} // verus!
