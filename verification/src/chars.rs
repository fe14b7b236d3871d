//! Character classes and runs of characters.

use crate::text::{first_ascii, is_ascii_char, skip_ascii};
use vstd::prelude::*;

verus! {

/// The character classes the scanner tells apart.
#[derive(Debug, Clone, Copy, PartialEq, Eq)]
pub enum CharClass {
    /// Space, tab and newline.
    Whitespace,
    /// `0` to `9`.
    Digit,
    /// The ASCII letters and the underscore.
    Letter,
    /// Letters and digits: what an identifier is made of after its start.
    Word,
}

impl CharClass {
    /// Whether the character belongs to the class.
    pub open spec fn has(self, c: char) -> bool {
        match self {
            CharClass::Whitespace => c == ' ' || c == '\t' || c == '\n',
            CharClass::Digit => '0' <= c <= '9',
            CharClass::Letter => 'a' <= c <= 'z' || 'A' <= c <= 'Z' || c == '_',
            CharClass::Word => 'a' <= c <= 'z' || 'A' <= c <= 'Z' || c == '_' || '0' <= c <= '9',
        }
    }
}

/// Length of the longest prefix of `s` made of characters of `class`.
pub open spec fn run(s: Seq<char>, class: CharClass) -> nat
    decreases s.len(),
{
    if s.len() > 0 && class.has(s[0]) {
        1 + run(s.drop_first(), class)
    } else {
        0
    }
}

/// The run at the start of a text stays inside the text, holds only
/// characters of the class, and is followed by none.
pub proof fn lemma_run_bounds(s: Seq<char>, class: CharClass)
    ensures
        run(s, class) <= s.len(),
        forall|i: int| 0 <= i < run(s, class) ==> class.has(#[trigger] s[i]),
        run(s, class) < s.len() ==> !class.has(s[run(s, class) as int]),
    decreases s.len(),
{
    if s.len() > 0 && class.has(s[0]) {
        let tail = s.drop_first();
        lemma_run_bounds(tail, class);
        assert forall|i: int| 0 <= i < run(s, class) implies class.has(#[trigger] s[i]) by {
            if i > 0 {
                assert(s[i] == tail[i - 1]);
            }
        }
        if run(s, class) < s.len() {
            assert(s[run(s, class) as int] == tail[run(tail, class) as int]);
        }
    }
}

/// A prefix of characters of the class that no such character follows is the
/// run.
pub proof fn lemma_run_unique(s: Seq<char>, class: CharClass, n: int)
    requires
        0 <= n <= s.len(),
        forall|i: int| 0 <= i < n ==> class.has(#[trigger] s[i]),
        n < s.len() ==> !class.has(s[n]),
    ensures
        run(s, class) == n,
    decreases n,
{
    if n > 0 {
        let tail = s.drop_first();
        assert(class.has(s[0]));
        assert forall|i: int| 0 <= i < n - 1 implies class.has(#[trigger] tail[i]) by {
            assert(tail[i] == s[i + 1]);
        }
        if n - 1 < tail.len() {
            assert(tail[n - 1] == s[n]);
        }
        lemma_run_unique(tail, class, n - 1);
    }
}

/// Whether the character is whitespace.
pub fn whitespace_char(c: char) -> (b: bool)
    ensures
        b == CharClass::Whitespace.has(c),
{
    c == ' ' || c == '\t' || c == '\n'
}

/// Whether the character is a digit.
pub fn digit_char(c: char) -> (b: bool)
    ensures
        b == CharClass::Digit.has(c),
{
    '0' <= c && c <= '9'
}

/// Whether the character is a letter or the underscore.
pub fn letter_char(c: char) -> (b: bool)
    ensures
        b == CharClass::Letter.has(c),
{
    ('a' <= c && c <= 'z') || ('A' <= c && c <= 'Z') || c == '_'
}

/// Space, tab, newline.
pub open spec fn blanks() -> Seq<char> {
    seq![' ', '\t', '\n']
}

/// The digits from `0` to `9`.
pub open spec fn digits() -> Seq<char> {
    Seq::new(10, |i: int| ('0' as int + i) as char)
}

/// The capital letters from `A` to `Z`, the small letters from `a` to `z`,
/// then the underscore.
pub open spec fn letters() -> Seq<char> {
    Seq::new(
        53,
        |i: int|
            if i < 26 {
                ('A' as int + i) as char
            } else if i < 52 {
                ('a' as int + i - 26) as char
            } else {
                '_'
            },
    )
}

/// The three alphabets, written out.
pub proof fn lemma_alphabets()
    ensures
        blanks() == " \t\n"@,
        digits() == "0123456789"@,
        letters() == "ABCDEFGHIJKLMNOPQRSTUVWXYZabcdefghijklmnopqrstuvwxyz_"@,
{
    reveal_strlit(" \t\n");
    reveal_strlit("0123456789");
    reveal_strlit("ABCDEFGHIJKLMNOPQRSTUVWXYZabcdefghijklmnopqrstuvwxyz_");
    assert(blanks() =~= " \t\n"@);
    assert(digits() =~= "0123456789"@);
    assert(letters() =~= "ABCDEFGHIJKLMNOPQRSTUVWXYZabcdefghijklmnopqrstuvwxyz_"@);
}

impl CharClass {
    /// The characters of the class, each once, in their customary order;
    /// for a word, the letters before the digits.
    pub open spec fn alphabet(self) -> Seq<char> {
        match self {
            CharClass::Whitespace => blanks(),
            CharClass::Digit => digits(),
            CharClass::Letter => letters(),
            CharClass::Word => letters() + digits(),
        }
    }
}

/// Whether `needle` stands in `hay` as one piece.
pub open spec fn occurs_in(needle: Seq<char>, hay: Seq<char>) -> bool {
    exists|i: int|
        0 <= i && i + needle.len() <= hay.len() && #[trigger] hay.subrange(i, i + needle.len())
            == needle
}

/// The place of a character in the alphabet of a class.
fn rank(class: CharClass, c: char) -> (r: Option<u8>)
    ensures
        match r {
            Some(i) => i < class.alphabet().len() && class.alphabet()[i as int] == c,
            None => true,
        },
        forall|k: int|
            0 <= k < class.alphabet().len() && #[trigger] class.alphabet()[k] == c ==> r == Some(
                k as u8,
            ),
        r is Some == class.has(c),
{
    match class {
        CharClass::Whitespace => {
            if c == ' ' {
                Some(0)
            } else if c == '\t' {
                Some(1)
            } else if c == '\n' {
                Some(2)
            } else {
                None
            }
        },
        CharClass::Digit => {
            if digit_char(c) {
                Some((c as u32 - '0' as u32) as u8)
            } else {
                None
            }
        },
        CharClass::Letter => {
            if 'A' <= c && c <= 'Z' {
                Some((c as u32 - 'A' as u32) as u8)
            } else if 'a' <= c && c <= 'z' {
                Some((c as u32 - 'a' as u32 + 26) as u8)
            } else if c == '_' {
                Some(52)
            } else {
                None
            }
        },
        CharClass::Word => {
            if 'A' <= c && c <= 'Z' {
                Some((c as u32 - 'A' as u32) as u8)
            } else if 'a' <= c && c <= 'z' {
                Some((c as u32 - 'a' as u32 + 26) as u8)
            } else if c == '_' {
                Some(52)
            } else if digit_char(c) {
                Some((c as u32 - '0' as u32 + 53) as u8)
            } else {
                None
            }
        },
    }
}

/// Whether the text stands as one piece in the alphabet of the class: the
/// empty text does, a single character does where it belongs to the class,
/// and a longer text does where its characters follow one another in the
/// alphabet.
pub fn spans(class: CharClass, text: &str) -> (b: bool)
    ensures
        b == occurs_in(text@, class.alphabet()),
        text@.len() == 1 ==> b == class.has(text@[0]),
{
    let ghost alphabet = class.alphabet();
    let mut rest = text;
    let mut expected: Option<u8> = None;
    let ghost mut n: int = 0;
    let ghost mut first: int = 0;
    loop
        invariant
            alphabet == class.alphabet(),
            0 <= n <= text@.len(),
            rest@ == text@.skip(n),
            0 <= first,
            first + n <= alphabet.len(),
            n == 0 <==> expected is None,
            expected matches Some(e) ==> e == first + n,
            forall|j: int| 0 <= j < n ==> #[trigger] text@[j] == alphabet[first + j],
            n > 0 ==> class.has(text@[0]),
        decreases text@.len() - n,
    {
        match first_ascii(rest) {
            None => {
                if rest.is_empty() {
                    proof {
                        assert(alphabet.subrange(first, first + text@.len()) =~= text@);
                    }
                    return true;
                } else {
                    proof {
                        assert(rest@[0] == text@[n]);
                        if occurs_in(text@, alphabet) {
                            let i = choose|i: int|
                                0 <= i && i + text@.len() <= alphabet.len()
                                    && #[trigger] alphabet.subrange(i, i + text@.len()) == text@;
                            assert(alphabet.subrange(i, i + text@.len())[n] == text@[n]);
                            assert(is_ascii_char(alphabet[i + n]));
                        }
                    }
                    return false;
                }
            },
            Some(c) => {
                proof {
                    assert(rest@[0] == text@[n]);
                }
                let r = rank(class, c);
                let fits = match (r, expected) {
                    (Some(i), Some(e)) => i == e,
                    (Some(_), None) => true,
                    (None, _) => false,
                };
                if !fits {
                    proof {
                        if occurs_in(text@, alphabet) {
                            let i = choose|i: int|
                                0 <= i && i + text@.len() <= alphabet.len()
                                    && #[trigger] alphabet.subrange(i, i + text@.len()) == text@;
                            assert(alphabet.subrange(i, i + text@.len())[n] == text@[n]);
                            assert(alphabet[i + n] == c);
                            if n > 0 {
                                assert(alphabet.subrange(i, i + text@.len())[0] == text@[0]);
                                assert(alphabet[i] == text@[0]);
                                lemma_alphabet_distinct(class, i, first);
                            }
                        }
                    }
                    return false;
                }
                proof {
                    if n == 0 {
                        first = r.unwrap() as int;
                    }
                    assert(text@.skip(n).skip(1) =~= text@.skip(n + 1));
                    n = n + 1;
                }
                expected = Some(r.unwrap() + 1);
                rest = skip_ascii(rest, 1);
            },
        }
    }
}

/// No character stands twice in the alphabet of a class.
pub proof fn lemma_alphabet_distinct(class: CharClass, i: int, j: int)
    requires
        0 <= i < class.alphabet().len(),
        0 <= j < class.alphabet().len(),
        class.alphabet()[i] == class.alphabet()[j],
    ensures
        i == j,
{
}

} // verus!
