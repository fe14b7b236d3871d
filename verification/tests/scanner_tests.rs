use huck::chars::CharClass;
use huck::scanner::Scanner;
use huck::scanner::Token;
use huck::scanner::Token::{
    Else, False, If, LBrace, LParen, Let, Minus, Number, Plus, RBrace, RParen, Semicolon,
    SingleEq, Slash, Star, True, Var,
};

#[test]
fn whitespace() {
    let tokens = Scanner::new(" \t      \n\n  \n").collect();
    assert_eq!(tokens, vec![]);
}

#[test]
fn numbers() {
    let tokens = Scanner::new("1124\n").collect();
    assert_eq!(tokens, vec![Number("1124")]);
}

#[test]
fn operators() {
    let tokens = Scanner::new("= ; * - + / ( ) { } \n").collect();
    assert_eq!(
        tokens,
        vec![SingleEq, Semicolon, Star, Minus, Plus, Slash, LParen, RParen, LBrace, RBrace]
    );
}

#[test]
fn identifiers() {
    let tokens = Scanner::new("true ident let false ").collect();
    assert_eq!(tokens, vec![True, Var("ident"), Let, False]);
}

#[test]
fn empty_text_has_no_tokens() {
    assert_eq!(Scanner::new("").collect(), vec![]);
    let mut scanner = Scanner::new("");
    assert_eq!(scanner.next(), None);
    assert_eq!(scanner.next(), None);
    assert_eq!(scanner.unscanned(), "");
}

#[test]
fn conditional_keywords() {
    let tokens = Scanner::new("if x { 1 } else { 2 }").collect();
    assert_eq!(
        tokens,
        vec![If, Var("x"), LBrace, Number("1"), RBrace, Else, LBrace, Number("2"), RBrace]
    );
}

#[test]
fn keywords_are_whole_words() {
    let tokens = Scanner::new("lets iff elsewhere truest false_ _let If").collect();
    assert_eq!(
        tokens,
        vec![
            Var("lets"),
            Var("iff"),
            Var("elsewhere"),
            Var("truest"),
            Var("false_"),
            Var("_let"),
            Var("If")
        ]
    );
}

#[test]
fn tokens_need_no_whitespace_between_them() {
    let tokens = Scanner::new("{let x=42;x+1}").collect();
    assert_eq!(
        tokens,
        vec![
            LBrace,
            Let,
            Var("x"),
            SingleEq,
            Number("42"),
            Semicolon,
            Var("x"),
            Plus,
            Number("1"),
            RBrace
        ]
    );
}

#[test]
fn a_number_ends_at_the_first_letter() {
    let tokens = Scanner::new("12ab 3_4").collect();
    assert_eq!(tokens, vec![Number("12"), Var("ab"), Number("3"), Var("_4")]);
}

#[test]
fn identifiers_hold_digits_and_underscores() {
    let tokens = Scanner::new("var_name x1 _ A9z").collect();
    assert_eq!(tokens, vec![Var("var_name"), Var("x1"), Var("_"), Var("A9z")]);
}

#[test]
fn leading_zeros_stay_in_the_text() {
    assert_eq!(Scanner::new("007").collect(), vec![Number("007")]);
}

#[test]
fn an_unknown_character_ends_the_tokens() {
    let mut scanner = Scanner::new("1 + @ 2");
    assert_eq!(scanner.next(), Some(Number("1")));
    assert_eq!(scanner.next(), Some(Plus));
    assert_eq!(scanner.next(), None);
    assert_eq!(scanner.unscanned(), "@ 2");
    assert_eq!(scanner.next(), None);
    assert_eq!(scanner.unscanned(), "@ 2");
    assert_eq!(Scanner::new("1 + @ 2").collect(), vec![Number("1"), Plus]);
}

#[test]
fn a_character_outside_ascii_ends_the_tokens() {
    let mut scanner = Scanner::new("x \u{e9}t\u{e9} y");
    assert_eq!(scanner.next(), Some(Var("x")));
    assert_eq!(scanner.next(), None);
    assert_eq!(scanner.unscanned(), "\u{e9}t\u{e9} y");
    assert_eq!(Scanner::new("ab\u{4e2d}").collect(), vec![Var("ab")]);
    assert_eq!(Scanner::new("12\u{1F600}").collect(), vec![Number("12")]);
}

#[test]
fn other_whitespace_starts_no_token() {
    let mut scanner = Scanner::new("1\r\n2");
    assert_eq!(scanner.next(), Some(Number("1")));
    assert_eq!(scanner.next(), None);
    assert_eq!(scanner.unscanned(), "\r\n2");
}

#[test]
fn exhausted_input_leaves_nothing_unscanned() {
    let mut scanner = Scanner::new("  42  \n");
    assert_eq!(scanner.unscanned(), "  42  \n");
    assert_eq!(scanner.next(), Some(Number("42")));
    assert_eq!(scanner.unscanned(), "  \n");
    assert_eq!(scanner.next(), None);
    assert_eq!(scanner.unscanned(), "");
}

#[test]
fn tokens_carry_slices_of_the_source() {
    let source = String::from("abc 123");
    let tokens = Scanner::new(&source).collect();
    match tokens[0] {
        Var(text) => assert_eq!(text.as_ptr(), source.as_ptr()),
        _ => panic!("expected an identifier"),
    }
    match tokens[1] {
        Number(text) => assert_eq!(text.as_ptr(), source[4..].as_ptr()),
        _ => panic!("expected a number"),
    }
}

#[test]
fn digits_are_told_from_other_characters() {
    for c in "0123456789".chars() {
        assert!(Scanner::is_digit(&c.to_string()));
    }
    assert!(!Scanner::is_digit("a"));
    assert!(!Scanner::is_digit("_"));
    assert!(!Scanner::is_digit(" "));
    assert!(!Scanner::is_digit("/"));
    assert!(!Scanner::is_digit(":"));
    assert!(!Scanner::is_digit("\u{e9}"));
    assert!(!Scanner::is_digit("\u{661}"));
}

#[test]
fn letters_are_told_from_other_characters() {
    for c in "ABCDEFGHIJKLMNOPQRSTUVWXYZabcdefghijklmnopqrstuvwxyz_".chars() {
        assert!(Scanner::is_alpha(&c.to_string()));
    }
    assert!(!Scanner::is_alpha("0"));
    assert!(!Scanner::is_alpha("@"));
    assert!(!Scanner::is_alpha("["));
    assert!(!Scanner::is_alpha("`"));
    assert!(!Scanner::is_alpha("{"));
    assert!(!Scanner::is_alpha("-"));
    assert!(!Scanner::is_alpha("\u{e9}"));
}

#[test]
fn whitespace_is_told_from_other_characters() {
    assert!(Scanner::is_whitespace(" "));
    assert!(Scanner::is_whitespace("\t"));
    assert!(Scanner::is_whitespace("\n"));
    assert!(!Scanner::is_whitespace("\r"));
    assert!(!Scanner::is_whitespace("a"));
    assert!(!Scanner::is_whitespace("\u{a0}"));
}

#[test]
fn a_longer_text_is_in_a_class_as_one_piece_of_its_alphabet() {
    assert!(Scanner::is_digit(""));
    assert!(Scanner::is_digit("12"));
    assert!(Scanner::is_digit("0123456789"));
    assert!(Scanner::is_digit("6789"));
    assert!(!Scanner::is_digit("13"));
    assert!(!Scanner::is_digit("21"));
    assert!(!Scanner::is_digit("11"));
    assert!(!Scanner::is_digit("90"));
    assert!(!Scanner::is_digit("01234567890"));
    assert!(Scanner::is_alpha(""));
    assert!(Scanner::is_alpha("YZab"));
    assert!(Scanner::is_alpha("yz_"));
    assert!(Scanner::is_alpha("ABCDEFGHIJKLMNOPQRSTUVWXYZabcdefghijklmnopqrstuvwxyz_"));
    assert!(!Scanner::is_alpha("ba"));
    assert!(!Scanner::is_alpha("Za_"));
    assert!(!Scanner::is_alpha("_a"));
    assert!(!Scanner::is_alpha("ab1"));
    assert!(Scanner::is_whitespace(""));
    assert!(Scanner::is_whitespace(" \t\n"));
    assert!(Scanner::is_whitespace("\t\n"));
    assert!(!Scanner::is_whitespace("  "));
    assert!(!Scanner::is_whitespace("\n\t"));
    assert!(!Scanner::is_whitespace(" \n"));
}

#[test]
fn classes_agree_with_the_standard_library() {
    for code in 0u32..0x250 {
        if let Some(c) = char::from_u32(code) {
            let text = c.to_string();
            assert_eq!(Scanner::is_digit(&text), "0123456789".contains(&text));
            assert_eq!(
                Scanner::is_alpha(&text),
                "ABCDEFGHIJKLMNOPQRSTUVWXYZabcdefghijklmnopqrstuvwxyz_".contains(&text)
            );
            assert_eq!(Scanner::is_whitespace(&text), " \t\n".contains(&text));
            assert_eq!(huck::chars::spans(CharClass::Word, &text), c.is_ascii_alphanumeric() || c == '_');
        }
    }
    for text in ["", "45", "54", "xyz", "zy", "Zab", "z_", " \t", "\t ", "9a", "a9"] {
        assert_eq!(Scanner::is_digit(text), "0123456789".contains(text));
        assert_eq!(
            Scanner::is_alpha(text),
            "ABCDEFGHIJKLMNOPQRSTUVWXYZabcdefghijklmnopqrstuvwxyz_".contains(text)
        );
        assert_eq!(Scanner::is_whitespace(text), " \t\n".contains(text));
    }
}

#[test]
fn token_descriptions() {
    assert_eq!(Plus.description(), "Plus");
    assert_eq!(Minus.description(), "Minus");
    assert_eq!(Star.description(), "Star");
    assert_eq!(Slash.description(), "Slash");
    assert_eq!(Number("12").description(), "Number(\"12\")");
    assert_eq!(True.description(), "True");
    assert_eq!(False.description(), "False");
    assert_eq!(RParen.description(), "RParen");
    assert_eq!(LParen.description(), "LParen");
    assert_eq!(RBrace.description(), "RBrace");
    assert_eq!(LBrace.description(), "LBrace");
    assert_eq!(Let.description(), "Let");
    assert_eq!(SingleEq.description(), "SingleEq");
    assert_eq!(Semicolon.description(), "Semicolon");
    assert_eq!(Var("x_1").description(), "Var(\"x_1\")");
    assert_eq!(If.description(), "If");
    assert_eq!(Else.description(), "Else");
    for token in [Plus, Number("7"), Var("v"), If, Else, LBrace] {
        assert_eq!(token.description(), format!("{:?}", token));
    }
}

#[test]
fn tokens_are_the_same_by_kind_and_text() {
    let all: Vec<Token> = vec![
        Plus, Minus, Star, Slash, Number("1"), Number("2"), True, False, RParen, LParen, RBrace,
        LBrace, Let, SingleEq, Semicolon, Var("1"), Var("a"), If, Else,
    ];
    for a in all.iter() {
        for b in all.iter() {
            assert_eq!(a.same(b), a == b);
        }
    }
    let text = String::from("abc");
    assert!(Var(&text).same(&Var("abc")));
    assert!(!Var(&text).same(&Number("abc")));
}
