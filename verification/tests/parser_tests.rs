use huck::ast::HuckAst;
use huck::ast::HuckAst::{Block, BoolLit, Div, If, Let, Minus, Num, Plus, Times, VarRef};
use huck::parser::{ParseError, ParseOutput, ParseResult, Parser};
use huck::precedence::Prec;
use huck::scanner::Scanner;

fn make_scanner(s: &str) -> Scanner<'_> {
    Scanner::new(s)
}

fn parse(s: &str) -> ParseResult {
    Parser::new(Scanner::new(s)).parse()
}

fn num(n: u64) -> Box<ParseOutput> {
    Box::new(Num(n, ()))
}

fn unexpected(message: &str) -> ParseResult {
    Err(ParseError::UnexpectedToken(message.to_string()))
}

fn not_implemented(message: &str) -> ParseResult {
    Err(ParseError::NotImplemented(message.to_string()))
}

#[test]
fn empty() {
    let scanner = make_scanner("");
    let parsed = Parser::new(scanner).parse();
    assert_eq!(parsed, Err(ParseError::Eof));
}

#[test]
fn number() {
    let scanner = make_scanner("42");
    let parsed = Parser::new(scanner).parse();
    assert_eq!(parsed, Ok(Num(42, ())));
}

#[test]
fn let_decl() {
    let scanner = make_scanner("let var_name = 5");
    let parsed = Parser::new(scanner).parse();
    assert_eq!(parsed, Ok(Let("var_name".to_string(), Box::new(Num(5, ())), ())));
}

#[test]
fn block() {
    let scanner = make_scanner("{let x = 42; x + 1}");
    let parsed = Parser::new(scanner).parse();
    assert_eq!(
        parsed,
        Ok(Block(
            vec![
                Let("x".to_string(), Box::new(Num(42, ())), ()),
                Plus(Box::new(VarRef("x".to_string(), ())), Box::new(Num(1, ())), ()),
            ],
            ()
        ))
    );
}

#[test]
fn simple_block() {
    let scanner = make_scanner("{1}");
    let parsed = Parser::new(scanner).parse();
    assert_eq!(parsed, Ok(Block(vec![Num(1, ())], ())));
}

#[test]
fn empty_block() {
    let scanner = make_scanner("{}");
    let parsed = Parser::new(scanner).parse();
    assert!(parsed.is_err());
}

#[test]
fn arithmetic() {
    let scanner = make_scanner("1 - 2 * 3");
    let parsed = Parser::new(scanner).parse();

    assert_eq!(
        parsed,
        Ok(Minus(
            Box::new(Num(1, ())),
            Box::new(Times(Box::new(Num(2, ())), Box::new(Num(3, ())), ())),
            ()
        ))
    );
}

#[test]
fn grouping() {
    let scanner = make_scanner("(1 + 2) / 3");
    let parsed = Parser::new(scanner).parse();

    assert_eq!(
        parsed,
        Ok(Div(
            Box::new(Plus(Box::new(Num(1, ())), Box::new(Num(2, ())), ())),
            Box::new(Num(3, ())),
            ()
        ))
    );
}

#[test]
fn nested_grouping() {
    let scanner = make_scanner("(((420)))");
    assert_eq!(Parser::new(scanner).parse(), Ok(Num(420, ())))
}

#[test]
fn bad_grouping() {
    let scanner = make_scanner("(2580");
    assert!(Parser::new(scanner).parse().is_err())
}

#[test]
fn bool() {
    let scanner = make_scanner("false");
    assert_eq!(Parser::new(scanner).parse(), Ok(BoolLit(false, ())));
    let scanner = make_scanner("true");
    assert_eq!(Parser::new(scanner).parse(), Ok(BoolLit(true, ())));
}

#[test]
fn conditional() {
    let scanner = make_scanner("if true { 1 } else { 3 + 2 }");
    assert_eq!(
        Parser::new(scanner).parse(),
        Ok(If(
            Box::new(BoolLit(true, ())),
            Box::new(Block(vec![Num(1, ())], ())),
            Box::new(Block(
                vec![Plus(Box::new(Num(3, ())), Box::new(Num(2, ())), ())],
                ()
            )),
            ()
        ))
    );
}

#[test]
fn number_literals_parse_to_their_value() {
    for n in [0u64, 7, 10, 99, 100, 1124, 4294967296, 9999999999999999999, u64::MAX] {
        assert_eq!(parse(&n.to_string()), Ok(Num(n, ())));
    }
    assert_eq!(parse("18446744073709551615"), Ok(Num(18446744073709551615, ())));
    assert_eq!(parse("007"), Ok(Num(7, ())));
    assert_eq!(parse("00000000000000000000000042"), Ok(Num(42, ())));
}

#[test]
fn a_number_that_does_not_fit_is_rejected() {
    assert_eq!(
        parse("18446744073709551616"),
        unexpected("Failed to parse number 18446744073709551616")
    );
    assert_eq!(
        parse("99999999999999999999"),
        unexpected("Failed to parse number 99999999999999999999")
    );
    assert_eq!(
        parse("1 + 184467440737095516150"),
        unexpected("Failed to parse number 184467440737095516150")
    );
}

#[test]
fn operators_of_one_precedence_group_to_the_left() {
    assert_eq!(
        parse("1 - 2 - 3"),
        Ok(Minus(Box::new(Minus(num(1), num(2), ())), num(3), ()))
    );
    assert_eq!(
        parse("1 - 2 + 3"),
        Ok(Plus(Box::new(Minus(num(1), num(2), ())), num(3), ()))
    );
    assert_eq!(
        parse("8 / 4 / 2"),
        Ok(Div(Box::new(Div(num(8), num(4), ())), num(2), ()))
    );
    assert_eq!(
        parse("8 / 4 * 2"),
        Ok(Times(Box::new(Div(num(8), num(4), ())), num(2), ()))
    );
    assert_eq!(
        parse("1 + 2 + 3 + 4"),
        Ok(Plus(
            Box::new(Plus(Box::new(Plus(num(1), num(2), ())), num(3), ())),
            num(4),
            ()
        ))
    );
}

#[test]
fn multiplication_binds_tighter_than_addition() {
    assert_eq!(
        parse("1 * 2 + 3"),
        Ok(Plus(Box::new(Times(num(1), num(2), ())), num(3), ()))
    );
    assert_eq!(
        parse("1 + 2 / 3"),
        Ok(Plus(num(1), Box::new(Div(num(2), num(3), ())), ()))
    );
    assert_eq!(
        parse("1 + 2 * 3 - 4 / 5"),
        Ok(Minus(
            Box::new(Plus(num(1), Box::new(Times(num(2), num(3), ())), ())),
            Box::new(Div(num(4), num(5), ())),
            ()
        ))
    );
}

#[test]
fn brackets_override_precedence() {
    assert_eq!(
        parse("1 * (2 + 3)"),
        Ok(Times(num(1), Box::new(Plus(num(2), num(3), ())), ()))
    );
    assert_eq!(
        parse("1 - (2 - 3)"),
        Ok(Minus(num(1), Box::new(Minus(num(2), num(3), ())), ()))
    );
    assert_eq!(parse("((1 + 2))"), Ok(Plus(num(1), num(2), ())));
    assert_eq!(parse("(((((((((((7)))))))))))"), Ok(Num(7, ())));
    assert_eq!(parse("(true)"), Ok(BoolLit(true, ())));
    assert_eq!(parse("({1})"), Ok(Block(vec![Num(1, ())], ())));
}

#[test]
fn variables_are_operands() {
    assert_eq!(parse("x"), Ok(VarRef("x".to_string(), ())));
    assert_eq!(
        parse("a * b"),
        Ok(Times(
            Box::new(VarRef("a".to_string(), ())),
            Box::new(VarRef("b".to_string(), ())),
            ()
        ))
    );
}

#[test]
fn a_declaration_takes_the_whole_expression_behind_it() {
    assert_eq!(
        parse("let x = 1 + 2 * 3"),
        Ok(Let(
            "x".to_string(),
            Box::new(Plus(num(1), Box::new(Times(num(2), num(3), ())), ())),
            ()
        ))
    );
    assert_eq!(
        parse("let x = let y = 1"),
        Ok(Let("x".to_string(), Box::new(Let("y".to_string(), num(1), ())), ()))
    );
}

#[test]
fn blocks_nest_and_hold_many_expressions() {
    assert_eq!(
        parse("{1; 2; 3}"),
        Ok(Block(vec![Num(1, ()), Num(2, ()), Num(3, ())], ()))
    );
    assert_eq!(
        parse("{let x = 1; {let x = true; x} }"),
        Ok(Block(
            vec![
                Let("x".to_string(), num(1), ()),
                Block(
                    vec![
                        Let("x".to_string(), Box::new(BoolLit(true, ())), ()),
                        VarRef("x".to_string(), ())
                    ],
                    ()
                )
            ],
            ()
        ))
    );
    assert_eq!(
        parse("{1} + {2}"),
        Ok(Plus(
            Box::new(Block(vec![Num(1, ())], ())),
            Box::new(Block(vec![Num(2, ())], ())),
            ()
        ))
    );
}

#[test]
fn conditionals_nest() {
    assert_eq!(
        parse("if a { if b { 1 } else { 2 } } else { 3; 4 }"),
        Ok(If(
            Box::new(VarRef("a".to_string(), ())),
            Box::new(Block(
                vec![If(
                    Box::new(VarRef("b".to_string(), ())),
                    Box::new(Block(vec![Num(1, ())], ())),
                    Box::new(Block(vec![Num(2, ())], ())),
                    ()
                )],
                ()
            )),
            Box::new(Block(vec![Num(3, ()), Num(4, ())], ())),
            ()
        ))
    );
    assert_eq!(
        parse("if 1 + 2 { 3 } else { 4 }"),
        Ok(If(
            Box::new(Plus(num(1), num(2), ())),
            Box::new(Block(vec![Num(3, ())], ())),
            Box::new(Block(vec![Num(4, ())], ())),
            ()
        ))
    );
}

#[test]
fn the_tokens_run_out() {
    for source in [
        "", "   ", "(", "(1", "(2580", "1 +", "1 + 2 *", "{1", "{1;", "{1; 2", "let", "let x",
        "let x =", "if", "if true", "if true {", "if true { 1", "if true { 1 }",
        "if true { 1 } else", "if true { 1 } else {", "if true { 1 } else { 2", "((1)",
    ] {
        assert_eq!(parse(source), Err(ParseError::Eof), "{source}");
    }
}

#[test]
fn an_empty_block_is_rejected() {
    assert_eq!(parse("{}"), unexpected("Empty block"));
    assert_eq!(parse("{} + 1"), unexpected("Empty block"));
    assert_eq!(parse("{1; {}}"), unexpected("Empty block"));
    assert_eq!(parse("if true {} else { 1 }"), unexpected("Empty block"));
    assert_eq!(parse("if true { 1 } else {}"), unexpected("Empty block"));
}

#[test]
fn a_token_of_the_wrong_kind_is_rejected() {
    assert_eq!(parse("(1 2)"), unexpected("Expected token RParen, found Number(\"2\")"));
    assert_eq!(parse("(1 }"), unexpected("Expected token RParen, found RBrace"));
    assert_eq!(parse("{1 2}"), unexpected("Expected token RBrace, found Number(\"2\")"));
    assert_eq!(parse("{1 let}"), unexpected("Expected token RBrace, found Let"));
    assert_eq!(parse("{1)"), unexpected("Expected token RBrace, found RParen"));
    assert_eq!(parse("let 1 = 2"), unexpected("Expected identifier, found Number(\"1\")"));
    assert_eq!(parse("let let"), unexpected("Expected identifier, found Let"));
    assert_eq!(parse("let x 1"), unexpected("Expected token SingleEq, found Number(\"1\")"));
    assert_eq!(parse("let x + 1"), unexpected("Expected token SingleEq, found Plus"));
    assert_eq!(parse("if true 1"), unexpected("Expected token LBrace, found Number(\"1\")"));
    assert_eq!(parse("if true { 1 } { 2 }"), unexpected("Expected token Else, found LBrace"));
    assert_eq!(
        parse("if true { 1 } else y"),
        unexpected("Expected token LBrace, found Var(\"y\")")
    );
    assert_eq!(parse("{1;}"), not_implemented("No prefix rule for token type RBrace"));
}

#[test]
fn a_token_that_starts_no_expression_is_rejected() {
    assert_eq!(parse(")"), not_implemented("No prefix rule for token type RParen"));
    assert_eq!(parse("}"), not_implemented("No prefix rule for token type RBrace"));
    assert_eq!(parse("+ 1"), not_implemented("No prefix rule for token type Plus"));
    assert_eq!(parse("- 1"), not_implemented("No prefix rule for token type Minus"));
    assert_eq!(parse("* 1"), not_implemented("No prefix rule for token type Star"));
    assert_eq!(parse("/ 1"), not_implemented("No prefix rule for token type Slash"));
    assert_eq!(parse("= 1"), not_implemented("No prefix rule for token type SingleEq"));
    assert_eq!(parse(";"), not_implemented("No prefix rule for token type Semicolon"));
    assert_eq!(parse("else"), not_implemented("No prefix rule for token type Else"));
    assert_eq!(parse("1 + + 2"), not_implemented("No prefix rule for token type Plus"));
    assert_eq!(parse("()"), not_implemented("No prefix rule for token type RParen"));
    assert_eq!(parse("let x = ;"), not_implemented("No prefix rule for token type Semicolon"));
}

#[test]
fn a_token_behind_the_root_expression_is_rejected() {
    assert_eq!(parse("1 2"), not_implemented("No infix rule for token type Number(\"2\")"));
    assert_eq!(parse("1 )"), not_implemented("No infix rule for token type RParen"));
    assert_eq!(parse("(1) x"), not_implemented("No infix rule for token type Var(\"x\")"));
    assert_eq!(parse("{1} {2}"), not_implemented("No infix rule for token type LBrace"));
    assert_eq!(parse("1 + 2 true"), not_implemented("No infix rule for token type True"));
    assert_eq!(parse("let x = 1 2"), not_implemented("No infix rule for token type Number(\"2\")"));
    assert_eq!(parse("x = 1"), not_implemented("No infix rule for token type SingleEq"));
    assert_eq!(parse("1; 2"), not_implemented("No infix rule for token type Semicolon"));
    assert_eq!(
        parse("if true { 1 } else { 2 } else"),
        not_implemented("No infix rule for token type Else")
    );
}

#[test]
fn tokens_end_at_an_unknown_character() {
    assert_eq!(parse("1 + 2 @ 3"), Ok(Plus(num(1), num(2), ())));
    assert_eq!(parse("(1 @"), Err(ParseError::Eof));
    assert_eq!(parse("@"), Err(ParseError::Eof));
}

#[test]
fn a_parser_starts_where_the_scanner_stands() {
    let mut scanner = Scanner::new("1 + 2 * 3");
    let _ = scanner.next();
    let _ = scanner.next();
    assert_eq!(Parser::new(scanner).parse(), Ok(Times(num(2), num(3), ())));
}

#[test]
fn a_parser_is_spent_after_parsing() {
    let mut parser = Parser::new(Scanner::new("1 + 2"));
    assert_eq!(parser.parse(), Ok(Plus(num(1), num(2), ())));
    assert_eq!(parser.parse(), Err(ParseError::Eof));
}

#[test]
fn the_ladder_of_precedences() {
    assert_eq!(Prec::next(Prec::Bottom), Prec::Expr);
    assert_eq!(Prec::next(Prec::Expr), Prec::AddSub);
    assert_eq!(Prec::next(Prec::AddSub), Prec::MultDiv);
    assert_eq!(Prec::next(Prec::MultDiv), Prec::Top);
    assert_eq!(Prec::next(Prec::Top), Prec::Top);
    let ladder = [Prec::Bottom, Prec::Expr, Prec::AddSub, Prec::MultDiv, Prec::Top];
    for (i, a) in ladder.iter().enumerate() {
        for (j, b) in ladder.iter().enumerate() {
            assert_eq!(a.at_least(*b), i >= j);
        }
    }
}

#[test]
fn metadata_of_every_kind_of_node() {
    let leaf = || Box::new(Num(0u64, 'x'));
    let nodes: Vec<(HuckAst<char>, char)> = vec![
        (Num(1, 'a'), 'a'),
        (BoolLit(true, 'b'), 'b'),
        (Plus(leaf(), leaf(), 'c'), 'c'),
        (Minus(leaf(), leaf(), 'd'), 'd'),
        (Times(leaf(), leaf(), 'e'), 'e'),
        (Div(leaf(), leaf(), 'f'), 'f'),
        (Let("n".to_string(), leaf(), 'g'), 'g'),
        (VarRef("n".to_string(), 'h'), 'h'),
        (Block(vec![Num(0, 'x')], 'i'), 'i'),
        (If(leaf(), leaf(), leaf(), 'j'), 'j'),
    ];
    for (node, meta) in nodes.iter() {
        assert_eq!(node.get_metadata(), meta);
    }
}

#[test]
fn a_copy_of_a_tree_equals_the_tree() {
    for source in [
        "42",
        "true",
        "x",
        "1 + 2 * 3 - 4 / 5",
        "let x = 1",
        "{let x = 42; x + 1}",
        "if a { 1; 2 } else { {3} }",
    ] {
        let tree = parse(source).unwrap();
        assert_eq!(tree.duplicate(), tree);
    }
}

fn written(tree: &ParseOutput) -> String {
    let operation = |lhs: &ParseOutput, operator: &str, rhs: &ParseOutput| {
        format!("( {} {} {} )", written(lhs), operator, written(rhs))
    };
    match tree {
        Num(n, _) => n.to_string(),
        BoolLit(b, _) => b.to_string(),
        Plus(lhs, rhs, _) => operation(lhs, "+", rhs),
        Minus(lhs, rhs, _) => operation(lhs, "-", rhs),
        Times(lhs, rhs, _) => operation(lhs, "*", rhs),
        Div(lhs, rhs, _) => operation(lhs, "/", rhs),
        Let(name, init, _) => format!("( let {} = {} )", name, written(init)),
        VarRef(name, _) => name.clone(),
        Block(body, _) => {
            let items: Vec<String> = body.iter().map(written).collect();
            format!("{{ {} }}", items.join(" ; "))
        }
        If(test, first, second, _) => {
            format!("( if {} {} else {} )", written(test), written(first), written(second))
        }
    }
}

#[test]
fn a_tree_is_read_back_from_its_text() {
    let x = || Box::new(VarRef("x".to_string(), ()));
    let trees: Vec<ParseOutput> = vec![
        Num(0, ()),
        Num(u64::MAX, ()),
        BoolLit(true, ()),
        VarRef("_a1".to_string(), ()),
        Plus(num(1), Box::new(Plus(num(2), num(3), ())), ()),
        Minus(Box::new(Times(num(1), num(2), ())), Box::new(Div(num(3), x(), ())), ()),
        Times(Box::new(Plus(num(1), num(2), ())), Box::new(Minus(num(3), num(4), ())), ()),
        Div(Box::new(Let("y".to_string(), num(1), ())), num(2), ()),
        Let("x".to_string(), Box::new(Plus(num(1), x(), ())), ()),
        Block(vec![Num(1, ())], ()),
        Block(
            vec![
                Let("x".to_string(), num(1), ()),
                Block(vec![VarRef("x".to_string(), ()), BoolLit(false, ())], ()),
                Plus(x(), num(1), ()),
            ],
            (),
        ),
        If(
            Box::new(Plus(x(), num(1), ())),
            Box::new(Block(vec![Num(1, ())], ())),
            Box::new(Block(
                vec![If(
                    x(),
                    Box::new(Block(vec![Num(2, ()), Num(3, ())], ())),
                    Box::new(Block(vec![Num(4, ())], ())),
                    (),
                )],
                (),
            )),
            (),
        ),
        Plus(
            Box::new(If(
                x(),
                Box::new(Block(vec![Num(1, ())], ())),
                Box::new(Block(vec![Num(2, ())], ())),
                (),
            )),
            num(3),
            (),
        ),
    ];
    for tree in trees.iter() {
        assert_eq!(parse(&written(tree)).as_ref(), Ok(tree), "{}", written(tree));
    }
}
