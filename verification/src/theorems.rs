//! What holds of scanning and parsing taken together.

use crate::ast::Expr;
use crate::chars::{lemma_run_unique, CharClass};
use crate::grammar::{
    block, empty_block_message, expression_at, grouping, inert, infix_chain, infix_rule,
    lemma_expression_consumes, lemma_expression_ignores_suffix, lemma_operand_consumes, operand,
    parse, Failure,
};
use crate::number::{all_digits, decimal_text, lemma_decimal_text_value, literal_value};
use crate::precedence::Prec;
use crate::scanner::{first_token, skip_whitespace, tokens, Lexeme};
use vstd::prelude::*;

verus! {

/// A text of digits is scanned as one number token that carries the text.
pub proof fn theorem_digits_are_one_token(text: Seq<char>)
    requires
        text.len() > 0,
        all_digits(text),
    ensures
        tokens(text) == seq![Lexeme::Number(text)],
{
    lemma_run_unique(text, CharClass::Whitespace, 0);
    assert(skip_whitespace(text) =~= text);
    lemma_run_unique(text, CharClass::Digit, text.len() as int);
    assert(text.take(text.len() as int) =~= text);
    let rest = text.skip(text.len() as int);
    assert(first_token(text) == Some((Lexeme::Number(text), rest)));
    assert(rest.len() == 0);
    lemma_run_unique(rest, CharClass::Whitespace, 0);
    assert(first_token(rest) is None);
    assert(tokens(rest) =~= Seq::<Lexeme>::empty());
    assert(tokens(text) =~= seq![Lexeme::Number(text)]);
}

/// A number literal, that is a text of digits whose value fits in 64 bits,
/// is scanned and parsed to the number it denotes.
pub proof fn theorem_number_literal(text: Seq<char>)
    requires
        literal_value(text) is Some,
    ensures
        parse(tokens(text)) == Ok::<Expr<()>, Failure>(
            Expr::Num(literal_value(text).unwrap(), ()),
        ),
{
    theorem_digits_are_one_token(text);
    lemma_single_operand(Lexeme::Number(text), Seq::empty(), Prec::Bottom);
    assert(seq![Lexeme::Number(text)] + Seq::<Lexeme>::empty() =~= seq![Lexeme::Number(text)]);
}

/// Every 64-bit number, written in base ten, is scanned and parsed to
/// itself.
pub proof fn theorem_number_round_trip(n: u64)
    ensures
        parse(tokens(decimal_text(n as nat))) == Ok::<Expr<()>, Failure>(Expr::Num(n, ())),
{
    lemma_decimal_text_value(n as nat);
    theorem_number_literal(decimal_text(n as nat));
}

/// Whether the token is an operand by itself: a literal or a variable.
pub open spec fn is_atom(t: Lexeme) -> bool {
    match t {
        Lexeme::True | Lexeme::False | Lexeme::Var(_) => true,
        Lexeme::Number(text) => literal_value(text) is Some,
        _ => false,
    }
}

/// The tree of a token that is an operand by itself.
pub open spec fn atom(t: Lexeme) -> Expr<()> {
    match t {
        Lexeme::True => Expr::BoolLit(true, ()),
        Lexeme::False => Expr::BoolLit(false, ()),
        Lexeme::Var(name) => Expr::VarRef(name, ()),
        Lexeme::Number(text) => Expr::Num(literal_value(text).unwrap(), ()),
        _ => arbitrary(),
    }
}

/// A literal or a variable that no operator follows is an expression at any
/// precedence.
pub proof fn lemma_single_operand(t: Lexeme, suffix: Seq<Lexeme>, min: Prec)
    requires
        is_atom(t),
        inert(suffix),
    ensures
        expression_at(seq![t] + suffix, min) == Ok::<(Expr<()>, Seq<Lexeme>), Failure>(
            (atom(t), suffix),
        ),
{
    let ts = seq![t] + suffix;
    assert(ts.drop_first() =~= suffix);
    assert(operand(ts) == Ok::<(Expr<()>, Seq<Lexeme>), Failure>((atom(t), suffix)));
}

/// How two operators between three operands group: the second operator
/// takes the middle operand where it binds more tightly than the first;
/// else the first takes it, so that operators of one precedence group to
/// the left.
pub proof fn theorem_operators_group(a: Lexeme, first: Lexeme, b: Lexeme, second: Lexeme, c: Lexeme)
    requires
        is_atom(a),
        is_atom(b),
        is_atom(c),
        infix_rule(first) is Some,
        infix_rule(second) is Some,
    ensures
        parse(seq![a, first, b, second, c]) == Ok::<Expr<()>, Failure>(
            {
                let (op1, prec1) = infix_rule(first).unwrap();
                let (op2, prec2) = infix_rule(second).unwrap();
                if prec2.level() > prec1.level() {
                    Expr::Binary(
                        op1,
                        Box::new(atom(a)),
                        Box::new(Expr::Binary(op2, Box::new(atom(b)), Box::new(atom(c)), ())),
                        (),
                    )
                } else {
                    Expr::Binary(
                        op2,
                        Box::new(Expr::Binary(op1, Box::new(atom(a)), Box::new(atom(b)), ())),
                        Box::new(atom(c)),
                        (),
                    )
                }
            },
        ),
{
    let (op1, prec1) = infix_rule(first).unwrap();
    let (op2, prec2) = infix_rule(second).unwrap();
    let ts = seq![a, first, b, second, c];
    let none = Seq::<Lexeme>::empty();
    // The first operand.
    let after_a = seq![first, b, second, c];
    assert(ts.drop_first() =~= after_a);
    assert(operand(ts) == Ok::<(Expr<()>, Seq<Lexeme>), Failure>((atom(a), after_a)));
    // The right operand of the first operator.
    let after_first = seq![b, second, c];
    assert(after_a.drop_first() =~= after_first);
    let after_b = seq![second, c];
    assert(after_first.drop_first() =~= after_b);
    assert(operand(after_first) == Ok::<(Expr<()>, Seq<Lexeme>), Failure>((atom(b), after_b)));
    let last = seq![c];
    assert(after_b.drop_first() =~= last);
    assert(last =~= seq![c] + none);
    lemma_single_operand(c, none, prec2.above());
    lemma_single_operand(c, none, Prec::Bottom);
    if prec2.level() > prec1.level() {
        let inner = Expr::Binary(op2, Box::new(atom(b)), Box::new(atom(c)), ());
        assert(infix_chain(inner, none, prec1.above()) == Ok::<(Expr<()>, Seq<Lexeme>), Failure>(
            (inner, none),
        ));
        assert(infix_chain(atom(b), after_b, prec1.above()) == Ok::<
            (Expr<()>, Seq<Lexeme>),
            Failure,
        >((inner, none)));
        assert(expression_at(after_first, prec1.above()) == Ok::<
            (Expr<()>, Seq<Lexeme>),
            Failure,
        >((inner, none)));
        let outer = Expr::Binary(op1, Box::new(atom(a)), Box::new(inner), ());
        assert(infix_chain(outer, none, Prec::Bottom) == Ok::<(Expr<()>, Seq<Lexeme>), Failure>(
            (outer, none),
        ));
        assert(infix_chain(atom(a), after_a, Prec::Bottom) == Ok::<
            (Expr<()>, Seq<Lexeme>),
            Failure,
        >((outer, none)));
    } else {
        assert(infix_chain(atom(b), after_b, prec1.above()) == Ok::<
            (Expr<()>, Seq<Lexeme>),
            Failure,
        >((atom(b), after_b)));
        assert(expression_at(after_first, prec1.above()) == Ok::<
            (Expr<()>, Seq<Lexeme>),
            Failure,
        >((atom(b), after_b)));
        let inner = Expr::Binary(op1, Box::new(atom(a)), Box::new(atom(b)), ());
        let outer = Expr::Binary(op2, Box::new(inner), Box::new(atom(c)), ());
        assert(infix_chain(outer, none, Prec::Bottom) == Ok::<(Expr<()>, Seq<Lexeme>), Failure>(
            (outer, none),
        ));
        assert(infix_chain(inner, after_b, Prec::Bottom) == Ok::<
            (Expr<()>, Seq<Lexeme>),
            Failure,
        >((outer, none)));
        assert(infix_chain(atom(a), after_a, Prec::Bottom) == Ok::<
            (Expr<()>, Seq<Lexeme>),
            Failure,
        >((outer, none)));
    }
}

/// A chain of operators goes on at `Expr` exactly where it goes on at
/// `Bottom`: every operator binds more tightly than both.
pub proof fn lemma_chain_floor(lhs: Expr<()>, ts: Seq<Lexeme>)
    ensures
        infix_chain(lhs, ts, Prec::Expr) == infix_chain(lhs, ts, Prec::Bottom),
    decreases ts.len(),
{
    if ts.len() > 0 {
        if let Some((op, prec)) = infix_rule(ts[0]) {
            if let Ok((rhs, rest)) = expression_at(ts.drop_first(), prec.above()) {
                lemma_expression_consumes(ts.drop_first(), prec.above());
                lemma_chain_floor(Expr::Binary(op, Box::new(lhs), Box::new(rhs), ()), rest);
            }
        }
    }
}

/// An expression inside a group or a block is read as the root expression
/// is: up to the first token that is no operator.
pub proof fn lemma_expression_floor(ts: Seq<Lexeme>)
    ensures
        expression_at(ts, Prec::Expr) == expression_at(ts, Prec::Bottom),
{
    if let Ok((lhs, rest)) = operand(ts) {
        lemma_chain_floor(lhs, rest);
    }
}

/// A token sequence that is one expression is read as that expression, with
/// no token left.
pub proof fn lemma_whole_expression(ts: Seq<Lexeme>)
    requires
        parse(ts) is Ok,
    ensures
        expression_at(ts, Prec::Expr) == Ok::<(Expr<()>, Seq<Lexeme>), Failure>(
            (parse(ts)->Ok_0, Seq::empty()),
        ),
{
    lemma_expression_floor(ts);
    let (root, rest) = expression_at(ts, Prec::Bottom)->Ok_0;
    assert(rest =~= Seq::<Lexeme>::empty());
}

/// A token sequence that is one expression is that expression inside a
/// group, whatever follows the closing bracket.
pub proof fn lemma_group_is_operand(inner: Seq<Lexeme>, suffix: Seq<Lexeme>)
    requires
        parse(inner) is Ok,
    ensures
        operand(seq![Lexeme::LParen] + inner + seq![Lexeme::RParen] + suffix) == Ok::<
            (Expr<()>, Seq<Lexeme>),
            Failure,
        >((parse(inner)->Ok_0, suffix)),
{
    let tree = parse(inner)->Ok_0;
    let closed = seq![Lexeme::RParen] + suffix;
    let ts = seq![Lexeme::LParen] + inner + seq![Lexeme::RParen] + suffix;
    assert(ts.drop_first() =~= inner + closed);
    lemma_whole_expression(inner);
    lemma_expression_ignores_suffix(inner, Prec::Expr, closed);
    assert(Seq::<Lexeme>::empty() + closed =~= closed);
    assert(closed.drop_first() =~= suffix);
}

/// Brackets around an expression do not change it.
pub proof fn theorem_group_collapses(inner: Seq<Lexeme>)
    requires
        parse(inner) is Ok,
    ensures
        parse(seq![Lexeme::LParen] + inner + seq![Lexeme::RParen]) == parse(inner),
{
    lemma_group_is_operand(inner, Seq::empty());
    assert(seq![Lexeme::LParen] + inner + seq![Lexeme::RParen] + Seq::<Lexeme>::empty()
        =~= seq![Lexeme::LParen] + inner + seq![Lexeme::RParen]);
}

/// The tokens `inner` inside `depth` pairs of brackets.
pub open spec fn nested(inner: Seq<Lexeme>, depth: nat) -> Seq<Lexeme>
    decreases depth,
{
    if depth == 0 {
        inner
    } else {
        seq![Lexeme::LParen] + nested(inner, (depth - 1) as nat) + seq![Lexeme::RParen]
    }
}

/// Brackets around an expression do not change it, however deeply they are
/// nested.
pub proof fn theorem_nested_groups_collapse(inner: Seq<Lexeme>, depth: nat)
    requires
        parse(inner) is Ok,
    ensures
        parse(nested(inner, depth)) == parse(inner),
    decreases depth,
{
    if depth > 0 {
        theorem_nested_groups_collapse(inner, (depth - 1) as nat);
        theorem_group_collapses(nested(inner, (depth - 1) as nat));
    }
}

/// Brackets override precedence: a group is the left operand of the
/// operator behind it as a whole, whatever operators it holds.
pub proof fn theorem_group_overrides_precedence(inner: Seq<Lexeme>, operator: Lexeme, c: Lexeme)
    requires
        parse(inner) is Ok,
        infix_rule(operator) is Some,
        is_atom(c),
    ensures
        parse(seq![Lexeme::LParen] + inner + seq![Lexeme::RParen] + seq![operator, c]) == Ok::<
            Expr<()>,
            Failure,
        >(
            Expr::Binary(
                infix_rule(operator).unwrap().0,
                Box::new(parse(inner)->Ok_0),
                Box::new(atom(c)),
                (),
            ),
        ),
{
    let (op, prec) = infix_rule(operator).unwrap();
    let none = Seq::<Lexeme>::empty();
    let after = seq![operator, c];
    lemma_group_is_operand(inner, after);
    lemma_operand_consumes(seq![Lexeme::LParen] + inner + seq![Lexeme::RParen] + after);
    assert(after.drop_first() =~= seq![c] + none);
    lemma_single_operand(c, none, prec.above());
    let tree = Expr::Binary(op, Box::new(parse(inner)->Ok_0), Box::new(atom(c)), ());
    assert(infix_chain(tree, none, Prec::Bottom) == Ok::<(Expr<()>, Seq<Lexeme>), Failure>(
        (tree, none),
    ));
    assert(infix_chain(parse(inner)->Ok_0, after, Prec::Bottom) == Ok::<
        (Expr<()>, Seq<Lexeme>),
        Failure,
    >((tree, none)));
}

/// A group without its closing bracket is no expression: the tokens run
/// out.
pub proof fn theorem_unterminated_group(inner: Seq<Lexeme>)
    requires
        parse(inner) is Ok,
    ensures
        parse(seq![Lexeme::LParen] + inner) == Err::<Expr<()>, Failure>(Failure::Eof),
{
    let ts = seq![Lexeme::LParen] + inner;
    assert(ts.drop_first() =~= inner);
    lemma_whole_expression(inner);
    assert(grouping(inner) == Err::<(Expr<()>, Seq<Lexeme>), Failure>(Failure::Eof));
    assert(operand(ts) == Err::<(Expr<()>, Seq<Lexeme>), Failure>(Failure::Eof));
}

/// A block without expressions is no expression, whatever follows it.
pub proof fn theorem_empty_block(rest: Seq<Lexeme>)
    ensures
        parse(seq![Lexeme::LBrace, Lexeme::RBrace] + rest) == Err::<Expr<()>, Failure>(
            Failure::UnexpectedToken(empty_block_message()),
        ),
{
    let ts = seq![Lexeme::LBrace, Lexeme::RBrace] + rest;
    let failure = Failure::UnexpectedToken(empty_block_message());
    assert(ts.drop_first()[0] == Lexeme::RBrace);
    assert(block(ts.drop_first()) == Err::<(Expr<()>, Seq<Lexeme>), Failure>(failure));
    assert(operand(ts) == Err::<(Expr<()>, Seq<Lexeme>), Failure>(failure));
}

} // verus!
