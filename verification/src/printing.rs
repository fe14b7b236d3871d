//! Writing a tree down as tokens, and reading it back.
//!
//! Every tree that has no empty block, and whose conditionals branch to
//! blocks, can be written as a sequence of tokens that the grammar reads as
//! that tree; and the grammar reads no other trees.

use crate::ast::{BinOp, Expr};
use crate::grammar::{
    block, block_rest, conditional, expect, expression_at, grouping, infix_chain, infix_rule,
    let_decl, operand, parse, Failure,
};
use crate::number::{decimal_text, lemma_decimal_text_value};
use crate::precedence::Prec;
use crate::scanner::{tokens, Lexeme};
use crate::spelling::{spelled, theorem_spelled_tokens_are_scanned, well_formed};
use vstd::prelude::*;

verus! {

/// Whether the tree can be read from tokens: none of its blocks is empty,
/// and both branches of each of its conditionals are blocks.
pub open spec fn readable(e: Expr<()>) -> bool
    decreases e,
{
    match e {
        Expr::Num(_, _) => true,
        Expr::BoolLit(_, _) => true,
        Expr::Binary(_, lhs, rhs, _) => readable(*lhs) && readable(*rhs),
        Expr::Let(_, init, _) => readable(*init),
        Expr::VarRef(_, _) => true,
        Expr::Block(body, _) => {
            &&& body.len() > 0
            &&& forall|i: int| 0 <= i < body.len() ==> readable(#[trigger] body[i])
        },
        Expr::If(test, then_branch, else_branch, _) => {
            &&& readable(*test)
            &&& readable(*then_branch)
            &&& readable(*else_branch)
            &&& *then_branch is Block
            &&& *else_branch is Block
        },
    }
}

/// The binding precedence of an operator.
pub open spec fn binding(op: BinOp) -> Prec {
    match op {
        BinOp::Add => Prec::AddSub,
        BinOp::Sub => Prec::AddSub,
        BinOp::Mul => Prec::MultDiv,
        BinOp::Div => Prec::MultDiv,
    }
}

/// The token of an operator.
pub open spec fn operator_token(op: BinOp) -> Lexeme {
    match op {
        BinOp::Add => Lexeme::Plus,
        BinOp::Sub => Lexeme::Minus,
        BinOp::Mul => Lexeme::Star,
        BinOp::Div => Lexeme::Slash,
    }
}

/// The tree written as tokens, with brackets around every operation,
/// declaration and conditional.
pub open spec fn written(e: Expr<()>) -> Seq<Lexeme>
    decreases e, 1nat,
{
    match e {
        Expr::Num(n, _) => seq![Lexeme::Number(decimal_text(n as nat))],
        Expr::BoolLit(b, _) => seq![
            if b {
                Lexeme::True
            } else {
                Lexeme::False
            },
        ],
        Expr::Binary(op, lhs, rhs, _) => seq![Lexeme::LParen] + written(*lhs) + seq![
            operator_token(op),
        ] + written(*rhs) + seq![Lexeme::RParen],
        Expr::Let(name, init, _) => seq![
            Lexeme::LParen,
            Lexeme::Let,
            Lexeme::Var(name),
            Lexeme::SingleEq,
        ] + written(*init) + seq![Lexeme::RParen],
        Expr::VarRef(name, _) => seq![Lexeme::Var(name)],
        Expr::Block(body, _) => seq![Lexeme::LBrace] + written_body(body, 0),
        Expr::If(test, then_branch, else_branch, _) => seq![Lexeme::LParen, Lexeme::If] + written(
            *test,
        ) + written(*then_branch) + seq![Lexeme::Else] + written(*else_branch) + seq![
            Lexeme::RParen,
        ],
    }
}

/// The expressions of a body from the one at `from` on, as tokens: with `;`
/// between them and `}` behind the last.
pub open spec fn written_body(body: Seq<Expr<()>>, from: nat) -> Seq<Lexeme>
    decreases body, 0nat, body.len() - from,
{
    if from >= body.len() {
        seq![Lexeme::RBrace]
    } else if from + 1 == body.len() {
        written(body[from as int]) + seq![Lexeme::RBrace]
    } else {
        written(body[from as int]) + seq![Lexeme::Semicolon] + written_body(body, from + 1)
    }
}

/// A written tree starts with a token that starts an expression, and that is
/// no closing brace.
pub proof fn lemma_written_starts(e: Expr<()>)
    ensures
        written(e).len() > 0,
        written(e)[0] != Lexeme::RBrace,
        e is Block ==> written(e)[0] == Lexeme::LBrace,
{
}

/// A tree that is readable is read back from its tokens as an operand,
/// whatever tokens follow them.
pub proof fn lemma_written_operand(e: Expr<()>, suffix: Seq<Lexeme>)
    requires
        readable(e),
    ensures
        operand(written(e) + suffix) == Ok::<(Expr<()>, Seq<Lexeme>), Failure>((e, suffix)),
    decreases e, 1nat,
{
    assert(e.meta() == ());
    let ts = written(e) + suffix;
    match e {
        Expr::Num(n, _) => {
            lemma_decimal_text_value(n as nat);
            assert(ts.drop_first() =~= suffix);
        },
        Expr::BoolLit(_, _) => {
            assert(ts.drop_first() =~= suffix);
        },
        Expr::VarRef(_, _) => {
            assert(ts.drop_first() =~= suffix);
        },
        Expr::Binary(_, _, _, _) => {
            lemma_written_operation(e, suffix);
        },
        Expr::Let(_, _, _) => {
            lemma_written_declaration(e, suffix);
        },
        Expr::Block(body, _) => {
            assert(ts.drop_first() =~= written_body(body, 0) + suffix);
            lemma_written_block(body, suffix);
        },
        Expr::If(_, _, _, _) => {
            lemma_written_conditional(e, suffix);
        },
    }
}

/// A readable operation is read back from its tokens.
proof fn lemma_written_operation(e: Expr<()>, suffix: Seq<Lexeme>)
    requires
        readable(e),
        e is Binary,
    ensures
        operand(written(e) + suffix) == Ok::<(Expr<()>, Seq<Lexeme>), Failure>((e, suffix)),
    decreases e, 0nat,
{
    assert(e.meta() == ());
    let ts = written(e) + suffix;
    let op = e->Binary_0;
    let lhs = *e->Binary_1;
    let rhs = *e->Binary_2;
    let closing = seq![Lexeme::RParen] + suffix;
    let after_lhs = seq![operator_token(op)] + written(rhs) + closing;
    let inner = written(lhs) + after_lhs;
    assert(ts.drop_first() =~= inner);
    lemma_written_operand(lhs, after_lhs);
    assert(after_lhs.drop_first() =~= written(rhs) + closing);
    lemma_written_operand(rhs, closing);
    lemma_written_starts(lhs);
    lemma_written_starts(rhs);
    let (_, prec) = infix_rule(operator_token(op))->Some_0;
    assert(infix_chain(rhs, closing, prec.above()) == Ok::<(Expr<()>, Seq<Lexeme>), Failure>(
        (rhs, closing),
    ));
    assert(expression_at(written(rhs) + closing, prec.above()) == Ok::<
        (Expr<()>, Seq<Lexeme>),
        Failure,
    >((rhs, closing)));
    assert(infix_chain(e, closing, Prec::Expr) == Ok::<(Expr<()>, Seq<Lexeme>), Failure>(
        (e, closing),
    ));
    assert(infix_chain(lhs, after_lhs, Prec::Expr) == Ok::<(Expr<()>, Seq<Lexeme>), Failure>(
        (e, closing),
    ));
    assert(expression_at(inner, Prec::Expr) == Ok::<(Expr<()>, Seq<Lexeme>), Failure>(
        (e, closing),
    ));
    assert(closing.drop_first() =~= suffix);
    assert(grouping(inner) == Ok::<(Expr<()>, Seq<Lexeme>), Failure>((e, suffix)));
}

/// A readable declaration is read back from its tokens.
proof fn lemma_written_declaration(e: Expr<()>, suffix: Seq<Lexeme>)
    requires
        readable(e),
        e is Let,
    ensures
        operand(written(e) + suffix) == Ok::<(Expr<()>, Seq<Lexeme>), Failure>((e, suffix)),
    decreases e, 0nat,
{
    assert(e.meta() == ());
    let ts = written(e) + suffix;
    let name = e->Let_0;
    let init = *e->Let_1;
    let closing = seq![Lexeme::RParen] + suffix;
    let declaration = seq![Lexeme::Let, Lexeme::Var(name), Lexeme::SingleEq] + written(init)
        + closing;
    assert(ts.drop_first() =~= declaration);
    let named = seq![Lexeme::Var(name), Lexeme::SingleEq] + written(init) + closing;
    assert(declaration.drop_first() =~= named);
    let assigned = seq![Lexeme::SingleEq] + written(init) + closing;
    assert(named.drop_first() =~= assigned);
    assert(assigned.drop_first() =~= written(init) + closing);
    lemma_written_operand(init, closing);
    lemma_written_starts(init);
    assert(infix_chain(init, closing, Prec::Expr) == Ok::<(Expr<()>, Seq<Lexeme>), Failure>(
        (init, closing),
    ));
    assert(expression_at(written(init) + closing, Prec::Expr) == Ok::<
        (Expr<()>, Seq<Lexeme>),
        Failure,
    >((init, closing)));
    assert(let_decl(named) == Ok::<(Expr<()>, Seq<Lexeme>), Failure>((e, closing)));
    assert(operand(declaration) == Ok::<(Expr<()>, Seq<Lexeme>), Failure>((e, closing)));
    assert(infix_chain(e, closing, Prec::Expr) == Ok::<(Expr<()>, Seq<Lexeme>), Failure>(
        (e, closing),
    ));
    assert(expression_at(declaration, Prec::Expr) == Ok::<(Expr<()>, Seq<Lexeme>), Failure>(
        (e, closing),
    ));
    assert(closing.drop_first() =~= suffix);
    assert(grouping(declaration) == Ok::<(Expr<()>, Seq<Lexeme>), Failure>((e, suffix)));
}

/// A readable conditional is read back from its tokens.
proof fn lemma_written_conditional(e: Expr<()>, suffix: Seq<Lexeme>)
    requires
        readable(e),
        e is If,
    ensures
        operand(written(e) + suffix) == Ok::<(Expr<()>, Seq<Lexeme>), Failure>((e, suffix)),
    decreases e, 0nat,
{
    assert(e.meta() == ());
    let ts = written(e) + suffix;
    let test = *e->If_0;
    let then_branch = *e->If_1;
    let else_branch = *e->If_2;
    let closing = seq![Lexeme::RParen] + suffix;
    let after_then = seq![Lexeme::Else] + written(else_branch) + closing;
    let after_test = written(then_branch) + after_then;
    let after_if = written(test) + after_test;
    let inner = seq![Lexeme::If] + after_if;
    assert(ts.drop_first() =~= inner);
    assert(inner.drop_first() =~= after_if);
    lemma_written_operand(test, after_test);
    lemma_written_starts(test);
    lemma_written_starts(then_branch);
    lemma_written_starts(else_branch);
    assert(after_test[0] == Lexeme::LBrace);
    assert(infix_chain(test, after_test, Prec::Expr) == Ok::<(Expr<()>, Seq<Lexeme>), Failure>(
        (test, after_test),
    ));
    assert(expression_at(after_if, Prec::Expr) == Ok::<(Expr<()>, Seq<Lexeme>), Failure>(
        (test, after_test),
    ));
    let then_body = then_branch->Block_0;
    let else_body = else_branch->Block_0;
    reveal_with_fuel(readable, 2);
    assert(then_branch.meta() == ());
    assert(else_branch.meta() == ());
    assert(after_test.drop_first() =~= written_body(then_body, 0) + after_then);
    lemma_written_block(then_body, after_then);
    assert(after_then.drop_first() =~= written(else_branch) + closing);
    let in_else = written(else_branch) + closing;
    assert(in_else.drop_first() =~= written_body(else_body, 0) + closing);
    lemma_written_block(else_body, closing);
    assert(conditional(after_if) == Ok::<(Expr<()>, Seq<Lexeme>), Failure>((e, closing)));
    assert(operand(inner) == Ok::<(Expr<()>, Seq<Lexeme>), Failure>((e, closing)));
    assert(infix_chain(e, closing, Prec::Expr) == Ok::<(Expr<()>, Seq<Lexeme>), Failure>(
        (e, closing),
    ));
    assert(expression_at(inner, Prec::Expr) == Ok::<(Expr<()>, Seq<Lexeme>), Failure>(
        (e, closing),
    ));
    assert(closing.drop_first() =~= suffix);
    assert(grouping(inner) == Ok::<(Expr<()>, Seq<Lexeme>), Failure>((e, suffix)));
}

/// A readable expression of a body is read back from its tokens as an
/// expression, up to the `;` or `}` behind it.
pub proof fn lemma_written_item(e: Expr<()>, suffix: Seq<Lexeme>)
    requires
        readable(e),
        suffix.len() > 0,
        suffix[0] == Lexeme::Semicolon || suffix[0] == Lexeme::RBrace,
    ensures
        expression_at(written(e) + suffix, Prec::Expr) == Ok::<(Expr<()>, Seq<Lexeme>), Failure>(
            (e, suffix),
        ),
    decreases e, 2nat,
{
    lemma_written_operand(e, suffix);
    lemma_written_starts(e);
    assert(infix_chain(e, suffix, Prec::Expr) == Ok::<(Expr<()>, Seq<Lexeme>), Failure>(
        (e, suffix),
    ));
}

/// The readable expressions of a body are read back from their tokens as
/// the block of that body.
pub proof fn lemma_written_block(body: Seq<Expr<()>>, suffix: Seq<Lexeme>)
    requires
        body.len() > 0,
        forall|i: int| 0 <= i < body.len() ==> readable(#[trigger] body[i]),
    ensures
        block(written_body(body, 0) + suffix) == Ok::<(Expr<()>, Seq<Lexeme>), Failure>(
            (Expr::Block(body, ()), suffix),
        ),
    decreases body, 0nat, body.len() + 1,
{
    let ts = written_body(body, 0) + suffix;
    let first = body[0];
    lemma_written_starts(first);
    let rest = if body.len() == 1 {
        seq![Lexeme::RBrace] + suffix
    } else {
        seq![Lexeme::Semicolon] + written_body(body, 1) + suffix
    };
    assert(ts =~= written(first) + rest);
    lemma_written_item(first, rest);
    assert(body.take(1) =~= seq![first]);
    lemma_written_rest(body, 1, suffix);
    if body.len() == 1 {
        assert(written_body(body, 1) + suffix =~= rest);
    } else {
        assert(rest.drop_first() =~= written_body(body, 1) + suffix);
    }
}

/// The rest of a body is read back from its tokens, behind the expressions
/// before it.
pub proof fn lemma_written_rest(body: Seq<Expr<()>>, from: nat, suffix: Seq<Lexeme>)
    requires
        0 < from <= body.len(),
        forall|i: int| 0 <= i < body.len() ==> readable(#[trigger] body[i]),
    ensures
        block_rest(
            body.take(from as int),
            if from == body.len() {
                seq![Lexeme::RBrace] + suffix
            } else {
                seq![Lexeme::Semicolon] + written_body(body, from) + suffix
            },
        ) == Ok::<(Expr<()>, Seq<Lexeme>), Failure>((Expr::Block(body, ()), suffix)),
    decreases body, 0nat, body.len() - from,
{
    if from == body.len() {
        let ts = seq![Lexeme::RBrace] + suffix;
        assert(ts.drop_first() =~= suffix);
        assert(body.take(from as int) =~= body);
    } else {
        let item = body[from as int];
        let ts = seq![Lexeme::Semicolon] + written_body(body, from) + suffix;
        let rest = if from + 1 == body.len() {
            seq![Lexeme::RBrace] + suffix
        } else {
            seq![Lexeme::Semicolon] + written_body(body, from + 1) + suffix
        };
        assert(ts.drop_first() =~= written(item) + rest);
        lemma_written_item(item, rest);
        lemma_written_starts(item);
        assert(body.take(from as int).push(item) =~= body.take((from + 1) as int));
        lemma_written_rest(body, from + 1, suffix);
    }
}

/// A readable tree is what the grammar reads from the tokens it is written
/// as.
pub proof fn theorem_written_tree_is_read_back(e: Expr<()>)
    requires
        readable(e),
    ensures
        parse(written(e)) == Ok::<Expr<()>, Failure>(e),
{
    let none = Seq::<Lexeme>::empty();
    lemma_written_operand(e, none);
    assert(written(e) + none =~= written(e));
    lemma_written_starts(e);
    assert(infix_chain(e, none, Prec::Bottom) == Ok::<(Expr<()>, Seq<Lexeme>), Failure>(
        (e, none),
    ));
}

/// Every tree that the grammar reads is readable.
pub proof fn theorem_read_tree_is_readable(ts: Seq<Lexeme>)
    ensures
        parse(ts) matches Ok(tree) ==> readable(tree),
{
    lemma_expression_readable(ts, Prec::Bottom);
}

/// An expression that is read is readable.
pub proof fn lemma_expression_readable(ts: Seq<Lexeme>, min: Prec)
    ensures
        expression_at(ts, min) matches Ok((tree, _)) ==> readable(tree),
    decreases ts.len(), 1nat,
{
    lemma_operand_readable(ts);
    if let Ok((lhs, rest)) = operand(ts) {
        if rest.len() < ts.len() {
            lemma_infix_chain_readable(lhs, rest, min);
        }
    }
}

/// An operand that is read is readable.
pub proof fn lemma_operand_readable(ts: Seq<Lexeme>)
    ensures
        operand(ts) matches Ok((tree, _)) ==> readable(tree),
    decreases ts.len(), 0nat,
{
    if ts.len() > 0 {
        let rest = ts.drop_first();
        match ts[0] {
            Lexeme::LParen => lemma_expression_readable(rest, Prec::Expr),
            Lexeme::LBrace => lemma_block_readable(rest),
            Lexeme::Let => {
                if rest.len() > 0 {
                    if let Ok(after) = expect(rest.drop_first(), Lexeme::SingleEq) {
                        lemma_expression_readable(after, Prec::Expr);
                    }
                }
            },
            Lexeme::If => lemma_conditional_readable(rest),
            _ => {},
        }
    }
}

/// A chain of operators behind a readable tree is readable.
pub proof fn lemma_infix_chain_readable(lhs: Expr<()>, ts: Seq<Lexeme>, min: Prec)
    requires
        readable(lhs),
    ensures
        infix_chain(lhs, ts, min) matches Ok((tree, _)) ==> readable(tree),
    decreases ts.len(), 2nat,
{
    if ts.len() > 0 {
        if let Some((op, prec)) = infix_rule(ts[0]) {
            lemma_expression_readable(ts.drop_first(), prec.above());
            if let Ok((rhs, rest)) = expression_at(ts.drop_first(), prec.above()) {
                if rest.len() < ts.len() {
                    lemma_infix_chain_readable(
                        Expr::Binary(op, Box::new(lhs), Box::new(rhs), ()),
                        rest,
                        min,
                    );
                }
            }
        }
    }
}

/// A block that is read is a readable block.
pub proof fn lemma_block_readable(ts: Seq<Lexeme>)
    ensures
        block(ts) matches Ok((tree, _)) ==> readable(tree) && tree is Block,
    decreases ts.len(), 2nat,
{
    lemma_expression_readable(ts, Prec::Expr);
    if let Ok((first, rest)) = expression_at(ts, Prec::Expr) {
        if rest.len() < ts.len() {
            lemma_block_rest_readable(seq![first], rest);
        }
    }
}

/// The rest of a block behind readable expressions is a readable block.
pub proof fn lemma_block_rest_readable(items: Seq<Expr<()>>, ts: Seq<Lexeme>)
    requires
        items.len() > 0,
        forall|i: int| 0 <= i < items.len() ==> readable(#[trigger] items[i]),
    ensures
        block_rest(items, ts) matches Ok((tree, _)) ==> readable(tree) && tree is Block,
    decreases ts.len(), 2nat,
{
    if ts.len() > 0 && ts[0] == Lexeme::Semicolon {
        lemma_expression_readable(ts.drop_first(), Prec::Expr);
        if let Ok((item, rest)) = expression_at(ts.drop_first(), Prec::Expr) {
            if rest.len() < ts.len() {
                lemma_block_rest_readable(items.push(item), rest);
            }
        }
    }
}

/// A conditional that is read is readable.
pub proof fn lemma_conditional_readable(ts: Seq<Lexeme>)
    ensures
        conditional(ts) matches Ok((tree, _)) ==> readable(tree),
    decreases ts.len(), 2nat,
{
    lemma_expression_readable(ts, Prec::Expr);
    if let Ok((_, rest)) = expression_at(ts, Prec::Expr) {
        if let Ok(rest) = expect(rest, Lexeme::LBrace) {
            if rest.len() < ts.len() {
                lemma_block_readable(rest);
                if let Ok((_, rest)) = block(rest) {
                    if let Ok(rest) = expect(rest, Lexeme::Else) {
                        if let Ok(rest) = expect(rest, Lexeme::LBrace) {
                            if rest.len() < ts.len() {
                                lemma_block_readable(rest);
                            }
                        }
                    }
                }
            }
        }
    }
}

/// Whether every name that the tree declares or refers to is an
/// identifier.
pub open spec fn names_are_identifiers(e: Expr<()>) -> bool
    decreases e,
{
    match e {
        Expr::Num(_, _) => true,
        Expr::BoolLit(_, _) => true,
        Expr::Binary(_, lhs, rhs, _) => names_are_identifiers(*lhs) && names_are_identifiers(*rhs),
        Expr::Let(name, init, _) => well_formed(Lexeme::Var(name)) && names_are_identifiers(*init),
        Expr::VarRef(name, _) => well_formed(Lexeme::Var(name)),
        Expr::Block(body, _) => forall|i: int|
            0 <= i < body.len() ==> names_are_identifiers(#[trigger] body[i]),
        Expr::If(test, then_branch, else_branch, _) => {
            &&& names_are_identifiers(*test)
            &&& names_are_identifiers(*then_branch)
            &&& names_are_identifiers(*else_branch)
        },
    }
}

/// Whether every token of the sequence is well formed.
pub open spec fn all_well_formed(lexemes: Seq<Lexeme>) -> bool {
    forall|i: int| 0 <= i < lexemes.len() ==> well_formed(#[trigger] lexemes[i])
}

/// Well-formed tokens behind well-formed tokens are well-formed tokens.
pub proof fn lemma_well_formed_joined(a: Seq<Lexeme>, b: Seq<Lexeme>)
    requires
        all_well_formed(a),
        all_well_formed(b),
    ensures
        all_well_formed(a + b),
{
    assert forall|i: int| 0 <= i < (a + b).len() implies well_formed(#[trigger] (a + b)[i]) by {
        if i < a.len() {
            assert((a + b)[i] == a[i]);
        } else {
            assert((a + b)[i] == b[i - a.len()]);
        }
    }
}

/// A tree whose names are identifiers is written in well-formed tokens.
pub proof fn lemma_written_is_well_formed(e: Expr<()>)
    requires
        names_are_identifiers(e),
    ensures
        all_well_formed(written(e)),
    decreases e, 1nat,
{
    match e {
        Expr::Num(n, _) => {
            lemma_decimal_text_value(n as nat);
        },
        Expr::BoolLit(_, _) => {},
        Expr::VarRef(_, _) => {},
        Expr::Binary(op, lhs, rhs, _) => {
            lemma_written_is_well_formed(*lhs);
            lemma_written_is_well_formed(*rhs);
            let a = seq![Lexeme::LParen];
            let b = seq![operator_token(op)];
            let c = seq![Lexeme::RParen];
            lemma_well_formed_joined(a, written(*lhs));
            lemma_well_formed_joined(a + written(*lhs), b);
            lemma_well_formed_joined(a + written(*lhs) + b, written(*rhs));
            lemma_well_formed_joined(a + written(*lhs) + b + written(*rhs), c);
        },
        Expr::Let(name, init, _) => {
            lemma_written_is_well_formed(*init);
            let a = seq![Lexeme::LParen, Lexeme::Let, Lexeme::Var(name), Lexeme::SingleEq];
            let c = seq![Lexeme::RParen];
            lemma_well_formed_joined(a, written(*init));
            lemma_well_formed_joined(a + written(*init), c);
        },
        Expr::Block(body, _) => {
            lemma_written_body_is_well_formed(body, 0);
            lemma_well_formed_joined(seq![Lexeme::LBrace], written_body(body, 0));
        },
        Expr::If(test, then_branch, else_branch, _) => {
            lemma_written_is_well_formed(*test);
            lemma_written_is_well_formed(*then_branch);
            lemma_written_is_well_formed(*else_branch);
            let a = seq![Lexeme::LParen, Lexeme::If];
            let b = seq![Lexeme::Else];
            let c = seq![Lexeme::RParen];
            lemma_well_formed_joined(a, written(*test));
            lemma_well_formed_joined(a + written(*test), written(*then_branch));
            lemma_well_formed_joined(a + written(*test) + written(*then_branch), b);
            lemma_well_formed_joined(
                a + written(*test) + written(*then_branch) + b,
                written(*else_branch),
            );
            lemma_well_formed_joined(
                a + written(*test) + written(*then_branch) + b + written(*else_branch),
                c,
            );
        },
    }
}

/// A body whose names are identifiers is written in well-formed tokens.
pub proof fn lemma_written_body_is_well_formed(body: Seq<Expr<()>>, from: nat)
    requires
        forall|i: int| 0 <= i < body.len() ==> names_are_identifiers(#[trigger] body[i]),
    ensures
        all_well_formed(written_body(body, from)),
    decreases body, 0nat, body.len() - from,
{
    if from < body.len() {
        let item = written(body[from as int]);
        lemma_written_is_well_formed(body[from as int]);
        if from + 1 == body.len() {
            lemma_well_formed_joined(item, seq![Lexeme::RBrace]);
        } else {
            lemma_written_body_is_well_formed(body, from + 1);
            lemma_well_formed_joined(item, seq![Lexeme::Semicolon]);
            lemma_well_formed_joined(item + seq![Lexeme::Semicolon], written_body(body, from + 1));
        }
    }
}

/// Scanning and parsing give back every program that is written down: a
/// readable tree whose names are identifiers is what the scanner and the
/// grammar read from the text of its tokens.
pub proof fn theorem_program_is_read_back(e: Expr<()>)
    requires
        readable(e),
        names_are_identifiers(e),
    ensures
        parse(tokens(spelled(written(e)))) == Ok::<Expr<()>, Failure>(e),
{
    lemma_written_is_well_formed(e);
    theorem_spelled_tokens_are_scanned(written(e));
    theorem_written_tree_is_read_back(e);
}

/// How two operators between three operand expressions group, whatever
/// the operands are: the second operator takes the middle operand where it
/// binds more tightly than the first; else the first takes it, so that
/// operators of one precedence group to the left.
pub proof fn theorem_operators_group_operands(
    a: Expr<()>,
    first: BinOp,
    b: Expr<()>,
    second: BinOp,
    c: Expr<()>,
)
    requires
        readable(a),
        readable(b),
        readable(c),
    ensures
        parse(
            written(a) + seq![operator_token(first)] + written(b) + seq![operator_token(second)]
                + written(c),
        ) == Ok::<Expr<()>, Failure>(
            if binding(second).level() > binding(first).level() {
                Expr::Binary(
                    first,
                    Box::new(a),
                    Box::new(Expr::Binary(second, Box::new(b), Box::new(c), ())),
                    (),
                )
            } else {
                Expr::Binary(
                    second,
                    Box::new(Expr::Binary(first, Box::new(a), Box::new(b), ())),
                    Box::new(c),
                    (),
                )
            },
        ),
{
    let none = Seq::<Lexeme>::empty();
    let prec1 = binding(first);
    let prec2 = binding(second);
    let after_b = seq![operator_token(second)] + written(c);
    let after_first = written(b) + after_b;
    let after_a = seq![operator_token(first)] + after_first;
    let ts = written(a) + seq![operator_token(first)] + written(b) + seq![operator_token(second)]
        + written(c);
    assert(ts =~= written(a) + after_a);
    lemma_written_operand(a, after_a);
    lemma_written_operand(b, after_b);
    lemma_written_operand(c, none);
    lemma_written_starts(a);
    lemma_written_starts(b);
    lemma_written_starts(c);
    assert(written(c) + none =~= written(c));
    assert(after_a.drop_first() =~= after_first);
    assert(after_b.drop_first() =~= written(c));
    assert(infix_chain(c, none, prec2.above()) == Ok::<(Expr<()>, Seq<Lexeme>), Failure>(
        (c, none),
    ));
    assert(expression_at(written(c), prec2.above()) == Ok::<(Expr<()>, Seq<Lexeme>), Failure>(
        (c, none),
    ));
    if prec2.level() > prec1.level() {
        let inner = Expr::Binary(second, Box::new(b), Box::new(c), ());
        let outer = Expr::Binary(first, Box::new(a), Box::new(inner), ());
        assert(infix_chain(inner, none, prec1.above()) == Ok::<(Expr<()>, Seq<Lexeme>), Failure>(
            (inner, none),
        ));
        assert(infix_chain(b, after_b, prec1.above()) == Ok::<(Expr<()>, Seq<Lexeme>), Failure>(
            (inner, none),
        ));
        assert(expression_at(after_first, prec1.above()) == Ok::<
            (Expr<()>, Seq<Lexeme>),
            Failure,
        >((inner, none)));
        assert(infix_chain(outer, none, Prec::Bottom) == Ok::<(Expr<()>, Seq<Lexeme>), Failure>(
            (outer, none),
        ));
        assert(infix_chain(a, after_a, Prec::Bottom) == Ok::<(Expr<()>, Seq<Lexeme>), Failure>(
            (outer, none),
        ));
    } else {
        let inner = Expr::Binary(first, Box::new(a), Box::new(b), ());
        let outer = Expr::Binary(second, Box::new(inner), Box::new(c), ());
        assert(infix_chain(b, after_b, prec1.above()) == Ok::<(Expr<()>, Seq<Lexeme>), Failure>(
            (b, after_b),
        ));
        assert(expression_at(after_first, prec1.above()) == Ok::<
            (Expr<()>, Seq<Lexeme>),
            Failure,
        >((b, after_b)));
        assert(infix_chain(outer, none, Prec::Bottom) == Ok::<(Expr<()>, Seq<Lexeme>), Failure>(
            (outer, none),
        ));
        assert(infix_chain(inner, after_b, Prec::Bottom) == Ok::<(Expr<()>, Seq<Lexeme>), Failure>(
            (outer, none),
        ));
        assert(infix_chain(a, after_a, Prec::Bottom) == Ok::<(Expr<()>, Seq<Lexeme>), Failure>(
            (outer, none),
        ));
    }
}

} // verus!
