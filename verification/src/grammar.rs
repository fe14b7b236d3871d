//! The grammar: which tree a sequence of tokens stands for.
//!
//! An expression is read by precedence climbing. A token that can start an
//! expression has a prefix rule; the four arithmetic operators have an infix
//! rule and a binding precedence. The functions here follow the token
//! sequence from its front and give the tree together with the tokens that
//! are left, or the failure that ends the parse.

use crate::ast::{BinOp, Expr};
use crate::number::literal_value;
use crate::precedence::Prec;
use crate::scanner::Lexeme;
use vstd::prelude::*;

verus! {

/// Why a token sequence is no expression.
pub enum Failure {
    /// The tokens ran out where one was needed.
    Eof,
    /// A token does not fit its place; the message says which was met.
    UnexpectedToken(Seq<char>),
    /// A token has no rule for the place it stands at: no prefix rule where
    /// an expression starts, or no infix rule behind the root expression;
    /// the message names it.
    NotImplemented(Seq<char>),
}

/// A tree with the tokens that follow it, or a failure.
pub type Parse = Result<(Expr<()>, Seq<Lexeme>), Failure>;

/// The message for a token sequence that holds `found` where `expected`
/// must stand.
pub open spec fn expected_message(expected: Lexeme, found: Lexeme) -> Seq<char> {
    "Expected token "@ + expected.description() + ", found "@ + found.description()
}

/// The message for a number literal without a value.
pub open spec fn number_message(text: Seq<char>) -> Seq<char> {
    "Failed to parse number "@ + text
}

/// The message for a block without expressions.
pub open spec fn empty_block_message() -> Seq<char> {
    "Empty block"@
}

/// The message for a `let` that no identifier follows.
pub open spec fn identifier_message(found: Lexeme) -> Seq<char> {
    "Expected identifier, found "@ + found.description()
}

/// The message for a token that cannot start an expression.
pub open spec fn prefix_message(found: Lexeme) -> Seq<char> {
    "No prefix rule for token type "@ + found.description()
}

/// The message for a token that cannot follow an expression.
pub open spec fn infix_message(found: Lexeme) -> Seq<char> {
    "No infix rule for token type "@ + found.description()
}

/// The operator and binding precedence of a token with an infix rule.
pub open spec fn infix_rule(t: Lexeme) -> Option<(BinOp, Prec)> {
    match t {
        Lexeme::Plus => Some((BinOp::Add, Prec::AddSub)),
        Lexeme::Minus => Some((BinOp::Sub, Prec::AddSub)),
        Lexeme::Star => Some((BinOp::Mul, Prec::MultDiv)),
        Lexeme::Slash => Some((BinOp::Div, Prec::MultDiv)),
        _ => None,
    }
}

/// The binding precedence of a token: that of its infix rule, `Bottom`
/// without one.
pub open spec fn precedence(t: Lexeme) -> Prec {
    match infix_rule(t) {
        Some((_, p)) => p,
        None => Prec::Bottom,
    }
}

/// The tokens after a leading `wanted`.
pub open spec fn expect(ts: Seq<Lexeme>, wanted: Lexeme) -> Result<Seq<Lexeme>, Failure> {
    if ts.len() == 0 {
        Err(Failure::Eof)
    } else if ts[0] == wanted {
        Ok(ts.drop_first())
    } else {
        Err(Failure::UnexpectedToken(expected_message(wanted, ts[0])))
    }
}

/// Whether the remainder `rest` of a parse of `ts` is shorter than `ts`.
/// Every rule consumes a token (`lemma_expression_consumes` and the lemmas
/// beside it), so this holds of each remainder; the rules test it for their
/// recursion to be well founded.
pub open spec fn consumed(rest: Seq<Lexeme>, ts: Seq<Lexeme>) -> bool {
    rest.len() < ts.len()
}

/// An expression whose operators all bind at least as tightly as `min`: an
/// operand, then as many operator-operand pairs as follow it.
pub open spec fn expression_at(ts: Seq<Lexeme>, min: Prec) -> Parse
    decreases ts.len(), 1nat,
{
    match operand(ts) {
        Ok((lhs, rest)) => if consumed(rest, ts) {
            infix_chain(lhs, rest, min)
        } else {
            Err(Failure::Eof)
        },
        Err(failure) => Err(failure),
    }
}

/// What the first token starts by its prefix rule: a literal, a group, a
/// block, a `let`, a variable reference or a conditional.
pub open spec fn operand(ts: Seq<Lexeme>) -> Parse
    decreases ts.len(), 0nat,
{
    if ts.len() == 0 {
        Err(Failure::Eof)
    } else {
        let rest = ts.drop_first();
        match ts[0] {
            Lexeme::True => Ok((Expr::BoolLit(true, ()), rest)),
            Lexeme::False => Ok((Expr::BoolLit(false, ()), rest)),
            Lexeme::Number(text) => match literal_value(text) {
                Some(n) => Ok((Expr::Num(n, ()), rest)),
                None => Err(Failure::UnexpectedToken(number_message(text))),
            },
            Lexeme::LParen => grouping(rest),
            Lexeme::LBrace => block(rest),
            Lexeme::Let => let_decl(rest),
            Lexeme::Var(name) => Ok((Expr::VarRef(name, ()), rest)),
            Lexeme::If => conditional(rest),
            other => Err(Failure::NotImplemented(prefix_message(other))),
        }
    }
}

/// Extends `lhs` by the operators that follow it, as long as the next token
/// has an infix rule whose precedence is at least `min`. The right operand
/// of an operator is read one level above the operator's own precedence, so
/// operators of one level group to the left.
pub open spec fn infix_chain(lhs: Expr<()>, ts: Seq<Lexeme>, min: Prec) -> Parse
    decreases ts.len(), 2nat,
{
    if ts.len() > 0 && precedence(ts[0]).level() >= min.level() {
        match infix_rule(ts[0]) {
            Some((op, prec)) => match expression_at(ts.drop_first(), prec.above()) {
                Ok((rhs, rest)) => if consumed(rest, ts) {
                    infix_chain(Expr::Binary(op, Box::new(lhs), Box::new(rhs), ()), rest, min)
                } else {
                    Err(Failure::Eof)
                },
                Err(failure) => Err(failure),
            },
            None => Ok((lhs, ts)),
        }
    } else {
        Ok((lhs, ts))
    }
}

/// A group, after its `(`: an expression and the closing `)`.
pub open spec fn grouping(ts: Seq<Lexeme>) -> Parse
    decreases ts.len(), 2nat,
{
    match expression_at(ts, Prec::Expr) {
        Ok((inner, rest)) => match expect(rest, Lexeme::RParen) {
            Ok(after) => Ok((inner, after)),
            Err(failure) => Err(failure),
        },
        Err(failure) => Err(failure),
    }
}

/// A block, after its `{`: one expression or more, with `;` between them,
/// and the closing `}`.
pub open spec fn block(ts: Seq<Lexeme>) -> Parse
    decreases ts.len(), 2nat,
{
    if ts.len() > 0 && ts[0] == Lexeme::RBrace {
        Err(Failure::UnexpectedToken(empty_block_message()))
    } else {
        match expression_at(ts, Prec::Expr) {
            Ok((first, rest)) => if consumed(rest, ts) {
                block_rest(seq![first], rest)
            } else {
                Err(Failure::Eof)
            },
            Err(failure) => Err(failure),
        }
    }
}

/// The rest of a block whose first expressions are `items`.
pub open spec fn block_rest(items: Seq<Expr<()>>, ts: Seq<Lexeme>) -> Parse
    decreases ts.len(), 2nat,
{
    if ts.len() > 0 && ts[0] == Lexeme::Semicolon {
        match expression_at(ts.drop_first(), Prec::Expr) {
            Ok((item, rest)) => if consumed(rest, ts) {
                block_rest(items.push(item), rest)
            } else {
                Err(Failure::Eof)
            },
            Err(failure) => Err(failure),
        }
    } else {
        match expect(ts, Lexeme::RBrace) {
            Ok(after) => Ok((Expr::Block(items, ()), after)),
            Err(failure) => Err(failure),
        }
    }
}

/// A declaration, after its `let`: an identifier, `=` and the initializer.
pub open spec fn let_decl(ts: Seq<Lexeme>) -> Parse
    decreases ts.len(), 2nat,
{
    if ts.len() == 0 {
        Err(Failure::Eof)
    } else {
        match ts[0] {
            Lexeme::Var(name) => match expect(ts.drop_first(), Lexeme::SingleEq) {
                Ok(rest) => match expression_at(rest, Prec::Expr) {
                    Ok((init, after)) => Ok((Expr::Let(name, Box::new(init), ()), after)),
                    Err(failure) => Err(failure),
                },
                Err(failure) => Err(failure),
            },
            other => Err(Failure::UnexpectedToken(identifier_message(other))),
        }
    }
}

/// A conditional, after its `if`: the test, a block in braces, `else` and
/// a second block in braces.
pub open spec fn conditional(ts: Seq<Lexeme>) -> Parse
    decreases ts.len(), 2nat,
{
    match expression_at(ts, Prec::Expr) {
        Ok((test, rest)) => match expect(rest, Lexeme::LBrace) {
            Ok(rest) => if consumed(rest, ts) {
                match block(rest) {
                    Ok((then_branch, rest)) => match expect(rest, Lexeme::Else) {
                        Ok(rest) => match expect(rest, Lexeme::LBrace) {
                            Ok(rest) => if consumed(rest, ts) {
                                match block(rest) {
                                    Ok((else_branch, after)) => Ok(
                                        (
                                            Expr::If(
                                                Box::new(test),
                                                Box::new(then_branch),
                                                Box::new(else_branch),
                                                (),
                                            ),
                                            after,
                                        ),
                                    ),
                                    Err(failure) => Err(failure),
                                }
                            } else {
                                Err(Failure::Eof)
                            },
                            Err(failure) => Err(failure),
                        },
                        Err(failure) => Err(failure),
                    },
                    Err(failure) => Err(failure),
                }
            } else {
                Err(Failure::Eof)
            },
            Err(failure) => Err(failure),
        },
        Err(failure) => Err(failure),
    }
}

/// The tree that a token sequence stands for: its root expression, which
/// takes all the tokens. A token that is left over extends no expression.
pub open spec fn parse(ts: Seq<Lexeme>) -> Result<Expr<()>, Failure> {
    match expression_at(ts, Prec::Bottom) {
        Ok((root, rest)) => if rest.len() == 0 {
            Ok(root)
        } else {
            Err(Failure::NotImplemented(infix_message(rest[0])))
        },
        Err(failure) => Err(failure),
    }
}

/// An expression takes at least one token.
pub proof fn lemma_expression_consumes(ts: Seq<Lexeme>, min: Prec)
    ensures
        expression_at(ts, min) matches Ok((_, rest)) ==> consumed(rest, ts),
    decreases ts.len(), 1nat,
{
    lemma_operand_consumes(ts);
    if let Ok((lhs, rest)) = operand(ts) {
        lemma_infix_chain_consumes(lhs, rest, min);
    }
}

/// An operand takes at least one token.
pub proof fn lemma_operand_consumes(ts: Seq<Lexeme>)
    ensures
        operand(ts) matches Ok((_, rest)) ==> consumed(rest, ts),
    decreases ts.len(), 0nat,
{
    if ts.len() > 0 {
        let rest = ts.drop_first();
        match ts[0] {
            Lexeme::LParen => lemma_grouping_consumes(rest),
            Lexeme::LBrace => lemma_block_consumes(rest),
            Lexeme::Let => lemma_let_decl_consumes(rest),
            Lexeme::If => lemma_conditional_consumes(rest),
            _ => {},
        }
    }
}

/// A chain of operators leaves no more tokens than it was given.
pub proof fn lemma_infix_chain_consumes(lhs: Expr<()>, ts: Seq<Lexeme>, min: Prec)
    ensures
        infix_chain(lhs, ts, min) matches Ok((_, rest)) ==> rest.len() <= ts.len(),
    decreases ts.len(), 2nat,
{
    if ts.len() > 0 && precedence(ts[0]).level() >= min.level() {
        if let Some((op, prec)) = infix_rule(ts[0]) {
            lemma_expression_consumes(ts.drop_first(), prec.above());
            if let Ok((rhs, rest)) = expression_at(ts.drop_first(), prec.above()) {
                lemma_infix_chain_consumes(
                    Expr::Binary(op, Box::new(lhs), Box::new(rhs), ()),
                    rest,
                    min,
                );
            }
        }
    }
}

/// A group takes at least one token after its `(`.
pub proof fn lemma_grouping_consumes(ts: Seq<Lexeme>)
    ensures
        grouping(ts) matches Ok((_, rest)) ==> consumed(rest, ts),
    decreases ts.len(), 2nat,
{
    lemma_expression_consumes(ts, Prec::Expr);
}

/// A block takes at least one token after its `{`.
pub proof fn lemma_block_consumes(ts: Seq<Lexeme>)
    ensures
        block(ts) matches Ok((_, rest)) ==> consumed(rest, ts),
    decreases ts.len(), 2nat,
{
    if !(ts.len() > 0 && ts[0] == Lexeme::RBrace) {
        lemma_expression_consumes(ts, Prec::Expr);
        if let Ok((first, rest)) = expression_at(ts, Prec::Expr) {
            lemma_block_rest_consumes(seq![first], rest);
        }
    }
}

/// The rest of a block takes at least one token.
pub proof fn lemma_block_rest_consumes(items: Seq<Expr<()>>, ts: Seq<Lexeme>)
    ensures
        block_rest(items, ts) matches Ok((_, rest)) ==> consumed(rest, ts),
    decreases ts.len(), 2nat,
{
    if ts.len() > 0 && ts[0] == Lexeme::Semicolon {
        lemma_expression_consumes(ts.drop_first(), Prec::Expr);
        if let Ok((item, rest)) = expression_at(ts.drop_first(), Prec::Expr) {
            lemma_block_rest_consumes(items.push(item), rest);
        }
    }
}

/// A declaration takes at least one token after its `let`.
pub proof fn lemma_let_decl_consumes(ts: Seq<Lexeme>)
    ensures
        let_decl(ts) matches Ok((_, rest)) ==> consumed(rest, ts),
    decreases ts.len(), 2nat,
{
    if ts.len() > 0 {
        if let Ok(rest) = expect(ts.drop_first(), Lexeme::SingleEq) {
            lemma_expression_consumes(rest, Prec::Expr);
        }
    }
}

/// A conditional takes at least one token after its `if`.
pub proof fn lemma_conditional_consumes(ts: Seq<Lexeme>)
    ensures
        conditional(ts) matches Ok((_, rest)) ==> consumed(rest, ts),
    decreases ts.len(), 2nat,
{
    lemma_expression_consumes(ts, Prec::Expr);
    if let Ok((_, rest)) = expression_at(ts, Prec::Expr) {
        if let Ok(rest) = expect(rest, Lexeme::LBrace) {
            lemma_block_consumes(rest);
            if let Ok((_, rest)) = block(rest) {
                if let Ok(rest) = expect(rest, Lexeme::Else) {
                    if let Ok(rest) = expect(rest, Lexeme::LBrace) {
                        lemma_block_consumes(rest);
                    }
                }
            }
        }
    }
}

/// Whether a chain of operators at `min` goes on with the tokens `ts`:
/// whether the first of them has an infix rule that binds tightly enough.
pub open spec fn extends(ts: Seq<Lexeme>, min: Prec) -> bool {
    ts.len() > 0 && infix_rule(ts[0]) is Some && precedence(ts[0]).level() >= min.level()
}

/// An expression ends where the tokens end or where the next token does not
/// extend it.
pub proof fn lemma_expression_end(ts: Seq<Lexeme>, min: Prec)
    ensures
        expression_at(ts, min) matches Ok((_, rest)) ==> !extends(rest, min),
{
    if let Ok((lhs, rest)) = operand(ts) {
        lemma_infix_chain_end(lhs, rest, min);
    }
}

/// A chain of operators ends where the tokens end or where the next token
/// does not extend it.
pub proof fn lemma_infix_chain_end(lhs: Expr<()>, ts: Seq<Lexeme>, min: Prec)
    ensures
        infix_chain(lhs, ts, min) matches Ok((_, rest)) ==> !extends(rest, min),
    decreases ts.len(),
{
    if extends(ts, min) {
        let (op, prec) = infix_rule(ts[0]).unwrap();
        if let Ok((rhs, rest)) = expression_at(ts.drop_first(), prec.above()) {
            lemma_expression_consumes(ts.drop_first(), prec.above());
            lemma_infix_chain_end(Expr::Binary(op, Box::new(lhs), Box::new(rhs), ()), rest, min);
        }
    }
}

/// Whether a parse before `suffix` cannot reach into it: `suffix` is empty
/// or starts with a token without an infix rule.
pub open spec fn inert(suffix: Seq<Lexeme>) -> bool {
    suffix.len() == 0 || infix_rule(suffix[0]) is None
}

/// The parse `p`, with `suffix` behind the tokens it left.
pub open spec fn followed_by(p: Parse, suffix: Seq<Lexeme>) -> Parse {
    match p {
        Ok((tree, rest)) => Ok((tree, rest + suffix)),
        Err(failure) => Err(failure),
    }
}

/// What follows the token that `expect` takes does not matter to it.
pub proof fn lemma_expect_ignores_suffix(ts: Seq<Lexeme>, wanted: Lexeme, suffix: Seq<Lexeme>)
    ensures
        expect(ts, wanted) matches Ok(rest) ==> expect(ts + suffix, wanted) == Ok::<
            Seq<Lexeme>,
            Failure,
        >(rest + suffix),
{
    if ts.len() > 0 {
        assert((ts + suffix).drop_first() =~= ts.drop_first() + suffix);
    }
}

/// An expression that parses stays the same expression when tokens are put
/// behind it that start with none that has an infix rule.
pub proof fn lemma_expression_ignores_suffix(ts: Seq<Lexeme>, min: Prec, suffix: Seq<Lexeme>)
    requires
        inert(suffix),
    ensures
        expression_at(ts, min) is Ok ==> expression_at(ts + suffix, min) == followed_by(
            expression_at(ts, min),
            suffix,
        ),
    decreases ts.len(), 1nat,
{
    lemma_operand_ignores_suffix(ts, suffix);
    if let Ok((lhs, rest)) = operand(ts) {
        lemma_operand_consumes(ts);
        lemma_operand_consumes(ts + suffix);
        lemma_infix_chain_ignores_suffix(lhs, rest, min, suffix);
    }
}

/// An operand that parses stays the same when tokens are put behind it.
pub proof fn lemma_operand_ignores_suffix(ts: Seq<Lexeme>, suffix: Seq<Lexeme>)
    requires
        inert(suffix),
    ensures
        operand(ts) is Ok ==> operand(ts + suffix) == followed_by(operand(ts), suffix),
    decreases ts.len(), 0nat,
{
    if ts.len() > 0 {
        let rest = ts.drop_first();
        assert((ts + suffix).drop_first() =~= rest + suffix);
        match ts[0] {
            Lexeme::LParen => lemma_grouping_ignores_suffix(rest, suffix),
            Lexeme::LBrace => lemma_block_ignores_suffix(rest, suffix),
            Lexeme::Let => lemma_let_decl_ignores_suffix(rest, suffix),
            Lexeme::If => lemma_conditional_ignores_suffix(rest, suffix),
            _ => {},
        }
    }
}

/// A chain of operators that parses stays the same when tokens are put
/// behind it.
pub proof fn lemma_infix_chain_ignores_suffix(
    lhs: Expr<()>,
    ts: Seq<Lexeme>,
    min: Prec,
    suffix: Seq<Lexeme>,
)
    requires
        inert(suffix),
    ensures
        infix_chain(lhs, ts, min) is Ok ==> infix_chain(lhs, ts + suffix, min) == followed_by(
            infix_chain(lhs, ts, min),
            suffix,
        ),
    decreases ts.len(), 2nat,
{
    if ts.len() == 0 {
        assert(ts + suffix =~= suffix);
    } else {
        assert((ts + suffix).drop_first() =~= ts.drop_first() + suffix);
        if precedence(ts[0]).level() >= min.level() {
            if let Some((op, prec)) = infix_rule(ts[0]) {
                let after = ts.drop_first();
                lemma_expression_ignores_suffix(after, prec.above(), suffix);
                if let Ok((rhs, rest)) = expression_at(after, prec.above()) {
                    lemma_expression_consumes(after, prec.above());
                    lemma_expression_consumes(after + suffix, prec.above());
                    lemma_infix_chain_ignores_suffix(
                        Expr::Binary(op, Box::new(lhs), Box::new(rhs), ()),
                        rest,
                        min,
                        suffix,
                    );
                }
            }
        }
    }
}

/// A group that parses stays the same when tokens are put behind it.
pub proof fn lemma_grouping_ignores_suffix(ts: Seq<Lexeme>, suffix: Seq<Lexeme>)
    requires
        inert(suffix),
    ensures
        grouping(ts) is Ok ==> grouping(ts + suffix) == followed_by(grouping(ts), suffix),
    decreases ts.len(), 2nat,
{
    lemma_expression_ignores_suffix(ts, Prec::Expr, suffix);
    if let Ok((_, rest)) = expression_at(ts, Prec::Expr) {
        lemma_expect_ignores_suffix(rest, Lexeme::RParen, suffix);
    }
}

/// A block that parses stays the same when tokens are put behind it.
pub proof fn lemma_block_ignores_suffix(ts: Seq<Lexeme>, suffix: Seq<Lexeme>)
    requires
        inert(suffix),
    ensures
        block(ts) is Ok ==> block(ts + suffix) == followed_by(block(ts), suffix),
    decreases ts.len(), 2nat,
{
    if ts.len() > 0 && ts[0] != Lexeme::RBrace {
        lemma_expression_ignores_suffix(ts, Prec::Expr, suffix);
        if let Ok((first, rest)) = expression_at(ts, Prec::Expr) {
            lemma_expression_consumes(ts, Prec::Expr);
            lemma_expression_consumes(ts + suffix, Prec::Expr);
            lemma_block_rest_ignores_suffix(seq![first], rest, suffix);
        }
    }
}

/// The rest of a block that parses stays the same when tokens are put
/// behind it.
pub proof fn lemma_block_rest_ignores_suffix(
    items: Seq<Expr<()>>,
    ts: Seq<Lexeme>,
    suffix: Seq<Lexeme>,
)
    requires
        inert(suffix),
    ensures
        block_rest(items, ts) is Ok ==> block_rest(items, ts + suffix) == followed_by(
            block_rest(items, ts),
            suffix,
        ),
    decreases ts.len(), 2nat,
{
    if ts.len() > 0 {
        assert((ts + suffix).drop_first() =~= ts.drop_first() + suffix);
        if ts[0] == Lexeme::Semicolon {
            let after = ts.drop_first();
            lemma_expression_ignores_suffix(after, Prec::Expr, suffix);
            if let Ok((item, rest)) = expression_at(after, Prec::Expr) {
                lemma_expression_consumes(after, Prec::Expr);
                lemma_expression_consumes(after + suffix, Prec::Expr);
                lemma_block_rest_ignores_suffix(items.push(item), rest, suffix);
            }
        } else {
            lemma_expect_ignores_suffix(ts, Lexeme::RBrace, suffix);
        }
    }
}

/// A declaration that parses stays the same when tokens are put behind it.
pub proof fn lemma_let_decl_ignores_suffix(ts: Seq<Lexeme>, suffix: Seq<Lexeme>)
    requires
        inert(suffix),
    ensures
        let_decl(ts) is Ok ==> let_decl(ts + suffix) == followed_by(let_decl(ts), suffix),
    decreases ts.len(), 2nat,
{
    if ts.len() > 0 {
        assert((ts + suffix).drop_first() =~= ts.drop_first() + suffix);
        lemma_expect_ignores_suffix(ts.drop_first(), Lexeme::SingleEq, suffix);
        if let Ok(rest) = expect(ts.drop_first(), Lexeme::SingleEq) {
            lemma_expression_ignores_suffix(rest, Prec::Expr, suffix);
        }
    }
}

/// A conditional that parses stays the same when tokens are put behind it.
pub proof fn lemma_conditional_ignores_suffix(ts: Seq<Lexeme>, suffix: Seq<Lexeme>)
    requires
        inert(suffix),
    ensures
        conditional(ts) is Ok ==> conditional(ts + suffix) == followed_by(
            conditional(ts),
            suffix,
        ),
    decreases ts.len(), 2nat,
{
    lemma_expression_ignores_suffix(ts, Prec::Expr, suffix);
    if let Ok((_, rest)) = expression_at(ts, Prec::Expr) {
        lemma_expression_consumes(ts, Prec::Expr);
        lemma_expect_ignores_suffix(rest, Lexeme::LBrace, suffix);
        if let Ok(rest) = expect(rest, Lexeme::LBrace) {
            lemma_block_ignores_suffix(rest, suffix);
            lemma_block_consumes(rest);
            if let Ok((_, rest)) = block(rest) {
                lemma_expect_ignores_suffix(rest, Lexeme::Else, suffix);
                if let Ok(rest) = expect(rest, Lexeme::Else) {
                    lemma_expect_ignores_suffix(rest, Lexeme::LBrace, suffix);
                    if let Ok(rest) = expect(rest, Lexeme::LBrace) {
                        lemma_block_ignores_suffix(rest, suffix);
                    }
                }
            }
        }
    }
}

} // verus!
