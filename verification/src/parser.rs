//! The parser: tokens to a syntax tree, by precedence climbing.

use crate::ast::{lemma_block_model, models, BinOp, Expr, HuckAst};
use crate::grammar::{
    block, block_rest, conditional, expect, expression_at, grouping, infix_chain, infix_message,
    infix_rule, lemma_expression_consumes, lemma_expression_end, let_decl, number_message,
    operand, parse, precedence, prefix_message, Failure, Parse,
};
use crate::number::{literal_value, parse_u64};
use crate::precedence::Prec;
use crate::scanner::{tokens, Lexeme, Scanner, Token};
use vstd::prelude::*;

verus! {

/// Why parsing stopped.
#[derive(Debug, PartialEq)]
pub enum ParseError {
    /// The tokens ran out where one was needed.
    Eof,
    /// A token does not fit its place; the message says which was met.
    UnexpectedToken(String),
    /// A token has no rule for the place it stands at: no prefix rule where
    /// an expression starts, or no infix rule behind the root expression;
    /// the message names it.
    NotImplemented(String),
}

impl View for ParseError {
    type V = Failure;

    open spec fn view(&self) -> Failure {
        match self {
            ParseError::Eof => Failure::Eof,
            ParseError::UnexpectedToken(message) => Failure::UnexpectedToken(message@),
            ParseError::NotImplemented(message) => Failure::NotImplemented(message@),
        }
    }
}

/// A tree without type information.
pub type ParseOutput = HuckAst<()>;

/// What a parsing step returns.
pub type ParseResult = Result<ParseOutput, ParseError>;

/// How a token starts an expression.
#[derive(Debug, Clone, Copy, PartialEq, Eq)]
pub enum PrefixRule {
    BoolLit,
    Number,
    Grouping,
    Block,
    LetDecl,
    VarRef,
    Conditional,
}

/// How a token extends the expression before it.
#[derive(Debug, Clone, Copy, PartialEq, Eq)]
pub enum InfixRule {
    Plus,
    Minus,
    Times,
    Div,
}

/// Whether a step that returned `result` and left the tokens `left` did what
/// the grammar gives as `expected`.
pub open spec fn parsed_as(result: ParseResult, left: Seq<Lexeme>, expected: Parse) -> bool {
    match expected {
        Ok((tree, rest)) => result matches Ok(ast) && ast@ == tree && left == rest,
        Err(failure) => result matches Err(error) && error@ == failure,
    }
}

/// The node for an arithmetic operator and its operands.
fn binary_node(op: BinOp, lhs: ParseOutput, rhs: ParseOutput) -> (node: ParseOutput)
    ensures
        node@ == Expr::Binary(op, Box::new(lhs@), Box::new(rhs@), ()),
{
    match op {
        BinOp::Add => HuckAst::Plus(Box::new(lhs), Box::new(rhs), ()),
        BinOp::Sub => HuckAst::Minus(Box::new(lhs), Box::new(rhs), ()),
        BinOp::Mul => HuckAst::Times(Box::new(lhs), Box::new(rhs), ()),
        BinOp::Div => HuckAst::Div(Box::new(lhs), Box::new(rhs), ()),
    }
}

/// A parser over the tokens of a scanner, with one token of lookahead.
pub struct Parser<'a> {
    /// Where the tokens after the lookahead come from.
    tokens: Scanner<'a>,
    /// The next token, read ahead; `None` once the tokens have ended.
    peeked: Option<Token<'a>>,
}

impl<'a> View for Parser<'a> {
    type V = Seq<Lexeme>;

    /// The tokens that have not been consumed yet.
    closed spec fn view(&self) -> Seq<Lexeme> {
        match self.peeked {
            Some(token) => seq![token@] + tokens(self.tokens@),
            None => Seq::empty(),
        }
    }
}

impl<'a> Parser<'a> {
    /// A parser over the tokens that `tokens` has yet to hand out.
    pub fn new(tokens: Scanner<'a>) -> (parser: Self)
        ensures
            parser@ == crate::scanner::tokens(tokens@),
    {
        let mut tokens = tokens;
        let peeked = tokens.next();
        Parser { tokens, peeked }
    }

    /// Parses the whole token sequence as one expression. A token that is
    /// left behind the expression is an error: it has no infix rule, or the
    /// expression would have gone on with it.
    pub fn parse(&mut self) -> (result: ParseResult)
        ensures
            match parse(old(self)@) {
                Ok(tree) => result matches Ok(ast) && ast@ == tree && final(self)@.len() == 0,
                Err(failure) => result matches Err(error) && error@ == failure,
            },
    {
        let root = match self.parse_prec(Prec::Bottom) {
            Ok(root) => root,
            Err(error) => {
                return Err(error);
            },
        };
        match self.peek() {
            None => Ok(root),
            Some(token) => match Self::get_infix_rule(token) {
                Err(error) => Err(error),
                Ok(_) => {
                    // Not reached: the expression would have gone on with
                    // this token.
                    proof {
                        lemma_expression_end(old(self)@, Prec::Bottom);
                    }
                    assert(false);
                    Ok(root)
                },
            },
        }
    }

    /// The next token; it stays in the sequence.
    fn peek(&self) -> (token: Option<Token<'a>>)
        ensures
            match token {
                Some(t) => self@.len() > 0 && self@[0] == t@,
                None => self@.len() == 0,
            },
    {
        self.peeked
    }

    /// Takes the next token out of the sequence.
    fn advance(&mut self) -> (token: Option<Token<'a>>)
        ensures
            match token {
                Some(t) => old(self)@.len() > 0 && old(self)@[0] == t@ && final(self)@ == old(
                    self,
                )@.drop_first(),
                None => old(self)@.len() == 0 && final(self)@.len() == 0,
            },
    {
        let token = self.peeked;
        if token.is_some() {
            self.peeked = self.tokens.next();
            assert(self@ =~= old(self)@.drop_first());
        }
        token
    }

    /// An expression that may stand inside a group, a block or a declaration.
    fn expression(&mut self) -> (result: ParseResult)
        ensures
            parsed_as(result, final(self)@, expression_at(old(self)@, Prec::Expr)),
        decreases old(self)@.len(), 2nat,
    {
        self.parse_prec(Prec::Expr)
    }

    /// An expression whose operators bind at least as tightly as `prec`.
    fn parse_prec(&mut self, prec: Prec) -> (result: ParseResult)
        ensures
            parsed_as(result, final(self)@, expression_at(old(self)@, prec)),
        decreases old(self)@.len(), 1nat,
    {
        let ghost start = self@;
        // If we get here, there has to be another token.
        let t = match self.advance() {
            Some(t) => t,
            None => {
                return Err(ParseError::Eof);
            },
        };
        assert(start =~= seq![t@] + self@);
        let prefix_rule = match Self::get_prefix_rule(t) {
            Ok(rule) => rule,
            Err(error) => {
                return Err(error);
            },
        };
        let mut lhs = match self.prefix(prefix_rule, t) {
            Ok(lhs) => lhs,
            Err(error) => {
                return Err(error);
            },
        };
        proof {
            crate::grammar::lemma_operand_consumes(start);
        }
        loop
            invariant
                start == old(self)@,
                self@.len() < start.len(),
                infix_chain(lhs@, self@, prec) == expression_at(start, prec),
            ensures
                infix_chain(lhs@, self@, prec) == Ok::<(Expr<()>, Seq<Lexeme>), Failure>(
                    (lhs@, self@),
                ),
                infix_chain(lhs@, self@, prec) == expression_at(start, prec),
            decreases self@.len(),
        {
            let next = match self.peek() {
                Some(next) => next,
                None => {
                    break ;
                },
            };
            // Go on while the next token binds at least as tightly as asked.
            if !Self::get_prec(next).at_least(prec) {
                break ;
            }
            let infix_rule = match Self::get_infix_rule(next) {
                Ok(rule) => rule,
                Err(_) => {
                    break ;
                },
            };
            let ghost before = self@;
            let _ = self.advance();
            proof {
                lemma_expression_consumes(before.drop_first(), precedence(next@).above());
            }
            lhs = match self.infix(infix_rule, next, lhs) {
                Ok(lhs) => lhs,
                Err(error) => {
                    return Err(error);
                },
            };
        }
        Ok(lhs)
    }

    /// Runs a prefix rule on the token `token`, which has just been taken.
    fn prefix(&mut self, rule: PrefixRule, token: Token<'a>) -> (result: ParseResult)
        requires
            Self::get_prefix_rule_spec(token@) == Some(rule),
        ensures
            parsed_as(result, final(self)@, operand(seq![token@] + old(self)@)),
        decreases old(self)@.len(), 4nat,
    {
        assert((seq![token@] + self@).drop_first() =~= self@);
        match rule {
            PrefixRule::BoolLit => self.bool_lit(token),
            PrefixRule::Number => self.number(token),
            PrefixRule::Grouping => self.grouping(token),
            PrefixRule::Block => self.block(token),
            PrefixRule::LetDecl => self.let_decl(token),
            PrefixRule::VarRef => self.var_ref(token),
            PrefixRule::Conditional => self.conditional(token),
        }
    }

    /// Runs an infix rule on the operator `token`, which has just been taken,
    /// and the expression `lhs` before it.
    fn infix(&mut self, rule: InfixRule, token: Token<'a>, lhs: ParseOutput) -> (result:
        ParseResult)
        requires
            Self::get_infix_rule_spec(token@) == Some(rule),
        ensures
            infix_rule(token@) matches Some((op, prec)) && match expression_at(
                old(self)@,
                prec.above(),
            ) {
                Ok((rhs, rest)) => result matches Ok(ast) && ast@ == Expr::Binary(
                    op,
                    Box::new(lhs@),
                    Box::new(rhs),
                    (),
                ) && final(self)@ == rest,
                Err(failure) => result matches Err(error) && error@ == failure,
            },
        decreases old(self)@.len(), 4nat,
    {
        match rule {
            InfixRule::Plus => self.plus(token, lhs),
            InfixRule::Minus => self.minus(token, lhs),
            InfixRule::Times => self.times(token, lhs),
            InfixRule::Div => self.div(token, lhs),
        }
    }

    /// A number literal.
    fn number(&mut self, token: Token<'a>) -> (result: ParseResult)
        ensures
            final(self)@ == old(self)@,
            match token@ {
                Lexeme::Number(text) => match literal_value(text) {
                    Some(n) => result matches Ok(ast) && ast@ == Expr::Num(n, ()),
                    None => result matches Err(error) && error@ == Failure::UnexpectedToken(
                        number_message(text),
                    ),
                },
                other => result matches Err(error) && error@ == Failure::UnexpectedToken(
                    "Expected number, found "@ + other.description(),
                ),
            },
    {
        match token {
            Token::Number(num_str) => {
                match parse_u64(num_str) {
                    Some(num) => Ok(HuckAst::Num(num, ())),
                    None => Err(
                        ParseError::UnexpectedToken(
                            String::from_str("Failed to parse number ").concat(num_str),
                        ),
                    ),
                }
            },
            _ => Err(
                ParseError::UnexpectedToken(
                    String::from_str("Expected number, found ").concat(
                        token.description().as_str(),
                    ),
                ),
            ),
        }
    }

    /// The right operand of an operator of precedence `prec`, joined to `lhs`.
    fn binary(&mut self, op: BinOp, prec: Prec, lhs: ParseOutput) -> (result: ParseResult)
        ensures
            match expression_at(old(self)@, prec.above()) {
                Ok((rhs, rest)) => result matches Ok(ast) && ast@ == Expr::Binary(
                    op,
                    Box::new(lhs@),
                    Box::new(rhs),
                    (),
                ) && final(self)@ == rest,
                Err(failure) => result matches Err(error) && error@ == failure,
            },
        decreases old(self)@.len(), 2nat,
    {
        let rhs = match self.parse_prec(Prec::next(prec)) {
            Ok(rhs) => rhs,
            Err(error) => {
                return Err(error);
            },
        };
        Ok(binary_node(op, lhs, rhs))
    }

    /// An addition.
    fn plus(&mut self, _token: Token<'a>, lhs: ParseOutput) -> (result: ParseResult)
        ensures
            match expression_at(old(self)@, Prec::MultDiv) {
                Ok((rhs, rest)) => result matches Ok(ast) && ast@ == Expr::Binary(
                    BinOp::Add,
                    Box::new(lhs@),
                    Box::new(rhs),
                    (),
                ) && final(self)@ == rest,
                Err(failure) => result matches Err(error) && error@ == failure,
            },
        decreases old(self)@.len(), 3nat,
    {
        self.binary(BinOp::Add, Prec::AddSub, lhs)
    }

    /// A subtraction.
    fn minus(&mut self, _token: Token<'a>, lhs: ParseOutput) -> (result: ParseResult)
        ensures
            match expression_at(old(self)@, Prec::MultDiv) {
                Ok((rhs, rest)) => result matches Ok(ast) && ast@ == Expr::Binary(
                    BinOp::Sub,
                    Box::new(lhs@),
                    Box::new(rhs),
                    (),
                ) && final(self)@ == rest,
                Err(failure) => result matches Err(error) && error@ == failure,
            },
        decreases old(self)@.len(), 3nat,
    {
        self.binary(BinOp::Sub, Prec::AddSub, lhs)
    }

    /// A multiplication.
    fn times(&mut self, _token: Token<'a>, lhs: ParseOutput) -> (result: ParseResult)
        ensures
            match expression_at(old(self)@, Prec::Top) {
                Ok((rhs, rest)) => result matches Ok(ast) && ast@ == Expr::Binary(
                    BinOp::Mul,
                    Box::new(lhs@),
                    Box::new(rhs),
                    (),
                ) && final(self)@ == rest,
                Err(failure) => result matches Err(error) && error@ == failure,
            },
        decreases old(self)@.len(), 3nat,
    {
        self.binary(BinOp::Mul, Prec::MultDiv, lhs)
    }

    /// A division.
    fn div(&mut self, _token: Token<'a>, lhs: ParseOutput) -> (result: ParseResult)
        ensures
            match expression_at(old(self)@, Prec::Top) {
                Ok((rhs, rest)) => result matches Ok(ast) && ast@ == Expr::Binary(
                    BinOp::Div,
                    Box::new(lhs@),
                    Box::new(rhs),
                    (),
                ) && final(self)@ == rest,
                Err(failure) => result matches Err(error) && error@ == failure,
            },
        decreases old(self)@.len(), 3nat,
    {
        self.binary(BinOp::Div, Prec::MultDiv, lhs)
    }

    /// A group: the expression between `(`, already taken, and `)`.
    fn grouping(&mut self, _token: Token<'a>) -> (result: ParseResult)
        ensures
            parsed_as(result, final(self)@, grouping(old(self)@)),
        decreases old(self)@.len(), 3nat,
    {
        let grouping = match self.expression() {
            Ok(grouping) => grouping,
            Err(error) => {
                return Err(error);
            },
        };
        match self.consume(Token::RParen) {
            Ok(()) => Ok(grouping),
            Err(error) => Err(error),
        }
    }

    /// A block: the expressions between `{`, already taken, and `}`.
    fn block(&mut self, _token: Token<'a>) -> (result: ParseResult)
        ensures
            parsed_as(result, final(self)@, block(old(self)@)),
        decreases old(self)@.len(), 3nat,
    {
        let ghost start = self@;
        if self.next_is(Token::RBrace) {
            return Err(ParseError::UnexpectedToken(String::from_str("Empty block")));
        }
        let first = match self.expression() {
            Ok(first) => first,
            Err(error) => {
                return Err(error);
            },
        };
        proof {
            lemma_expression_consumes(start, Prec::Expr);
        }
        let mut exprs: Vec<ParseOutput> = Vec::new();
        exprs.push(first);
        assert(models(exprs@) =~= seq![first@]);
        loop
            invariant
                start == old(self)@,
                self@.len() < start.len(),
                block_rest(models(exprs@), self@) == block(start),
            ensures
                !(self@.len() > 0 && self@[0] == Lexeme::Semicolon),
                block_rest(models(exprs@), self@) == block(start),
            decreases self@.len(),
        {
            if !self.next_is(Token::Semicolon) {
                break ;
            }
            let ghost before = self@;
            let ghost items = models(exprs@);
            match self.consume(Token::Semicolon) {
                Ok(()) => {},
                Err(error) => {
                    return Err(error);
                },
            }
            let next = match self.expression() {
                Ok(next) => next,
                Err(error) => {
                    return Err(error);
                },
            };
            proof {
                lemma_expression_consumes(before.drop_first(), Prec::Expr);
            }
            exprs.push(next);
            assert(models(exprs@) =~= items.push(next@));
        }
        match self.consume(Token::RBrace) {
            Ok(()) => {},
            Err(error) => {
                return Err(error);
            },
        }
        proof {
            lemma_block_model(exprs, ());
        }
        let res = HuckAst::Block(exprs, ());
        Ok(res)
    }

    /// A declaration: the identifier, `=` and initializer after `let`,
    /// already taken.
    fn let_decl(&mut self, _token: Token<'a>) -> (result: ParseResult)
        ensures
            parsed_as(result, final(self)@, let_decl(old(self)@)),
        decreases old(self)@.len(), 3nat,
    {
        let ident = match self.advance() {
            Some(Token::Var(ident)) => ident,
            Some(t) => {
                return Err(
                    ParseError::UnexpectedToken(
                        String::from_str("Expected identifier, found ").concat(
                            t.description().as_str(),
                        ),
                    ),
                );
            },
            None => {
                return Err(ParseError::Eof);
            },
        };
        match self.consume(Token::SingleEq) {
            Ok(()) => {},
            Err(error) => {
                return Err(error);
            },
        }
        let expr = match self.expression() {
            Ok(expr) => expr,
            Err(error) => {
                return Err(error);
            },
        };
        Ok(HuckAst::Let(String::from_str(ident), Box::new(expr), ()))
    }

    /// A reference to a variable.
    fn var_ref(&mut self, token: Token<'a>) -> (result: ParseResult)
        ensures
            final(self)@ == old(self)@,
            match token@ {
                Lexeme::Var(name) => result matches Ok(ast) && ast@ == Expr::VarRef(name, ()),
                _ => result matches Err(error) && error@ == Failure::UnexpectedToken(
                    "Expected variable reference"@,
                ),
            },
    {
        match token {
            Token::Var(ident) => Ok(HuckAst::VarRef(String::from_str(ident), ())),
            _ => Err(
                ParseError::UnexpectedToken(String::from_str("Expected variable reference")),
            ),
        }
    }

    /// A boolean literal.
    fn bool_lit(&mut self, token: Token<'a>) -> (result: ParseResult)
        ensures
            final(self)@ == old(self)@,
            match token@ {
                Lexeme::True => result matches Ok(ast) && ast@ == Expr::BoolLit(true, ()),
                Lexeme::False => result matches Ok(ast) && ast@ == Expr::BoolLit(false, ()),
                other => result matches Err(error) && error@ == Failure::UnexpectedToken(
                    "Bad boolean literal "@ + other.description(),
                ),
            },
    {
        match token {
            Token::True => Ok(HuckAst::BoolLit(true, ())),
            Token::False => Ok(HuckAst::BoolLit(false, ())),
            _ => Err(
                ParseError::UnexpectedToken(
                    String::from_str("Bad boolean literal ").concat(token.description().as_str()),
                ),
            ),
        }
    }

    /// A conditional: the test and the two blocks after `if`, already taken.
    fn conditional(&mut self, token: Token<'a>) -> (result: ParseResult)
        ensures
            parsed_as(result, final(self)@, conditional(old(self)@)),
        decreases old(self)@.len(), 3nat,
    {
        let ghost start = self@;
        let test = match self.expression() {
            Ok(test) => test,
            Err(error) => {
                return Err(error);
            },
        };
        proof {
            lemma_expression_consumes(start, Prec::Expr);
        }
        match self.consume(Token::LBrace) {
            Ok(()) => {},
            Err(error) => {
                return Err(error);
            },
        }
        let ghost in_then = self@;
        let true_branch = match self.block(token) {
            Ok(branch) => branch,
            Err(error) => {
                return Err(error);
            },
        };
        proof {
            crate::grammar::lemma_block_consumes(in_then);
        }
        match self.consume(Token::Else) {
            Ok(()) => {},
            Err(error) => {
                return Err(error);
            },
        }
        match self.consume(Token::LBrace) {
            Ok(()) => {},
            Err(error) => {
                return Err(error);
            },
        }
        let else_branch = match self.block(token) {
            Ok(branch) => branch,
            Err(error) => {
                return Err(error);
            },
        };
        Ok(HuckAst::If(Box::new(test), Box::new(true_branch), Box::new(else_branch), ()))
    }

    /// Whether the next token is `token`.
    fn next_is(&mut self, token: Token) -> (b: bool)
        ensures
            final(self)@ == old(self)@,
            b == (old(self)@.len() > 0 && old(self)@[0] == token@),
    {
        match self.peek() {
            Some(t) => t.same(&token),
            None => false,
        }
    }

    /// Takes the next token, which must be `token`.
    fn consume(&mut self, token: Token) -> (result: Result<(), ParseError>)
        ensures
            match expect(old(self)@, token@) {
                Ok(rest) => result is Ok && final(self)@ == rest,
                Err(failure) => result matches Err(error) && error@ == failure,
            },
    {
        match self.peek() {
            Some(t) => {
                if t.same(&token) {
                    let _ = self.advance();
                    Ok(())
                } else {
                    Err(
                        ParseError::UnexpectedToken(
                            String::from_str("Expected token ").concat(
                                token.description().as_str(),
                            ).concat(", found ").concat(t.description().as_str()),
                        ),
                    )
                }
            },
            None => Err(ParseError::Eof),
        }
    }

    /// The infix rule of a token, where it has one.
    pub open spec fn get_infix_rule_spec(t: Lexeme) -> Option<InfixRule> {
        match t {
            Lexeme::Plus => Some(InfixRule::Plus),
            Lexeme::Minus => Some(InfixRule::Minus),
            Lexeme::Star => Some(InfixRule::Times),
            Lexeme::Slash => Some(InfixRule::Div),
            _ => None,
        }
    }

    /// The prefix rule of a token, where it has one.
    pub open spec fn get_prefix_rule_spec(t: Lexeme) -> Option<PrefixRule> {
        match t {
            Lexeme::True => Some(PrefixRule::BoolLit),
            Lexeme::False => Some(PrefixRule::BoolLit),
            Lexeme::Number(_) => Some(PrefixRule::Number),
            Lexeme::LParen => Some(PrefixRule::Grouping),
            Lexeme::LBrace => Some(PrefixRule::Block),
            Lexeme::Let => Some(PrefixRule::LetDecl),
            Lexeme::Var(_) => Some(PrefixRule::VarRef),
            Lexeme::If => Some(PrefixRule::Conditional),
            _ => None,
        }
    }

    /// The infix rule of a token, or the error that names the token.
    fn get_infix_rule(t: Token) -> (rule: Result<InfixRule, ParseError>)
        ensures
            match rule {
                Ok(r) => Self::get_infix_rule_spec(t@) == Some(r) && infix_rule(t@) is Some,
                Err(error) => Self::get_infix_rule_spec(t@) is None && infix_rule(t@) is None
                    && error@ == Failure::NotImplemented(infix_message(t@)),
            },
    {
        match t {
            Token::Plus => Ok(InfixRule::Plus),
            Token::Minus => Ok(InfixRule::Minus),
            Token::Star => Ok(InfixRule::Times),
            Token::Slash => Ok(InfixRule::Div),
            _ => Err(
                ParseError::NotImplemented(
                    String::from_str("No infix rule for token type ").concat(
                        t.description().as_str(),
                    ),
                ),
            ),
        }
    }

    /// The prefix rule of a token, or the error that names the token.
    fn get_prefix_rule(t: Token) -> (rule: Result<PrefixRule, ParseError>)
        ensures
            match rule {
                Ok(r) => Self::get_prefix_rule_spec(t@) == Some(r),
                Err(error) => Self::get_prefix_rule_spec(t@) is None && error@
                    == Failure::NotImplemented(prefix_message(t@)),
            },
    {
        match t {
            Token::True => Ok(PrefixRule::BoolLit),
            Token::False => Ok(PrefixRule::BoolLit),
            Token::Number(_) => Ok(PrefixRule::Number),
            Token::LParen => Ok(PrefixRule::Grouping),
            Token::LBrace => Ok(PrefixRule::Block),
            Token::Let => Ok(PrefixRule::LetDecl),
            Token::Var(_) => Ok(PrefixRule::VarRef),
            Token::If => Ok(PrefixRule::Conditional),
            _ => Err(
                ParseError::NotImplemented(
                    String::from_str("No prefix rule for token type ").concat(
                        t.description().as_str(),
                    ),
                ),
            ),
        }
    }

    /// The binding precedence of a token.
    fn get_prec(t: Token) -> (prec: Prec)
        ensures
            prec == precedence(t@),
    {
        match t {
            Token::Plus => Prec::AddSub,
            Token::Minus => Prec::AddSub,
            Token::Star => Prec::MultDiv,
            Token::Slash => Prec::MultDiv,
            _ => Prec::Bottom,
        }
    }
}

} // verus!
