//! The type checker: a tree without types to the same tree with the type of
//! each node.

use crate::ast::{lemma_block_model, lemma_total_size, models, BinOp, Expr, HuckAst};
use crate::parser::ParseOutput;
use crate::scopes::Bindings;
use crate::typing::{
    block_type, declare, elaborate, elaborate_body, lemma_body_scopes_nest,
    lemma_flaw_ends_body, lemma_scopes_nest, lookup, Discord, Flaw, Scopes,
};
use vstd::prelude::*;

pub use crate::typing::TypeInfo;

verus! {

/// Which two things disagree in a type mismatch.
#[derive(Debug, PartialEq)]
pub enum Mismatch {
    /// The two operands of an arithmetic operator have different types.
    Operands(ParseOutput, ParseOutput),
    /// The test of a conditional is no boolean.
    Test(ParseOutput),
    /// The two branches of a conditional have different types.
    Branches(ParseOutput, ParseOutput),
}

impl View for Mismatch {
    type V = Discord;

    open spec fn view(&self) -> Discord {
        match self {
            Mismatch::Operands(lhs, rhs) => Discord::Operands(lhs@, rhs@),
            Mismatch::Test(test) => Discord::Test(test@),
            Mismatch::Branches(first, second) => Discord::Branches(first@, second@),
        }
    }
}

/// Why checking stopped.
#[derive(Debug, PartialEq)]
pub enum TypeError {
    /// Types that must agree do not; the sub-expressions are named.
    TypeMismatch(Mismatch),
    /// A name is used that no scope around it binds.
    UnboundIdentifier(String),
}

impl View for TypeError {
    type V = Flaw;

    open spec fn view(&self) -> Flaw {
        match self {
            TypeError::TypeMismatch(mismatch) => Flaw::TypeMismatch(mismatch@),
            TypeError::UnboundIdentifier(name) => Flaw::UnboundIdentifier(name@),
        }
    }
}

/// A tree before checking.
pub type CheckInput = ParseOutput;

/// A tree with the type of each node.
pub type CheckOutput = HuckAst<TypeInfo>;

/// What checking returns.
pub type CheckResult = Result<CheckOutput, TypeError>;

/// Whether `result` is what the typing rules give as `expected`.
pub open spec fn checked_as(result: CheckResult, expected: Result<Expr<TypeInfo>, Flaw>) -> bool {
    match expected {
        Ok(tree) => result matches Ok(out) && out@ == tree,
        Err(flaw) => result matches Err(error) && error@ == flaw,
    }
}

/// The type checker: the scopes of the blocks it is inside of.
#[derive(Debug)]
pub struct Checker {
    /// The scopes, the innermost last.
    scopes: Vec<Bindings>,
}

impl View for Checker {
    type V = Scopes;

    /// The scopes, the innermost last.
    closed spec fn view(&self) -> Scopes {
        Seq::new(self.scopes@.len(), |i: int| self.scopes@[i]@)
    }
}

impl Checker {
    /// A checker in one empty scope.
    pub fn new() -> (checker: Self)
        ensures
            checker@ == seq![Map::<Seq<char>, TypeInfo>::empty()],
    {
        let mut scopes: Vec<Bindings> = Vec::new();
        scopes.push(Bindings::new());
        let checker = Checker { scopes };
        assert(checker@ =~= seq![Map::<Seq<char>, TypeInfo>::empty()]);
        checker
    }

    /// The type of a name in the innermost scope that binds it.
    fn resolve(&self, name: &String) -> (ty: Option<TypeInfo>)
        ensures
            ty == lookup(self@, name@),
    {
        let mut i = self.scopes.len();
        assert(self@.take(i as int) =~= self@);
        while i > 0
            invariant
                i <= self.scopes.len(),
                lookup(self@, name@) == lookup(self@.take(i as int), name@),
            decreases i,
        {
            proof {
                assert(self@.take(i as int).drop_last() =~= self@.take(i - 1));
                assert(self@.take(i as int).last() == self@[i - 1]);
            }
            i -= 1;
            match self.scopes[i].get(name) {
                Some(ty) => {
                    return Some(ty);
                },
                None => {},
            }
        }
        assert(self@.take(0).len() == 0);
        None
    }

    /// Binds a name in the innermost scope.
    fn bind(&mut self, name: String, ty: TypeInfo)
        ensures
            final(self)@ == declare(old(self)@, name@, ty),
    {
        let depth = self.scopes.len();
        if depth > 0 {
            self.scopes[depth - 1].set(name, ty);
            assert(self@ =~= declare(old(self)@, name@, ty));
        }
    }

    /// Enters a block: opens an empty scope.
    fn enter(&mut self)
        ensures
            final(self)@ == old(self)@.push(Map::empty()),
    {
        self.scopes.push(Bindings::new());
        assert(self@ =~= old(self)@.push(Map::empty()));
    }

    /// Leaves a block: closes the innermost scope.
    fn leave(&mut self)
        requires
            old(self)@.len() > 0,
        ensures
            final(self)@ == old(self)@.drop_last(),
    {
        let _ = self.scopes.pop();
        assert(self@ =~= old(self)@.drop_last());
    }

    /// Checks a tree in the scopes the checker is in, and leaves the checker
    /// in the scopes that the declarations of the tree give.
    pub fn check(&mut self, ast: &CheckInput) -> (result: CheckResult)
        ensures
            checked_as(result, elaborate(ast@, old(self)@).0),
            final(self)@ == elaborate(ast@, old(self)@).1,
        decreases ast@.size(), 0nat,
    {
        match ast {
            HuckAst::Num(n, _) => Ok(HuckAst::Num(*n, TypeInfo::Int64)),
            HuckAst::BoolLit(b, _) => Ok(HuckAst::BoolLit(*b, TypeInfo::Bool)),
            HuckAst::Plus(lhs, rhs, _) => self.check_binary(lhs, rhs, BinOp::Add),
            HuckAst::Minus(lhs, rhs, _) => self.check_binary(lhs, rhs, BinOp::Sub),
            HuckAst::Times(lhs, rhs, _) => self.check_binary(lhs, rhs, BinOp::Mul),
            HuckAst::Div(lhs, rhs, _) => self.check_binary(lhs, rhs, BinOp::Div),
            HuckAst::Let(ident, init_expr, _) => {
                let checked_expr = match self.check(init_expr) {
                    Ok(checked) => checked,
                    Err(error) => {
                        return Err(error);
                    },
                };
                let type_info = *checked_expr.get_metadata();
                self.bind(ident.clone(), type_info);
                Ok(HuckAst::Let(ident.clone(), Box::new(checked_expr), type_info))
            },
            HuckAst::VarRef(ident, _) => match self.resolve(ident) {
                Some(type_info) => Ok(HuckAst::VarRef(ident.clone(), type_info)),
                None => Err(TypeError::UnboundIdentifier(ident.clone())),
            },
            HuckAst::Block(exprs, meta) => {
                let ghost outside = self@;
                let ghost body = models(exprs@);
                proof {
                    lemma_block_model(*exprs, *meta);
                }
                self.enter();
                let mut last_expr_type = TypeInfo::Unit;
                let mut checked_exprs: Vec<CheckOutput> = Vec::new();
                let mut i: usize = 0;
                assert(models(checked_exprs@) =~= Seq::<Expr<TypeInfo>>::empty());
                while i < exprs.len()
                    invariant
                        i <= exprs.len(),
                        outside == old(self)@,
                        body == models(exprs@),
                        ast@ == Expr::Block(body, *meta),
                        elaborate_body(body, i as nat, outside.push(Map::empty())) == (
                            Ok::<Seq<Expr<TypeInfo>>, Flaw>(models(checked_exprs@)),
                            self@,
                        ),
                        last_expr_type == block_type(models(checked_exprs@)),
                    decreases exprs.len() - i,
                {
                    let ghost so_far = models(checked_exprs@);
                    let ghost inside = self@;
                    proof {
                        lemma_total_size(body, body.len(), i as int);
                        assert(body[i as int] == exprs@[i as int]@);
                        lemma_scopes_nest(body[i as int], inside);
                        lemma_body_scopes_nest(body, i as nat, outside.push(Map::empty()));
                    }
                    let checked_expr = match self.check(&exprs[i]) {
                        Ok(checked) => checked,
                        Err(error) => {
                            proof {
                                assert(elaborate_body(
                                    body,
                                    (i + 1) as nat,
                                    outside.push(Map::empty()),
                                ).0 is Err);
                                lemma_flaw_ends_body(
                                    body,
                                    (i + 1) as nat,
                                    body.len(),
                                    outside.push(Map::empty()),
                                );
                            }
                            self.leave();
                            return Err(error);
                        },
                    };
                    let type_info = *checked_expr.get_metadata();
                    checked_exprs.push(checked_expr);
                    last_expr_type = type_info;
                    i += 1;
                    assert(models(checked_exprs@) =~= so_far.push(checked_expr@));
                }
                proof {
                    lemma_body_scopes_nest(body, body.len(), outside.push(Map::empty()));
                }
                self.leave();
                proof {
                    lemma_block_model(checked_exprs, last_expr_type);
                }
                Ok(HuckAst::Block(checked_exprs, last_expr_type))
            },
            HuckAst::If(test, then_branch, else_branch, _) => {
                let checked_test = match self.check(test) {
                    Ok(checked) => checked,
                    Err(error) => {
                        return Err(error);
                    },
                };
                if *checked_test.get_metadata() != TypeInfo::Bool {
                    return Err(TypeError::TypeMismatch(Mismatch::Test(test.duplicate())));
                }
                let first = match self.check(then_branch) {
                    Ok(checked) => checked,
                    Err(error) => {
                        return Err(error);
                    },
                };
                let second = match self.check(else_branch) {
                    Ok(checked) => checked,
                    Err(error) => {
                        return Err(error);
                    },
                };
                let type_info = *first.get_metadata();
                if type_info == *second.get_metadata() {
                    Ok(
                        HuckAst::If(
                            Box::new(checked_test),
                            Box::new(first),
                            Box::new(second),
                            type_info,
                        ),
                    )
                } else {
                    Err(
                        TypeError::TypeMismatch(
                            Mismatch::Branches(then_branch.duplicate(), else_branch.duplicate()),
                        ),
                    )
                }
            },
        }
    }

    /// Checks the two operands of an arithmetic operator, the left one
    /// first, and gives the node for them.
    fn check_binary(&mut self, lhs: &CheckInput, rhs: &CheckInput, op: BinOp) -> (result:
        CheckResult)
        ensures
            checked_as(
                result,
                elaborate(Expr::Binary(op, Box::new(lhs@), Box::new(rhs@), ()), old(self)@).0,
            ),
            final(self)@ == elaborate(
                Expr::Binary(op, Box::new(lhs@), Box::new(rhs@), ()),
                old(self)@,
            ).1,
        decreases lhs@.size() + rhs@.size(), 1nat,
    {
        let checked_lhs = match self.check(lhs) {
            Ok(checked) => checked,
            Err(error) => {
                return Err(error);
            },
        };
        let checked_rhs = match self.check(rhs) {
            Ok(checked) => checked,
            Err(error) => {
                return Err(error);
            },
        };
        let l_type = *checked_lhs.get_metadata();
        let r_type = *checked_rhs.get_metadata();
        if l_type == r_type {
            Ok(typed_node(op, checked_lhs, checked_rhs, l_type))
        } else {
            Err(TypeError::TypeMismatch(Mismatch::Operands(lhs.duplicate(), rhs.duplicate())))
        }
    }
}

/// The node for an arithmetic operator, its checked operands and its type.
fn typed_node(op: BinOp, lhs: CheckOutput, rhs: CheckOutput, ty: TypeInfo) -> (node: CheckOutput)
    ensures
        node@ == Expr::Binary(op, Box::new(lhs@), Box::new(rhs@), ty),
{
    match op {
        BinOp::Add => HuckAst::Plus(Box::new(lhs), Box::new(rhs), ty),
        BinOp::Sub => HuckAst::Minus(Box::new(lhs), Box::new(rhs), ty),
        BinOp::Mul => HuckAst::Times(Box::new(lhs), Box::new(rhs), ty),
        BinOp::Div => HuckAst::Div(Box::new(lhs), Box::new(rhs), ty),
    }
}

/// Checks a whole program: a tree in one empty scope.
pub fn check(ast: &CheckInput) -> (result: CheckResult)
    ensures
        checked_as(result, crate::typing::check(ast@)),
{
    let mut checker = Checker::new();
    checker.check(ast)
}

} // verus!
