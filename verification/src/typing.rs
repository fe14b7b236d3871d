//! The typing rules: which types the nodes of a tree have in a stack of
//! scopes, and which trees have none.

use crate::ast::{BinOp, Expr};
use vstd::prelude::*;

verus! {

/// The type of an expression.
#[derive(PartialEq, Eq, Clone, Copy, Debug, Structural)]
pub enum TypeInfo {
    /// The type of a block without expressions.
    Unit,
    Bool,
    Int64,
}

/// The names that one block has bound so far, each with its type.
pub type Scope = Map<Seq<char>, TypeInfo>;

/// The scopes of the blocks around an expression, the innermost last.
pub type Scopes = Seq<Scope>;

/// Which two things disagree in a type mismatch.
pub enum Discord {
    /// The two operands of an arithmetic operator have different types.
    Operands(Expr<()>, Expr<()>),
    /// The test of a conditional is no boolean.
    Test(Expr<()>),
    /// The two branches of a conditional have different types.
    Branches(Expr<()>, Expr<()>),
}

/// Why a tree has no types.
pub enum Flaw {
    /// Types that must agree do not; the sub-expressions are named.
    TypeMismatch(Discord),
    /// A name is used that no scope around it binds.
    UnboundIdentifier(Seq<char>),
}

/// The type that the innermost scope with a binding of `name` gives it.
pub open spec fn lookup(scopes: Scopes, name: Seq<char>) -> Option<TypeInfo>
    decreases scopes.len(),
{
    if scopes.len() == 0 {
        None
    } else if scopes.last().contains_key(name) {
        Some(scopes.last()[name])
    } else {
        lookup(scopes.drop_last(), name)
    }
}

/// The scopes after `name` has been bound to `ty` in the innermost one.
pub open spec fn declare(scopes: Scopes, name: Seq<char>, ty: TypeInfo) -> Scopes {
    if scopes.len() == 0 {
        scopes
    } else {
        scopes.update(scopes.len() - 1, scopes.last().insert(name, ty))
    }
}

/// The type of a block: that of its last expression, `Unit` without one.
pub open spec fn block_type(body: Seq<Expr<TypeInfo>>) -> TypeInfo {
    if body.len() == 0 {
        TypeInfo::Unit
    } else {
        body.last().meta()
    }
}

/// The outcome of checking an expression, and the scopes after it.
pub type Checked = (Result<Expr<TypeInfo>, Flaw>, Scopes);

/// Checks `e` in `scopes`: gives the same tree with the type of each node,
/// or the first flaw met, and the scopes as the declarations in `e` leave
/// them.
pub open spec fn elaborate(e: Expr<()>, scopes: Scopes) -> Checked
    decreases e, 1nat,
{
    match e {
        Expr::Num(n, _) => (Ok(Expr::Num(n, TypeInfo::Int64)), scopes),
        Expr::BoolLit(b, _) => (Ok(Expr::BoolLit(b, TypeInfo::Bool)), scopes),
        Expr::Binary(op, lhs, rhs, _) => {
            let (left, after_left) = elaborate(*lhs, scopes);
            match left {
                Ok(left) => {
                    let (right, after_right) = elaborate(*rhs, after_left);
                    match right {
                        Ok(right) => if left.meta() == right.meta() {
                            (
                                Ok(
                                    Expr::Binary(
                                        op,
                                        Box::new(left),
                                        Box::new(right),
                                        left.meta(),
                                    ),
                                ),
                                after_right,
                            )
                        } else {
                            (
                                Err(Flaw::TypeMismatch(Discord::Operands(*lhs, *rhs))),
                                after_right,
                            )
                        },
                        Err(flaw) => (Err(flaw), after_right),
                    }
                },
                Err(flaw) => (Err(flaw), after_left),
            }
        },
        Expr::Let(name, init, _) => {
            let (init, after) = elaborate(*init, scopes);
            match init {
                Ok(init) => (
                    Ok(Expr::Let(name, Box::new(init), init.meta())),
                    declare(after, name, init.meta()),
                ),
                Err(flaw) => (Err(flaw), after),
            }
        },
        Expr::VarRef(name, _) => match lookup(scopes, name) {
            Some(ty) => (Ok(Expr::VarRef(name, ty)), scopes),
            None => (Err(Flaw::UnboundIdentifier(name)), scopes),
        },
        Expr::Block(body, _) => {
            let (body, inside) = elaborate_body(body, body.len(), scopes.push(Map::empty()));
            match body {
                Ok(body) => (Ok(Expr::Block(body, block_type(body))), inside.drop_last()),
                Err(flaw) => (Err(flaw), inside.drop_last()),
            }
        },
        Expr::If(test, then_branch, else_branch, _) => {
            let (checked_test, after_test) = elaborate(*test, scopes);
            match checked_test {
                Ok(checked_test) => if checked_test.meta() == TypeInfo::Bool {
                    let (first, after_first) = elaborate(*then_branch, after_test);
                    match first {
                        Ok(first) => {
                            let (second, after_second) = elaborate(*else_branch, after_first);
                            match second {
                                Ok(second) => if first.meta() == second.meta() {
                                    (
                                        Ok(
                                            Expr::If(
                                                Box::new(checked_test),
                                                Box::new(first),
                                                Box::new(second),
                                                first.meta(),
                                            ),
                                        ),
                                        after_second,
                                    )
                                } else {
                                    (
                                        Err(
                                            Flaw::TypeMismatch(
                                                Discord::Branches(*then_branch, *else_branch),
                                            ),
                                        ),
                                        after_second,
                                    )
                                },
                                Err(flaw) => (Err(flaw), after_second),
                            }
                        },
                        Err(flaw) => (Err(flaw), after_first),
                    }
                } else {
                    (Err(Flaw::TypeMismatch(Discord::Test(*test))), after_test)
                },
                Err(flaw) => (Err(flaw), after_test),
            }
        },
    }
}

/// Checks the first `n` expressions of `body` in order, each in the scopes
/// that the one before it left, up to the first flaw.
pub open spec fn elaborate_body(body: Seq<Expr<()>>, n: nat, scopes: Scopes) -> (
    Result<Seq<Expr<TypeInfo>>, Flaw>,
    Scopes,
)
    decreases body, 0nat, n,
{
    if n == 0 || n > body.len() {
        (Ok(Seq::empty()), scopes)
    } else {
        let (before, after_before) = elaborate_body(body, (n - 1) as nat, scopes);
        match before {
            Ok(before) => {
                let (last, after) = elaborate(body[n - 1], after_before);
                match last {
                    Ok(last) => (Ok(before.push(last)), after),
                    Err(flaw) => (Err(flaw), after),
                }
            },
            Err(flaw) => (Err(flaw), after_before),
        }
    }
}

/// The tree that a whole program is checked to: in one empty scope.
pub open spec fn check(e: Expr<()>) -> Result<Expr<TypeInfo>, Flaw> {
    elaborate(e, seq![Map::empty()]).0
}

/// Once an expression of a body has a flaw, the body has that flaw, however
/// many expressions follow.
pub proof fn lemma_flaw_ends_body(body: Seq<Expr<()>>, k: nat, n: nat, scopes: Scopes)
    requires
        k <= n <= body.len(),
        elaborate_body(body, k, scopes).0 is Err,
    ensures
        elaborate_body(body, n, scopes) == elaborate_body(body, k, scopes),
    decreases n - k,
{
    if k < n {
        lemma_flaw_ends_body(body, k, (n - 1) as nat, scopes);
    }
}

/// Scopes nest with blocks: checking an expression leaves as many scopes as
/// it found, and leaves all but the innermost as they were. A block leaves
/// every scope as it was, whether it checks or not.
pub proof fn lemma_scopes_nest(e: Expr<()>, scopes: Scopes)
    ensures
        elaborate(e, scopes).1.len() == scopes.len(),
        scopes.len() > 0 ==> elaborate(e, scopes).1.drop_last() == scopes.drop_last(),
        e is Block ==> elaborate(e, scopes).1 == scopes,
    decreases e, 1nat,
{
    match e {
        Expr::Num(_, _) => {},
        Expr::BoolLit(_, _) => {},
        Expr::Binary(_, lhs, rhs, _) => {
            lemma_scopes_nest(*lhs, scopes);
            lemma_scopes_nest(*rhs, elaborate(*lhs, scopes).1);
        },
        Expr::Let(name, init, _) => {
            lemma_scopes_nest(*init, scopes);
            let (checked, after) = elaborate(*init, scopes);
            if checked is Ok && after.len() > 0 {
                let ty = checked->Ok_0.meta();
                assert(declare(after, name, ty).drop_last() =~= after.drop_last());
            }
        },
        Expr::VarRef(_, _) => {},
        Expr::Block(body, _) => {
            let inner = scopes.push(Map::empty());
            lemma_body_scopes_nest(body, body.len(), inner);
            assert(inner.drop_last() =~= scopes);
        },
        Expr::If(test, then_branch, else_branch, _) => {
            lemma_scopes_nest(*test, scopes);
            let after_test = elaborate(*test, scopes).1;
            lemma_scopes_nest(*then_branch, after_test);
            lemma_scopes_nest(*else_branch, elaborate(*then_branch, after_test).1);
        },
    }
}

/// Scopes nest with blocks, for the expressions of a body.
pub proof fn lemma_body_scopes_nest(body: Seq<Expr<()>>, n: nat, scopes: Scopes)
    ensures
        elaborate_body(body, n, scopes).1.len() == scopes.len(),
        scopes.len() > 0 ==> elaborate_body(body, n, scopes).1.drop_last() == scopes.drop_last(),
    decreases body, 0nat, n,
{
    if !(n == 0 || n > body.len()) {
        lemma_body_scopes_nest(body, (n - 1) as nat, scopes);
        let (before, after_before) = elaborate_body(body, (n - 1) as nat, scopes);
        if before is Ok {
            lemma_scopes_nest(body[n - 1], after_before);
        }
    }
}

/// The tree without its types.
pub open spec fn erase(e: Expr<TypeInfo>) -> Expr<()>
    decreases e,
{
    match e {
        Expr::Num(n, _) => Expr::Num(n, ()),
        Expr::BoolLit(b, _) => Expr::BoolLit(b, ()),
        Expr::Binary(op, lhs, rhs, _) => Expr::Binary(
            op,
            Box::new(erase(*lhs)),
            Box::new(erase(*rhs)),
            (),
        ),
        Expr::Let(name, init, _) => Expr::Let(name, Box::new(erase(*init)), ()),
        Expr::VarRef(name, _) => Expr::VarRef(name, ()),
        Expr::Block(body, _) => Expr::Block(
            Seq::new(
                body.len(),
                |i: int|
                    if 0 <= i < body.len() {
                        erase(body[i])
                    } else {
                        arbitrary()
                    },
            ),
            (),
        ),
        Expr::If(test, then_branch, else_branch, _) => Expr::If(
            Box::new(erase(*test)),
            Box::new(erase(*then_branch)),
            Box::new(erase(*else_branch)),
            (),
        ),
    }
}

/// Whether the types in the tree agree with one another: a number is an
/// `Int64` and a boolean a `Bool`; the operands of an operator have one type,
/// which is that of the operation; a declaration has the type of its
/// initializer; a block has the type of its last expression, `Unit` without
/// one; the test of a conditional is a `Bool`, and its branches have one
/// type, which is that of the conditional.
pub open spec fn well_typed(e: Expr<TypeInfo>) -> bool
    decreases e,
{
    match e {
        Expr::Num(_, ty) => ty == TypeInfo::Int64,
        Expr::BoolLit(_, ty) => ty == TypeInfo::Bool,
        Expr::Binary(_, lhs, rhs, ty) => {
            &&& well_typed(*lhs)
            &&& well_typed(*rhs)
            &&& lhs.meta() == rhs.meta()
            &&& ty == lhs.meta()
        },
        Expr::Let(_, init, ty) => well_typed(*init) && ty == init.meta(),
        Expr::VarRef(_, _) => true,
        Expr::Block(body, ty) => {
            &&& forall|i: int| 0 <= i < body.len() ==> well_typed(#[trigger] body[i])
            &&& ty == block_type(body)
        },
        Expr::If(test, then_branch, else_branch, ty) => {
            &&& well_typed(*test)
            &&& well_typed(*then_branch)
            &&& well_typed(*else_branch)
            &&& test.meta() == TypeInfo::Bool
            &&& then_branch.meta() == else_branch.meta()
            &&& ty == then_branch.meta()
        },
    }
}

/// A tree that checks is given back node for node, and the types it gets
/// agree with one another.
pub proof fn theorem_checked_tree(e: Expr<()>, scopes: Scopes)
    ensures
        elaborate(e, scopes).0 matches Ok(checked) ==> erase(checked) == e && well_typed(checked),
    decreases e, 1nat,
{
    assert(e.meta() == ());
    match e {
        Expr::Num(_, _) => {},
        Expr::BoolLit(_, _) => {},
        Expr::Binary(_, lhs, rhs, _) => {
            theorem_checked_tree(*lhs, scopes);
            theorem_checked_tree(*rhs, elaborate(*lhs, scopes).1);
        },
        Expr::Let(_, init, _) => {
            theorem_checked_tree(*init, scopes);
        },
        Expr::VarRef(_, _) => {},
        Expr::Block(body, _) => {
            theorem_checked_body(body, body.len(), scopes.push(Map::empty()));
            if let Ok(checked) = elaborate(e, scopes).0 {
                assert(erase(checked)->Block_0 =~= body);
            }
        },
        Expr::If(test, then_branch, else_branch, _) => {
            theorem_checked_tree(*test, scopes);
            let after_test = elaborate(*test, scopes).1;
            theorem_checked_tree(*then_branch, after_test);
            theorem_checked_tree(*else_branch, elaborate(*then_branch, after_test).1);
        },
    }
}

/// The expressions of a body that checks are given back one for one, each
/// with types that agree with one another.
pub proof fn theorem_checked_body(body: Seq<Expr<()>>, n: nat, scopes: Scopes)
    requires
        n <= body.len(),
    ensures
        elaborate_body(body, n, scopes).0 matches Ok(checked) ==> {
            &&& checked.len() == n
            &&& forall|i: int|
                0 <= i < n ==> erase(#[trigger] checked[i]) == body[i] && well_typed(checked[i])
        },
    decreases body, 0nat, n,
{
    if n > 0 {
        theorem_checked_body(body, (n - 1) as nat, scopes);
        let (before, after_before) = elaborate_body(body, (n - 1) as nat, scopes);
        if before is Ok {
            theorem_checked_tree(body[n - 1], after_before);
        }
    }
}

/// An operator whose operands check to different types is rejected, and the
/// flaw names both operands.
pub proof fn theorem_operand_mismatch(op: BinOp, lhs: Expr<()>, rhs: Expr<()>, scopes: Scopes)
    requires
        elaborate(lhs, scopes).0 is Ok,
        elaborate(rhs, elaborate(lhs, scopes).1).0 is Ok,
        elaborate(lhs, scopes).0->Ok_0.meta() != elaborate(
            rhs,
            elaborate(lhs, scopes).1,
        ).0->Ok_0.meta(),
    ensures
        elaborate(Expr::Binary(op, Box::new(lhs), Box::new(rhs), ()), scopes).0 == Err::<
            Expr<TypeInfo>,
            Flaw,
        >(Flaw::TypeMismatch(Discord::Operands(lhs, rhs))),
{
}

/// A name that no scope binds is rejected where it is used; so is every
/// name at the start of a program.
pub proof fn theorem_unbound_identifier(name: Seq<char>, scopes: Scopes)
    ensures
        lookup(scopes, name) is None ==> elaborate(Expr::VarRef(name, ()), scopes).0 == Err::<
            Expr<TypeInfo>,
            Flaw,
        >(Flaw::UnboundIdentifier(name)),
        check(Expr::VarRef(name, ())) == Err::<Expr<TypeInfo>, Flaw>(
            Flaw::UnboundIdentifier(name),
        ),
{
    let start: Scopes = seq![Map::empty()];
    assert(start.drop_last().len() == 0);
    assert(lookup(start.drop_last(), name) is None);
    assert(lookup(start, name) is None);
}

/// A name means what the innermost scope that binds it says: a declaration
/// in a block hides one of the same name outside of it while the block
/// lasts, and after the block every name means what it meant before.
pub proof fn theorem_shadowing(
    body: Seq<Expr<()>>,
    scopes: Scopes,
    inner: Scope,
    name: Seq<char>,
    ty: TypeInfo,
)
    ensures
        lookup(declare(scopes.push(inner), name, ty), name) == Some(ty),
        declare(scopes.push(inner), name, ty).drop_last() == scopes,
        lookup(elaborate(Expr::Block(body, ()), scopes).1, name) == lookup(scopes, name),
{
    let declared = declare(scopes.push(inner), name, ty);
    assert(declared.last().contains_key(name));
    assert(declared.drop_last() =~= scopes);
    lemma_scopes_nest(Expr::Block(body, ()), scopes);
}

/// A conditional whose test checks to another type than `Bool` is rejected,
/// and so is one whose branches check to different types.
pub proof fn theorem_conditional_mismatch(
    test: Expr<()>,
    then_branch: Expr<()>,
    else_branch: Expr<()>,
    scopes: Scopes,
)
    requires
        elaborate(test, scopes).0 is Ok,
    ensures
        ({
            let (checked_test, after_test) = elaborate(test, scopes);
            let (first, after_first) = elaborate(then_branch, after_test);
            let (second, _) = elaborate(else_branch, after_first);
            let whole = elaborate(
                Expr::If(Box::new(test), Box::new(then_branch), Box::new(else_branch), ()),
                scopes,
            ).0;
            &&& checked_test->Ok_0.meta() != TypeInfo::Bool ==> whole == Err::<
                Expr<TypeInfo>,
                Flaw,
            >(Flaw::TypeMismatch(Discord::Test(test)))
            &&& checked_test->Ok_0.meta() == TypeInfo::Bool && first is Ok && second is Ok
                && first->Ok_0.meta() != second->Ok_0.meta() ==> whole == Err::<
                Expr<TypeInfo>,
                Flaw,
            >(Flaw::TypeMismatch(Discord::Branches(then_branch, else_branch)))
            &&& checked_test->Ok_0.meta() == TypeInfo::Bool && first is Ok && second is Ok
                && first->Ok_0.meta() == second->Ok_0.meta() ==> whole is Ok
                && whole->Ok_0.meta() == first->Ok_0.meta()
        }),
{
}

} // verus!
