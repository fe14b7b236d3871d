//! Syntax trees.
//!
//! Every node of a tree carries a value of some type `T`: nothing, `()`,
//! when the tree comes from the parser, and the type of the node when it
//! comes from the type checker.

use vstd::prelude::*;

verus! {

/// The arithmetic operators.
#[derive(Debug, Clone, Copy, PartialEq, Eq)]
pub enum BinOp {
    Add,
    Sub,
    Mul,
    Div,
}

/// A syntax tree as a mathematical value: what a `HuckAst` stands for in
/// contracts.
pub enum Expr<T> {
    /// A number literal.
    Num(u64, T),
    /// A boolean literal.
    BoolLit(bool, T),
    /// An arithmetic operator with its left and right operand.
    Binary(BinOp, Box<Expr<T>>, Box<Expr<T>>, T),
    /// The declaration of a name, with its initializer.
    Let(Seq<char>, Box<Expr<T>>, T),
    /// The use of a name.
    VarRef(Seq<char>, T),
    /// A block: expressions in sequence, the last of which gives the value.
    Block(Seq<Expr<T>>, T),
    /// A conditional: the test, the branch taken where it holds, and the
    /// branch taken where it does not.
    If(Box<Expr<T>>, Box<Expr<T>>, Box<Expr<T>>, T),
}

/// A syntax tree.
#[derive(Debug, PartialEq)]
pub enum HuckAst<T> {
    /// A number literal.
    Num(u64, T),
    /// A boolean literal.
    BoolLit(bool, T),
    /// The sum of two expressions.
    Plus(Box<HuckAst<T>>, Box<HuckAst<T>>, T),
    /// The difference of two expressions.
    Minus(Box<HuckAst<T>>, Box<HuckAst<T>>, T),
    /// The product of two expressions.
    Times(Box<HuckAst<T>>, Box<HuckAst<T>>, T),
    /// The quotient of two expressions.
    Div(Box<HuckAst<T>>, Box<HuckAst<T>>, T),
    /// The declaration of a name, with its initializer.
    Let(String, Box<HuckAst<T>>, T),
    /// The use of a name.
    VarRef(String, T),
    /// A block: expressions in sequence, the last of which gives the value.
    Block(Vec<HuckAst<T>>, T),
    /// A conditional: the test, the branch taken where it holds, and the
    /// branch taken where it does not.
    If(Box<HuckAst<T>>, Box<HuckAst<T>>, Box<HuckAst<T>>, T),
}

impl<T> HuckAst<T> {
    /// The tree as a mathematical value.
    pub open spec fn model(&self) -> Expr<T>
        decreases self,
    {
        match self {
            HuckAst::Num(n, t) => Expr::Num(*n, *t),
            HuckAst::BoolLit(b, t) => Expr::BoolLit(*b, *t),
            HuckAst::Plus(l, r, t) => Expr::Binary(
                BinOp::Add,
                Box::new(l.model()),
                Box::new(r.model()),
                *t,
            ),
            HuckAst::Minus(l, r, t) => Expr::Binary(
                BinOp::Sub,
                Box::new(l.model()),
                Box::new(r.model()),
                *t,
            ),
            HuckAst::Times(l, r, t) => Expr::Binary(
                BinOp::Mul,
                Box::new(l.model()),
                Box::new(r.model()),
                *t,
            ),
            HuckAst::Div(l, r, t) => Expr::Binary(
                BinOp::Div,
                Box::new(l.model()),
                Box::new(r.model()),
                *t,
            ),
            HuckAst::Let(name, init, t) => Expr::Let(name@, Box::new(init.model()), *t),
            HuckAst::VarRef(name, t) => Expr::VarRef(name@, *t),
            HuckAst::Block(body, t) => Expr::Block(
                Seq::new(
                    body@.len(),
                    |i: int|
                        if 0 <= i < body@.len() {
                            body@[i].model()
                        } else {
                            arbitrary()
                        },
                ),
                *t,
            ),
            HuckAst::If(c, a, b, t) => Expr::If(
                Box::new(c.model()),
                Box::new(a.model()),
                Box::new(b.model()),
                *t,
            ),
        }
    }
}

/// The number of nodes of the first `n` trees of a sequence.
pub open spec fn total_size<T>(items: Seq<Expr<T>>, n: nat) -> nat
    decreases items, 0nat, n,
{
    if n == 0 || n > items.len() {
        0
    } else {
        total_size(items, (n - 1) as nat) + items[n - 1].size()
    }
}

/// Each of the first `n` trees has fewer nodes than all of them and one more.
pub proof fn lemma_total_size<T>(items: Seq<Expr<T>>, n: nat, i: int)
    requires
        0 <= i < n <= items.len(),
    ensures
        items[i].size() <= total_size(items, n),
    decreases n,
{
    if i < n - 1 {
        lemma_total_size(items, (n - 1) as nat, i);
    }
}

/// The trees of a sequence as mathematical values.
pub open spec fn models<T>(items: Seq<HuckAst<T>>) -> Seq<Expr<T>> {
    Seq::new(items.len(), |i: int| items[i].model())
}

/// A block stands for the block of what its elements stand for.
pub proof fn lemma_block_model<T>(body: Vec<HuckAst<T>>, meta: T)
    ensures
        HuckAst::Block(body, meta).model() == Expr::Block(models(body@), meta),
{
    assert(HuckAst::Block(body, meta).model()->Block_0 =~= models(body@));
}

impl<T> View for HuckAst<T> {
    type V = Expr<T>;

    open spec fn view(&self) -> Expr<T> {
        self.model()
    }
}

impl<T> Expr<T> {
    /// The number of nodes of the tree.
    pub open spec fn size(self) -> nat
        decreases self, 1nat,
    {
        match self {
            Expr::Num(_, _) => 1,
            Expr::BoolLit(_, _) => 1,
            Expr::Binary(_, lhs, rhs, _) => 1 + lhs.size() + rhs.size(),
            Expr::Let(_, init, _) => 1 + init.size(),
            Expr::VarRef(_, _) => 1,
            Expr::Block(body, _) => 1 + total_size(body, body.len()),
            Expr::If(test, then_branch, else_branch, _) => 1 + test.size() + then_branch.size()
                + else_branch.size(),
        }
    }

    /// What is attached to the root of the tree.
    pub open spec fn meta(self) -> T {
        match self {
            Expr::Num(_, t) => t,
            Expr::BoolLit(_, t) => t,
            Expr::Binary(_, _, _, t) => t,
            Expr::Let(_, _, t) => t,
            Expr::VarRef(_, t) => t,
            Expr::Block(_, t) => t,
            Expr::If(_, _, _, t) => t,
        }
    }
}

impl<T> HuckAst<T> {
    /// What is attached to the root of the tree.
    pub fn get_metadata(&self) -> (t: &T)
        ensures
            *t == self@.meta(),
    {
        match self {
            Self::Num(_, t) => t,
            Self::BoolLit(_, t) => t,
            Self::Plus(_, _, t) => t,
            Self::Minus(_, _, t) => t,
            Self::Times(_, _, t) => t,
            Self::Div(_, _, t) => t,
            Self::Let(_, _, t) => t,
            Self::VarRef(_, t) => t,
            Self::Block(_, t) => t,
            Self::If(_, _, _, t) => t,
        }
    }
}

impl HuckAst<()> {
    /// A copy of the tree.
    pub fn duplicate(&self) -> (copy: Self)
        ensures
            copy@ == self@,
        decreases self,
    {
        match self {
            HuckAst::Num(n, _) => HuckAst::Num(*n, ()),
            HuckAst::BoolLit(b, _) => HuckAst::BoolLit(*b, ()),
            HuckAst::Plus(l, r, _) => HuckAst::Plus(
                Box::new(l.duplicate()),
                Box::new(r.duplicate()),
                (),
            ),
            HuckAst::Minus(l, r, _) => HuckAst::Minus(
                Box::new(l.duplicate()),
                Box::new(r.duplicate()),
                (),
            ),
            HuckAst::Times(l, r, _) => HuckAst::Times(
                Box::new(l.duplicate()),
                Box::new(r.duplicate()),
                (),
            ),
            HuckAst::Div(l, r, _) => HuckAst::Div(
                Box::new(l.duplicate()),
                Box::new(r.duplicate()),
                (),
            ),
            HuckAst::Let(name, init, _) => HuckAst::Let(
                name.clone(),
                Box::new(init.duplicate()),
                (),
            ),
            HuckAst::VarRef(name, _) => HuckAst::VarRef(name.clone(), ()),
            HuckAst::Block(body, meta) => {
                let mut copies: Vec<HuckAst<()>> = Vec::new();
                let mut i: usize = 0;
                while i < body.len()
                    invariant
                        i <= body.len(),
                        *self == HuckAst::Block(*body, *meta),
                        copies@.len() == i,
                        forall|j: int| 0 <= j < i ==> (#[trigger] copies@[j])@ == body@[j]@,
                    decreases body.len() - i,
                {
                    let item = &body[i];
                    assert(decreases_to!(*self => self->Block_0));
                    assert(decreases_to!(*body => body@));
                    assert(decreases_to!(body@ => body@[i as int]));
                    copies.push(item.duplicate());
                    i += 1;
                }
                proof {
                    lemma_block_model(copies, ());
                    lemma_block_model(*body, ());
                    assert(models(copies@) =~= models(body@));
                }
                HuckAst::Block(copies, ())
            },
            HuckAst::If(c, a, b, _) => HuckAst::If(
                Box::new(c.duplicate()),
                Box::new(a.duplicate()),
                Box::new(b.duplicate()),
                (),
            ),
        }
    }
}

} // verus!
