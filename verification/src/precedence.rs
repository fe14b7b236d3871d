//! The precedence ladder that drives the parser.

use vstd::prelude::*;

verus! {

/// Binding strength, from loosest to tightest.
#[derive(Debug, Clone, Copy, PartialEq, Eq)]
pub enum Prec {
    Bottom,
    Expr,
    AddSub,
    MultDiv,
    Top,
}

impl Prec {
    /// Position on the ladder, `Bottom` being 0.
    pub open spec fn level(self) -> int {
        match self {
            Prec::Bottom => 0,
            Prec::Expr => 1,
            Prec::AddSub => 2,
            Prec::MultDiv => 3,
            Prec::Top => 4,
        }
    }

    /// The level one step up the ladder; `Top` stays `Top`.
    pub open spec fn above(self) -> Prec {
        match self {
            Prec::Bottom => Prec::Expr,
            Prec::Expr => Prec::AddSub,
            Prec::AddSub => Prec::MultDiv,
            Prec::MultDiv => Prec::Top,
            Prec::Top => Prec::Top,
        }
    }

    /// The level one step up the ladder; `Top` stays `Top`.
    pub fn next(p: Self) -> (q: Self)
        ensures
            q == p.above(),
            q.level() == if p.level() < 4 {
                p.level() + 1
            } else {
                4
            },
    {
        match p {
            Prec::Bottom => Prec::Expr,
            Prec::Expr => Prec::AddSub,
            Prec::AddSub => Prec::MultDiv,
            Prec::MultDiv => Prec::Top,
            Prec::Top => Prec::Top,
        }
    }

    /// Position on the ladder, `Bottom` being 0.
    fn rank(self) -> (r: u8)
        ensures
            r == self.level(),
    {
        match self {
            Prec::Bottom => 0,
            Prec::Expr => 1,
            Prec::AddSub => 2,
            Prec::MultDiv => 3,
            Prec::Top => 4,
        }
    }

    /// Whether `self` binds at least as tightly as `other`.
    pub fn at_least(self, other: Prec) -> (b: bool)
        ensures
            b == (self.level() >= other.level()),
    {
        self.rank() >= other.rank()
    }
}

} // verus!
