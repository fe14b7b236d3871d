//! Code generation: a checked tree to assembly text.

use crate::ast::{Expr, HuckAst};
use crate::number::{decimal_text, to_decimal};
use crate::typecheck::CheckOutput;
use crate::typing::TypeInfo;
use vstd::prelude::*;

verus! {

/// A tree that code is generated for.
pub type CompileInput = CheckOutput;

/// The lines that start every program.
pub open spec fn header() -> Seq<char> {
    ".global main\nmain:\n"@
}

/// The assembly text of a program. A number literal is a program that
/// returns the number; for any other tree no code is generated, and the
/// text is empty.
pub open spec fn assembly(code: Expr<TypeInfo>) -> Seq<char> {
    match code {
        Expr::Num(n, _) => header() + "  movl $"@ + decimal_text(n as nat) + ", %eax\n  ret\n"@,
        _ => Seq::empty(),
    }
}

/// Appends the assembly text of a program to `output`.
pub fn compile(code: CompileInput, output: &mut String)
    ensures
        final(output)@ == old(output)@ + assembly(code@),
{
    match code {
        HuckAst::Num(n, _) => {
            write_header(output);
            output.append("  movl $");
            output.append(to_decimal(n).as_str());
            output.append(", %eax\n  ret\n");
            assert(output@ =~= old(output)@ + assembly(code@));
        },
        _ => {
            assert(output@ =~= old(output)@ + assembly(code@));
        },
    }
}

/// Appends the lines that start every program to `output`.
fn write_header(output: &mut String)
    ensures
        final(output)@ == old(output)@ + header(),
{
    output.append(".global main\nmain:\n");
}

} // verus!
