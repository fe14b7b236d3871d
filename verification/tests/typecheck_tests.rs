use huck::ast::HuckAst::{Block, BoolLit, Div, If, Let, Minus, Num, Plus, Times, VarRef};
use huck::parser::{ParseOutput, Parser};
use huck::scanner::Scanner;
use huck::scopes::Bindings;
use huck::typecheck::{check, CheckOutput, CheckResult, Checker, Mismatch, TypeError, TypeInfo};
use huck::typecheck::TypeInfo::{Bool, Int64, Unit};

fn parse(s: &str) -> ParseOutput {
    Parser::new(Scanner::new(s)).parse().unwrap()
}

fn check_source(s: &str) -> CheckResult {
    check(&parse(s))
}

fn type_of(s: &str) -> TypeInfo {
    *check_source(s).unwrap().get_metadata()
}

fn var(name: &str) -> ParseOutput {
    VarRef(name.to_string(), ())
}

fn int64(n: u64) -> Box<CheckOutput> {
    Box::new(Num(n, Int64))
}

fn operands(lhs: ParseOutput, rhs: ParseOutput) -> CheckResult {
    Err(TypeError::TypeMismatch(Mismatch::Operands(lhs, rhs)))
}

fn unbound(name: &str) -> CheckResult {
    Err(TypeError::UnboundIdentifier(name.to_string()))
}

#[test]
fn literals_have_their_fixed_type() {
    assert_eq!(check(&Num(42, ())), Ok(Num(42, Int64)));
    assert_eq!(check(&Num(u64::MAX, ())), Ok(Num(u64::MAX, Int64)));
    assert_eq!(check(&BoolLit(true, ())), Ok(BoolLit(true, Bool)));
    assert_eq!(check(&BoolLit(false, ())), Ok(BoolLit(false, Bool)));
}

#[test]
fn a_block_has_the_type_of_its_last_expression() {
    assert_eq!(
        check_source("{let x = 42; x + 1}"),
        Ok(Block(
            vec![
                Let("x".to_string(), int64(42), Int64),
                Plus(Box::new(VarRef("x".to_string(), Int64)), int64(1), Int64),
            ],
            Int64
        ))
    );
    assert_eq!(type_of("{1; true}"), Bool);
    assert_eq!(type_of("{true; 1}"), Int64);
    assert_eq!(type_of("{{{true}}}"), Bool);
}

#[test]
fn a_block_without_expressions_has_the_unit_type() {
    assert_eq!(check(&Block(vec![], ())), Ok(Block(vec![], Unit)));
    assert_eq!(
        check(&Block(vec![Num(1, ()), Block(vec![], ())], ())),
        Ok(Block(vec![Num(1, Int64), Block(vec![], Unit)], Unit))
    );
}

#[test]
fn operators_take_the_type_of_their_operands() {
    assert_eq!(check_source("1 + 2"), Ok(Plus(int64(1), int64(2), Int64)));
    assert_eq!(check_source("1 - 2"), Ok(Minus(int64(1), int64(2), Int64)));
    assert_eq!(check_source("1 * 2"), Ok(Times(int64(1), int64(2), Int64)));
    assert_eq!(check_source("1 / 2"), Ok(Div(int64(1), int64(2), Int64)));
    assert_eq!(
        check_source("true + false"),
        Ok(Plus(Box::new(BoolLit(true, Bool)), Box::new(BoolLit(false, Bool)), Bool))
    );
    assert_eq!(type_of("1 + 2 * 3 - 4 / 5"), Int64);
}

#[test]
fn operands_of_different_types_are_rejected() {
    let tree = Plus(Box::new(Num(1, ())), Box::new(BoolLit(true, ())), ());
    assert_eq!(check(&tree), operands(Num(1, ()), BoolLit(true, ())));
    assert_eq!(check_source("true - 1"), operands(BoolLit(true, ()), Num(1, ())));
    assert_eq!(
        check_source("1 * (2 + true)"),
        operands(Num(2, ()), BoolLit(true, ()))
    );
    assert_eq!(
        check_source("(1 + 2) / {false}"),
        operands(parse("1 + 2"), parse("{false}"))
    );
    assert_eq!(
        check_source("{let x = 1; x * true}"),
        operands(var("x"), BoolLit(true, ()))
    );
}

#[test]
fn the_left_operand_is_checked_first() {
    assert_eq!(check_source("a + b"), unbound("a"));
    assert_eq!(check_source("1 + b"), unbound("b"));
    assert_eq!(
        check_source("(1 + true) + (false + 2)"),
        operands(Num(1, ()), BoolLit(true, ()))
    );
    assert_eq!(check_source("(1 + true) + b"), operands(Num(1, ()), BoolLit(true, ())));
}

#[test]
fn a_name_without_a_declaration_is_unbound() {
    assert_eq!(check(&var("y")), unbound("y"));
    assert_eq!(check_source("{y}"), unbound("y"));
    assert_eq!(check_source("{let x = 1; y}"), unbound("y"));
    assert_eq!(check_source("{{let y = 1}; y}"), unbound("y"));
    assert_eq!(check_source("if true { let y = 1 } else { y }"), unbound("y"));
    assert_eq!(check_source("{ if true { let y = 1 } else { 2 }; y }"), unbound("y"));
}

#[test]
fn a_declaration_does_not_see_itself() {
    assert_eq!(check_source("let x = x"), unbound("x"));
    assert_eq!(check_source("{let x = x + 1}"), unbound("x"));
    assert_eq!(
        check_source("{let x = 1; let x = x + 1; x}").map(|tree| *tree.get_metadata()),
        Ok(Int64)
    );
}

#[test]
fn a_declaration_has_the_type_of_its_initializer() {
    assert_eq!(check_source("let x = 5"), Ok(Let("x".to_string(), int64(5), Int64)));
    assert_eq!(
        check_source("let flag = true"),
        Ok(Let("flag".to_string(), Box::new(BoolLit(true, Bool)), Bool))
    );
    assert_eq!(type_of("{let x = true; x}"), Bool);
    assert_eq!(type_of("{let x = 1; let y = x; y}"), Int64);
}

#[test]
fn a_declaration_is_seen_from_where_it_stands_to_the_end_of_its_block() {
    assert_eq!(type_of("{let x = 1; {x}}"), Int64);
    assert_eq!(type_of("{let x = 1; {{x + 1}}}"), Int64);
    assert_eq!(type_of("(let x = 1) + x"), Int64);
    assert_eq!(check_source("x + (let x = 1)"), unbound("x"));
    assert_eq!(check_source("{x; let x = 1}"), unbound("x"));
}

#[test]
fn an_inner_declaration_shadows_an_outer_one() {
    assert_eq!(
        check_source("{let x = 1; {let x = true; x} }"),
        Ok(Block(
            vec![
                Let("x".to_string(), int64(1), Int64),
                Block(
                    vec![
                        Let("x".to_string(), Box::new(BoolLit(true, Bool)), Bool),
                        VarRef("x".to_string(), Bool)
                    ],
                    Bool
                )
            ],
            Bool
        ))
    );
    assert_eq!(
        check_source("{let x = 1; {let x = true; x}; x}"),
        Ok(Block(
            vec![
                Let("x".to_string(), int64(1), Int64),
                Block(
                    vec![
                        Let("x".to_string(), Box::new(BoolLit(true, Bool)), Bool),
                        VarRef("x".to_string(), Bool)
                    ],
                    Bool
                ),
                VarRef("x".to_string(), Int64)
            ],
            Int64
        ))
    );
    assert_eq!(type_of("{let x = 1; {let x = true; x}; x + 1}"), Int64);
}

#[test]
fn a_later_declaration_in_one_block_replaces_an_earlier_one() {
    assert_eq!(type_of("{let x = 1; let x = true; x}"), Bool);
    assert_eq!(type_of("{let x = true; let x = 1; x + 1}"), Int64);
    assert_eq!(type_of("{let x = 1; let y = true; let x = y; x}"), Bool);
}

#[test]
fn conditionals_take_the_type_of_their_branches() {
    assert_eq!(
        check_source("if true { 1 } else { 2 }"),
        Ok(If(
            Box::new(BoolLit(true, Bool)),
            Box::new(Block(vec![Num(1, Int64)], Int64)),
            Box::new(Block(vec![Num(2, Int64)], Int64)),
            Int64
        ))
    );
    assert_eq!(type_of("if false { true } else { false }"), Bool);
    assert_eq!(type_of("{let c = true; if c { 1 } else { 2 }}"), Int64);
}

#[test]
fn branches_of_different_types_are_rejected() {
    assert_eq!(
        check_source("if true { 1 } else { true }"),
        Err(TypeError::TypeMismatch(Mismatch::Branches(parse("{ 1 }"), parse("{ true }"))))
    );
    assert_eq!(
        check_source("if false { true; 1 } else { 1; true }"),
        Err(TypeError::TypeMismatch(Mismatch::Branches(
            parse("{ true; 1 }"),
            parse("{ 1; true }")
        )))
    );
}

#[test]
fn a_test_that_is_no_boolean_is_rejected() {
    assert_eq!(
        check_source("if 1 { 1 } else { 2 }"),
        Err(TypeError::TypeMismatch(Mismatch::Test(Num(1, ()))))
    );
    assert_eq!(
        check_source("if 1 + 2 { y } else { true }"),
        Err(TypeError::TypeMismatch(Mismatch::Test(parse("1 + 2"))))
    );
    assert_eq!(check_source("if c { 1 } else { 2 }"), unbound("c"));
    assert_eq!(check_source("if true { y } else { 1 + true }"), unbound("y"));
    assert_eq!(
        check_source("if true { 1 } else { 1 + true }"),
        operands(Num(1, ()), BoolLit(true, ()))
    );
}

#[test]
fn an_expression_whose_value_is_unused_is_still_checked() {
    assert_eq!(check_source("{1 + true; 2}"), operands(Num(1, ()), BoolLit(true, ())));
    assert_eq!(check_source("{y; 2}"), unbound("y"));
    assert_eq!(check_source("{let x = 1 + true; 2}"), operands(Num(1, ()), BoolLit(true, ())));
    assert_eq!(check_source("{1; a; b}"), unbound("a"));
}

#[test]
fn a_checker_keeps_its_declarations_between_calls() {
    let mut checker = Checker::new();
    assert_eq!(checker.check(&var("x")), unbound("x"));
    assert_eq!(checker.check(&parse("let x = 1")), Ok(Let("x".to_string(), int64(1), Int64)));
    assert_eq!(checker.check(&var("x")), Ok(VarRef("x".to_string(), Int64)));
    assert_eq!(
        checker.check(&parse("let x = true")),
        Ok(Let("x".to_string(), Box::new(BoolLit(true, Bool)), Bool))
    );
    assert_eq!(checker.check(&var("x")), Ok(VarRef("x".to_string(), Bool)));
    assert_eq!(check(&var("x")), unbound("x"));
}

#[test]
fn a_checker_leaves_no_scope_behind() {
    let mut checker = Checker::new();
    assert_eq!(checker.check(&parse("let x = 1")).map(|t| *t.get_metadata()), Ok(Int64));
    assert_eq!(
        checker.check(&parse("{let x = true; let y = 2; x}")).map(|t| *t.get_metadata()),
        Ok(Bool)
    );
    assert_eq!(checker.check(&var("x")), Ok(VarRef("x".to_string(), Int64)));
    assert_eq!(checker.check(&var("y")), unbound("y"));
    assert_eq!(
        checker.check(&parse("{let x = true; {let z = 1; z + x}}")),
        operands(var("z"), var("x"))
    );
    assert_eq!(checker.check(&var("x")), Ok(VarRef("x".to_string(), Int64)));
    assert_eq!(checker.check(&var("z")), unbound("z"));
    assert_eq!(checker.check(&parse("{let w = 1; {{nothing}}}")), unbound("nothing"));
    assert_eq!(checker.check(&var("w")), unbound("w"));
    assert_eq!(checker.check(&var("x")), Ok(VarRef("x".to_string(), Int64)));
}

#[test]
fn a_declaration_before_a_flaw_stays() {
    let mut checker = Checker::new();
    assert_eq!(
        checker.check(&parse("(let a = 1) + true")),
        operands(parse("let a = 1"), BoolLit(true, ()))
    );
    assert_eq!(checker.check(&var("a")), Ok(VarRef("a".to_string(), Int64)));
}

#[test]
fn checking_leaves_the_tree_as_it_was() {
    let tree = parse("{let x = 1; if true { x } else { x + true }}");
    let copy = tree.duplicate();
    let _ = check(&tree);
    assert_eq!(tree, copy);
    let mut checker = Checker::new();
    let _ = checker.check(&tree);
    assert_eq!(tree, copy);
}

#[test]
fn a_scope_binds_each_name_once() {
    let mut scope = Bindings::new();
    let x = "x".to_string();
    let y = "y".to_string();
    assert_eq!(scope.get(&x), None);
    scope.set(x.clone(), Int64);
    assert_eq!(scope.get(&x), Some(Int64));
    assert_eq!(scope.get(&y), None);
    scope.set(y.clone(), Bool);
    scope.set(x.clone(), Bool);
    assert_eq!(scope.get(&x), Some(Bool));
    assert_eq!(scope.get(&y), Some(Bool));
    scope.set(y.clone(), Unit);
    scope.set(x.clone(), Int64);
    assert_eq!(scope.get(&x), Some(Int64));
    assert_eq!(scope.get(&y), Some(Unit));
    assert_eq!(scope.get(&"".to_string()), None);
    assert_eq!(scope.get(&"X".to_string()), None);
}
