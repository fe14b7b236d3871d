use huck::ast::HuckAst::{BoolLit, Num, Plus};
use huck::codegen::compile;
use huck::number::{parse_u64, to_decimal};
use huck::text::same_text;
use huck::typecheck::TypeInfo::{Bool, Int64};

#[test]
fn a_number_compiles_to_a_program_that_returns_it() {
    let mut output = String::new();
    compile(Num(42, Int64), &mut output);
    assert_eq!(output, ".global main\nmain:\n  movl $42, %eax\n  ret\n");
    let mut output = String::new();
    compile(Num(0, Int64), &mut output);
    assert_eq!(output, ".global main\nmain:\n  movl $0, %eax\n  ret\n");
    let mut output = String::new();
    compile(Num(u64::MAX, Int64), &mut output);
    assert_eq!(output, ".global main\nmain:\n  movl $18446744073709551615, %eax\n  ret\n");
}

#[test]
fn code_is_put_behind_what_the_output_holds() {
    let mut output = String::from("# huck\n");
    compile(Num(7, Int64), &mut output);
    assert_eq!(output, "# huck\n.global main\nmain:\n  movl $7, %eax\n  ret\n");
}

#[test]
fn no_code_is_generated_for_other_trees() {
    let mut output = String::from("kept");
    compile(BoolLit(true, Bool), &mut output);
    assert_eq!(output, "kept");
    compile(Plus(Box::new(Num(1, Int64)), Box::new(Num(2, Int64)), Int64), &mut output);
    assert_eq!(output, "kept");
}

#[test]
fn numbers_are_written_in_base_ten() {
    for n in [0u64, 1, 9, 10, 11, 99, 100, 101, 1124, 65535, 4294967295, 4294967296, u64::MAX] {
        assert_eq!(to_decimal(n), n.to_string());
        assert_eq!(parse_u64(&to_decimal(n)), Some(n));
    }
}

#[test]
fn number_literals_are_read_in_base_ten() {
    assert_eq!(parse_u64("0"), Some(0));
    assert_eq!(parse_u64("42"), Some(42));
    assert_eq!(parse_u64("0042"), Some(42));
    assert_eq!(parse_u64("18446744073709551615"), Some(u64::MAX));
    assert_eq!(parse_u64("018446744073709551615"), Some(u64::MAX));
    assert_eq!(parse_u64("18446744073709551616"), None);
    assert_eq!(parse_u64("18446744073709551620"), None);
    assert_eq!(parse_u64("28446744073709551615"), None);
    assert_eq!(parse_u64("100000000000000000000"), None);
    assert_eq!(parse_u64(""), None);
    assert_eq!(parse_u64("+5"), None);
    assert_eq!(parse_u64("-5"), None);
    assert_eq!(parse_u64("5 "), None);
    assert_eq!(parse_u64(" 5"), None);
    assert_eq!(parse_u64("1_000"), None);
    assert_eq!(parse_u64("12a"), None);
    assert_eq!(parse_u64("a12"), None);
    assert_eq!(parse_u64("1\u{e9}"), None);
    assert_eq!(parse_u64("\u{661}"), None);
    assert_eq!(parse_u64("99999999999999999999x"), None);
}

#[test]
fn texts_are_the_same_where_their_characters_are() {
    assert!(same_text("", ""));
    assert!(same_text("let", "let"));
    assert!(same_text("\u{e9}t\u{e9}", "\u{e9}t\u{e9}"));
    assert!(!same_text("let", "le"));
    assert!(!same_text("le", "let"));
    assert!(!same_text("let", "lit"));
    assert!(!same_text("", "x"));
    assert!(!same_text("\u{e9}", "\u{e8}"));
    let owned = String::from("els") + "e";
    assert!(same_text(&owned, "else"));
}
