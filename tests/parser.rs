use mips_parser::expression::{Eval, Operand};
use mips_parser::parser::{parse, parse_ident, parse_int, parse_unsigned};
use mips_parser::span::Span;

fn mapping(name: &str) -> u32 {
    match name {
        "a" => 1,
        "ab" => 2,
        "a0" => 3,
        // hex strings
        "deadbeef" => 0xdeadbeef,
        "deadc0de" => 0xdeadc0de,
        "ffffffff" => 0xffffffff,
        // Small ints
        "one" => 1,
        "two" => 2,
        "three" => 3,
        _ => panic!("unknown name {}", name),
    }
}

fn parse_expr_helper(source: &str) -> Operand {
    parse(source).unwrap()
}

fn parse_unsigned_str(source: &str) -> u32 {
    let (rest, value) = parse_unsigned(Span::new(source)).unwrap();
    assert!(rest.is_empty(), "Did not capture the entire string!");
    value
}

fn parse_int_str(source: &str) -> i32 {
    let (rest, value) = parse_int(Span::new(source)).unwrap();
    assert!(rest.is_empty(), "Did not capture the entire string!");
    value
}

fn parse_ident_str(source: &str) -> String {
    let (rest, value) = parse_ident(Span::new(source)).unwrap();
    assert!(rest.is_empty(), "Did not capture the entire string!");
    value
}

#[test]
fn test_ident() {
    let case = "abc";
    let expected = "abc";
    assert_eq!(expected, parse_ident_str(case));
}

#[test]
fn test_special() {
    let case = "_$$";
    let expected = "_$$";
    assert_eq!(expected, parse_ident_str(case));
}

#[test]
fn test_unsigned() {
    assert_eq!(5, parse_unsigned_str("0B_10_1"));
    assert_eq!(3, parse_unsigned_str("0b_01_1"));
    assert_eq!(510, parse_unsigned_str("0x_1f_e"));
    assert_eq!(239, parse_unsigned_str("0X_E_f"));
    assert_eq!(239, parse_unsigned_str("239"));
    assert_eq!(99, parse_unsigned_str("'c'"));
    assert_eq!(10, parse_unsigned_str(r"'\n'"));
    assert_eq!(0, parse_unsigned_str(r#"'\0'"#));
    assert_eq!(255, parse_unsigned_str(r#"'\xff'"#));
}

#[test]
fn test_int() {
    assert_eq!(5, parse_int_str("0B_10_1"));
    assert_eq!(-3, parse_int_str("-0b_01_1"));
    assert_eq!(510, parse_int_str("0x_1f_e"));
    assert_eq!(-239, parse_int_str("-0X_E_f"));
    assert_eq!(239, parse_int_str("239"));
    assert_eq!(-99, parse_int_str("-'c'"));
    assert_eq!(10, parse_int_str(r"'\n'"));
    assert_eq!(0, parse_int_str(r#"'\0'"#));
    assert_eq!(-255, parse_int_str(r#"-'\xff'"#));
}

#[test]
fn test_constants() {
    assert_eq!(parse_expr_helper("1").eval_u32(mapping).unwrap(), 1);
    assert_eq!(parse_expr_helper("20").eval_u32(mapping).unwrap(), 20);
    assert_eq!(parse_expr_helper("a").eval_u32(mapping).unwrap(), 1);
    assert_eq!(parse_expr_helper("a0").eval_u32(mapping).unwrap(), 3);
    assert_eq!(parse_expr_helper("deadbeef").eval_u32(mapping).unwrap(), 0xdeadbeef);
}

#[test]
fn test_unary() {
    assert_eq!(parse_expr_helper("- 0b111110000").eval_i32(mapping).unwrap(), -496);
    assert_eq!(parse_expr_helper("-0xff0000").eval_i32(mapping).unwrap(), -16711680);
}

#[test]
fn test_mul_operators() {
    assert_eq!(parse_expr_helper("1*2").eval_i32(mapping).unwrap(), 2);
    assert_eq!(parse_expr_helper("1 / 2").eval_i32(mapping).unwrap(), 0);
    assert_eq!(parse_expr_helper("1 / 2 * 2").eval_i32(mapping).unwrap(), 0);
    assert_eq!(parse_expr_helper("1 * 2 / 2").eval_i32(mapping).unwrap(), 1);
    assert_eq!(parse_expr_helper("1 * 2 / -2").eval_i32(mapping).unwrap(), -1);
    assert_eq!(parse_expr_helper("-1 * 2 / -2").eval_i32(mapping).unwrap(), 1);
    assert_eq!(parse_expr_helper("-1 * -2 / -2").eval_i32(mapping).unwrap(), -1);
    assert_eq!(parse_expr_helper("two/one").eval_i32(mapping).unwrap(), 2);
}

#[test]
fn test_add_operators() {
    assert_eq!(parse_expr_helper("1+2").eval_i32(mapping).unwrap(), 3);
    assert_eq!(parse_expr_helper("1 - 2").eval_i32(mapping).unwrap(), -1);
}

#[test]
fn test_or_operators() {
    assert_eq!(parse_expr_helper("1 | 2").eval_i32(mapping).unwrap(), 3);
    assert_eq!(parse_expr_helper("-1 | 2").eval_i32(mapping).unwrap(), -1);
    assert_eq!(parse_expr_helper("2 | -1").eval_i32(mapping).unwrap(), -1);
    assert_eq!(parse_expr_helper("1 | deadbeef").eval_u32(mapping).unwrap(), (1 | 0xdeadbeef));
}

#[test]
fn test_and_operators() {
    assert_eq!(parse_expr_helper("1 & 2").eval_u32(mapping).unwrap(), 0);
    assert_eq!(parse_expr_helper("1 & deadbeef").eval_u32(mapping).unwrap(), (1 & 0xdeadbeef));
    assert_eq!(parse_expr_helper("-1 & 2").eval_u32(mapping).unwrap(), 2);
    assert_eq!(parse_expr_helper("2 & -1").eval_u32(mapping).unwrap(), 2);
}

#[test]
fn test_paren() {
    assert_eq!(parse_expr_helper("(1 & 2) | 3").eval_u32(mapping).unwrap(), 3);
    assert_eq!(parse_expr_helper("(0b10101 | 0b1010) + (5 * 5)").eval_u32(mapping).unwrap(), 56);
    assert_eq!(parse_expr_helper("(0b10101 | 0b1010) & (5 * 5)").eval_u32(mapping).unwrap(), 25);
    assert_eq!(parse_expr_helper("-(-1)").eval_u32(mapping).unwrap(), 1);
}

#[test]
fn test_order_of_operations() {
    assert_eq!(parse_expr_helper("1 & 2 * 3 | +4 + ~5 - 1").eval_i32(mapping).unwrap(), -3);
    assert_eq!(parse_expr_helper("(1 & (2 * 3 | +4) + ~5) - 1").eval_i32(mapping).unwrap(), -1);
}

