use mips_parser::arch::{FpReg, Reg};
use mips_parser::error::{ChangeErrorKind, ErrorKind, GrammarKind, MIPSLangError, ParseErr};
use mips_parser::expression::{apply_binary, BinOp, EvalError, Eval, MonOp, Operand};
use mips_parser::literals::{binary, decimal, hexadecimal, parse_char, parse_string};
use mips_parser::parser::{expr, parse, space0};
use mips_parser::span::Span;
use mips_parser::text::decimal_string;
use mips_parser::utils::{ToSigned, ToUnsigned};

fn no_names(_: &str) -> u32 {
    panic!("no names are bound")
}

fn abc(name: &str) -> u32 {
    assert_eq!("abc", name);
    123
}

fn with_separators(digits: &str) -> String {
    let mut out = String::new();
    for (i, c) in digits.chars().enumerate() {
        if i % 2 == 1 {
            out.push('_');
        }
        out.push(c);
    }
    out.push('_');
    out
}

#[test]
fn numerals_round_trip_with_separators() {
    let samples: [u32; 7] = [0, 1, 7, 0x1234, 0xdeadbeef, 0x8000_0000, u32::MAX];
    for n in samples.iter() {
        let hex = format!("0x{}", with_separators(&format!("{:x}", n)));
        let (rest, value) = hexadecimal(Span::new(&hex)).unwrap();
        assert_eq!(*n, value);
        assert!(rest.is_empty());

        let upper = format!("0X{:X}", n);
        assert_eq!(*n, hexadecimal(Span::new(&upper)).unwrap().1);

        let bin = format!("0b{}", with_separators(&format!("{:b}", n)));
        let (rest, value) = binary(Span::new(&bin)).unwrap();
        assert_eq!(*n, value);
        assert!(rest.is_empty());

        let dec = format!("{}", n);
        assert_eq!(*n, decimal(Span::new(&dec)).unwrap().1);
    }
}

#[test]
fn numerals_over_32_bits_fail_hard() {
    match hexadecimal(Span::new("0x1_0000_0000")).unwrap_err() {
        ParseErr::Failure(e) => {
            assert_eq!(ErrorKind::InvalidHexString, e.kind);
            assert_eq!(0, e.input.location_offset());
        }
        other => panic!("expected a hard failure, got {:?}", other),
    }
    let ones = format!("0b{}", "1".repeat(33));
    match binary(Span::new(&ones)).unwrap_err() {
        ParseErr::Failure(e) => assert_eq!(ErrorKind::InvalidBinaryString, e.kind),
        other => panic!("expected a hard failure, got {:?}", other),
    }
    match decimal(Span::new("4294967296")).unwrap_err() {
        ParseErr::Failure(e) => assert_eq!(ErrorKind::Default(GrammarKind::MapRes), e.kind),
        other => panic!("expected a hard failure, got {:?}", other),
    }
    assert_eq!(u32::MAX, decimal(Span::new("4294967295")).unwrap().1);
    assert!(parse("-0xfffffffff").is_err());
}

#[test]
fn evaluation_of_literal_expressions() {
    let unsigned_cases: [(&str, u32); 3] = [("1 & 2", 0), ("1 | 2", 3), ("-1 & 2", 2)];
    for (text, expected) in unsigned_cases.iter() {
        assert_eq!(*expected, parse(text).unwrap().eval_u32(no_names).unwrap(), "{}", text);
    }
    let signed_cases: [(&str, i32); 4] = [("-4 / -2", 2), ("4 / -2", -2), ("-4 / 2", -2), ("2 / 4", 0)];
    for (text, expected) in signed_cases.iter() {
        assert_eq!(*expected, parse(text).unwrap().eval_i32(no_names).unwrap(), "{}", text);
    }
}

#[test]
fn division_edge_cases() {
    assert_eq!(Err(EvalError::DivisionByZero), parse("1 / 0").unwrap().eval(no_names));
    assert_eq!(Err(EvalError::DivisionByZero), parse("(1 / 0) + 2").unwrap().eval(no_names));
    assert_eq!(Ok(0x8000_0000), apply_binary(BinOp::DivideOp, 0x8000_0000, 0xffff_ffff));
    assert_eq!(Ok(-7), apply_binary(BinOp::DivideOp, (-15i32).to_u32(), 2).map(|v| v.to_i32()));
    assert_eq!(Ok(1), apply_binary(BinOp::TimesOp, 0xffff_ffff, 0xffff_ffff));
    assert_eq!(Ok(0), apply_binary(BinOp::PlusOp, 0xffff_ffff, 1));
    assert_eq!(Ok(0xffff_ffff), apply_binary(BinOp::MinusOp, 0, 1));
}

#[test]
fn same_tier_chains_stay_flat() {
    let tree = parse("abc + abc + abc").unwrap();
    assert_eq!(369, tree.eval_u32(abc).unwrap());
    match &tree {
        Operand::Expr(b) => {
            assert!(matches!(b.first, Operand::Var(_)));
            assert_eq!(2, b.rest.len());
            assert!(b.rest.iter().all(|s| matches!(s.operand, Operand::Var(_))));
        }
        _ => panic!("expected one chain"),
    }
    assert_eq!("(abc+abc+abc)", tree.to_string());
}

#[test]
fn a_new_tier_nests_the_chain() {
    let sum = Operand::unsigned(1).plus(Operand::unsigned(2));
    let product = sum.times(Operand::unsigned(3));
    match &product {
        Operand::Expr(b) => {
            assert_eq!(1, b.rest.len());
            assert_eq!(BinOp::TimesOp, b.rest[0].operator);
            assert!(matches!(&b.first, Operand::Expr(inner) if inner.rest.len() == 1));
        }
        _ => panic!("expected a chain"),
    }
    assert_eq!(9, product.eval_u32(no_names).unwrap());
    assert_eq!("((1+2)*3)", product.to_string());
    let tree = parse("1 + 2 * 3").unwrap();
    assert_eq!("(1+(2*3))", tree.to_string());
    assert_eq!(7, tree.eval_u32(no_names).unwrap());
}

#[test]
fn escapes_in_literals() {
    assert_eq!(0x0a, parse_char(Span::new(r"'\n'")).unwrap().1);
    assert_eq!(vec![0x41, 0x00], parse_string(Span::new(r#""\x41""#)).unwrap().1);
    assert_eq!(vec![0x00], parse_string(Span::new(r#""""#)).unwrap().1);
    assert!(parse_char(Span::new("''")).is_err());
    assert!(parse_char(Span::new("'ab'")).is_err());
    assert!(parse_char(Span::new("'é'")).is_err());
    assert!(parse_string(Span::new("\"é\"")).is_err());
    assert_eq!(0xff, parse_char(Span::new(r"'\xff'")).unwrap().1);
    assert!(parse_string(Span::new(r#""\xff""#)).is_err());
    match parse_char(Span::new(r"'\q'")).unwrap_err() {
        ParseErr::Failure(e) => assert_eq!(ErrorKind::InvalidCharacterEscape, e.kind),
        other => panic!("expected a hard failure, got {:?}", other),
    }
    match parse_string(Span::new("\"ab\ncd\"")).unwrap_err() {
        ParseErr::Failure(e) => assert_eq!(ErrorKind::Default(GrammarKind::Complete), e.kind),
        other => panic!("expected a hard failure, got {:?}", other),
    }
    match parse_char(Span::new("x")).unwrap_err() {
        ParseErr::Error(e) => assert_eq!(ErrorKind::Default(GrammarKind::Char), e.kind),
        other => panic!("expected a recoverable error, got {:?}", other),
    }
}

#[test]
fn canonical_forms_parse_back() {
    for i in 0..32u32 {
        let reg = Reg::new(i);
        assert_eq!(Ok(reg), Reg::from_name(&reg.to_string()));
        let fp = FpReg::new(i);
        assert_eq!(Ok(fp), FpReg::from_name(&fp.to_string()));
    }
    assert_eq!(Err(ErrorKind::InvalidRegister), Reg::from_name("$32"));
    assert_eq!(Err(ErrorKind::InvalidRegister), Reg::from_name("$01"));
    assert_eq!(Err(ErrorKind::InvalidRegister), FpReg::from_name("$f32"));
    for n in [0u32, 9, 10, 12345, u32::MAX].iter() {
        let text = Operand::unsigned(*n).to_string();
        assert_eq!(format!("{}", n), text);
        assert_eq!(*n, parse(&text).unwrap().eval_u32(no_names).unwrap());
        assert_eq!(format!("{}", n), decimal_string(*n));
    }
}

#[test]
fn operator_symbols() {
    for op in [BinOp::TimesOp, BinOp::DivideOp, BinOp::PlusOp, BinOp::MinusOp, BinOp::BitAndOp, BinOp::BitOrOp].iter() {
        assert_eq!(Ok(*op), op.to_string().parse::<BinOp>());
    }
    for op in [MonOp::PosOp, MonOp::NegOp, MonOp::BitNotOp].iter() {
        assert_eq!(Ok(*op), op.to_string().parse::<MonOp>());
    }
    assert_eq!(Err(()), "**".parse::<BinOp>());
    assert_eq!("~x", Operand::var("x").complement().to_string());
}

#[test]
fn parse_reports_where_it_stopped() {
    let err = parse("1 2").unwrap_err();
    assert_eq!(ErrorKind::Default(GrammarKind::Eof), err.kind);
    assert_eq!(2, err.input.location_offset());
    assert!(parse("(0b10101 | 0b1010").is_err());
    assert!(parse("2 ** -1").is_err());
    assert!(parse("2 ++ -1").is_err());
    assert!(parse("$s0").is_err());
    let (rest, value) = expr(Span::new("4 * 5, 6")).unwrap();
    assert_eq!(", 6", rest.fragment());
    assert_eq!(20, value.eval_u32(no_names).unwrap());
}

#[test]
fn spans_track_lines_and_columns() {
    let (after, n) = space0(Span::new("  \tx"));
    assert_eq!(3, n);
    assert_eq!("x", after.fragment());
    assert_eq!(4, after.get_column());
    let s = Span::new("a\nbc");
    let t = s.advance(3);
    assert_eq!(2, t.location_line());
    assert_eq!(2, t.get_column());
    assert_eq!(3, t.location_offset());
    assert_eq!("c", t.fragment());
}

#[test]
fn errors_change_kind_at_a_boundary() {
    let input = Span::new("abc");
    let soft = ParseErr::Error(MIPSLangError::from_error_kind(input, ErrorKind::Default(GrammarKind::Tag)));
    match soft.change_error_kind(ErrorKind::InvalidRegister) {
        ParseErr::Error(e) => {
            assert_eq!(ErrorKind::InvalidRegister, e.kind);
            assert_eq!("abc", e.input.fragment());
        }
        _ => panic!("kind of failure changed"),
    }
    let hard = ParseErr::Failure(MIPSLangError::from_error_kind(input, ErrorKind::InvalidHexString));
    match hard.change_error_kind(ErrorKind::InvalidRegister) {
        ParseErr::Failure(e) => assert_eq!(ErrorKind::InvalidHexString, e.kind),
        _ => panic!("kind of failure changed"),
    }
    let first = MIPSLangError::from_error_kind(input, ErrorKind::InvalidCharacterEscape);
    let kept = MIPSLangError::append(input.advance(1), ErrorKind::InvalidRegister, first);
    assert_eq!(ErrorKind::InvalidCharacterEscape, kept.kind);
    assert_eq!(0, kept.input.location_offset());
}

#[test]
fn signed_reinterpretation() {
    assert_eq!(-1, 0xffff_ffffu32.to_i32());
    assert_eq!(0xffff_fffe, (-2i32).to_u32());
    assert_eq!(i32::MIN, 0x8000_0000u32.to_i32());
    assert_eq!(0x7fff_ffff, i32::MAX.to_u32());
    assert_eq!(Operand::signed(-1).eval_u32(no_names), Operand::unsigned(u32::MAX).eval_u32(no_names));
}

#[test]
fn operator_methods_build_chains() {
    let e = Operand::unsigned(12)
        .bit_and(Operand::unsigned(10))
        .bit_or(Operand::unsigned(1))
        .minus(Operand::unsigned(3));
    assert_eq!("(((12&10)|1)-3)", e.to_string());
    assert_eq!(6, e.eval_u32(no_names).unwrap());
    let d = Operand::signed(-9).divide(Operand::unsigned(2)).negative().positive();
    assert_eq!("-(4294967287/2)", d.to_string());
    assert_eq!(4, d.eval_i32(no_names).unwrap());
}
